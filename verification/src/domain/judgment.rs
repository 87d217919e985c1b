//! One judged document: the pair of a document and its gain.

use vstd::prelude::*;

verus! {

/// A document and the gain that a judge gave it for one query. The gain is the
/// bit pattern of a binary64 number (see the module `gain`).
#[derive(Debug, PartialEq, Clone)]
pub struct IdealResult {
    pub document_id: String,
    pub impairment_gain: u64,
}

/// What an [`IdealResult`] says: the document's name as characters, and the gain.
pub struct Judgment {
    pub document: Seq<char>,
    pub gain: u64,
}

impl View for IdealResult {
    type V = Judgment;

    open spec fn view(&self) -> Judgment {
        Judgment { document: self.document_id@, gain: self.impairment_gain }
    }
}

/// What a list of results says, entry by entry.
pub open spec fn judgments(results: Seq<IdealResult>) -> Seq<Judgment> {
    results.map_values(|r: IdealResult| r@)
}

/// The documents that the entries name, in their order.
pub open spec fn documents_of(entries: Seq<Judgment>) -> Seq<Seq<char>> {
    entries.map_values(|j: Judgment| j.document)
}

impl IdealResult {
    /// A result for `document_id` with the gain `impairment_gain`.
    pub fn new(document_id: String, impairment_gain: u64) -> (r: IdealResult)
        ensures
            r@ == (Judgment { document: document_id@, gain: impairment_gain }),
    {
        IdealResult { document_id, impairment_gain }
    }

    /// A second result that says the same.
    pub fn duplicate(&self) -> (r: IdealResult)
        ensures
            r@ == self@,
    {
        IdealResult {
            document_id: self.document_id.clone(),
            impairment_gain: self.impairment_gain,
        }
    }
}

} // verus!
