//! A ranking that a search system returned, held against the judgments.

use vstd::prelude::*;
use crate::domain::entries::lemma_map_values_same_entries;
use crate::domain::gain::ZERO_BITS;
use crate::domain::index::texts;
use crate::domain::judgment::{documents_of, Judgment};
use crate::domain::label::{lemma_gain_index_keys, lemma_gain_index_last_wins, LabelView, Labels};

verus! {

/// The rankings returned for a set of queries.
#[derive(Debug, PartialEq)]
pub struct SearchResults {
    pub list: Vec<SearchResult>,
}

/// The ranking returned for one query: its documents, the best first.
#[derive(Debug, PartialEq)]
pub struct SearchResult {
    pub query_id: String,
    pub document_ids: Vec<String>,
}

/// What a ranking is scored from. Each field holds gains rank by rank; the
/// score that belongs to it is the sum of those gains, each weighted by the
/// discount of its rank. `ideal_gains` is the best that any ranking could
/// collect for the query, `gains` is what the returned ranking collected.
#[derive(Debug, PartialEq)]
pub struct EvaluationResult {
    pub ideal_gains: Vec<u64>,
    pub gains: Vec<u64>,
}

/// The gain that a document collects under a label: the one on record, or
/// zero if nobody judged the document.
pub open spec fn collected_gain(document: Seq<char>, label: LabelView) -> u64 {
    match label.gain_of(document) {
        Some(gain) => gain,
        None => ZERO_BITS,
    }
}

/// The gains that a ranking collects under a label, rank by rank.
pub open spec fn collected_gains(documents: Seq<Seq<char>>, label: LabelView) -> Seq<u64> {
    Seq::new(documents.len(), |rank: int| collected_gain(documents[rank], label))
}

impl SearchResult {
    /// Holds the ranking against the judgments of its query. With no label on
    /// record for the query nothing is collected, and nothing could be: both
    /// sequences are empty. Else the ideal gains are those of the label, and
    /// each document collects the gain on record for it, an unjudged one zero.
    pub fn evaluate(&self, labels: &Labels) -> (result: EvaluationResult)
        ensures
            !labels@.contains_key(self.query_id@) ==> result.ideal_gains@.len() == 0
                && result.gains@.len() == 0,
            labels@.contains_key(self.query_id@) ==> result.ideal_gains@
                == labels@[self.query_id@].ideal_gains() && result.gains@ == collected_gains(
                texts(self.document_ids@),
                labels@[self.query_id@],
            ),
    {
        match labels.get(self.query_id.as_str()) {
            None => EvaluationResult { ideal_gains: Vec::new(), gains: Vec::new() },
            Some(label) => {
                let ghost documents = texts(self.document_ids@);
                let mut gains: Vec<u64> = Vec::new();
                let mut rank: usize = 0;
                while rank < self.document_ids.len()
                    invariant
                        rank <= self.document_ids@.len(),
                        documents == texts(self.document_ids@),
                        gains@ == collected_gains(documents, label@).take(rank as int),
                    decreases self.document_ids@.len() - rank,
                {
                    let gain = match label.get_gain(self.document_ids[rank].as_str()) {
                        Some(gain) => gain,
                        None => ZERO_BITS,
                    };
                    gains.push(gain);
                    proof {
                        assert(gains@ =~= collected_gains(documents, label@).take(rank + 1));
                    }
                    rank += 1;
                }
                proof {
                    assert(collected_gains(documents, label@).take(rank as int)
                        =~= collected_gains(documents, label@));
                }
                EvaluationResult { ideal_gains: label.gains(), gains }
            },
        }
    }
}

/// No document is named by two entries.
pub open spec fn judged_once(entries: Seq<Judgment>) -> bool {
    forall|i: int, j: int|
        0 <= i < j < entries.len() ==> (#[trigger] entries[i]).document != (#[trigger] entries[j]).document
}

/// Every entry of the label has on record, for its document, its own gain.
pub open spec fn every_gain_on_record(label: LabelView) -> bool {
    forall|i: int|
        0 <= i < label.ideal.len() ==> label.gain_of((#[trigger] label.ideal[i]).document) == Some(
            label.ideal[i].gain,
        )
}

/// Where no document is judged twice, every entry has its own gain on record.
pub proof fn lemma_judged_once_on_record(label: LabelView)
    requires
        judged_once(label.ideal),
    ensures
        every_gain_on_record(label),
{
    assert forall|i: int| 0 <= i < label.ideal.len() implies label.gain_of(
        (#[trigger] label.ideal[i]).document,
    ) == Some(label.ideal[i].gain) by {
        assert forall|m: int| i < m < label.ideal.len() implies (#[trigger] label.ideal[m]).document
            != label.ideal[i].document by {
            assert(label.ideal[i].document != label.ideal[m].document);
        }
        lemma_gain_index_last_wins(label.ideal, i);
    }
}

/// A ranking that returns the judged documents in ideal order collects the
/// ideal gains, and so scores the ideal score, exactly if every entry has its
/// own gain on record (as it has where no document is judged twice).
pub proof fn lemma_ideal_order_collects_ideal_gains(label: LabelView)
    ensures
        every_gain_on_record(label) <==> collected_gains(documents_of(label.ideal), label)
            == label.ideal_gains(),
{
    let collected = collected_gains(documents_of(label.ideal), label);
    let ideal = label.ideal_gains();
    assert forall|i: int| 0 <= i < label.ideal.len() implies (collected[i] == ideal[i]
        <==> label.gain_of((#[trigger] label.ideal[i]).document) == Some(label.ideal[i].gain)) by {
        lemma_gain_index_keys(label.ideal, label.ideal[i].document);
    }
    if every_gain_on_record(label) {
        assert(collected =~= ideal);
    }
    if collected == ideal {
        assert forall|i: int| 0 <= i < label.ideal.len() implies label.gain_of(
            (#[trigger] label.ideal[i]).document,
        ) == Some(label.ideal[i].gain) by {
            assert(collected[i] == ideal[i]);
        }
    }
}

/// Two rankings of the same documents collect the same gains, each as often
/// as the other: only the ranks at which they are collected differ.
pub proof fn lemma_same_documents_same_gains(a: Seq<Seq<char>>, b: Seq<Seq<char>>, label: LabelView)
    requires
        a.to_multiset() == b.to_multiset(),
    ensures
        collected_gains(a, label).to_multiset() == collected_gains(b, label).to_multiset(),
{
    let collect = |document: Seq<char>| collected_gain(document, label);
    lemma_map_values_same_entries(a, b, collect);
    assert(collected_gains(a, label) =~= a.map_values(collect));
    assert(collected_gains(b, label) =~= b.map_values(collect));
}

} // verus!
