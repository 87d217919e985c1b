//! The judgments of one query in ideal order, and the judgments of all queries.

use vstd::prelude::*;
use crate::domain::index::{texts, NameIndex};
use crate::domain::judgment::{documents_of, judgments, IdealResult, Judgment};
use crate::domain::ranking::{descending, is_ranking_of, lemma_ranking_order_invariant, rank_by_gain, ties_are_copies};

verus! {

/// The gain on record for each document: the entries are entered one after the
/// other, so of two entries for one document the later one stays.
pub open spec fn gain_index(entries: Seq<Judgment>) -> Map<Seq<char>, u64>
    decreases entries.len(),
{
    if entries.len() == 0 {
        Map::empty()
    } else {
        gain_index(entries.drop_last()).insert(entries.last().document, entries.last().gain)
    }
}

/// The gains of the entries, in their order.
pub open spec fn gains_of(entries: Seq<Judgment>) -> Seq<u64> {
    entries.map_values(|j: Judgment| j.gain)
}

/// A document is on record exactly if some entry names it.
pub proof fn lemma_gain_index_keys(entries: Seq<Judgment>, document: Seq<char>)
    ensures
        gain_index(entries).contains_key(document) <==> exists|i: int|
            0 <= i < entries.len() && (#[trigger] entries[i]).document == document,
    decreases entries.len(),
{
    if entries.len() > 0 {
        let front = entries.drop_last();
        lemma_gain_index_keys(front, document);
        if gain_index(entries).contains_key(document) {
            if entries.last().document == document {
                assert(entries[entries.len() - 1].document == document);
            } else {
                let i = choose|i: int| 0 <= i < front.len() && (#[trigger] front[i]).document == document;
                assert(entries[i].document == document);
            }
        }
        if exists|i: int| 0 <= i < entries.len() && (#[trigger] entries[i]).document == document {
            let i = choose|i: int| 0 <= i < entries.len() && (#[trigger] entries[i]).document == document;
            if i < front.len() {
                assert(front[i].document == document);
            }
        }
    }
}

/// The gain on record for a document is that of the last entry that names it.
pub proof fn lemma_gain_index_last_wins(entries: Seq<Judgment>, i: int)
    requires
        0 <= i < entries.len(),
        forall|m: int| i < m < entries.len() ==> (#[trigger] entries[m]).document != entries[i].document,
    ensures
        gain_index(entries).contains_key(entries[i].document),
        gain_index(entries)[entries[i].document] == entries[i].gain,
    decreases entries.len(),
{
    if i < entries.len() - 1 {
        let front = entries.drop_last();
        assert(entries[entries.len() - 1].document != entries[i].document);
        assert forall|m: int| i < m < front.len() implies (#[trigger] front[m]).document != front[i].document by {
            assert(entries[m].document != entries[i].document);
        }
        lemma_gain_index_last_wins(front, i);
    }
}

/// The judgments of one query: its name, its judged documents in ideal
/// order, and where in that order each document stands. Made once, never
/// changed.
#[derive(Debug, PartialEq)]
pub struct Label {
    query_id: String,
    ideal_results: Vec<IdealResult>,
    ideal_result_map: NameIndex,
}

/// What a [`Label`] says: the query's name and the judgments in ideal order.
pub struct LabelView {
    pub query: Seq<char>,
    pub ideal: Seq<Judgment>,
}

impl LabelView {
    /// The gain on record for each judged document.
    pub open spec fn gain_index(self) -> Map<Seq<char>, u64> {
        gain_index(self.ideal)
    }

    /// The gain on record for `document`, if it was judged.
    pub open spec fn gain_of(self, document: Seq<char>) -> Option<u64> {
        if self.gain_index().contains_key(document) {
            Some(self.gain_index()[document])
        } else {
            None
        }
    }

    /// The gains in ideal order.
    pub open spec fn ideal_gains(self) -> Seq<u64> {
        gains_of(self.ideal)
    }
}

impl View for Label {
    type V = LabelView;

    closed spec fn view(&self) -> LabelView {
        LabelView { query: self.query_id@, ideal: judgments(self.ideal_results@) }
    }
}

impl Clone for Label {
    /// A second label that says the same.
    fn clone(&self) -> (label: Label)
        ensures
            label@ == self@,
    {
        proof {
            use_type_invariant(self);
        }
        let mut copies: Vec<IdealResult> = Vec::new();
        let mut i: usize = 0;
        while i < self.ideal_results.len()
            invariant
                i <= self.ideal_results@.len(),
                judgments(copies@) == judgments(self.ideal_results@).take(i as int),
            decreases self.ideal_results@.len() - i,
        {
            let copy = self.ideal_results[i].duplicate();
            let ghost before = judgments(copies@);
            copies.push(copy);
            proof {
                assert(judgments(copies@) =~= before.push(copy@));
                assert(before.push(copy@) =~= judgments(self.ideal_results@).take(i + 1));
            }
            i += 1;
        }
        proof {
            assert(judgments(self.ideal_results@).take(i as int) =~= judgments(self.ideal_results@));
        }
        Label {
            query_id: self.query_id.clone(),
            ideal_results: copies,
            ideal_result_map: self.ideal_result_map.clone(),
        }
    }
}

impl Label {
    #[verifier::type_invariant]
    spec fn in_ideal_order_and_indexed(&self) -> bool {
        &&& descending(judgments(self.ideal_results@))
        &&& self.ideal_result_map@ == documents_of(judgments(self.ideal_results@))
    }

    /// The label of `query_id` from its judgments, given in any order. The
    /// label holds them in ideal order.
    pub fn new(query_id: String, ideal_results: Vec<IdealResult>) -> (label: Label)
        ensures
            label@.query == query_id@,
            is_ranking_of(label@.ideal, judgments(ideal_results@)),
    {
        let ranked = rank_by_gain(ideal_results);
        let mut documents: Vec<String> = Vec::new();
        let mut i: usize = 0;
        while i < ranked.len()
            invariant
                i <= ranked@.len(),
                texts(documents@) == documents_of(judgments(ranked@)).take(i as int),
            decreases ranked@.len() - i,
        {
            let ghost before = texts(documents@);
            documents.push(ranked[i].document_id.clone());
            proof {
                assert(texts(documents@) =~= before.push(ranked@[i as int].document_id@));
                assert(before.push(ranked@[i as int].document_id@) =~= documents_of(
                    judgments(ranked@),
                ).take(i + 1));
            }
            i += 1;
        }
        proof {
            assert(documents_of(judgments(ranked@)).take(i as int) =~= documents_of(
                judgments(ranked@),
            ));
        }
        let ideal_result_map = NameIndex::new(documents);
        Label { query_id, ideal_results: ranked, ideal_result_map }
    }

    /// The name of the query.
    pub fn query_id(&self) -> (name: &str)
        ensures
            name@ == self@.query,
    {
        self.query_id.as_str()
    }

    /// The judgments in ideal order.
    pub fn ideal_results(&self) -> (results: &Vec<IdealResult>)
        ensures
            judgments(results@) == self@.ideal,
            descending(self@.ideal),
    {
        proof {
            use_type_invariant(self);
        }
        &self.ideal_results
    }

    /// The gain on record for a document, or nothing if it was not judged.
    pub fn get_gain(&self, document_id: &str) -> (gain: Option<u64>)
        ensures
            gain == self@.gain_of(document_id@),
    {
        proof {
            use_type_invariant(self);
        }
        let ghost entries = judgments(self.ideal_results@);
        match self.ideal_result_map.position(document_id) {
            None => {
                proof {
                    assert forall|i: int| 0 <= i < entries.len() implies (#[trigger] entries[i]).document
                        != document_id@ by {
                        assert(documents_of(entries)[i] != document_id@);
                    }
                    lemma_gain_index_keys(entries, document_id@);
                }
                None
            },
            Some(i) => {
                proof {
                    assert(documents_of(entries)[i as int] == document_id@);
                    assert forall|m: int| i < m < entries.len() implies (#[trigger] entries[m]).document
                        != entries[i as int].document by {
                        assert(documents_of(entries)[m] != document_id@);
                    }
                    lemma_gain_index_last_wins(entries, i as int);
                }
                Some(self.ideal_results[i].impairment_gain)
            },
        }
    }

    /// The gains in ideal order: what the ideal score of the query is summed from.
    pub fn gains(&self) -> (gains: Vec<u64>)
        ensures
            gains@ == self@.ideal_gains(),
            descending(self@.ideal),
    {
        proof {
            use_type_invariant(self);
        }
        let mut gains: Vec<u64> = Vec::new();
        let mut i: usize = 0;
        while i < self.ideal_results.len()
            invariant
                i <= self.ideal_results@.len(),
                gains@ == gains_of(judgments(self.ideal_results@)).take(i as int),
            decreases self.ideal_results@.len() - i,
        {
            gains.push(self.ideal_results[i].impairment_gain);
            proof {
                let all = gains_of(judgments(self.ideal_results@));
                assert(gains@ =~= all.take(i + 1));
            }
            i += 1;
        }
        proof {
            let all = gains_of(judgments(self.ideal_results@));
            assert(all.take(i as int) =~= all);
        }
        gains
    }
}

/// A label does not depend on the order in which its judgments are given:
/// labels made from lists with the same entries, in which no two different
/// entries tie, hold the same ideal order, the same ideal gains and the same
/// gains on record.
pub proof fn lemma_label_order_invariant(
    given_a: Seq<Judgment>,
    given_b: Seq<Judgment>,
    label_a: LabelView,
    label_b: LabelView,
)
    requires
        given_a.to_multiset() == given_b.to_multiset(),
        ties_are_copies(given_a),
        is_ranking_of(label_a.ideal, given_a),
        is_ranking_of(label_b.ideal, given_b),
    ensures
        label_a.ideal == label_b.ideal,
        label_a.ideal_gains() == label_b.ideal_gains(),
        label_a.gain_index() == label_b.gain_index(),
{
    lemma_ranking_order_invariant(given_a, given_b, label_a.ideal, label_b.ideal);
}

/// What a list of labels says, label by label.
pub open spec fn label_views(labels: Seq<Label>) -> Seq<LabelView> {
    labels.map_values(|l: Label| l@)
}

/// The label on record for each query: the labels are entered one after the
/// other, so of two labels for one query the later one stays.
pub open spec fn label_index(labels: Seq<LabelView>) -> Map<Seq<char>, LabelView>
    decreases labels.len(),
{
    if labels.len() == 0 {
        Map::empty()
    } else {
        label_index(labels.drop_last()).insert(labels.last().query, labels.last())
    }
}

/// A query is on record exactly if some label is for it.
pub proof fn lemma_label_index_keys(labels: Seq<LabelView>, query: Seq<char>)
    ensures
        label_index(labels).contains_key(query) <==> exists|i: int|
            0 <= i < labels.len() && (#[trigger] labels[i]).query == query,
    decreases labels.len(),
{
    if labels.len() > 0 {
        let front = labels.drop_last();
        lemma_label_index_keys(front, query);
        if label_index(labels).contains_key(query) {
            if labels.last().query == query {
                assert(labels[labels.len() - 1].query == query);
            } else {
                let i = choose|i: int| 0 <= i < front.len() && (#[trigger] front[i]).query == query;
                assert(labels[i].query == query);
            }
        }
        if exists|i: int| 0 <= i < labels.len() && (#[trigger] labels[i]).query == query {
            let i = choose|i: int| 0 <= i < labels.len() && (#[trigger] labels[i]).query == query;
            if i < front.len() {
                assert(front[i].query == query);
            }
        }
    }
}

/// The label on record for a query is the last one that is for it.
pub proof fn lemma_label_index_last_wins(labels: Seq<LabelView>, i: int)
    requires
        0 <= i < labels.len(),
        forall|m: int| i < m < labels.len() ==> (#[trigger] labels[m]).query != labels[i].query,
    ensures
        label_index(labels).contains_key(labels[i].query),
        label_index(labels)[labels[i].query] == labels[i],
    decreases labels.len(),
{
    if i < labels.len() - 1 {
        let front = labels.drop_last();
        assert(labels[labels.len() - 1].query != labels[i].query);
        assert forall|m: int| i < m < front.len() implies (#[trigger] front[m]).query != front[i].query by {
            assert(labels[m].query != labels[i].query);
        }
        lemma_label_index_last_wins(front, i);
    }
}

/// The queries that the labels are for, in their order.
pub open spec fn queries_of(labels: Seq<LabelView>) -> Seq<Seq<char>> {
    labels.map_values(|l: LabelView| l.query)
}

/// The judgments of all queries, to be asked by a query's name.
#[derive(Debug)]
pub struct Labels {
    list: Vec<Label>,
    map: NameIndex,
}

impl View for Labels {
    type V = Map<Seq<char>, LabelView>;

    closed spec fn view(&self) -> Map<Seq<char>, LabelView> {
        label_index(label_views(self.list@))
    }
}

impl Labels {
    #[verifier::type_invariant]
    spec fn indexed(&self) -> bool {
        self.map@ == queries_of(label_views(self.list@))
    }

    /// The labels on record by query. Of two labels for one query the one
    /// that comes later in `list` is kept on record.
    pub fn new(list: Vec<Label>) -> (labels: Labels)
        ensures
            labels@ == label_index(label_views(list@)),
    {
        let mut queries: Vec<String> = Vec::new();
        let mut i: usize = 0;
        while i < list.len()
            invariant
                i <= list@.len(),
                texts(queries@) == queries_of(label_views(list@)).take(i as int),
            decreases list@.len() - i,
        {
            let ghost before = texts(queries@);
            let query = list[i].query_id.clone();
            queries.push(query);
            proof {
                assert(texts(queries@) =~= before.push(query@));
                assert(before.push(query@) =~= queries_of(label_views(list@)).take(i + 1));
            }
            i += 1;
        }
        proof {
            assert(queries_of(label_views(list@)).take(i as int) =~= queries_of(label_views(list@)));
        }
        let map = NameIndex::new(queries);
        Labels { list, map }
    }

    /// The label on record for a query, or nothing if it has none.
    pub fn get(&self, query_id: &str) -> (label: Option<&Label>)
        ensures
            match label {
                Some(found) => self@.contains_key(query_id@) && self@[query_id@] == found@,
                None => !self@.contains_key(query_id@),
            },
    {
        proof {
            use_type_invariant(self);
        }
        let ghost views = label_views(self.list@);
        match self.map.position(query_id) {
            None => {
                proof {
                    assert forall|i: int| 0 <= i < views.len() implies (#[trigger] views[i]).query
                        != query_id@ by {
                        assert(queries_of(views)[i] != query_id@);
                    }
                    lemma_label_index_keys(views, query_id@);
                }
                None
            },
            Some(i) => {
                proof {
                    assert(queries_of(views)[i as int] == query_id@);
                    assert forall|m: int| i < m < views.len() implies (#[trigger] views[m]).query
                        != views[i as int].query by {
                        assert(queries_of(views)[m] != query_id@);
                    }
                    lemma_label_index_last_wins(views, i as int);
                }
                Some(&self.list[i])
            },
        }
    }
}

} // verus!
