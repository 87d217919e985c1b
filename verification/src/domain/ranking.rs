//! The ideal order of a query's judgments: by gain, the largest first, ties in
//! the order in which they came.

use vstd::prelude::*;
use vstd::seq_lib::*;
use crate::domain::entries::{falling, lemma_falling_lists_agree, lemma_map_values_same_entries};
use crate::domain::gain::{gain_eq, gain_lt, is_nan, less_than, order_key};
use crate::domain::judgment::{judgments, IdealResult, Judgment};

verus! {

/// No entry is followed directly by one with a strictly larger gain.
pub open spec fn descending(s: Seq<Judgment>) -> bool {
    forall|i: int| 0 <= i < s.len() - 1 ==> !gain_lt(#[trigger] s[i].gain, s[i + 1].gain)
}

/// No entry has anywhere behind it one with a strictly larger gain.
pub open spec fn descending_throughout(s: Seq<Judgment>) -> bool {
    forall|i: int, j: int| 0 <= i < j < s.len() ==> !gain_lt(#[trigger] s[i].gain, #[trigger] s[j].gain)
}

/// Every gain is a number.
pub open spec fn all_numbers(s: Seq<Judgment>) -> bool {
    forall|i: int| 0 <= i < s.len() ==> !is_nan(#[trigger] s[i].gain)
}

/// The test that picks the entries whose gain is the same number as `g`.
pub open spec fn tied_with(g: u64) -> spec_fn(Judgment) -> bool {
    |j: Judgment| gain_eq(j.gain, g)
}

/// `ranked` is `given` in ideal order: the same entries, each as often as
/// before; none directly followed by a larger gain; and the entries of one and
/// the same gain in the order they had in `given`.
pub open spec fn is_ranking_of(ranked: Seq<Judgment>, given: Seq<Judgment>) -> bool {
    &&& ranked.to_multiset() == given.to_multiset()
    &&& descending(ranked)
    &&& forall|g: u64| #[trigger] ranked.filter(tied_with(g)) == given.filter(tied_with(g))
}

/// Moving an entry forward over entries with strictly smaller gains keeps the
/// entries, and keeps the order among those of any one gain.
proof fn lemma_move_forward(s: Seq<Judgment>, k: int, i: int)
    requires
        0 <= k <= i < s.len(),
        forall|m: int| k <= m < i ==> gain_lt(#[trigger] s[m].gain, s[i].gain),
    ensures
        s.remove(i).insert(k, s[i]).to_multiset() == s.to_multiset(),
        forall|g: u64| #[trigger]
            s.remove(i).insert(k, s[i]).filter(tied_with(g)) == s.filter(tied_with(g)),
{
    let x = s[i];
    let t = s.remove(i).insert(k, x);
    broadcast use {to_multiset_remove, to_multiset_insert};
    assert(s.remove(i).to_multiset().insert(x) =~= s.to_multiset()) by {
        broadcast use vstd::multiset::group_multiset_axioms;
        broadcast use to_multiset_contains;
        assert(s.contains(x));
    }
    let head = s.subrange(0, k);
    let passed = s.subrange(k, i);
    let tail = s.subrange(i + 1, s.len() as int);
    assert(s =~= head + passed + seq![x] + tail);
    assert(t =~= head + seq![x] + passed + tail);
    assert forall|g: u64| #[trigger] t.filter(tied_with(g)) == s.filter(tied_with(g)) by {
        let p = tied_with(g);
        broadcast use Seq::filter_distributes_over_add;
        if p(x) {
            assert(passed.all(|y: Judgment| !p(y))) by {
                assert forall|m: int| 0 <= m < passed.len() implies !p(#[trigger] passed[m]) by {
                    assert(gain_lt(s[k + m].gain, x.gain));
                }
            }
            passed.lemma_all_neg_filter_empty(p);
            assert(passed.filter(p) =~= Seq::<Judgment>::empty());
            assert(passed.filter(p) + seq![x].filter(p) =~= seq![x].filter(p) + passed.filter(p));
        } else {
            assert(seq![x].all(|y: Judgment| !p(y)));
            seq![x].lemma_all_neg_filter_empty(p);
            assert(seq![x].filter(p) =~= Seq::<Judgment>::empty());
            assert(passed.filter(p) + seq![x].filter(p) =~= seq![x].filter(p) + passed.filter(p));
        }
        assert(s.filter(p) == head.filter(p) + passed.filter(p) + seq![x].filter(p) + tail.filter(p));
        assert(t.filter(p) == head.filter(p) + seq![x].filter(p) + passed.filter(p) + tail.filter(p));
        assert(head.filter(p) + passed.filter(p) + seq![x].filter(p) =~= head.filter(p) + (passed.filter(p) + seq![x].filter(p)));
        assert(head.filter(p) + seq![x].filter(p) + passed.filter(p) =~= head.filter(p) + (seq![x].filter(p) + passed.filter(p)));
    }
}

/// Puts the results in ideal order: the largest gain first, results of the
/// same gain in the order given. A gain that is no number is ordered with
/// nothing: it is taken for the equal of whatever it is compared to.
pub fn rank_by_gain(results: Vec<IdealResult>) -> (ranked: Vec<IdealResult>)
    ensures
        is_ranking_of(judgments(ranked@), judgments(results@)),
{
    let mut v = results;
    let mut i: usize = 0;
    while i < v.len()
        invariant
            i <= v.len(),
            v@.len() == results@.len(),
            judgments(v@).to_multiset() == judgments(results@).to_multiset(),
            descending(judgments(v@).take(i as int)),
            forall|g: u64| #[trigger]
                judgments(v@).filter(tied_with(g)) == judgments(results@).filter(tied_with(g)),
        decreases v.len() - i,
    {
        let gain = v[i].impairment_gain;
        let mut k: usize = i;
        while k > 0 && less_than(v[k - 1].impairment_gain, gain)
            invariant
                k <= i < v.len(),
                gain == v@[i as int].impairment_gain,
                forall|m: int| k <= m < i ==> gain_lt(#[trigger] v@[m].impairment_gain, gain),
            decreases k,
        {
            k -= 1;
        }
        let ghost before = judgments(v@);
        let moved = v.remove(i);
        v.insert(k, moved);
        proof {
            let after = judgments(v@);
            assert(after =~= before.remove(i as int).insert(k as int, before[i as int]));
            assert forall|m: int| k <= m < i implies gain_lt(#[trigger] before[m].gain, before[i as int].gain) by {}
            lemma_move_forward(before, k as int, i as int);
            assert forall|m: int| 0 <= m < i implies !gain_lt(
                #[trigger] after.take(i + 1)[m].gain,
                after.take(i + 1)[m + 1].gain,
            ) by {
                if m + 1 < k {
                    assert(after[m] == before.take(i as int)[m]);
                    assert(after[m + 1] == before.take(i as int)[m + 1]);
                } else if m + 1 == k {
                    assert(after[m] == before[m]);
                    assert(after[m + 1] == before[i as int]);
                } else if m == k {
                    assert(after[m] == before[i as int]);
                    assert(after[m + 1] == before[m]);
                } else {
                    assert(after[m] == before.take(i as int)[m - 1]);
                    assert(after[m + 1] == before.take(i as int)[m]);
                }
            }
        }
        i += 1;
    }
    proof {
        assert(judgments(v@).take(i as int) =~= judgments(v@));
    }
    v
}

/// Any two entries are one and the same entry, or one of them has the
/// strictly larger gain: no two different entries tie.
pub open spec fn ties_are_copies(s: Seq<Judgment>) -> bool {
    forall|i: int, j: int|
        0 <= i < s.len() && 0 <= j < s.len() ==> #[trigger] s[i] == #[trigger] s[j] || gain_lt(
            s[i].gain,
            s[j].gain,
        ) || gain_lt(s[j].gain, s[i].gain)
}

/// Of any two entries the later is a copy of the earlier or has the strictly
/// smaller gain.
pub open spec fn falls_or_repeats(s: Seq<Judgment>) -> bool {
    forall|i: int, j: int|
        0 <= i < j < s.len() ==> #[trigger] s[i] == #[trigger] s[j] || gain_lt(s[j].gain, s[i].gain)
}

/// Where every gain is a number, a ranking that never rises from one entry
/// to the next never rises from an entry to any later one.
pub proof fn lemma_descending_throughout(s: Seq<Judgment>)
    requires
        descending(s),
        all_numbers(s),
    ensures
        descending_throughout(s),
    decreases s.len(),
{
    if s.len() >= 2 {
        let front = s.drop_last();
        let n = s.len() - 1;
        assert(descending(front)) by {
            assert forall|i: int| 0 <= i < front.len() - 1 implies !gain_lt(
                #[trigger] front[i].gain,
                front[i + 1].gain,
            ) by {
                assert(!gain_lt(s[i].gain, s[i + 1].gain));
            }
        }
        assert(all_numbers(front)) by {
            assert forall|i: int| 0 <= i < front.len() implies !is_nan(#[trigger] front[i].gain) by {
                assert(!is_nan(s[i].gain));
            }
        }
        lemma_descending_throughout(front);
        assert forall|i: int, j: int| 0 <= i < j < s.len() implies !gain_lt(
            #[trigger] s[i].gain,
            #[trigger] s[j].gain,
        ) by {
            if j < n {
                assert(!gain_lt(front[i].gain, front[j].gain));
            } else {
                assert(!gain_lt(s[n - 1].gain, s[n - 1 + 1].gain));
                assert(!is_nan(s[i].gain) && !is_nan(s[n - 1].gain) && !is_nan(s[n].gain));
                if i < n - 1 {
                    assert(!gain_lt(front[i].gain, front[n - 1].gain));
                }
            }
        }
    }
}

/// A list with the entries of another has its gains: numbers all, if those are.
pub proof fn lemma_same_entries_all_numbers(s: Seq<Judgment>, t: Seq<Judgment>)
    requires
        s.to_multiset() == t.to_multiset(),
        all_numbers(t),
    ensures
        all_numbers(s),
{
    assert forall|i: int| 0 <= i < s.len() implies !is_nan(#[trigger] s[i].gain) by {
        let k = lemma_entry_shared(s, t, i);
    }
}

/// An entry of a list stands somewhere in every list with the same entries.
proof fn lemma_entry_shared(s: Seq<Judgment>, t: Seq<Judgment>, i: int) -> (k: int)
    requires
        s.to_multiset() == t.to_multiset(),
        0 <= i < s.len(),
    ensures
        0 <= k < t.len(),
        t[k] == s[i],
{
    broadcast use to_multiset_contains;

    assert(s.contains(s[i]));
    assert(s.to_multiset().count(s[i]) > 0);
    assert(t.contains(s[i]));
    choose|k: int| 0 <= k < t.len() && t[k] == s[i]
}

/// Taking the first entry off two lists with the same entries and the same
/// first entry leaves lists with the same entries.
proof fn lemma_rest_shares_entries(x: Seq<Judgment>, y: Seq<Judgment>)
    requires
        x.to_multiset() == y.to_multiset(),
        x.len() > 0,
        y.len() > 0,
        x[0] == y[0],
    ensures
        x.drop_first().to_multiset() == y.drop_first().to_multiset(),
{
    broadcast use to_multiset_remove;

    assert(x.drop_first() =~= x.remove(0));
    assert(y.drop_first() =~= y.remove(0));
}

proof fn lemma_falls_or_repeats(s: Seq<Judgment>)
    requires
        descending(s),
        ties_are_copies(s),
    ensures
        falls_or_repeats(s),
    decreases s.len(),
{
    if s.len() >= 2 {
        let front = s.drop_last();
        let n = s.len() - 1;
        assert(descending(front)) by {
            assert forall|i: int| 0 <= i < front.len() - 1 implies !gain_lt(
                #[trigger] front[i].gain,
                front[i + 1].gain,
            ) by {
                assert(!gain_lt(s[i].gain, s[i + 1].gain));
            }
        }
        assert(ties_are_copies(front)) by {
            assert forall|i: int, j: int| 0 <= i < front.len() && 0 <= j < front.len() implies
                #[trigger] front[i] == #[trigger] front[j] || gain_lt(front[i].gain, front[j].gain)
                || gain_lt(front[j].gain, front[i].gain) by {
                assert(s[i] == s[j] || gain_lt(s[i].gain, s[j].gain) || gain_lt(
                    s[j].gain,
                    s[i].gain,
                ));
            }
        }
        lemma_falls_or_repeats(front);
        assert forall|i: int, j: int| 0 <= i < j < s.len() implies #[trigger] s[i] == #[trigger] s[j]
            || gain_lt(s[j].gain, s[i].gain) by {
            if j < n {
                assert(front[i] == front[j] || gain_lt(front[j].gain, front[i].gain));
            } else {
                assert(!gain_lt(s[n - 1].gain, s[n - 1 + 1].gain));
                assert(s[n - 1] == s[n] || gain_lt(s[n - 1].gain, s[n].gain) || gain_lt(
                    s[n].gain,
                    s[n - 1].gain,
                ));
                if i < n - 1 {
                    assert(front[i] == front[n - 1] || gain_lt(front[n - 1].gain, front[i].gain));
                }
            }
        }
    }
}

proof fn lemma_repeating_lists_agree(x: Seq<Judgment>, y: Seq<Judgment>)
    requires
        x.to_multiset() == y.to_multiset(),
        falls_or_repeats(x),
        falls_or_repeats(y),
    ensures
        x == y,
    decreases x.len(),
{
    to_multiset_len(x);
    to_multiset_len(y);
    if x.len() > 0 {
        let k = lemma_entry_shared(y, x, 0);
        let l = lemma_entry_shared(x, y, 0);
        if k > 0 {
            assert(x[0] == x[k] || gain_lt(x[k].gain, x[0].gain));
        }
        if l > 0 {
            assert(y[0] == y[l] || gain_lt(y[l].gain, y[0].gain));
        }
        assert(x[0] == y[0]);
        let xs = x.drop_first();
        let ys = y.drop_first();
        lemma_rest_shares_entries(x, y);
        assert(falls_or_repeats(xs)) by {
            assert forall|i: int, j: int| 0 <= i < j < xs.len() implies #[trigger] xs[i]
                == #[trigger] xs[j] || gain_lt(xs[j].gain, xs[i].gain) by {
                assert(x[i + 1] == x[j + 1] || gain_lt(x[j + 1].gain, x[i + 1].gain));
            }
        }
        assert(falls_or_repeats(ys)) by {
            assert forall|i: int, j: int| 0 <= i < j < ys.len() implies #[trigger] ys[i]
                == #[trigger] ys[j] || gain_lt(ys[j].gain, ys[i].gain) by {
                assert(y[i + 1] == y[j + 1] || gain_lt(y[j + 1].gain, y[i + 1].gain));
            }
        }
        lemma_repeating_lists_agree(xs, ys);
        assert(x =~= seq![x[0]] + xs);
        assert(y =~= seq![y[0]] + ys);
    }
}

proof fn lemma_same_entries_ties_are_copies(s: Seq<Judgment>, t: Seq<Judgment>)
    requires
        s.to_multiset() == t.to_multiset(),
        ties_are_copies(t),
    ensures
        ties_are_copies(s),
{
    assert forall|i: int, j: int| 0 <= i < s.len() && 0 <= j < s.len() implies #[trigger] s[i]
        == #[trigger] s[j] || gain_lt(s[i].gain, s[j].gain) || gain_lt(s[j].gain, s[i].gain) by {
        let k = lemma_entry_shared(s, t, i);
        let l = lemma_entry_shared(s, t, j);
        assert(t[k] == t[l] || gain_lt(t[k].gain, t[l].gain) || gain_lt(t[l].gain, t[k].gain));
    }
}

/// The ideal order does not depend on the order in which the judgments are
/// given: two lists with the same entries, in which no two different entries
/// tie, have one and the same ranking.
pub proof fn lemma_ranking_order_invariant(
    a: Seq<Judgment>,
    b: Seq<Judgment>,
    ranked_a: Seq<Judgment>,
    ranked_b: Seq<Judgment>,
)
    requires
        a.to_multiset() == b.to_multiset(),
        ties_are_copies(a),
        is_ranking_of(ranked_a, a),
        is_ranking_of(ranked_b, b),
    ensures
        ranked_a == ranked_b,
{
    lemma_same_entries_ties_are_copies(ranked_a, a);
    lemma_same_entries_ties_are_copies(ranked_b, a);
    lemma_falls_or_repeats(ranked_a);
    lemma_falls_or_repeats(ranked_b);
    lemma_repeating_lists_agree(ranked_a, ranked_b);
}

proof fn lemma_rankings_agree(x: Seq<Judgment>, y: Seq<Judgment>)
    requires
        x.to_multiset() == y.to_multiset(),
        all_numbers(x),
        all_numbers(y),
        descending_throughout(x),
        descending_throughout(y),
        forall|g: u64| #[trigger] x.filter(tied_with(g)) == y.filter(tied_with(g)),
    ensures
        x == y,
    decreases x.len(),
{
    to_multiset_len(x);
    to_multiset_len(y);
    if x.len() > 0 {
        let k = lemma_entry_shared(y, x, 0);
        let l = lemma_entry_shared(x, y, 0);
        assert(!is_nan(x[0].gain) && !is_nan(y[0].gain));
        if k > 0 {
            assert(!gain_lt(x[0].gain, x[k].gain));
        }
        if l > 0 {
            assert(!gain_lt(y[0].gain, y[l].gain));
        }
        assert(gain_eq(x[0].gain, y[0].gain));
        let xs = x.drop_first();
        let ys = y.drop_first();
        assert(x =~= seq![x[0]] + xs);
        assert(y =~= seq![y[0]] + ys);
        let tie = tied_with(x[0].gain);
        assert(tie(x[0]) && tie(y[0]));
        xs.lemma_filter_prepend(x[0], tie);
        ys.lemma_filter_prepend(y[0], tie);
        assert(x.filter(tie) == y.filter(tie));
        assert((seq![x[0]] + xs.filter(tie))[0] == (seq![y[0]] + ys.filter(tie))[0]);
        assert(x[0] == y[0]);
        lemma_rest_shares_entries(x, y);
        assert forall|g: u64| #[trigger] xs.filter(tied_with(g)) == ys.filter(tied_with(g)) by {
            let p = tied_with(g);
            xs.lemma_filter_prepend(x[0], p);
            ys.lemma_filter_prepend(y[0], p);
            assert(x.filter(p) == y.filter(p));
            if p(x[0]) {
                assert(xs.filter(p) =~= (seq![x[0]] + xs.filter(p)).drop_first());
                assert(ys.filter(p) =~= (seq![y[0]] + ys.filter(p)).drop_first());
            } else {
                assert(Seq::<Judgment>::empty() + xs.filter(p) =~= xs.filter(p));
                assert(Seq::<Judgment>::empty() + ys.filter(p) =~= ys.filter(p));
            }
        }
        assert(all_numbers(xs)) by {
            assert forall|i: int| 0 <= i < xs.len() implies !is_nan(#[trigger] xs[i].gain) by {
                assert(!is_nan(x[i + 1].gain));
            }
        }
        assert(all_numbers(ys)) by {
            assert forall|i: int| 0 <= i < ys.len() implies !is_nan(#[trigger] ys[i].gain) by {
                assert(!is_nan(y[i + 1].gain));
            }
        }
        assert(descending_throughout(xs)) by {
            assert forall|i: int, j: int| 0 <= i < j < xs.len() implies !gain_lt(
                #[trigger] xs[i].gain,
                #[trigger] xs[j].gain,
            ) by {
                assert(!gain_lt(x[i + 1].gain, x[j + 1].gain));
            }
        }
        assert(descending_throughout(ys)) by {
            assert forall|i: int, j: int| 0 <= i < j < ys.len() implies !gain_lt(
                #[trigger] ys[i].gain,
                #[trigger] ys[j].gain,
            ) by {
                assert(!gain_lt(y[i + 1].gain, y[j + 1].gain));
            }
        }
        lemma_rankings_agree(xs, ys);
    }
}

/// Where every gain is a number, a list of judgments has one ranking and no
/// other: the largest gain first, equal gains in the order given.
pub proof fn lemma_ranking_unique(given: Seq<Judgment>, x: Seq<Judgment>, y: Seq<Judgment>)
    requires
        all_numbers(given),
        is_ranking_of(x, given),
        is_ranking_of(y, given),
    ensures
        x == y,
{
    lemma_same_entries_all_numbers(x, given);
    lemma_same_entries_all_numbers(y, given);
    lemma_descending_throughout(x);
    lemma_descending_throughout(y);
    assert forall|g: u64| #[trigger] x.filter(tied_with(g)) == y.filter(tied_with(g)) by {
        assert(x.filter(tied_with(g)) == given.filter(tied_with(g)));
        assert(y.filter(tied_with(g)) == given.filter(tied_with(g)));
    }
    lemma_rankings_agree(x, y);
}

/// Where every gain is a number, the gains of the ideal order do not depend
/// on the order in which the judgments are given: rank by rank, two rankings
/// of lists with the same entries hold the same number. (Which of several
/// documents with that gain holds the rank does depend on it.)
pub proof fn lemma_ranked_gains_order_invariant(
    a: Seq<Judgment>,
    b: Seq<Judgment>,
    ranked_a: Seq<Judgment>,
    ranked_b: Seq<Judgment>,
)
    requires
        a.to_multiset() == b.to_multiset(),
        all_numbers(a),
        is_ranking_of(ranked_a, a),
        is_ranking_of(ranked_b, b),
    ensures
        ranked_a.len() == ranked_b.len(),
        forall|i: int|
            0 <= i < ranked_a.len() ==> gain_eq(#[trigger] ranked_a[i].gain, ranked_b[i].gain),
{
    lemma_same_entries_all_numbers(ranked_a, a);
    lemma_same_entries_all_numbers(ranked_b, a);
    lemma_descending_throughout(ranked_a);
    lemma_descending_throughout(ranked_b);
    let key = |j: Judgment| order_key(j.gain);
    let keys_a = ranked_a.map_values(key);
    let keys_b = ranked_b.map_values(key);
    lemma_map_values_same_entries(ranked_a, ranked_b, key);
    assert(falling(keys_a)) by {
        assert forall|i: int, j: int| 0 <= i < j < keys_a.len() implies #[trigger] keys_a[i]
            >= #[trigger] keys_a[j] by {
            assert(!gain_lt(ranked_a[i].gain, ranked_a[j].gain));
        }
    }
    assert(falling(keys_b)) by {
        assert forall|i: int, j: int| 0 <= i < j < keys_b.len() implies #[trigger] keys_b[i]
            >= #[trigger] keys_b[j] by {
            assert(!gain_lt(ranked_b[i].gain, ranked_b[j].gain));
        }
    }
    lemma_falling_lists_agree(keys_a, keys_b);
    assert(ranked_a.len() == keys_a.len() && ranked_b.len() == keys_b.len());
    assert forall|i: int| 0 <= i < ranked_a.len() implies gain_eq(
        #[trigger] ranked_a[i].gain,
        ranked_b[i].gain,
    ) by {
        assert(keys_a[i] == keys_b[i]);
        assert(!is_nan(ranked_b[i].gain));
    }
}

} // verus!
