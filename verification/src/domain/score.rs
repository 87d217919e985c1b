//! Scores in exact arithmetic: the numbers that gains encode, the sum of the
//! gains of a ranking weighted rank by rank, and why the ideal order has the
//! largest such sum.
//!
//! A score as it is computed in binary64 arithmetic is rounded at every step.
//! What is stated here holds of the sums before any rounding.

use vstd::prelude::*;
use vstd::arithmetic::power2::{lemma_pow2_pos, lemma_pow2_strictly_increases, lemma_pow2_unfold, pow2};
use vstd::seq_lib::{to_multiset_contains, to_multiset_len, to_multiset_remove, to_multiset_update};
use crate::domain::entries::falling;
use crate::domain::gain::{gain_eq, gain_lt, is_nan, is_negative, magnitude};
use crate::domain::judgment::{documents_of, Judgment};
use crate::domain::label::LabelView;
use crate::domain::ranking::{
    all_numbers,
    descending,
    is_ranking_of,
    lemma_descending_throughout,
    lemma_ranked_gains_order_invariant,
};
use crate::domain::search_result::{
    collected_gains,
    every_gain_on_record,
    lemma_ideal_order_collects_ideal_gains,
    lemma_same_documents_same_gains,
};

verus! {

/// How many values the fifty-two fraction bits can take: two to the power 52.
pub const FRACTION_RANGE: u64 = 0x10_0000_0000_0000;

/// The size of the number encoded, sign left aside, counted in units of the
/// smallest positive number (two to the power -1074). With exponent bits of
/// zero the fraction counts the units. Else the fraction, with a leading one
/// put before it, is doubled once for every step of the exponent above one.
/// For an infinity this gives what lies one doubling above the largest
/// numbers: more than every number.
pub open spec fn scaled_size(bits: u64) -> nat {
    let exponent = magnitude(bits) / FRACTION_RANGE;
    let fraction = magnitude(bits) % FRACTION_RANGE;
    if exponent == 0 {
        fraction as nat
    } else {
        (FRACTION_RANGE + fraction) as nat * pow2((exponent - 1) as nat)
    }
}

/// The number encoded, in units of the smallest positive number.
pub open spec fn scaled_value(bits: u64) -> int {
    if is_negative(bits) {
        -(scaled_size(bits) as int)
    } else {
        scaled_size(bits) as int
    }
}

/// The sum of the gains, each as the number it encodes times the weight of
/// its rank.
pub open spec fn weighted_sum(weights: Seq<int>, gains: Seq<u64>) -> int
    recommends
        gains.len() <= weights.len(),
    decreases gains.len(),
{
    if gains.len() == 0 {
        0
    } else {
        weighted_sum(weights, gains.drop_last()) + weights[gains.len() - 1] * scaled_value(gains.last())
    }
}

/// The larger encoding, signs left aside, is that of the larger size.
pub proof fn lemma_size_follows_magnitude(a: u64, b: u64)
    requires
        magnitude(a) < magnitude(b),
    ensures
        scaled_size(a) < scaled_size(b),
{
    let range = FRACTION_RANGE as int;
    let ea = magnitude(a) as int / range;
    let fa = magnitude(a) as int % range;
    let eb = magnitude(b) as int / range;
    let fb = magnitude(b) as int % range;
    assert(ea <= eb);
    if ea == eb {
        assert(fa < fb);
        if ea > 0 {
            let p = pow2((ea - 1) as nat) as int;
            lemma_pow2_pos((ea - 1) as nat);
            assert((range + fa) * p < (range + fb) * p) by (nonlinear_arith)
                requires
                    fa < fb,
                    p > 0,
            ;
        }
    } else {
        let pb = pow2((eb - 1) as nat) as int;
        lemma_pow2_pos((eb - 1) as nat);
        if ea == 0 {
            assert(range <= (range + fb) * pb) by (nonlinear_arith)
                requires
                    fb >= 0,
                    pb >= 1,
                    range > 0,
            ;
        } else {
            let pa = pow2((ea - 1) as nat) as int;
            lemma_pow2_pos((ea - 1) as nat);
            lemma_pow2_unfold(ea as nat);
            if ea < eb - 1 {
                lemma_pow2_strictly_increases(ea as nat, (eb - 1) as nat);
            }
            assert(2 * pa <= pb);
            assert((range + fa) * pa < (range + fb) * pb) by (nonlinear_arith)
                requires
                    0 <= fa < range,
                    fb >= 0,
                    pa > 0,
                    2 * pa <= pb,
            ;
        }
    }
}

/// The order of the gains is the order of the numbers they encode.
pub proof fn lemma_value_follows_order(a: u64, b: u64)
    requires
        !is_nan(a),
        !is_nan(b),
    ensures
        gain_lt(a, b) <==> scaled_value(a) < scaled_value(b),
        gain_eq(a, b) <==> scaled_value(a) == scaled_value(b),
{
    if magnitude(a) < magnitude(b) {
        lemma_size_follows_magnitude(a, b);
    }
    if magnitude(b) < magnitude(a) {
        lemma_size_follows_magnitude(b, a);
    }
    assert(magnitude(a) == 0 ==> scaled_size(a) == 0);
    assert(magnitude(b) == 0 ==> scaled_size(b) == 0);
    if magnitude(a) > 0 {
        lemma_size_above_zero(a);
    }
    if magnitude(b) > 0 {
        lemma_size_above_zero(b);
    }
}

proof fn lemma_size_above_zero(a: u64)
    requires
        magnitude(a) > 0,
    ensures
        scaled_size(a) > 0,
{
    let range = FRACTION_RANGE as int;
    let e = magnitude(a) as int / range;
    let f = magnitude(a) as int % range;
    if e > 0 {
        let p = pow2((e - 1) as nat) as int;
        lemma_pow2_pos((e - 1) as nat);
        assert((range + f) * p > 0) by (nonlinear_arith)
            requires
                f >= 0,
                range > 0,
                p > 0,
        ;
    }
}

/// Putting another gain at one rank changes the sum by the weight of the rank
/// times the difference of the two numbers.
proof fn lemma_sum_after_update(weights: Seq<int>, gains: Seq<u64>, k: int, gain: u64)
    requires
        0 <= k < gains.len(),
    ensures
        weighted_sum(weights, gains.update(k, gain)) == weighted_sum(weights, gains) + weights[k] * (
        scaled_value(gain) - scaled_value(gains[k])),
    decreases gains.len(),
{
    let changed = gains.update(k, gain);
    let n = gains.len() - 1;
    if k == n {
        assert(changed.drop_last() =~= gains.drop_last());
        assert(weights[k] * scaled_value(gain) == weights[k] * scaled_value(gains[k]) + weights[k] * (
        scaled_value(gain) - scaled_value(gains[k]))) by (nonlinear_arith);
    } else {
        assert(changed.drop_last() =~= gains.drop_last().update(k, gain));
        lemma_sum_after_update(weights, gains.drop_last(), k, gain);
    }
}

/// Under weights that never rise with the rank, no order of the same gains
/// has a larger weighted sum than the order in which the gains never rise.
pub proof fn lemma_descending_order_scores_highest(weights: Seq<int>, ideal: Seq<u64>, other: Seq<u64>)
    requires
        ideal.len() <= weights.len(),
        falling(weights),
        forall|i: int| 0 <= i < ideal.len() ==> !is_nan(#[trigger] ideal[i]),
        forall|i: int, j: int| 0 <= i < j < ideal.len() ==> !gain_lt(#[trigger] ideal[i], #[trigger] ideal[j]),
        other.to_multiset() == ideal.to_multiset(),
    ensures
        weighted_sum(weights, other) <= weighted_sum(weights, ideal),
    decreases ideal.len(),
{
    to_multiset_len(ideal);
    to_multiset_len(other);
    if ideal.len() > 0 {
        let n = ideal.len() - 1;
        let low = ideal[n];
        let last = other[n];
        to_multiset_contains(ideal, low);
        to_multiset_contains(other, low);
        assert(ideal.contains(low));
        let k = choose|k: int| 0 <= k < other.len() && other[k] == low;
        to_multiset_contains(ideal, last);
        to_multiset_contains(other, last);
        assert(other.contains(last));
        let j = choose|j: int| 0 <= j < ideal.len() && ideal[j] == last;
        assert(!gain_lt(last, low)) by {
            if j < n {
                assert(!gain_lt(ideal[j], ideal[n]));
            }
        }
        lemma_value_follows_order(last, low);
        let swapped = other.update(k, last).update(n, low);
        assert(swapped.to_multiset() == other.to_multiset()) by {
            broadcast use vstd::multiset::group_multiset_axioms;

            to_multiset_update(other, k, last);
            to_multiset_update(other.update(k, last), n, low);
            assert(other.update(k, last)[n] == last);
            assert(other.to_multiset().count(low) > 0);
            assert(other.to_multiset().insert(last).remove(low).insert(low).remove(last)
                =~= other.to_multiset());
        }
        assert(weighted_sum(weights, other) <= weighted_sum(weights, swapped)) by {
            lemma_sum_after_update(weights, other, k, last);
            lemma_sum_after_update(weights, other.update(k, last), n, low);
            assert(other.update(k, last)[n] == last);
            assert(weights[k] >= weights[n]);
            let wk = weights[k];
            let wn = weights[n];
            let vl = scaled_value(last);
            let vo = scaled_value(low);
            assert(wk * (vl - vo) + wn * (vo - vl) >= 0) by (nonlinear_arith)
                requires
                    wk >= wn,
                    vl >= vo,
            ;
        }
        let front = ideal.drop_last();
        let rest = swapped.drop_last();
        assert(rest.to_multiset() == front.to_multiset()) by {
            to_multiset_remove(swapped, n);
            to_multiset_remove(ideal, n);
            assert(rest =~= swapped.remove(n));
            assert(front =~= ideal.remove(n));
        }
        assert forall|i: int, j: int| 0 <= i < j < front.len() implies !gain_lt(
            #[trigger] front[i],
            #[trigger] front[j],
        ) by {
            assert(!gain_lt(ideal[i], ideal[j]));
        }
        assert forall|i: int| 0 <= i < front.len() implies !is_nan(#[trigger] front[i]) by {
            assert(!is_nan(ideal[i]));
        }
        lemma_descending_order_scores_highest(weights, front, rest);
    }
}

/// The ideal score is the largest that a ranking of the judged documents can
/// reach. Of a label whose gains are numbers and that has every entry's own
/// gain on record: under weights that never rise with the rank, a ranking
/// that returns the judged documents in any order collects a weighted sum no
/// larger than that of the ideal gains, and returning them in ideal order
/// collects exactly that sum.
pub proof fn lemma_ideal_score_is_highest(weights: Seq<int>, label: LabelView, documents: Seq<Seq<char>>)
    requires
        descending(label.ideal),
        all_numbers(label.ideal),
        every_gain_on_record(label),
        documents.to_multiset() == documents_of(label.ideal).to_multiset(),
        documents.len() <= weights.len(),
        falling(weights),
    ensures
        weighted_sum(weights, collected_gains(documents, label)) <= weighted_sum(
            weights,
            label.ideal_gains(),
        ),
        weighted_sum(weights, collected_gains(documents_of(label.ideal), label)) == weighted_sum(
            weights,
            label.ideal_gains(),
        ),
{
    let ideal = label.ideal_gains();
    lemma_ideal_order_collects_ideal_gains(label);
    lemma_same_documents_same_gains(documents, documents_of(label.ideal), label);
    lemma_descending_throughout(label.ideal);
    to_multiset_len(documents);
    to_multiset_len(documents_of(label.ideal));
    assert forall|i: int| 0 <= i < ideal.len() implies !is_nan(#[trigger] ideal[i]) by {
        assert(!is_nan(label.ideal[i].gain));
    }
    assert forall|i: int, j: int| 0 <= i < j < ideal.len() implies !gain_lt(
        #[trigger] ideal[i],
        #[trigger] ideal[j],
    ) by {
        assert(!gain_lt(label.ideal[i].gain, label.ideal[j].gain));
    }
    lemma_descending_order_scores_highest(weights, ideal, collected_gains(documents, label));
}

/// Gains that are rank by rank the same numbers have the same weighted sum.
pub proof fn lemma_same_numbers_same_sum(weights: Seq<int>, a: Seq<u64>, b: Seq<u64>)
    requires
        a.len() == b.len() <= weights.len(),
        forall|i: int| 0 <= i < a.len() ==> gain_eq(#[trigger] a[i], b[i]),
    ensures
        weighted_sum(weights, a) == weighted_sum(weights, b),
    decreases a.len(),
{
    if a.len() > 0 {
        let n = a.len() - 1;
        assert(gain_eq(a[n], b[n]));
        lemma_value_follows_order(a[n], b[n]);
        assert forall|i: int| 0 <= i < a.drop_last().len() implies gain_eq(
            #[trigger] a.drop_last()[i],
            b.drop_last()[i],
        ) by {
            assert(gain_eq(a[i], b[i]));
        }
        lemma_same_numbers_same_sum(weights, a.drop_last(), b.drop_last());
    }
}

/// The ideal score does not depend on the order in which the judgments are
/// given: where every gain is a number, labels made from lists with the same
/// entries have ideal gains of the same weighted sum, under any weights.
pub proof fn lemma_ideal_score_order_invariant(
    weights: Seq<int>,
    given_a: Seq<Judgment>,
    given_b: Seq<Judgment>,
    label_a: LabelView,
    label_b: LabelView,
)
    requires
        given_a.to_multiset() == given_b.to_multiset(),
        given_a.len() <= weights.len(),
        all_numbers(given_a),
        is_ranking_of(label_a.ideal, given_a),
        is_ranking_of(label_b.ideal, given_b),
    ensures
        weighted_sum(weights, label_a.ideal_gains()) == weighted_sum(weights, label_b.ideal_gains()),
{
    lemma_ranked_gains_order_invariant(given_a, given_b, label_a.ideal, label_b.ideal);
    to_multiset_len(given_a);
    to_multiset_len(label_a.ideal);
    let a = label_a.ideal_gains();
    let b = label_b.ideal_gains();
    assert forall|i: int| 0 <= i < a.len() implies gain_eq(#[trigger] a[i], b[i]) by {
        assert(gain_eq(label_a.ideal[i].gain, label_b.ideal[i].gain));
    }
    lemma_same_numbers_same_sum(weights, a, b);
}

/// A document that nobody judged adds nothing to the weighted sum: what it
/// collects is zero, whatever the weight of its rank.
pub proof fn lemma_unjudged_adds_nothing(
    weights: Seq<int>,
    label: LabelView,
    documents: Seq<Seq<char>>,
    rank: int,
)
    requires
        0 <= rank < documents.len() <= weights.len(),
        label.gain_of(documents[rank]) is None,
    ensures
        weights[rank] * scaled_value(collected_gains(documents, label)[rank]) == 0,
{
    assert(collected_gains(documents, label)[rank] == 0);
    assert(scaled_value(0) == 0);
}

/// A ranking that collects only zeros has the weighted sum zero: so has
/// every ranking for a query without judgments, and a ranking of nothing.
pub proof fn lemma_zeros_sum_to_zero(weights: Seq<int>, gains: Seq<u64>)
    requires
        gains.len() <= weights.len(),
        forall|rank: int| 0 <= rank < gains.len() ==> gain_eq(#[trigger] gains[rank], 0),
    ensures
        weighted_sum(weights, gains) == 0,
    decreases gains.len(),
{
    if gains.len() > 0 {
        let n = gains.len() - 1;
        assert(gain_eq(gains[n], 0));
        lemma_value_follows_order(gains[n], 0);
        assert(scaled_value(gains.last()) == 0);
        assert forall|rank: int| 0 <= rank < gains.drop_last().len() implies gain_eq(
            #[trigger] gains.drop_last()[rank],
            0,
        ) by {
            assert(gain_eq(gains[rank], 0));
        }
        lemma_zeros_sum_to_zero(weights, gains.drop_last());
    }
}

} // verus!
