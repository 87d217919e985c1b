//! Lists that hold the same entries, each as often as the other, in whatever
//! order.

use vstd::prelude::*;
use vstd::seq_lib::{to_multiset_build, to_multiset_contains, to_multiset_insert, to_multiset_len, to_multiset_remove};

verus! {

/// Lists with the same entries still have the same entries after one and the
/// same function has been applied to every entry of both.
pub proof fn lemma_map_values_same_entries<A, B>(a: Seq<A>, b: Seq<A>, f: spec_fn(A) -> B)
    requires
        a.to_multiset() == b.to_multiset(),
    ensures
        a.map_values(f).to_multiset() == b.map_values(f).to_multiset(),
    decreases a.len(),
{
    to_multiset_len(a);
    to_multiset_len(b);
    if a.len() == 0 {
        assert(a.map_values(f) =~= b.map_values(f));
    } else {
        let entry = a.last();
        to_multiset_contains(a, entry);
        to_multiset_contains(b, entry);
        assert(a.contains(entry));
        let k = choose|k: int| 0 <= k < b.len() && b[k] == entry;
        let front = a.drop_last();
        let rest = b.remove(k);
        assert(front.to_multiset() == rest.to_multiset()) by {
            to_multiset_remove(a, a.len() - 1);
            to_multiset_remove(b, k);
            assert(front =~= a.remove(a.len() - 1));
        }
        lemma_map_values_same_entries(front, rest, f);
        assert(a.map_values(f) =~= front.map_values(f).push(f(entry)));
        assert(b.map_values(f) =~= rest.map_values(f).insert(k, f(entry)));
        to_multiset_build(front.map_values(f), f(entry));
        to_multiset_insert(rest.map_values(f), k, f(entry));
    }
}

/// No number of the list is followed, directly or later, by a larger one.
pub open spec fn falling(numbers: Seq<int>) -> bool {
    forall|i: int, j: int| 0 <= i < j < numbers.len() ==> #[trigger] numbers[i] >= #[trigger] numbers[j]
}

/// Two falling lists of the same numbers are one and the same list.
pub proof fn lemma_falling_lists_agree(x: Seq<int>, y: Seq<int>)
    requires
        x.to_multiset() == y.to_multiset(),
        falling(x),
        falling(y),
    ensures
        x == y,
    decreases x.len(),
{
    to_multiset_len(x);
    to_multiset_len(y);
    if x.len() > 0 {
        to_multiset_contains(x, y[0]);
        to_multiset_contains(y, y[0]);
        to_multiset_contains(x, x[0]);
        to_multiset_contains(y, x[0]);
        assert(y.contains(y[0]));
        assert(x.contains(x[0]));
        let k = choose|k: int| 0 <= k < x.len() && x[k] == y[0];
        let l = choose|l: int| 0 <= l < y.len() && y[l] == x[0];
        if k > 0 {
            assert(x[0] >= x[k]);
        }
        if l > 0 {
            assert(y[0] >= y[l]);
        }
        assert(x[0] == y[0]);
        let xs = x.drop_first();
        let ys = y.drop_first();
        assert(xs.to_multiset() == ys.to_multiset()) by {
            to_multiset_remove(x, 0);
            to_multiset_remove(y, 0);
            assert(xs =~= x.remove(0));
            assert(ys =~= y.remove(0));
        }
        assert(falling(xs)) by {
            assert forall|i: int, j: int| 0 <= i < j < xs.len() implies #[trigger] xs[i]
                >= #[trigger] xs[j] by {
                assert(x[i + 1] >= x[j + 1]);
            }
        }
        assert(falling(ys)) by {
            assert forall|i: int, j: int| 0 <= i < j < ys.len() implies #[trigger] ys[i]
                >= #[trigger] ys[j] by {
                assert(y[i + 1] >= y[j + 1]);
            }
        }
        lemma_falling_lists_agree(xs, ys);
        assert(x =~= seq![x[0]] + xs);
        assert(y =~= seq![y[0]] + ys);
    }
}

} // verus!
