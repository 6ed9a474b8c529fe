//! Properties of the library as a whole, proved from the contracts of its
//! functions. That two stable sorts of one input are equal, so that the
//! engine's result is determined by its input, is `lemma_stable_sort_unique`
//! in `sorted.rs`.
use vstd::prelude::*;
use crate::order::{lemma_order_laws, ord_equiv, ord_le, total_order};
use crate::sorted::{is_stable_sort_of, lemma_stable_sort_unique, lemma_tie_order_refl, sorted};

verus! {

/// Sorting input that is already sorted leaves it as it is.
pub proof fn lemma_sorted_input_unchanged<T: Ord>(before: Seq<T>, after: Seq<T>)
    requires
        total_order::<T>(),
        sorted(before),
        is_stable_sort_of(before, after),
    ensures
        after == before,
{
    lemma_tie_order_refl(before);
    assert(is_stable_sort_of(before, before));
    lemma_stable_sort_unique(before, before, after);
}

/// Sorting twice gives what sorting once gives.
pub proof fn lemma_sort_idempotent<T: Ord>(before: Seq<T>, once: Seq<T>, twice: Seq<T>)
    requires
        total_order::<T>(),
        is_stable_sort_of(before, once),
        is_stable_sort_of(once, twice),
    ensures
        twice == once,
{
    lemma_sorted_input_unchanged(once, twice);
}

/// Where elements that compare equal are identical, as with integers, the
/// stable sort is the one sorted arrangement of the input's elements.
pub proof fn lemma_result_is_the_sorted_permutation<T: Ord>(before: Seq<T>, after: Seq<T>, other: Seq<T>)
    requires
        total_order::<T>(),
        forall|a: T, b: T| ord_equiv(a, b) ==> a == b,
        is_stable_sort_of(before, after),
        sorted(other),
        other.to_multiset() == before.to_multiset(),
    ensures
        other == after,
{
    lemma_order_laws::<T>();
    let leq = |a: T, b: T| ord_le(a, b);
    assert forall|x: T| #[trigger] leq(x, x) by {
        assert(ord_le(x, x));
    }
    assert forall|x: T, y: T| #[trigger] leq(x, y) && #[trigger] leq(y, x) implies x == y by {
        assert(ord_equiv(x, y));
    }
    assert forall|x: T, y: T, z: T| #[trigger] leq(x, y) && #[trigger] leq(y, z) implies leq(x, z) by {
        assert(ord_le(x, y) && ord_le(y, z));
    }
    assert forall|x: T, y: T| #[trigger] leq(x, y) || #[trigger] leq(y, x) by {
        assert(ord_le(x, y) || ord_le(y, x));
    }
    assert(vstd::relations::total_ordering(leq));
    assert(vstd::relations::sorted_by(other, leq));
    assert(vstd::relations::sorted_by(after, leq));
    vstd::seq_lib::lemma_sorted_unique(other, after, leq);
}

} // verus!
