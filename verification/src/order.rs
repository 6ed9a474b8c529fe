//! The order that `Ord` promises, stated as spec functions, and the laws of a
//! total order that the rest of the crate relies on.
use vstd::prelude::*;
use vstd::laws_cmp::*;
use vstd::laws_eq::*;
use vstd::std_specs::cmp::{OrdSpec, PartialEqSpec, PartialOrdSpec};
use core::cmp::Ordering;

verus! {

/// `T`'s `Ord` impl behaves as `Ord`'s documentation asks: a total order,
/// consistent with `PartialOrd` and `PartialEq`.
pub open spec fn total_order<T: Ord>() -> bool {
    obeys_cmp::<T>()
}

/// `a <= b` as `PartialOrd` computes it.
pub open spec fn ord_le<T: Ord>(a: T, b: T) -> bool {
    a.partial_cmp_spec(&b) matches Some(Ordering::Less | Ordering::Equal)
}

/// `a < b`.
pub open spec fn ord_lt<T: Ord>(a: T, b: T) -> bool {
    !ord_le(b, a)
}

/// `a` and `b` compare equal: neither comes before the other.
pub open spec fn ord_equiv<T: Ord>(a: T, b: T) -> bool {
    ord_le(a, b) && ord_le(b, a)
}

/// `PartialOrd`'s answers agree with `ord_le`, and every pair is comparable.
proof fn lemma_answers<T: Ord>()
    requires
        total_order::<T>(),
    ensures
        T::obeys_partial_cmp_spec(),
        forall|a: T, b: T| #![trigger a.partial_cmp_spec(&b)]
            (a.partial_cmp_spec(&b) == Some(Ordering::Greater)) == !ord_le(a, b),
        forall|a: T, b: T| #![trigger a.partial_cmp_spec(&b)]
            (a.partial_cmp_spec(&b) == Some(Ordering::Less)) == !ord_le(b, a),
        forall|a: T| #[trigger] ord_le(a, a),
        forall|a: T, b: T| #![trigger ord_le(a, b)] ord_le(a, b) || ord_le(b, a),
        forall|a: T, b: T, c: T| #![trigger ord_le(a, b), ord_le(b, c)]
            ord_le(a, b) && ord_le(b, c) ==> ord_le(a, c),
{
    reveal(obeys_cmp_partial_ord);
    reveal(obeys_cmp_ord);
    reveal(obeys_partial_cmp_spec_properties);
    reveal(obeys_eq_spec_properties);
    assert forall|a: T, b: T| #[trigger] a.partial_cmp_spec(&b) is Some by {
        assert(a.partial_cmp_spec(&b) == Some(a.cmp_spec(&b)));
    }
    assert forall|a: T| #[trigger] ord_le(a, a) by {
        assert(a.partial_cmp_spec(&a) is Some);
    }
    assert forall|a: T, b: T| #![trigger ord_le(a, b)] ord_le(a, b) || ord_le(b, a) by {
        assert(a.partial_cmp_spec(&b) is Some);
        assert(b.partial_cmp_spec(&a) is Some);
    }
    assert forall|a: T, b: T, c: T| #![trigger ord_le(a, b), ord_le(b, c)]
        ord_le(a, b) && ord_le(b, c) implies ord_le(a, c) by {
        assert(a.partial_cmp_spec(&c) is Some);
        assert(a.partial_cmp_spec(&b) is Some);
        assert(b.partial_cmp_spec(&c) is Some);
        if !ord_le(a, c) {
            assert(c.partial_cmp_spec(&a) == Some(Ordering::Less));
            if a.partial_cmp_spec(&b) == Some(Ordering::Less) {
                assert(c.partial_cmp_spec(&b) == Some(Ordering::Less));
                assert(b.partial_cmp_spec(&c) == Some(Ordering::Greater));
            } else {
                assert(a.eq_spec(&b));
                if b.partial_cmp_spec(&c) == Some(Ordering::Less) {
                    assert(b.partial_cmp_spec(&a) == Some(Ordering::Less));
                    assert(b.eq_spec(&a));
                } else {
                    assert(b.eq_spec(&c));
                    assert(a.eq_spec(&c));
                }
            }
        }
    }
}

/// `ord_le` is reflexive, total and transitive.
pub proof fn lemma_order_laws<T: Ord>()
    requires
        total_order::<T>(),
    ensures
        forall|a: T| #[trigger] ord_le(a, a),
        forall|a: T, b: T| #![trigger ord_le(a, b)] ord_le(a, b) || ord_le(b, a),
        forall|a: T, b: T, c: T| #![trigger ord_le(a, b), ord_le(b, c)]
            ord_le(a, b) && ord_le(b, c) ==> ord_le(a, c),
{
    lemma_answers::<T>();
}

/// `*a <= *b`.
pub fn le_ord<T: Ord>(a: &T, b: &T) -> (r: bool)
    requires
        total_order::<T>(),
    ensures
        r == ord_le(*a, *b),
{
    proof {
        lemma_answers::<T>();
    }
    *a <= *b
}

/// `*a < *b`.
pub fn lt_ord<T: Ord>(a: &T, b: &T) -> (r: bool)
    requires
        total_order::<T>(),
    ensures
        r == ord_lt(*a, *b),
{
    proof {
        lemma_answers::<T>();
    }
    *a < *b
}

/// `*a > *b`.
pub fn gt_ord<T: Ord>(a: &T, b: &T) -> (r: bool)
    requires
        total_order::<T>(),
    ensures
        r == ord_lt(*b, *a),
{
    proof {
        lemma_answers::<T>();
    }
    *a > *b
}

} // verus!
