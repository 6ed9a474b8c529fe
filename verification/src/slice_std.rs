//! Contracts for the slice methods of `std` that the sorting code calls and
//! that vstd leaves unspecified.
use vstd::prelude::*;

verus! {

/// `<[T]>::swap`: exchanges the elements at `a` and `b`; panics when either is
/// out of bounds, so both must be in bounds.
pub assume_specification<Elem>[ <[Elem]>::swap ](slice: &mut [Elem], a: usize, b: usize)
    requires
        a < old(slice)@.len(),
        b < old(slice)@.len(),
    ensures
        final(slice)@ == old(slice)@.update(a as int, old(slice)@[b as int]).update(
            b as int,
            old(slice)@[a as int],
        ),
;

/// `<[T]>::reverse`: reverses the order of the elements in place.
pub assume_specification<Elem>[ <[Elem]>::reverse ](slice: &mut [Elem])
    ensures
        final(slice)@ == old(slice)@.reverse(),
;

} // verus!
