//! Contracts for the few standard-library operations used by this crate
//! that `vstd` leaves unspecified. Nothing here is proved: each contract
//! restates the documented behaviour of the function it covers.

use vstd::prelude::*;

verus! {

/// `<[T]>::swap`, reached through `Vec`: exchanges the elements at `a` and
/// `b` and leaves every other position as it was. The standard library
/// panics when an index is out of bounds, so both must be in range.
#[verifier::external_body]
pub(crate) fn swap_elements<T>(items: &mut Vec<T>, a: usize, b: usize)
    requires
        a < old(items)@.len(),
        b < old(items)@.len(),
    ensures
        final(items)@ == old(items)@.update(a as int, old(items)@[b as int]).update(
            b as int,
            old(items)@[a as int],
        ),
{
    items.swap(a, b)
}

/// `core::mem::replace`: stores `src` in `dest` and hands back the value
/// that `dest` held before.
pub assume_specification<T>[ core::mem::replace::<T> ](dest: &mut T, src: T) -> (previous: T)
    ensures
        previous == *old(dest),
        *final(dest) == src,
;

} // verus!
