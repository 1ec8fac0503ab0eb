//! The absolute value of a signed number.

use vstd::prelude::*;
use vstd::std_specs::cmp::PartialOrdIs;
use vstd::std_specs::cmp::PartialOrdSpec;
use vstd::std_specs::ops::NegSpec;
use std::ops::Neg;
use num_traits::Zero;

verus! {

/// `num_traits::Zero::zero`: the additive identity of `T`, as the
/// implementation of `Zero` for `T` defines it. Nothing is claimed of the
/// value.
#[verifier::external_body]
fn zero_of<T: Zero>() -> (zero: T) {
    T::zero()
}

/// The magnitude of `num` measured against `zero`: `num` negated if it is
/// less than `zero`, else `num` itself.
pub open spec fn magnitude<T: PartialOrd + Neg<Output = T>>(num: T, zero: T) -> T {
    if num.is_lt(&zero) {
        num.neg_spec()
    } else {
        num
    }
}

/// `num` negated if it is less than `zero`, else `num` itself. A number
/// below `zero` must have a negation.
pub fn abs_from<T>(num: T, zero: T) -> (result: T) where T: PartialOrd + Neg<Output = T>
    requires
        T::obeys_partial_cmp_spec() && !num.is_lt(&zero) || num.neg_req(),
    ensures
        T::obeys_partial_cmp_spec() && T::obeys_neg_spec() ==> result == magnitude(num, zero),
        T::obeys_partial_cmp_spec() && !num.is_lt(&zero) ==> result == num,
        T::obeys_neg_spec() ==> result == num || result == num.neg_spec(),
{
    if num < zero {
        return num.neg();
    }
    num
}

/// The absolute value of `num`: `num` negated if it is less than the zero of
/// its type, else `num` itself. `num` must have a negation. The zero is
/// whatever the type's implementation of `Zero` hands out, so the result is
/// the magnitude of `num` measured against some value of `T`.
pub fn abs<T>(num: T) -> (result: T) where T: PartialOrd + Neg<Output = T> + Zero
    requires
        num.neg_req(),
    ensures
        T::obeys_neg_spec() ==> result == num || result == num.neg_spec(),
        T::obeys_partial_cmp_spec() && T::obeys_neg_spec() ==> exists|zero: T|
            result == #[trigger] magnitude(num, zero),
{
    let zero = zero_of::<T>();
    let result = abs_from(num, zero);
    assert(T::obeys_partial_cmp_spec() && T::obeys_neg_spec() ==> result == magnitude(num, zero));
    result
}

} // verus!
