//! The sum of the decimal digits of an integer, carrying the integer's sign.

use vstd::prelude::*;

verus! {

/// The sum of the decimal digits of `n`.
pub open spec fn digit_sum(n: nat) -> nat
    decreases n,
{
    if n == 0 {
        0
    } else {
        n % 10 + digit_sum(n / 10)
    }
}

/// The digit sum of the magnitude of `n`, with the sign of `n`.
pub open spec fn signed_digit_sum(n: int) -> int {
    if n >= 0 {
        digit_sum(n as nat) as int
    } else {
        -(digit_sum((-n) as nat) as int)
    }
}

/// A digit sum never exceeds the number itself.
pub proof fn lemma_digit_sum_at_most(n: nat)
    ensures
        digit_sum(n) <= n,
    decreases n,
{
    if n != 0 {
        lemma_digit_sum_at_most(n / 10);
    }
}

/// Adds up the digits of `num` from the lowest upwards; for a negative
/// number every digit counts negatively.
pub fn sum_digits_iterative(num: i32) -> (result: i32)
    ensures
        result == signed_digit_sum(num as int),
{
    let mut result: i32 = 0;
    let ghost start = num;
    let mut num = num;

    proof {
        lemma_digit_sum_at_most(
            if start >= 0 {
                start as nat
            } else {
                (-start) as nat
            },
        );
    }
    while num != 0
        invariant
            result + signed_digit_sum(num as int) == signed_digit_sum(start as int),
            start >= 0 ==> num >= 0 && result >= 0,
            start < 0 ==> num <= 0 && result <= 0,
            i32::MIN <= signed_digit_sum(start as int) <= i32::MAX,
        decreases
                if num >= 0 {
                    num as int
                } else {
                    -num
                },
    {
        result += num % 10;
        num = num / 10;
    }

    result
}

/// The lowest digit of `num` plus the digit sum of the rest, with the sign of
/// `num`.
pub fn sum_digits_recursive(num: i32) -> (result: i32)
    ensures
        result == signed_digit_sum(num as int),
    decreases
            if num >= 0 {
                num as int
            } else {
                -num
            },
{
    if num == 0 {
        return 0;
    }
    proof {
        lemma_digit_sum_at_most(
            if num >= 0 {
                num as nat
            } else {
                (-num) as nat
            },
        );
    }

    num % 10 + sum_digits_recursive(num / 10)
}

} // verus!
