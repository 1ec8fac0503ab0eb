//! The factorial of a machine integer.

use vstd::prelude::*;

verus! {

/// The product of the integers from 1 to `n`; 1 when `n` is 0.
pub open spec fn product_up_to(n: nat) -> nat
    decreases n,
{
    if n <= 1 {
        1
    } else {
        n * product_up_to((n - 1) as nat)
    }
}

/// The largest argument whose factorial fits in 64 bits.
pub const LARGEST_ARGUMENT: u64 = 20;

/// The factorial grows with its argument.
pub proof fn lemma_product_grows(m: nat, n: nat)
    requires
        m <= n,
    ensures
        product_up_to(m) <= product_up_to(n),
    decreases n,
{
    if m < n {
        lemma_product_grows(m, (n - 1) as nat);
        assert(product_up_to((n - 1) as nat) <= n * product_up_to((n - 1) as nat))
            by (nonlinear_arith)
            requires
                n >= 1,
        ;
    }
}

/// The factorial of 20 is the largest that fits in 64 bits.
pub proof fn lemma_product_fits(n: nat)
    requires
        n <= LARGEST_ARGUMENT,
    ensures
        product_up_to(n) <= 2432902008176640000,
        product_up_to(20) == 2432902008176640000,
        product_up_to(21) > u64::MAX,
{
    assert(product_up_to(1) == 1);
    assert(product_up_to(2) == 2);
    assert(product_up_to(3) == 6);
    assert(product_up_to(4) == 24);
    assert(product_up_to(5) == 120);
    assert(product_up_to(6) == 720);
    assert(product_up_to(7) == 5040);
    assert(product_up_to(8) == 40320);
    assert(product_up_to(9) == 362880);
    assert(product_up_to(10) == 3628800);
    assert(product_up_to(11) == 39916800);
    assert(product_up_to(12) == 479001600);
    assert(product_up_to(13) == 6227020800);
    assert(product_up_to(14) == 87178291200);
    assert(product_up_to(15) == 1307674368000);
    assert(product_up_to(16) == 20922789888000);
    assert(product_up_to(17) == 355687428096000);
    assert(product_up_to(18) == 6402373705728000);
    assert(product_up_to(19) == 121645100408832000);
    assert(product_up_to(20) == 2432902008176640000);
    assert(product_up_to(21) == 51090942171709440000);
    lemma_product_grows(n, 20);
}

/// The factorial of `number`, by multiplying upwards from 2.
pub fn factorial(number: u64) -> (result: u64)
    requires
        number <= LARGEST_ARGUMENT,
    ensures
        result == product_up_to(number as nat),
{
    if number <= 1 {
        return 1;
    }
    let mut result: u64 = 1;
    for i in 2..number + 1
        invariant
            result == product_up_to((i - 1) as nat),
            number <= LARGEST_ARGUMENT,
    {
        proof {
            lemma_product_fits(i as nat);
            assert(product_up_to(i as nat) == i * product_up_to((i - 1) as nat));
            assert(result * i == i * result) by (nonlinear_arith);
        }
        result *= i;
    }

    result
}

/// The factorial of `number`, by recursion on its argument.
pub fn factorial_recursive(number: u64) -> (result: u64)
    requires
        number <= LARGEST_ARGUMENT,
    ensures
        result == product_up_to(number as nat),
    decreases number,
{
    if number <= 1 {
        return 1;
    }
    proof {
        lemma_product_fits(number as nat);
        assert(product_up_to(number as nat) == number * product_up_to((number - 1) as nat));
    }

    number * factorial_recursive(number - 1)
}

} // verus!
