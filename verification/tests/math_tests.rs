use algorithms::math::abs::{abs, abs_from};
use algorithms::math::factorial::{factorial, factorial_recursive, LARGEST_ARGUMENT};
use algorithms::math::sum_of_digits::{sum_digits_iterative, sum_digits_recursive};

#[test]
fn abs_test_i32() {
    assert_eq!(80, abs(80));
    assert_eq!(80, abs(-80));
}

#[test]
fn abs_test_f64() {
    assert_eq!(80.80, abs(80.80));
    assert_eq!(80.80, abs(-80.80));
}

#[test]
fn abs_zero() {
    assert_eq!(0.0, abs(0.0));
}

#[test]
fn abs_of_the_least_value_with_a_negation() {
    assert_eq!(i32::MAX, abs(i32::MIN + 1));
    assert_eq!(i32::MAX, abs(i32::MAX));
    assert_eq!(0, abs(0));
    assert_eq!(1i64, abs(-1i64));
}

#[test]
fn abs_from_measures_against_the_given_zero() {
    assert_eq!(-3, abs_from(3, 5));
    assert_eq!(5, abs_from(5, 5));
    assert_eq!(7, abs_from(7, 5));
    assert_eq!(4, abs_from(-4, 0));
}

#[test]
fn test_factorial() {
    assert_eq!(1, factorial(0));
    assert_eq!(1, factorial(1));
    assert_eq!(720, factorial(6));
    assert_eq!(3628800, factorial(10));
}

#[test]
fn test_factorial_recursive() {
    assert_eq!(1, factorial_recursive(0));
    assert_eq!(1, factorial_recursive(1));
    assert_eq!(720, factorial_recursive(6));
    assert_eq!(3628800, factorial_recursive(10));
}

#[test]
fn factorial_of_the_largest_argument() {
    assert_eq!(20, LARGEST_ARGUMENT);
    assert_eq!(2432902008176640000, factorial(LARGEST_ARGUMENT));
    assert_eq!(2432902008176640000, factorial_recursive(LARGEST_ARGUMENT));
    assert_eq!(2, factorial(2));
    assert_eq!(2, factorial_recursive(2));
}

#[test]
fn sum_of_digits_zero() {
    assert_eq!(0, sum_digits_iterative(0));
    assert_eq!(0, sum_digits_recursive(0));
}

#[test]
fn sum_of_digits_positive_number() {
    assert_eq!(1, sum_digits_iterative(1));
    assert_eq!(10, sum_digits_iterative(1234));
    assert_eq!(30, sum_digits_iterative(454566));
    assert_eq!(7, sum_digits_iterative(500020));

    assert_eq!(1, sum_digits_recursive(1));
    assert_eq!(10, sum_digits_recursive(1234));
    assert_eq!(30, sum_digits_recursive(454566));
    assert_eq!(7, sum_digits_recursive(500020));
}

#[test]
fn sum_of_digits_negative_number() {
    assert_eq!(-1, sum_digits_iterative(-1));
    assert_eq!(-10, sum_digits_iterative(-1234));
    assert_eq!(-30, sum_digits_iterative(-454566));
    assert_eq!(-7, sum_digits_iterative(-500020));

    assert_eq!(-1, sum_digits_recursive(-1));
    assert_eq!(-10, sum_digits_recursive(-1234));
    assert_eq!(-30, sum_digits_recursive(-454566));
    assert_eq!(-7, sum_digits_recursive(-500020));
}

#[test]
fn sum_of_digits_trailing_zeros() {
    assert_eq!(1, sum_digits_iterative(1000000000));
    assert_eq!(3, sum_digits_iterative(300));

    assert_eq!(1, sum_digits_recursive(1000000000));
    assert_eq!(3, sum_digits_recursive(300));
}

#[test]
fn sum_of_digits_at_the_ends_of_the_range() {
    assert_eq!(46, sum_digits_iterative(i32::MAX));
    assert_eq!(-47, sum_digits_iterative(i32::MIN));
    assert_eq!(46, sum_digits_recursive(i32::MAX));
    assert_eq!(-47, sum_digits_recursive(i32::MIN));
}
