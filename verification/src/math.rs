//! Integer functions.

pub mod abs;
pub mod factorial;
pub mod sum_of_digits;
