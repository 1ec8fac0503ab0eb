//! Sorting routines.

pub mod bubble;
