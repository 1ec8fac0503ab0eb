//! Small verified building blocks: container types, a few integer
//! functions and a sorting routine, each with a machine-checked contract.

pub mod data_structures;
pub mod math;
pub mod sequences;
pub mod sorting;
pub mod std_shims;
