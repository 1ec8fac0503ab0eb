//! Singly linked stacks.

pub mod first;
pub mod second;
