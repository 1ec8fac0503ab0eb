//! Container types.

pub mod binary_search_tree;
pub mod heap;
pub mod heap_laws;
pub mod linked_list;
