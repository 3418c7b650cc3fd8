//! A fixed-capacity least-recently-used cache over an arena-backed doubly
//! linked list, together with two small neighbouring structures.

pub mod doubly_linked_list;
pub mod linked_list;
pub mod lru_cache;
pub mod binary_tree;
