//! Linked data structures built on shared, slot-allocated nodes.
pub mod linked_list;
