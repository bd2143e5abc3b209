//! Classic educational containers, verified: an unbalanced binary search
//! tree over `u64` values, and a double-ended queue abstraction with an
//! array-backed implementation.

pub mod bst;
pub mod deque;
pub mod deque_array_list;
