//! A doubly-linked list of strings kept in an arena of slots, with handles
//! for removing a node from anywhere in constant time.
pub mod laws;
pub mod list;
pub mod model;

pub use list::{Handle, Iter, List, Node, RevIter};
