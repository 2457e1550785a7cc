//! An unbalanced binary search tree over a totally ordered element type,
//! with insertion, membership lookup and the three depth-first traversals.

pub mod laws;
pub mod order;
pub mod tree;

pub use tree::Tree;
