//! Two verified in-memory ordered key-value containers over `u64` keys and
//! values: a height-balanced binary search tree and a multiway search tree
//! with a configurable fan-out. Both are specified against the same model,
//! a strictly key-sorted sequence of pairs, and the finite map it denotes.

pub mod avl;
pub mod btree;
pub mod laws;
pub mod pairs;

pub use avl::AVL;
pub use btree::BTree;
