//! A self-adjusting binary search tree (splay tree) over `u64` keys.
//!
//! The tree is modelled by the multiset of its keys (the view `@`) together
//! with the binary-search-tree order invariant `wf`. Every public operation
//! states how it changes the key multiset and that it preserves the order
//! invariant; the splay operations additionally state where the accessed key
//! ends up.

pub mod tree;

pub mod splay;

pub mod laws;

pub mod drivers;

pub use tree::BinarySearchTree;
pub use tree::Node;
pub use tree::SplayTree;
