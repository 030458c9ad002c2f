//! Van Emde Boas trees: ordered sets of integers drawn from a fixed range
//! `0..U`, with membership, insertion, deletion, extrema and successor
//! queries that descend `O(log log U)` levels.
//!
//! Every operation is specified against the mathematical set of keys the tree
//! holds (its view, a `Set<int>`), and every node of a tree is kept in a
//! canonical shape described by [`VEBTree::wf`].

mod delete;
mod insert;
pub mod iter;
pub mod laws;
pub mod layout;
mod lookup;
pub mod order;
pub mod split;
pub mod tree;

pub use iter::Iter;
pub use layout::Layout;
pub use tree::VEBTree;
pub use tree::VebError;
