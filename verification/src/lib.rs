//! A van Emde Boas tree: an ordered set of machine integers drawn from a
//! fixed universe `[0, capacity)`, supporting membership, insertion,
//! deletion, minimum/maximum and successor/predecessor queries, each in
//! O(log log capacity) time through a recursive square-root decomposition.
//!
//! Every operation carries a contract that pins its result down against a
//! mathematical view of the tree as a set of integers, and the structural
//! invariant of the tree is proved to be maintained by every operation.

mod arith;
pub mod laws;
pub mod tree;

pub use tree::VEBTree;
pub use tree::VebError;
