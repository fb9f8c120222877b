//! An excess-range index over a fixed sequence of binary symbols, read as
//! balanced-parenthesis marks (an open mark counts +1, a close mark -1).
//!
//! The index partitions the sequence into fixed-size blocks, stores one
//! (total, min, max) excess aggregate per block in the leaf level of a
//! complete binary tree, and combines pairs bottom-up.  The two query
//! operations, `fwd_search` and `bwd_search`, locate in O(log n) time the
//! nearest block to the right or left of a starting block that contains a
//! position with a requested relative excess.

pub mod bitvec;
pub mod builder;
pub mod bwd;
pub mod excess;
pub mod fwd;
pub mod laws;
pub mod search;
pub mod shape;
pub mod tree;

pub use bitvec::BitVec;
pub use tree::ExcessNode;
pub use tree::MinMaxTree;
