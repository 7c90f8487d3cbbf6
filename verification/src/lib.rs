//! A packed, immutable R-tree.

pub mod error;
pub mod indices;
pub mod num;
pub mod rtree;
