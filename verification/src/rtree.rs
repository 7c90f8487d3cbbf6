//! The packed R-tree.

pub mod distance;
pub mod index;
pub mod intersection;
pub mod laws;
pub mod layout;
pub mod metadata;
pub mod neighbors;
pub mod options;
pub mod progress;
mod queue;
pub mod search;
pub mod sort;
pub mod tree;
mod util;

pub use crate::rtree::index::RTreeIndex;
pub use crate::rtree::metadata::RTreeMetadata;
pub use crate::rtree::options::NeighborsOptions;
pub use crate::rtree::tree::{RTree, RTreeRef};
