//! An immutable, ABI-stable RTree.
pub mod builder;
pub mod distance;
pub mod index;
pub mod join;
pub mod neighbors;
pub mod search;
pub mod sort;
pub mod structure;
pub mod traversal;
pub mod util;

pub use builder::{RTreeBuilder, DEFAULT_RTREE_NODE_SIZE};
pub use distance::{EuclideanDistance, SpheroidDistance};
pub use traversal::{Coord, Node};
pub use index::{OwnedRTree, RTreeIndex, RTreeMetadata, RTreeRef};
pub use neighbors::{ItemDistanceMetric, SimpleDistanceMetric};
