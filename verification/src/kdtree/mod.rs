//! An immutable, ABI-stable KDTree.
pub mod builder;
pub mod index;
pub mod query;
pub mod sort;
mod stack;
pub mod traversal;

pub use builder::{KDTreeBuilder, DEFAULT_KDTREE_NODE_SIZE};
pub use index::{KDTree, KDTreeIndex, KDTreeMetadata, KDTreeRef};
pub use traversal::Node;
