//! Packed, immutable spatial indexes (an R-tree and a k-d tree) laid out in flat byte buffers.
mod bytes;
mod error;
pub mod indices;
pub mod kdtree;
mod num;
pub mod rtree;

pub use error::GeoIndexError;
pub use num::IndexableNum;
