//! Sorting implementations for immutable RTrees.
mod hilbert;
mod params;
mod str;
pub(crate) mod util;

pub use hilbert::HilbertSort;
pub use params::{Sort, SortParams};
pub use str::STRSort;
