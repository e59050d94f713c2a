//! Distance metrics for nearest-neighbour searches.
//!
//! The metrics measure in floating point (straight-line, great-circle or geodesic distances), so
//! what they compute stands outside this verified library; the types themselves are here so that
//! callers can name them.
use vstd::prelude::*;

verus! {

/// Euclidean distance metric: the straight-line distance in the plane.
#[derive(Debug, Clone, Copy, Default)]
pub struct EuclideanDistance;

/// Spheroid distance metric: the geodesic distance on the GRS80 ellipsoid, in meters, between
/// longitude/latitude points.
#[derive(Debug, Clone, Copy, Default)]
pub struct SpheroidDistance;

impl SpheroidDistance {
    /// Create a new Spheroid distance metric for the GRS80 ellipsoid.
    pub fn grs80() -> (r: Self)
        ensures
            r == SpheroidDistance,
    {
        SpheroidDistance
    }
}

} // verus!
