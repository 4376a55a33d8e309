use vstd::prelude::*;

verus! {

/// The structurally impossible configurations the library reports.
///
/// Geometric ties (coincident events, collinear triples) are resolved by
/// fixed deterministic rules and never surface as errors; only a malformed
/// boundary or an unclippable face does.
#[derive(Clone, Copy, PartialEq, Eq, Structural, Debug)]
pub enum VoronoiError {
    /// A boundary cell was built from fewer than three vertices.
    TooFewVertices,
    /// The boundary polygon has zero signed area or a degenerate corner.
    DegenerateBoundary,
    /// A face of the diagram could not be clipped to a proper polygon.
    ClipFailure,
}

impl VoronoiError {
    /// A short description of the error.
    pub fn describe(&self) -> (r: &'static str)
        ensures
            r@ == match *self {
                VoronoiError::TooFewVertices => "not enough points for a contained shape, require 3"@,
                VoronoiError::DegenerateBoundary => "boundary polygon is degenerate"@,
                VoronoiError::ClipFailure => "a diagram face could not be clipped to the boundary"@,
            },
    {
        match self {
            VoronoiError::TooFewVertices => "not enough points for a contained shape, require 3",
            VoronoiError::DegenerateBoundary => "boundary polygon is degenerate",
            VoronoiError::ClipFailure => "a diagram face could not be clipped to the boundary",
        }
    }
}

} // verus!
