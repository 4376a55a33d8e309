//! Voronoi diagrams of a finite planar point set, clipped to a polygonal
//! boundary cell, together with one step of Lloyd relaxation.
//!
//! All geometry is exact: points live on an integer grid and every
//! predicate (containment, bisector sides, vertex positions) is decided by
//! exact sign tests on bounded integer arithmetic, so the construction is
//! deterministic and fully specified.

mod cell;
mod dcel;
mod error;
mod geometry;
mod lloyd;
mod point;
mod voronoi;

pub use crate::cell::{point_to_line, Cell};
pub use crate::dcel::{make_line_segments, make_polygons, DCEL};
pub use crate::error::VoronoiError;
pub use crate::lloyd::{lloyd_relaxation, polygon_centroid};
pub use crate::point::{Point, COORD_LIMIT};
pub use crate::voronoi::voronoi;
