use vstd::prelude::*;

verus! {

/// A point of the plane, on an exact integer grid.
///
/// Coordinates are plain integers; a caller that works in real units picks a
/// scale and quantises once at the edge. Keeping the grid exact gives every
/// geometric predicate a total, deterministic answer.
#[derive(Clone, Copy, PartialEq, Eq, Structural, Hash, Debug)]
pub struct Point {
    /// Grid x coordinate.
    pub x: i64,
    /// Grid y coordinate.
    pub y: i64,
}

/// Largest coordinate magnitude the geometric predicates accept.
///
/// Every intermediate product of the exact predicates on coordinates bounded
/// by this value fits comfortably in `i128`.
pub const COORD_LIMIT: i64 = 67108864;

impl Point {
    /// Build the point `(x, y)`.
    pub fn new(x: i64, y: i64) -> (r: Point)
        ensures
            r.x == x,
            r.y == y,
    {
        Point { x, y }
    }

    /// The x coordinate.
    pub fn x(&self) -> (r: i64)
        ensures
            r == self.x,
    {
        self.x
    }

    /// The y coordinate.
    pub fn y(&self) -> (r: i64)
        ensures
            r == self.y,
    {
        self.y
    }

    /// The x coordinate, for contracts.
    pub open spec fn sx(self) -> int {
        self.x as int
    }

    /// The y coordinate, for contracts.
    pub open spec fn sy(self) -> int {
        self.y as int
    }

    /// Both coordinates lie within [`COORD_LIMIT`].
    pub open spec fn in_range(self) -> bool {
        -(COORD_LIMIT as int) <= self.x <= COORD_LIMIT as int
            && -(COORD_LIMIT as int) <= self.y <= COORD_LIMIT as int
    }
}

} // verus!
