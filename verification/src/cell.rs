use crate::error::VoronoiError;
use crate::geometry::lemma_mul_bound;
use crate::point::{Point, COORD_LIMIT};
use vstd::arithmetic::div_mod::{lemma_mod_multiples_vanish, lemma_small_mod};
use vstd::prelude::*;

verus! {

/// The polygonal boundary of the diagram: an ordered sequence of at least
/// three grid points, walked once around.
///
/// Containment and clipping use exact sign tests, so a point exactly on an
/// edge counts as inside.
#[derive(Clone, Debug)]
pub struct Cell {
    boundary: Vec<Point>,
}

impl View for Cell {
    type V = Seq<Point>;

    closed spec fn view(&self) -> Seq<Point> {
        self.boundary@
    }
}

/// Every point of the sequence is within [`COORD_LIMIT`].
pub open spec fn points_in_range(b: Seq<Point>) -> bool {
    forall|i: int| 0 <= i < b.len() ==> #[trigger] b[i].in_range()
}

/// The cross product of `l1 - l0` with `p - l0`, the exact quantity
/// behind the edge sign test; positive means `p` lies left of the
/// directed line `l0 -> l1`, negative right, zero exactly on it.
pub open spec fn line_cross_point(p: Point, l0: Point, l1: Point) -> int {
    (l1.sx() - l0.sx()) * (p.sy() - l0.sy()) - (p.sx() - l0.sx()) * (l1.sy() - l0.sy())
}

/// The span on which `p` can lie exactly on the closed edge `v0 -> v1`:
/// for a sloped or vertical edge, its closed y-span reaches `p`'s y
/// coordinate; for a fully horizontal edge the y coordinates give no
/// confinement, so `p` must sit at the edge's height within its closed
/// x-span.
pub open spec fn edge_spans(v0: Point, v1: Point, p: Point) -> bool {
    if v0.sy() == v1.sy() {
        p.sy() == v0.sy() && (v0.sx() <= p.sx() <= v1.sx() || v0.sx() >= p.sx() >= v1.sx())
    } else {
        v0.sy() <= p.sy() <= v1.sy() || v0.sy() >= p.sy() >= v1.sy()
    }
}

/// The edge `v0 -> v1` crosses `p`'s y coordinate going upward, counted
/// half-openly: the lower end is included and the upper excluded, so a
/// monotone chain passing through a vertex at `p`'s height is counted
/// exactly once, never double.
pub open spec fn edge_up(v0: Point, v1: Point, p: Point) -> bool {
    v0.sy() <= p.sy() < v1.sy()
}

/// The edge `v0 -> v1` crosses `p`'s y coordinate going downward, counted
/// half-openly with the same convention: the lower end included, the
/// upper excluded.
pub open spec fn edge_down(v0: Point, v1: Point, p: Point) -> bool {
    v0.sy() > p.sy() >= v1.sy()
}

/// `p` lies exactly on the closed edge from `v0` to `v1`.
pub open spec fn edge_on(v0: Point, v1: Point, p: Point) -> bool {
    edge_spans(v0, v1, p) && line_cross_point(p, v0, v1) == 0
}

/// Signed crossing count the edge contributes to the parity test.
pub open spec fn edge_delta(v0: Point, v1: Point, p: Point) -> int {
    if edge_up(v0, v1, p) && line_cross_point(p, v0, v1) < 0 {
        1int
    } else if edge_down(v0, v1, p) && line_cross_point(p, v0, v1) > 0 {
        -1int
    } else {
        0int
    }
}

/// Sum of the crossing contributions of the first `i` edges of `b`.
pub open spec fn delta_sum(b: Seq<Point>, p: Point, i: int) -> int
    decreases i,
{
    if i <= 0 {
        0int
    } else {
        delta_sum(b, p, i - 1) + edge_delta(b[i - 1], b[i % b.len() as int], p)
    }
}

/// Ray-casting containment: `p` is inside `b` iff it lies exactly on some
/// edge, or the horizontal ray leftward from `p` crosses the boundary an
/// odd number of times, each crossing counted once by the half-open rule.
pub open spec fn spec_contains(b: Seq<Point>, p: Point) -> bool {
    (exists|i: int|
        0 <= i < b.len() && edge_on(b[i], #[trigger] b[(i + 1) % b.len() as int], p)) || delta_sum(
        b,
        p,
        b.len() as int,
    ) % 2 != 0
}

/// Shoelace sum of the first `i` edges of `b`: twice the signed area once
/// `i` reaches the length.
pub open spec fn shoelace_sum(b: Seq<Point>, i: int) -> int
    decreases i,
{
    if i <= 0 {
        0int
    } else {
        let v0 = b[i - 1];
        let v1 = b[i % b.len() as int];
        shoelace_sum(b, i - 1) + (v1.sx() + v0.sx()) * (v1.sy() - v0.sy())
    }
}

/// Twice the signed area of the polygon: positive for a counterclockwise
/// walk.
pub open spec fn signed_area2(b: Seq<Point>) -> int {
    shoelace_sum(b, b.len() as int)
}

/// The vertex walk of the axis-aligned square `[0, b] x [0, b]`, counter-
/// clockwise from the origin for positive `b`.
pub open spec fn square_boundary(boxsize: i64) -> Seq<Point> {
    seq![
        Point { x: 0, y: 0 },
        Point { x: boxsize, y: 0 },
        Point { x: boxsize, y: boxsize },
        Point { x: 0, y: boxsize },
    ]
}

/// Law: a boundary contains every one of its own vertices, with no
/// proviso. The vertex lies on its own outgoing edge: on a sloped or
/// vertical edge the closed y-span holds it, and on a horizontal edge
/// the closed x-span does.
pub proof fn lemma_boundary_contains_own_vertices(b: Seq<Point>, i: int)
    requires
        b.len() >= 1,
        0 <= i < b.len(),
    ensures
        spec_contains(b, b[i]),
{
    let m = b.len() as int;
    let p = b[i];
    let v1 = b[(i + 1) % m];
    assert(line_cross_point(p, p, v1) == 0) by (nonlinear_arith);
    assert(edge_on(b[i], b[(i + 1) % m], p));
}

/// The cyclic successor of `k` below `m` is `k + 1`, wrapping to `0`.
pub proof fn lemma_cyclic_next(k: int, m: int)
    requires
        0 <= k < m,
    ensures
        (k + 1) % m == if k + 1 == m {
            0int
        } else {
            k + 1
        },
{
    if k + 1 == m {
        lemma_mod_multiples_vanish(1, 0, m);
        lemma_small_mod(0nat, m as nat);
    } else {
        lemma_small_mod((k + 1) as nat, m as nat);
    }
}

/// The cyclic predecessor of `k` below `m` is `k - 1`, wrapping to `m - 1`.
pub proof fn lemma_cyclic_prev(k: int, m: int)
    requires
        0 <= k < m,
    ensures
        (k - 1 + m) % m == if k == 0 {
            m - 1
        } else {
            k - 1
        },
{
    if k == 0 {
        lemma_small_mod((m - 1) as nat, m as nat);
    } else {
        lemma_mod_multiples_vanish(1, k - 1, m);
        lemma_small_mod((k - 1) as nat, m as nat);
    }
}

/// Which side of the directed line `l0 -> l1` the point `p` lies on:
/// `1` left, `0` exactly on the line, `-1` right.
pub fn point_to_line(p: &Point, l0: &Point, l1: &Point) -> (r: i32)
    requires
        p.in_range(),
        l0.in_range(),
        l1.in_range(),
    ensures
        r as int == crate::geometry::sign_of(line_cross_point(*p, *l0, *l1)),
{
    let c = cross_point(p, l0, l1);
    if c < 0 {
        -1
    } else if c > 0 {
        1
    } else {
        0
    }
}

/// Exact evaluation of [`line_cross_point`] in `i128`.
fn cross_point(p: &Point, l0: &Point, l1: &Point) -> (r: i128)
    requires
        p.in_range(),
        l0.in_range(),
        l1.in_range(),
    ensures
        r == line_cross_point(*p, *l0, *l1),
{
    let dx = l1.x() as i128 - l0.x() as i128;
    let dy = l1.y() as i128 - l0.y() as i128;
    let px = p.x() as i128 - l0.x() as i128;
    let py = p.y() as i128 - l0.y() as i128;
    proof {
        let bb = COORD_LIMIT as int;
        lemma_mul_bound(dx as int, py as int, 2 * bb, 2 * bb);
        lemma_mul_bound(px as int, dy as int, 2 * bb, 2 * bb);
    }
    dx * py - px * dy
}

impl Cell {
    /// Build a boundary cell from an ordered vertex walk; at least three
    /// vertices are required for a contained shape.
    ///
    /// Vertices beyond [`COORD_LIMIT`] are stored as given, but the exact
    /// predicates are specified only on in-range cells: a caller holding
    /// a cell of unknown origin tests [`Cell::in_range`] before querying.
    pub fn from_points(boundary: Vec<Point>) -> (r: Result<Cell, VoronoiError>)
        ensures
            match r {
                Ok(c) => boundary@.len() >= 3 && c@ == boundary@,
                Err(e) => boundary@.len() < 3 && e == VoronoiError::TooFewVertices,
            },
    {
        if boundary.len() < 3 {
            return Err(VoronoiError::TooFewVertices);
        }
        Ok(Cell { boundary })
    }

    /// The axis-aligned square `[0, boxsize] x [0, boxsize]`, walked
    /// counterclockwise from the origin.
    pub fn new(boxsize: i64) -> (r: Cell)
        ensures
            r@ =~= square_boundary(boxsize),
    {
        let mut boundary: Vec<Point> = Vec::new();
        boundary.push(Point::new(0, 0));
        boundary.push(Point::new(boxsize, 0));
        boundary.push(Point::new(boxsize, boxsize));
        boundary.push(Point::new(0, boxsize));
        Cell { boundary }
    }

    /// The directed edges of the boundary, each vertex paired with its
    /// cyclic successor.
    pub fn sides(&self) -> (r: Vec<(Point, Point)>)
        ensures
            r@.len() == self@.len(),
            forall|i: int|
                0 <= i < self@.len() ==> #[trigger] r@[i] == (
                    self@[i],
                    self@[(i + 1) % self@.len() as int],
                ),
    {
        let n = self.boundary.len();
        let mut r: Vec<(Point, Point)> = Vec::new();
        let mut i: usize = 0;
        while i < n
            invariant
                n == self@.len(),
                i <= n,
                r@.len() == i,
                forall|j: int|
                    0 <= j < i ==> #[trigger] r@[j] == (self@[j], self@[(j + 1) % n as int]),
            decreases n - i,
        {
            let next = if i + 1 == n {
                0
            } else {
                i + 1
            };
            proof {
                if i + 1 < n {
                    lemma_small_mod((i + 1) as nat, n as nat);
                } else {
                    assert(n as int % n as int == 0) by {
                        lemma_mod_multiples_vanish(1, 0, n as int);
                    }
                }
            }
            r.push((self.boundary[i], self.boundary[next]));
            i += 1;
        }
        r
    }

    /// Twice the unsigned area of the boundary polygon, by the shoelace
    /// sum; exact, hence returned doubled rather than halved.
    pub fn doubled_area(&self) -> (r: i128)
        requires
            points_in_range(self@),
        ensures
            r == if signed_area2(self@) >= 0 {
                signed_area2(self@)
            } else {
                -signed_area2(self@)
            },
    {
        let n = self.boundary.len();
        let s = self.shoelace(n);
        proof {
            let bb = COORD_LIMIT as int;
            lemma_mul_bound(n as int, 8 * bb * bb, 0x1_0000_0000_0000_0000, 8 * bb * bb);
        }
        if s >= 0 {
            s
        } else {
            -s
        }
    }

    /// Twice the signed area of the boundary polygon: positive when the
    /// vertices are walked counterclockwise.
    pub fn signed_doubled_area(&self) -> (r: i128)
        requires
            points_in_range(self@),
        ensures
            r == signed_area2(self@),
    {
        self.shoelace(self.boundary.len())
    }

    /// Shoelace sum over the first `k` edges.
    fn shoelace(&self, k: usize) -> (r: i128)
        requires
            points_in_range(self@),
            k <= self@.len(),
        ensures
            r == shoelace_sum(self@, k as int),
            -(k as int) * 8 * (COORD_LIMIT as int) * (COORD_LIMIT as int) <= r <= (k as int) * 8 * (
            COORD_LIMIT as int) * (COORD_LIMIT as int),
    {
        let n = self.boundary.len();
        let mut acc: i128 = 0;
        let mut i: usize = 0;
        while i < k
            invariant
                points_in_range(self@),
                n == self@.len(),
                k <= n,
                i <= k,
                acc == shoelace_sum(self@, i as int),
                -(i as int) * 8 * (COORD_LIMIT as int) * (COORD_LIMIT as int) <= acc <= (
                i as int) * 8 * (COORD_LIMIT as int) * (COORD_LIMIT as int),
            decreases k - i,
        {
            let next = if i + 1 == n {
                0
            } else {
                i + 1
            };
            proof {
                if i + 1 < n {
                    lemma_small_mod((i + 1) as nat, n as nat);
                } else {
                    assert(n as int % n as int == 0) by {
                        lemma_mod_multiples_vanish(1, 0, n as int);
                    }
                }
            }
            let v0 = self.boundary[i];
            let v1 = self.boundary[next];
            proof {
                assert(self@[i as int].in_range());
                assert(self@[next as int].in_range());
            }
            let xs = v0.x() as i128 + v1.x() as i128;
            let yd = v1.y() as i128 - v0.y() as i128;
            proof {
                let bb = COORD_LIMIT as int;
                lemma_mul_bound(xs as int, yd as int, 2 * bb, 2 * bb);
                lemma_mul_bound(i as int, 8 * bb * bb, 0x1_0000_0000_0000_0000, 8 * bb * bb);
                lemma_mul_bound((i + 1) as int, 8 * bb * bb, 0x1_0000_0000_0000_0000, 8 * bb * bb);
                assert((i + 1) as int * (8 * bb * bb) == i as int * (8 * bb * bb) + 8 * bb * bb)
                    by (nonlinear_arith);
            }
            acc = acc + xs * yd;
            i += 1;
        }
        acc
    }

    /// The ordered boundary vertices.
    pub(crate) fn vertices(&self) -> (r: &Vec<Point>)
        ensures
            r@ == self@,
    {
        &self.boundary
    }

    /// Whether every boundary vertex is within [`COORD_LIMIT`], the
    /// domain on which the exact predicates ([`Cell::contains`],
    /// [`crate::voronoi`]) are proved overflow-free. A caller holding a
    /// cell of unknown origin tests this before querying it.
    pub fn in_range(&self) -> (r: bool)
        ensures
            r == points_in_range(self@),
    {
        let n = self.boundary.len();
        let mut i: usize = 0;
        while i < n
            invariant
                n == self@.len(),
                i <= n,
                forall|j: int| 0 <= j < i ==> #[trigger] self@[j].in_range(),
            decreases n - i,
        {
            let p = self.boundary[i];
            if p.x() < -COORD_LIMIT || p.x() > COORD_LIMIT || p.y() < -COORD_LIMIT || p.y()
                > COORD_LIMIT {
                proof {
                    assert(!self@[i as int].in_range());
                }
                return false;
            }
            proof {
                assert(self@[i as int].in_range());
            }
            i += 1;
        }
        true
    }

    /// Whether `point` lies inside the boundary, points exactly on an edge
    /// counting as inside.
    pub fn contains(&self, point: &Point) -> (r: bool)
        requires
            points_in_range(self@),
            point.in_range(),
        ensures
            r == spec_contains(self@, *point),
    {
        let n = self.boundary.len();
        let mut ups: u128 = 0;
        let mut downs: u128 = 0;
        let mut i: usize = 0;
        while i < n
            invariant
                points_in_range(self@),
                point.in_range(),
                n == self@.len(),
                i <= n,
                ups <= i,
                downs <= i,
                ups as int - downs as int == delta_sum(self@, *point, i as int),
                forall|j: int|
                    0 <= j < i ==> !edge_on(
                        self@[j],
                        #[trigger] self@[(j + 1) % n as int],
                        *point,
                    ),
            decreases n - i,
        {
            let next = if i + 1 == n {
                0
            } else {
                i + 1
            };
            proof {
                if i + 1 < n {
                    lemma_small_mod((i + 1) as nat, n as nat);
                } else {
                    assert(n as int % n as int == 0) by {
                        lemma_mod_multiples_vanish(1, 0, n as int);
                    }
                }
            }
            let v0 = self.boundary[i];
            let v1 = self.boundary[next];
            let vy0 = v0.y();
            let vy1 = v1.y();
            let py = point.y();
            if vy0 == vy1 {
                let vx0 = v0.x();
                let vx1 = v1.x();
                let px = point.x();
                if py == vy0 && (vx0 <= px && px <= vx1 || vx0 >= px && px >= vx1) {
                    proof {
                        assert(line_cross_point(*point, v0, v1) == 0) by (nonlinear_arith)
                            requires
                                point.sy() == v0.sy(),
                                v0.sy() == v1.sy(),
                        ;
                        assert(edge_on(self@[i as int], self@[(i as int + 1) % n as int], *point));
                    }
                    return true;
                }
            } else {
                let spans = vy0 <= py && py <= vy1 || vy0 >= py && py >= vy1;
                if spans {
                    let c = cross_point(point, &v0, &v1);
                    if c == 0 {
                        proof {
                            assert(edge_on(
                                self@[i as int],
                                self@[(i as int + 1) % n as int],
                                *point,
                            ));
                        }
                        return true;
                    }
                    if vy0 <= py && py < vy1 && c < 0 {
                        ups += 1;
                    } else if vy0 > py && py >= vy1 && c > 0 {
                        downs += 1;
                    }
                }
            }
            i += 1;
        }
        proof {
            let u = ups as int;
            let d = downs as int;
            lemma_mod_multiples_vanish(d, u - d, 2);
        }
        (ups + downs) % 2 == 1
    }
}

} // verus!
