use crate::geometry::{
    cross_lines, cross_of, line_ok, vertex_point, vertex_x_spec, vertex_y_spec, Line,
};
use crate::point::Point;
use vstd::prelude::*;

verus! {

/// Where an edge of a face comes from: a boundary side of the cell, by its
/// index in the oriented boundary walk, or the bisector against another
/// site, by that site's index among the distinct sites.
#[derive(Clone, Copy, PartialEq, Eq, Structural, Debug)]
pub enum EdgeTag {
    /// Lies on the given side of the boundary cell.
    Boundary(usize),
    /// Lies on the perpendicular bisector against the given site.
    Bisector(usize),
}

/// One directed edge of a face: the exact supporting line, with the half
/// plane of the face on its non-positive side, and the edge's origin.
///
/// Faces store edges rather than coordinates so every vertex — the meet of
/// two consecutive supporting lines — stays exact; twin edges of adjacent
/// faces carry the same bisector line with swapped tags.
#[derive(Clone, Copy, PartialEq, Eq, Structural, Debug)]
pub struct Edge {
    /// The exact supporting line.
    pub line: Line,
    /// Which construction line this edge lies on.
    pub tag: EdgeTag,
}

/// One face of the diagram: the site that generates it and its convex
/// polygon as a cyclic edge list.
#[derive(Clone, Debug)]
pub struct Face {
    /// The input site the face belongs to.
    pub site: Point,
    /// The cyclic edge list of the face's polygon.
    pub edges: Vec<Edge>,
}

/// The finished planar subdivision: one face per distinct input site, each
/// clipped to the boundary cell.
#[derive(Clone, Debug)]
pub struct DCEL {
    /// The faces, in order of first appearance of their sites.
    pub faces: Vec<Face>,
}

/// Every edge of the sequence has a bounded supporting line.
pub open spec fn edges_ok(s: Seq<Edge>) -> bool {
    forall|i: int| 0 <= i < s.len() ==> line_ok(#[trigger] s[i].line)
}

/// Cross product of the supporting lines of edge `i` and its cyclic
/// successor; nonzero means vertex `i` of the face is well defined.
pub open spec fn pair_cross(region: Seq<Edge>, i: int) -> int {
    cross_of(region[i].line, region[(i + 1) % region.len() as int].line)
}

/// Every cyclic pair of consecutive edges meets in a proper vertex.
pub open spec fn all_pairs_ok(region: Seq<Edge>) -> bool {
    forall|i: int| 0 <= i < region.len() ==> #[trigger] pair_cross(region, i) != 0
}

/// Vertex `i` of a face, the meet of edge `i` and its successor, rounded
/// to the nearest grid point.
pub open spec fn vertex_point_spec(e1: Edge, e2: Edge) -> Point {
    Point { x: vertex_x_spec(e1.line, e2.line) as i64, y: vertex_y_spec(e1.line, e2.line) as i64 }
}

/// Vertex `i` of the face, rounded, fits the grid's integer type.
pub open spec fn vertex_fits(region: Seq<Edge>, i: int) -> bool {
    let e1 = region[i];
    let e2 = region[(i + 1) % region.len() as int];
    -0x8000_0000_0000_0000 <= vertex_x_spec(e1.line, e2.line) <= 0x7FFF_FFFF_FFFF_FFFF
        && -0x8000_0000_0000_0000 <= vertex_y_spec(e1.line, e2.line) <= 0x7FFF_FFFF_FFFF_FFFF
}

/// A well-formed face polygon: at least three edges, bounded lines, a
/// proper vertex at every corner, each representable on the grid.
pub open spec fn face_ok(region: Seq<Edge>) -> bool {
    &&& region.len() >= 3
    &&& edges_ok(region)
    &&& all_pairs_ok(region)
    &&& forall|i: int| 0 <= i < region.len() ==> #[trigger] vertex_fits(region, i)
}

/// Every face of the diagram is well formed.
pub open spec fn dcel_ok(faces: Seq<Face>) -> bool {
    forall|i: int| 0 <= i < faces.len() ==> face_ok(#[trigger] faces[i].edges@)
}

/// The closed vertex loop of a face, in the walk order of its edges.
pub open spec fn poly_spec(region: Seq<Edge>) -> Seq<Point> {
    Seq::new(
        region.len(),
        |k: int| vertex_point_spec(region[k], region[(k + 1) % region.len() as int]),
    )
}

/// Decide [`face_ok`] for a candidate face polygon.
pub(crate) fn check_face(region: &Vec<Edge>) -> (r: bool)
    requires
        edges_ok(region@),
    ensures
        r == face_ok(region@),
{
    let m = region.len();
    if m < 3 {
        return false;
    }
    let mut k: usize = 0;
    while k < m
        invariant
            edges_ok(region@),
            m == region@.len(),
            3 <= m,
            k <= m,
            forall|j: int| 0 <= j < k ==> #[trigger] pair_cross(region@, j) != 0,
            forall|j: int| 0 <= j < k ==> #[trigger] vertex_fits(region@, j),
        decreases m - k,
    {
        let next = if k + 1 == m {
            0
        } else {
            k + 1
        };
        proof {
            crate::cell::lemma_cyclic_next(k as int, m as int);
        }
        proof {
            assert(region@[(k as int + 1) % m as int] == region@[next as int]);
        }
        let cr = cross_lines(region[k].line, region[next].line);
        if cr == 0 {
            proof {
                assert(pair_cross(region@, k as int) == 0);
                assert(!all_pairs_ok(region@));
            }
            return false;
        }
        let (vx, vy) = vertex_point(region[k].line, region[next].line);
        if vx < -0x8000_0000_0000_0000i128 || vx > 0x7FFF_FFFF_FFFF_FFFFi128
            || vy < -0x8000_0000_0000_0000i128 || vy > 0x7FFF_FFFF_FFFF_FFFFi128 {
            proof {
                assert(!vertex_fits(region@, k as int));
            }
            return false;
        }
        proof {
            assert(pair_cross(region@, k as int) != 0);
            assert(vertex_fits(region@, k as int));
        }
        k += 1;
    }
    true
}

/// The vertex loops of all faces, one closed polygon per face, in a
/// consistent winding order.
pub fn make_polygons(diagram: &DCEL) -> (r: Vec<Vec<Point>>)
    requires
        dcel_ok(diagram.faces@),
    ensures
        r@.len() == diagram.faces@.len(),
        forall|i: int|
            0 <= i < r@.len() ==> #[trigger] r@[i]@ == poly_spec(diagram.faces@[i].edges@),
{
    let n = diagram.faces.len();
    let mut r: Vec<Vec<Point>> = Vec::new();
    let mut i: usize = 0;
    while i < n
        invariant
            dcel_ok(diagram.faces@),
            n == diagram.faces@.len(),
            i <= n,
            r@.len() == i,
            forall|j: int|
                0 <= j < i ==> #[trigger] r@[j]@ == poly_spec(diagram.faces@[j].edges@),
        decreases n - i,
    {
        proof {
            assert(face_ok(diagram.faces@[i as int].edges@));
        }
        let poly = face_polygon(&diagram.faces[i].edges);
        r.push(poly);
        i += 1;
    }
    r
}

/// The rounded vertex loop of one face.
fn face_polygon(region: &Vec<Edge>) -> (r: Vec<Point>)
    requires
        face_ok(region@),
    ensures
        r@ == poly_spec(region@),
{
    let m = region.len();
    let mut r: Vec<Point> = Vec::new();
    let mut k: usize = 0;
    while k < m
        invariant
            face_ok(region@),
            m == region@.len(),
            k <= m,
            r@.len() == k,
            forall|j: int| 0 <= j < k ==> #[trigger] r@[j] == poly_spec(region@)[j],
        decreases m - k,
    {
        let next = if k + 1 == m {
            0
        } else {
            k + 1
        };
        proof {
            crate::cell::lemma_cyclic_next(k as int, m as int);
            assert(pair_cross(region@, k as int) != 0);
            assert(vertex_fits(region@, k as int));
        }
        let (vx, vy) = vertex_point(region[k].line, region[next].line);
        r.push(Point::new(vx as i64, vy as i64));
        k += 1;
    }
    proof {
        assert(r@ =~= poly_spec(region@));
    }
    r
}

/// Whether a face edge is emitted by [`make_line_segments`]: boundary
/// edges always, bisector edges only from the lower-indexed face, so each
/// internal edge appears once rather than once per twin.
pub open spec fn emits(face_idx: int, e: Edge) -> bool {
    match e.tag {
        EdgeTag::Boundary(_) => true,
        EdgeTag::Bisector(j) => j > face_idx,
    }
}

/// The rounded endpoints of edge `k` of a face: the vertex it leaves and
/// the vertex it reaches.
pub open spec fn edge_segment_spec(region: Seq<Edge>, k: int) -> (Point, Point) {
    let m = region.len() as int;
    (
        vertex_point_spec(region[(k - 1 + m) % m], region[k]),
        vertex_point_spec(region[k], region[(k + 1) % m]),
    )
}

/// The segments face `i` emits, over its first `k` edges.
pub open spec fn face_segments_spec(region: Seq<Edge>, i: int, k: int) -> Seq<(Point, Point)>
    decreases k,
{
    if k <= 0 {
        Seq::empty()
    } else {
        face_segments_spec(region, i, k - 1) + (if emits(i, region[k - 1]) {
            seq![edge_segment_spec(region, k - 1)]
        } else {
            Seq::empty()
        })
    }
}

/// The segments of all faces up to face `i`, concatenated.
pub open spec fn segments_spec(faces: Seq<Face>, i: int) -> Seq<(Point, Point)>
    decreases i,
{
    if i <= 0 {
        Seq::empty()
    } else {
        segments_spec(faces, i - 1) + face_segments_spec(
            faces[i - 1].edges@,
            i - 1,
            faces[i - 1].edges@.len() as int,
        )
    }
}

/// One segment per distinct edge of the diagram: every boundary piece
/// once, and every internal (bisector) edge once, not once per twin.
pub fn make_line_segments(diagram: &DCEL) -> (r: Vec<(Point, Point)>)
    requires
        dcel_ok(diagram.faces@),
    ensures
        r@ == segments_spec(diagram.faces@, diagram.faces@.len() as int),
{
    let n = diagram.faces.len();
    let mut r: Vec<(Point, Point)> = Vec::new();
    let mut i: usize = 0;
    while i < n
        invariant
            dcel_ok(diagram.faces@),
            n == diagram.faces@.len(),
            i <= n,
            r@ == segments_spec(diagram.faces@, i as int),
        decreases n - i,
    {
        proof {
            assert(face_ok(diagram.faces@[i as int].edges@));
        }
        let mut segs = face_segments(&diagram.faces[i].edges, i);
        r.append(&mut segs);
        i += 1;
    }
    r
}

/// The segments one face emits.
fn face_segments(region: &Vec<Edge>, i: usize) -> (r: Vec<(Point, Point)>)
    requires
        face_ok(region@),
    ensures
        r@ == face_segments_spec(region@, i as int, region@.len() as int),
{
    let m = region.len();
    let mut r: Vec<(Point, Point)> = Vec::new();
    let mut k: usize = 0;
    while k < m
        invariant
            face_ok(region@),
            m == region@.len(),
            k <= m,
            r@ == face_segments_spec(region@, i as int, k as int),
        decreases m - k,
    {
        let next = if k + 1 == m {
            0
        } else {
            k + 1
        };
        let prev = if k == 0 {
            m - 1
        } else {
            k - 1
        };
        proof {
            crate::cell::lemma_cyclic_next(k as int, m as int);
            crate::cell::lemma_cyclic_prev(k as int, m as int);
            crate::cell::lemma_cyclic_next(prev as int, m as int);
            assert(region@[(prev as int + 1) % m as int] == region@[k as int]);
            assert(region@[(k as int + 1) % m as int] == region@[next as int]);
            assert(pair_cross(region@, prev as int) != 0);
            assert(pair_cross(region@, k as int) != 0);
            assert(vertex_fits(region@, prev as int));
            assert(vertex_fits(region@, k as int));
        }
        let emit = match region[k].tag {
            EdgeTag::Boundary(_) => true,
            EdgeTag::Bisector(j) => j > i,
        };
        if emit {
            let (ax, ay) = vertex_point(region[prev].line, region[k].line);
            let (bx, by) = vertex_point(region[k].line, region[next].line);
            r.push((Point::new(ax as i64, ay as i64), Point::new(bx as i64, by as i64)));
        }
        k += 1;
    }
    r
}

} // verus!
