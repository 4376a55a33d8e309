use crate::cell::{points_in_range, signed_area2, Cell};
use crate::dcel::{dcel_ok, face_ok, make_polygons, poly_spec};
use crate::error::VoronoiError;
use crate::geometry::floor_div;
use crate::point::Point;
use crate::voronoi::{dedup_spec, faces_view, voronoi, voronoi_spec};
use vstd::prelude::*;

verus! {

/// Sum of the x coordinates of the first `i` points.
pub open spec fn sum_x(s: Seq<Point>, i: int) -> int
    decreases i,
{
    if i <= 0 {
        0int
    } else {
        sum_x(s, i - 1) + s[i - 1].sx()
    }
}

/// Sum of the y coordinates of the first `i` points.
pub open spec fn sum_y(s: Seq<Point>, i: int) -> int
    decreases i,
{
    if i <= 0 {
        0int
    } else {
        sum_y(s, i - 1) + s[i - 1].sy()
    }
}

/// The arithmetic mean of the polygon's vertices (not area-weighted),
/// each coordinate rounded down to the grid.
pub open spec fn centroid_spec(s: Seq<Point>) -> Point {
    Point {
        x: (sum_x(s, s.len() as int) / s.len() as int) as i64,
        y: (sum_y(s, s.len() as int) / s.len() as int) as i64,
    }
}

/// One Lloyd pass at the specification level: the centroid of every face
/// polygon of the diagram, in face order.
pub open spec fn lloyd_spec(points: Seq<Point>, b: Seq<Point>) -> Option<Seq<Point>> {
    match voronoi_spec(points, b) {
        Option::None => Option::None,
        Option::Some(faces) => Some(
            Seq::new(faces.len(), |i: int| centroid_spec(poly_spec(faces[i].1))),
        ),
    }
}

/// Coordinate sums over `i` points stay within `i` times the grid range.
proof fn lemma_sum_bounds(s: Seq<Point>, i: int)
    requires
        0 <= i <= s.len(),
    ensures
        -(i * 0x8000_0000_0000_0000) <= sum_x(s, i) <= i * 0x7fff_ffff_ffff_ffff,
        -(i * 0x8000_0000_0000_0000) <= sum_y(s, i) <= i * 0x7fff_ffff_ffff_ffff,
    decreases i,
{
    if i > 0 {
        lemma_sum_bounds(s, i - 1);
    }
}

/// Law: the centroid is the floor of the exact vertex mean, coordinate by
/// coordinate: `n * c <= sum < n * (c + 1)`. A relaxation step therefore
/// lands each point within one grid unit of the exact mean of its cell's
/// vertices — rounding never carries a point away from it by a full unit.
pub proof fn lemma_centroid_is_floor_of_mean(s: Seq<Point>)
    requires
        s.len() >= 1,
    ensures
        (s.len() as int) * centroid_spec(s).sx() <= sum_x(s, s.len() as int) < (s.len() as int) * (
        centroid_spec(s).sx() + 1),
        (s.len() as int) * centroid_spec(s).sy() <= sum_y(s, s.len() as int) < (s.len() as int) * (
        centroid_spec(s).sy() + 1),
{
    let n = s.len() as int;
    lemma_sum_bounds(s, n);
    let sx = sum_x(s, n);
    let sy = sum_y(s, n);
    vstd::arithmetic::div_mod::lemma_div_is_ordered(n * -0x8000_0000_0000_0000, sx, n);
    vstd::arithmetic::div_mod::lemma_div_multiples_vanish(-0x8000_0000_0000_0000, n);
    vstd::arithmetic::div_mod::lemma_div_is_ordered(sx, n * 0x7fff_ffff_ffff_ffff, n);
    vstd::arithmetic::div_mod::lemma_div_multiples_vanish(0x7fff_ffff_ffff_ffff, n);
    vstd::arithmetic::div_mod::lemma_div_is_ordered(n * -0x8000_0000_0000_0000, sy, n);
    vstd::arithmetic::div_mod::lemma_div_is_ordered(sy, n * 0x7fff_ffff_ffff_ffff, n);
    assert(centroid_spec(s).sx() == sx / n);
    assert(centroid_spec(s).sy() == sy / n);
    vstd::arithmetic::div_mod::lemma_fundamental_div_mod(sx, n);
    vstd::arithmetic::div_mod::lemma_mod_bound(sx, n);
    vstd::arithmetic::div_mod::lemma_fundamental_div_mod(sy, n);
    vstd::arithmetic::div_mod::lemma_mod_bound(sy, n);
    assert(n * (sx / n + 1) == n * (sx / n) + n) by (nonlinear_arith);
    assert(n * (sy / n + 1) == n * (sy / n) + n) by (nonlinear_arith);
}

/// The absolute value of an integer.
pub open spec fn abs_of(x: int) -> int {
    if x >= 0 {
        x
    } else {
        -x
    }
}

/// Law: relaxation never moves a point away from the exact vertex mean
/// of its cell, in x. Distances are kept exact by scaling with the
/// vertex count `n`: the moved coordinate lands within one grid unit of
/// the mean, so any point at least one unit away strictly approaches it.
/// Only a point already within one grid unit of the mean can be passed
/// over by rounding — by less than a unit.
pub proof fn lemma_relaxed_x_approaches_mean(s: Seq<Point>, p: Point)
    requires
        s.len() >= 1,
        abs_of((s.len() as int) * p.sx() - sum_x(s, s.len() as int)) >= s.len() as int,
    ensures
        abs_of((s.len() as int) * centroid_spec(s).sx() - sum_x(s, s.len() as int)) < abs_of(
            (s.len() as int) * p.sx() - sum_x(s, s.len() as int),
        ),
{
    lemma_centroid_is_floor_of_mean(s);
    let n = s.len() as int;
    let c = centroid_spec(s).sx();
    assert(n * (c + 1) == n * c + n) by (nonlinear_arith);
}

/// Law: relaxation never moves a point away from the exact vertex mean
/// of its cell, in y; the companion of [`lemma_relaxed_x_approaches_mean`].
pub proof fn lemma_relaxed_y_approaches_mean(s: Seq<Point>, p: Point)
    requires
        s.len() >= 1,
        abs_of((s.len() as int) * p.sy() - sum_y(s, s.len() as int)) >= s.len() as int,
    ensures
        abs_of((s.len() as int) * centroid_spec(s).sy() - sum_y(s, s.len() as int)) < abs_of(
            (s.len() as int) * p.sy() - sum_y(s, s.len() as int),
        ),
{
    lemma_centroid_is_floor_of_mean(s);
    let n = s.len() as int;
    let c = centroid_spec(s).sy();
    assert(n * (c + 1) == n * c + n) by (nonlinear_arith);
}

/// Computes the centroid of a polygon: the arithmetic mean of its
/// vertices, coordinates rounded down to the grid.
pub fn polygon_centroid(pts: &Vec<Point>) -> (r: Point)
    requires
        pts@.len() >= 1,
    ensures
        r == centroid_spec(pts@),
{
    let n = pts.len();
    let mut sx: i128 = 0;
    let mut sy: i128 = 0;
    let mut i: usize = 0;
    while i < n
        invariant
            n == pts@.len(),
            i <= n,
            sx == sum_x(pts@, i as int),
            sy == sum_y(pts@, i as int),
            -(i as int) * 0x8000_0000_0000_0000 <= sx <= (i as int) * 0x8000_0000_0000_0000,
            -(i as int) * 0x8000_0000_0000_0000 <= sy <= (i as int) * 0x8000_0000_0000_0000,
        decreases n - i,
    {
        sx = sx + pts[i].x() as i128;
        sy = sy + pts[i].y() as i128;
        i += 1;
    }
    let cx = floor_div(sx, n as i128);
    let cy = floor_div(sy, n as i128);
    Point::new(cx as i64, cy as i64)
}

/// Produces the Lloyd relaxation of a set of points: each point is moved
/// to the centroid of its Voronoi cell, one iteration per call.
pub fn lloyd_relaxation(pts: Vec<Point>, boxsize: &Cell) -> (r: Result<Vec<Point>, VoronoiError>)
    requires
        pts@.len() >= 1,
        points_in_range(pts@),
        points_in_range(boxsize@),
    ensures
        match r {
            Ok(out) => Some(out@) == lloyd_spec(pts@, boxsize@) && out@.len() == dedup_spec(
                pts@,
            ).len(),
            Err(e) => lloyd_spec(pts@, boxsize@) is None && ((e == VoronoiError::DegenerateBoundary
                && signed_area2(boxsize@) == 0) || (e == VoronoiError::ClipFailure && signed_area2(
                boxsize@,
            ) != 0)),
        },
{
    let ghost pts0 = pts@;
    let diagram = match voronoi(pts, boxsize) {
        Ok(d) => d,
        Err(e) => {
            return Err(e);
        },
    };
    let faces = make_polygons(&diagram);
    let ghost spec_faces = voronoi_spec(pts0, boxsize@)->Some_0;
    proof {
        assert(faces_view(diagram.faces@) == spec_faces);
        assert(faces@.len() == spec_faces.len());
    }
    let n = faces.len();
    let mut out: Vec<Point> = Vec::new();
    let mut i: usize = 0;
    while i < n
        invariant
            n == faces@.len(),
            i <= n,
            out@.len() == i,
            dcel_ok(diagram.faces@),
            n == diagram.faces@.len(),
            spec_faces == faces_view(diagram.faces@),
            forall|j: int|
                0 <= j < n ==> #[trigger] faces@[j]@ == poly_spec(diagram.faces@[j].edges@),
            forall|j: int| 0 <= j < i ==> #[trigger] out@[j] == centroid_spec(faces@[j]@),
        decreases n - i,
    {
        proof {
            assert(face_ok(diagram.faces@[i as int].edges@));
            assert(faces@[i as int]@ == poly_spec(diagram.faces@[i as int].edges@));
            assert(faces@[i as int]@.len() >= 3);
        }
        let c = polygon_centroid(&faces[i]);
        out.push(c);
        i += 1;
    }
    proof {
        assert(out@ =~= Seq::new(
            spec_faces.len(),
            |j: int| centroid_spec(poly_spec(spec_faces[j].1)),
        ));
    }
    Ok(out)
}

} // verus!
