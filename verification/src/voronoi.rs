use crate::cell::{
    lemma_cyclic_next, lemma_cyclic_prev, points_in_range, signed_area2, Cell,
};
use crate::dcel::{all_pairs_ok, edges_ok, face_ok, pair_cross, Edge, EdgeTag, Face, DCEL};
use crate::error::VoronoiError;
use crate::geometry::{
    bisector, bisector_spec, cross_lines, cross_of, edge_line, edge_line_spec, line_ok, side_at,
    side_of, Line,
};
use crate::point::Point;
use vstd::prelude::*;

verus! {

/// Side of vertex `i` of the region (the meet of edge `i` and its cyclic
/// successor) with respect to the half plane of `h`: non-positive means
/// the vertex is kept.
pub open spec fn vside(region: Seq<Edge>, h: Line, i: int) -> int {
    side_at(h, region[i].line, region[(i + 1) % region.len() as int].line)
}

/// Edge `i` survives the clip by `h`: at least one of its endpoints lies
/// strictly inside the half plane of `h`. An edge touching the clip line
/// only at endpoints contributes nothing but a point and is dropped.
pub open spec fn keep_edge(region: Seq<Edge>, h: Line, i: int) -> bool {
    vside(region, h, (i - 1 + region.len() as int) % region.len() as int) < 0 || vside(
        region,
        h,
        i,
    ) < 0
}

/// The walk leaves the strict interior of the half plane of `h` along
/// edge `i`, so the new edge on `h` is spliced in right after it.
pub open spec fn exit_edge(region: Seq<Edge>, h: Line, i: int) -> bool {
    vside(region, h, (i - 1 + region.len() as int) % region.len() as int) < 0 && vside(
        region,
        h,
        i,
    ) >= 0
}

/// What edge `i` contributes to the clipped region.
pub open spec fn clip_items(region: Seq<Edge>, h: Line, tag: EdgeTag, i: int) -> Seq<Edge> {
    (if keep_edge(region, h, i) {
        seq![region[i]]
    } else {
        Seq::empty()
    }) + (if exit_edge(region, h, i) {
        seq![Edge { line: h, tag }]
    } else {
        Seq::empty()
    })
}

/// How many of the first `i` edges leave the half plane of `h`. A convex
/// walk leaves at most once; a second exit betrays a nonconvex region
/// whose clip would self-intersect.
pub open spec fn exit_count(region: Seq<Edge>, h: Line, i: int) -> int
    decreases i,
{
    if i <= 0 {
        0int
    } else {
        exit_count(region, h, i - 1) + (if exit_edge(region, h, i - 1) {
            1int
        } else {
            0int
        })
    }
}

/// The clipped region assembled from edge `i` onward.
pub open spec fn clip_build(region: Seq<Edge>, h: Line, tag: EdgeTag, i: int) -> Seq<Edge>
    decreases region.len() - i,
{
    if i < 0 || i >= region.len() {
        Seq::empty()
    } else {
        clip_items(region, h, tag, i) + clip_build(region, h, tag, i + 1)
    }
}

/// Clipping a region by the half plane of `h`: `None` when some pair of
/// consecutive edges is parallel, so a vertex side is undefined.
///
/// A region with no vertex strictly outside is unchanged — in particular
/// one the clip line only touches at a corner, which must not pick up a
/// zero-length edge. One with no vertex strictly inside is emptied.
/// Otherwise the crossing walk keeps the edges with a strictly interior
/// endpoint and splices the new edge in where the walk leaves `h`. A walk
/// that leaves more than once (a nonconvex region astride the clip line)
/// is refused rather than spliced into a self-intersecting polygon.
pub open spec fn clip_spec(region: Seq<Edge>, h: Line, tag: EdgeTag) -> Option<Seq<Edge>> {
    if region.len() == 0 {
        Some(Seq::empty())
    } else if !all_pairs_ok(region) {
        None
    } else if forall|i: int| 0 <= i < region.len() ==> #[trigger] vside(region, h, i) <= 0 {
        Some(region)
    } else if forall|i: int| 0 <= i < region.len() ==> #[trigger] vside(region, h, i) >= 0 {
        Some(Seq::empty())
    } else if exit_count(region, h, region.len() as int) != 1 {
        None
    } else {
        Some(clip_build(region, h, tag, 0))
    }
}

/// The distinct points of `s`, in order of first appearance.
pub open spec fn dedup_spec(s: Seq<Point>) -> Seq<Point>
    decreases s.len(),
{
    if s.len() == 0 {
        Seq::empty()
    } else {
        let pre = dedup_spec(s.drop_last());
        if pre.contains(s.last()) {
            pre
        } else {
            pre.push(s.last())
        }
    }
}

/// The region of site `i`: the base region clipped by the bisector
/// against each of the first `j` other sites.
pub open spec fn region_spec(sites: Seq<Point>, i: int, base: Seq<Edge>, j: int) -> Option<
    Seq<Edge>,
>
    decreases j,
{
    if j <= 0 {
        Some(base)
    } else {
        match region_spec(sites, i, base, j - 1) {
            Option::None => Option::None,
            Option::Some(r) => if j - 1 == i {
                Some(r)
            } else {
                clip_spec(
                    r,
                    bisector_spec(sites[i], sites[j - 1]),
                    EdgeTag::Bisector((j - 1) as usize),
                )
            },
        }
    }
}

/// The faces as they appear in contracts: each site with its edge list.
pub open spec fn faces_view(fs: Seq<Face>) -> Seq<(Point, Seq<Edge>)> {
    fs.map_values(|f: Face| (f.site, f.edges@))
}

/// The first `i` faces of the diagram: the region of each distinct site,
/// required to be a well-formed polygon.
pub open spec fn faces_build(sites: Seq<Point>, base: Seq<Edge>, i: int) -> Option<
    Seq<(Point, Seq<Edge>)>,
>
    decreases i,
{
    if i <= 0 {
        Some(Seq::empty())
    } else {
        match faces_build(sites, base, i - 1) {
            Option::None => Option::None,
            Option::Some(fs) => match region_spec(sites, i - 1, base, sites.len() as int) {
                Option::None => Option::None,
                Option::Some(r) => if face_ok(r) {
                    Some(fs.push((sites[i - 1], r)))
                } else {
                    Option::None
                },
            },
        }
    }
}

/// The boundary walk turned counterclockwise.
pub open spec fn oriented(b: Seq<Point>) -> Seq<Point> {
    if signed_area2(b) < 0 {
        b.reverse()
    } else {
        b
    }
}

/// The edges of the boundary walk, each tagged with its side index.
pub open spec fn base_edges(b: Seq<Point>) -> Seq<Edge> {
    Seq::new(
        b.len(),
        |k: int|
            Edge {
                line: edge_line_spec(b[k], b[(k + 1) % b.len() as int]),
                tag: EdgeTag::Boundary(k as usize),
            },
    )
}

/// The whole diagram: `None` when the boundary is degenerate beyond its
/// signed area, or some face cannot be clipped to a proper polygon.
pub open spec fn voronoi_spec(points: Seq<Point>, b: Seq<Point>) -> Option<
    Seq<(Point, Seq<Edge>)>,
> {
    if signed_area2(b) == 0 {
        Option::None
    } else {
        faces_build(
            dedup_spec(points),
            base_edges(oriented(b)),
            dedup_spec(points).len() as int,
        )
    }
}

/// Law: the construction is deterministic. Two diagrams computed from the
/// same points and the same boundary, in the same order, are structurally
/// identical face by face.
pub proof fn lemma_voronoi_deterministic(
    points: Seq<Point>,
    b: Seq<Point>,
    f1: Seq<Face>,
    f2: Seq<Face>,
)
    requires
        Some(faces_view(f1)) == voronoi_spec(points, b),
        Some(faces_view(f2)) == voronoi_spec(points, b),
    ensures
        faces_view(f1) == faces_view(f2),
{
}

/// Law: a single site owns the whole boundary. For any boundary of
/// nonzero area whose oriented edge walk forms a well-formed polygon, the
/// diagram of one point has exactly one face, and that face's edges are
/// the boundary's own edges, unclipped.
pub proof fn lemma_single_site_keeps_whole_cell(points: Seq<Point>, b: Seq<Point>)
    requires
        points.len() == 1,
        signed_area2(b) != 0,
        face_ok(base_edges(oriented(b))),
    ensures
        voronoi_spec(points, b) == Some(seq![(points[0], base_edges(oriented(b)))]),
{
    let base = base_edges(oriented(b));
    assert(points.drop_last() =~= Seq::<Point>::empty());
    assert(dedup_spec(Seq::<Point>::empty()) =~= Seq::<Point>::empty());
    let sites = dedup_spec(points);
    assert(sites =~= seq![points[0]]);
    assert(region_spec(sites, 0, base, 0) == Some(base));
    assert(region_spec(sites, 0, base, 1) == Some(base));
    assert(faces_build(sites, base, 0) == Some(Seq::<(Point, Seq<Edge>)>::empty()));
    assert(faces_build(sites, base, 1) == Some(
        Seq::<(Point, Seq<Edge>)>::empty().push((points[0], base)),
    ));
    assert(Seq::<(Point, Seq<Edge>)>::empty().push((points[0], base)) =~= seq![
        (points[0], base),
    ]);
}

/// Law: the bisectors among collinear sites are parallel. A collinear
/// triple has no circumcenter, and no diagram vertex can arise from one:
/// the faces between such sites are bounded by straight parallel lines.
pub proof fn lemma_collinear_bisectors_parallel(s: Point, t: Point, u: Point)
    requires
        s.in_range(),
        t.in_range(),
        u.in_range(),
        crate::cell::line_cross_point(u, s, t) == 0,
    ensures
        cross_of(bisector_spec(s, t), bisector_spec(s, u)) == 0,
{
    assert((2 * (t.sx() - s.sx())) * (2 * (u.sy() - s.sy())) - (2 * (u.sx() - s.sx())) * (2 * (
    t.sy() - s.sy())) == 4 * ((t.sx() - s.sx()) * (u.sy() - s.sy()) - (u.sx() - s.sx()) * (t.sy()
        - s.sy()))) by (nonlinear_arith);
}

/// Law-support: the site list the diagram is built over holds exactly the
/// distinct input coordinates — no duplicates, and the same membership as
/// the input. With one face per site, the diagram has exactly as many
/// faces as there are distinct coordinates.
pub proof fn lemma_dedup_distinct(s: Seq<Point>)
    ensures
        forall|i: int, j: int|
            0 <= i < j < dedup_spec(s).len() ==> dedup_spec(s)[i] != dedup_spec(s)[j],
        forall|p: Point| dedup_spec(s).contains(p) <==> s.contains(p),
    decreases s.len(),
{
    if s.len() == 0 {
        assert forall|p: Point| dedup_spec(s).contains(p) <==> s.contains(p) by {}
    } else {
        lemma_dedup_distinct(s.drop_last());
        let pre = dedup_spec(s.drop_last());
        let last = s.last();
        let d = dedup_spec(s);
        assert forall|i: int, j: int| 0 <= i < j < d.len() implies d[i] != d[j] by {
            if !pre.contains(last) && j == d.len() - 1 {
                assert(d[i] == pre[i]);
                assert(!pre.contains(last));
                assert(pre.contains(pre[i]));
            }
        }
        assert forall|p: Point| d.contains(p) <==> s.contains(p) by {
            if d.contains(p) {
                let k = choose|k: int| 0 <= k < d.len() && d[k] == p;
                if k < pre.len() {
                    assert(pre.contains(pre[k]));
                    assert(s.drop_last().contains(p));
                    let k2 = choose|k2: int| 0 <= k2 < s.drop_last().len() && s.drop_last()[k2]
                        == p;
                    assert(s[k2] == p);
                } else {
                    assert(d[k] == last);
                    assert(s[s.len() - 1] == p);
                }
            }
            if s.contains(p) {
                let k = choose|k: int| 0 <= k < s.len() && s[k] == p;
                if k < s.len() - 1 {
                    assert(s.drop_last()[k] == p);
                    assert(s.drop_last().contains(p));
                    assert(pre.contains(p));
                    let k3 = choose|k3: int| 0 <= k3 < pre.len() && pre[k3] == p;
                    if pre.contains(last) {
                        assert(d[k3] == p);
                    } else {
                        assert(d[k3] == p);
                    }
                } else {
                    if pre.contains(last) {
                        let k4 = choose|k4: int| 0 <= k4 < pre.len() && pre[k4] == last;
                        assert(d[k4] == p);
                    } else {
                        assert(d[d.len() - 1] == p);
                    }
                }
            }
        }
    }
}

/// Deduplication keeps every point within range.
proof fn lemma_dedup_in_range(s: Seq<Point>)
    requires
        points_in_range(s),
    ensures
        points_in_range(dedup_spec(s)),
    decreases s.len(),
{
    if s.len() > 0 {
        assert(points_in_range(s.drop_last())) by {
            assert forall|i: int|
                0 <= i < s.drop_last().len() implies #[trigger] s.drop_last()[i].in_range() by {
                assert(s.drop_last()[i] == s[i]);
                assert(s[i].in_range());
            }
        }
        lemma_dedup_in_range(s.drop_last());
        let pre = dedup_spec(s.drop_last());
        if !pre.contains(s.last()) {
            assert(s[s.len() - 1].in_range());
            assert forall|i: int|
                0 <= i < pre.push(s.last()).len() implies #[trigger] pre.push(
                s.last(),
            )[i].in_range() by {
                if i < pre.len() {
                    assert(pre.push(s.last())[i] == pre[i]);
                } else {
                    assert(pre.push(s.last())[i] == s.last());
                }
            }
        }
    }
}

/// A region once `None` stays `None` as more bisectors are applied.
proof fn lemma_region_none(sites: Seq<Point>, i: int, base: Seq<Edge>, j: int, n: int)
    requires
        0 <= j <= n,
        region_spec(sites, i, base, j) is None,
    ensures
        region_spec(sites, i, base, n) is None,
    decreases n - j,
{
    if j < n {
        lemma_region_none(sites, i, base, j, n - 1);
    }
}

/// A face list once `None` stays `None` as more faces are built.
proof fn lemma_faces_none(sites: Seq<Point>, base: Seq<Edge>, j: int, n: int)
    requires
        0 <= j <= n,
        faces_build(sites, base, j) is None,
    ensures
        faces_build(sites, base, n) is None,
    decreases n - j,
{
    if j < n {
        lemma_faces_none(sites, base, j, n - 1);
    }
}

/// Whether the vector holds `p`.
fn contains_point(v: &Vec<Point>, p: Point) -> (r: bool)
    ensures
        r == v@.contains(p),
{
    let n = v.len();
    let mut i: usize = 0;
    while i < n
        invariant
            n == v@.len(),
            i <= n,
            forall|j: int| 0 <= j < i ==> v@[j] != p,
        decreases n - i,
    {
        if v[i] == p {
            proof {
                assert(v@[i as int] == p);
            }
            return true;
        }
        i += 1;
    }
    false
}

/// The distinct points of `pts`, in order of first appearance.
fn dedup_points(pts: &Vec<Point>) -> (r: Vec<Point>)
    ensures
        r@ == dedup_spec(pts@),
{
    let n = pts.len();
    let mut r: Vec<Point> = Vec::new();
    let mut i: usize = 0;
    while i < n
        invariant
            n == pts@.len(),
            i <= n,
            r@ == dedup_spec(pts@.take(i as int)),
        decreases n - i,
    {
        let p = pts[i];
        proof {
            assert(pts@.take(i as int + 1).drop_last() =~= pts@.take(i as int));
            assert(pts@.take(i as int + 1).last() == pts@[i as int]);
        }
        if !contains_point(&r, p) {
            r.push(p);
        }
        i += 1;
    }
    proof {
        assert(pts@.take(n as int) =~= pts@);
    }
    r
}

/// Clip a region by the half plane of `h`, tagging the new edge.
fn clip(region: &Vec<Edge>, h: Line, tag: EdgeTag) -> (r: Result<Vec<Edge>, VoronoiError>)
    requires
        edges_ok(region@),
        line_ok(h),
    ensures
        match r {
            Ok(out) => Some(out@) == clip_spec(region@, h, tag) && edges_ok(out@),
            Err(e) => clip_spec(region@, h, tag) is None && e == VoronoiError::ClipFailure,
        },
{
    let m = region.len();
    if m == 0 {
        let out: Vec<Edge> = Vec::new();
        proof {
            assert(out@ =~= Seq::<Edge>::empty());
        }
        return Ok(out);
    }
    let mut sides: Vec<i32> = Vec::new();
    let mut i: usize = 0;
    while i < m
        invariant
            edges_ok(region@),
            line_ok(h),
            m == region@.len(),
            1 <= m,
            i <= m,
            sides@.len() == i,
            forall|j: int| 0 <= j < i ==> #[trigger] pair_cross(region@, j) != 0,
            forall|j: int| 0 <= j < i ==> sides@[j] as int == #[trigger] vside(region@, h, j),
        decreases m - i,
    {
        let next = if i + 1 == m {
            0
        } else {
            i + 1
        };
        proof {
            lemma_cyclic_next(i as int, m as int);
            assert(region@[(i as int + 1) % m as int] == region@[next as int]);
        }
        let cr = cross_lines(region[i].line, region[next].line);
        if cr == 0 {
            proof {
                assert(pair_cross(region@, i as int) == 0);
                assert(!all_pairs_ok(region@));
            }
            return Err(VoronoiError::ClipFailure);
        }
        let s = side_of(h, region[i].line, region[next].line);
        sides.push(s);
        i += 1;
    }
    let mut any_pos = false;
    let mut any_neg = false;
    let mut t: usize = 0;
    while t < m
        invariant
            m == region@.len(),
            sides@.len() == m,
            t <= m,
            forall|j: int| 0 <= j < m ==> sides@[j] as int == #[trigger] vside(region@, h, j),
            any_pos ==> exists|j: int| 0 <= j < t && #[trigger] vside(region@, h, j) > 0,
            !any_pos ==> forall|j: int| 0 <= j < t ==> #[trigger] vside(region@, h, j) <= 0,
            any_neg ==> exists|j: int| 0 <= j < t && #[trigger] vside(region@, h, j) < 0,
            !any_neg ==> forall|j: int| 0 <= j < t ==> #[trigger] vside(region@, h, j) >= 0,
        decreases m - t,
    {
        let s = sides[t];
        if s > 0 {
            any_pos = true;
            proof {
                assert(vside(region@, h, t as int) > 0);
            }
        }
        if s < 0 {
            any_neg = true;
            proof {
                assert(vside(region@, h, t as int) < 0);
            }
        }
        t += 1;
    }
    if !any_pos {
        let out = region.clone();
        proof {
            assert(all_pairs_ok(region@));
            assert(Some(out@) == clip_spec(region@, h, tag));
        }
        return Ok(out);
    }
    if !any_neg {
        let out: Vec<Edge> = Vec::new();
        proof {
            assert(all_pairs_ok(region@));
            assert(out@ =~= Seq::<Edge>::empty());
            assert(Some(out@) == clip_spec(region@, h, tag));
        }
        return Ok(out);
    }
    let mut out: Vec<Edge> = Vec::new();
    let mut exits_seen: usize = 0;
    let mut k: usize = 0;
    while k < m
        invariant
            edges_ok(region@),
            line_ok(h),
            m == region@.len(),
            1 <= m,
            k <= m,
            sides@.len() == m,
            forall|j: int| 0 <= j < m ==> #[trigger] pair_cross(region@, j) != 0,
            forall|j: int| 0 <= j < m ==> sides@[j] as int == #[trigger] vside(region@, h, j),
            exists|j: int| 0 <= j < m && #[trigger] vside(region@, h, j) > 0,
            exists|j: int| 0 <= j < m && #[trigger] vside(region@, h, j) < 0,
            exits_seen as int == exit_count(region@, h, k as int),
            exits_seen <= k,
            out@ + clip_build(region@, h, tag, k as int) == clip_build(region@, h, tag, 0),
            edges_ok(out@),
        decreases m - k,
    {
        let prev = if k == 0 {
            m - 1
        } else {
            k - 1
        };
        proof {
            lemma_cyclic_prev(k as int, m as int);
        }
        let sp = sides[prev];
        let sc = sides[k];
        let keep = sp < 0 || sc < 0;
        let exits = sp < 0 && sc >= 0;
        proof {
            assert(sp as int == vside(region@, h, (k as int - 1 + m as int) % m as int));
            assert(keep == keep_edge(region@, h, k as int));
            assert(exits == exit_edge(region@, h, k as int));
        }
        let ghost old_out = out@;
        if keep {
            let e = region[k];
            out.push(e);
        }
        if exits {
            out.push(Edge { line: h, tag });
            exits_seen += 1;
        }
        proof {
            assert(out@ =~= old_out + clip_items(region@, h, tag, k as int));
            assert(clip_build(region@, h, tag, k as int) == clip_items(region@, h, tag, k as int)
                + clip_build(region@, h, tag, k as int + 1));
            assert(old_out + clip_build(region@, h, tag, k as int) =~= (old_out + clip_items(
                region@,
                h,
                tag,
                k as int,
            )) + clip_build(region@, h, tag, k as int + 1));
            assert(out@ + clip_build(region@, h, tag, k as int + 1) == clip_build(
                region@,
                h,
                tag,
                0,
            ));
        }
        k += 1;
    }
    proof {
        assert(all_pairs_ok(region@));
    }
    if exits_seen != 1 {
        return Err(VoronoiError::ClipFailure);
    }
    proof {
        assert(clip_build(region@, h, tag, m as int) =~= Seq::<Edge>::empty());
        assert(out@ + Seq::<Edge>::empty() =~= out@);
    }
    Ok(out)
}

/// The region of site `i` among the distinct sites: the base region
/// clipped by the bisector against every other site.
fn cell_region(sites: &Vec<Point>, i: usize, base: &Vec<Edge>) -> (r: Result<
    Vec<Edge>,
    VoronoiError,
>)
    requires
        points_in_range(sites@),
        i < sites@.len(),
        edges_ok(base@),
    ensures
        match r {
            Ok(out) => Some(out@) == region_spec(sites@, i as int, base@, sites@.len() as int)
                && edges_ok(out@),
            Err(e) => region_spec(sites@, i as int, base@, sites@.len() as int) is None && e
                == VoronoiError::ClipFailure,
        },
{
    let n = sites.len();
    let mut cur: Vec<Edge> = base.clone();
    proof {
        assert(cur@ == base@);
    }
    let mut j: usize = 0;
    while j < n
        invariant
            points_in_range(sites@),
            i < n,
            n == sites@.len(),
            j <= n,
            edges_ok(base@),
            edges_ok(cur@),
            Some(cur@) == region_spec(sites@, i as int, base@, j as int),
        decreases n - j,
    {
        if j != i {
            proof {
                assert(sites@[i as int].in_range());
                assert(sites@[j as int].in_range());
            }
            let h = bisector(sites[i], sites[j]);
            match clip(&cur, h, EdgeTag::Bisector(j)) {
                Ok(next) => {
                    cur = next;
                },
                Err(e) => {
                    proof {
                        lemma_region_none(
                            sites@,
                            i as int,
                            base@,
                            j as int + 1,
                            n as int,
                        );
                    }
                    return Err(e);
                },
            }
        }
        j += 1;
    }
    Ok(cur)
}

/// The Voronoi diagram of `points`, clipped to the boundary cell: one
/// face per distinct input coordinate, in order of first appearance.
///
/// The boundary walk may be given in either orientation; a boundary of
/// zero signed area is rejected, as is any configuration whose faces do
/// not clip to proper polygons (a degenerate boundary corner, or a face
/// emptied because its site lies far outside the boundary).
///
/// Nonconvex boundaries are accepted as long as each face still clips to
/// a single polygon. A face that a bisector would split in two — its
/// walk leaves the half plane twice, possible only astride a nonconvex
/// pocket — is reported as a clip failure rather than emitted as a
/// self-intersecting polygon.
pub fn voronoi(points: Vec<Point>, boundary: &Cell) -> (r: Result<DCEL, VoronoiError>)
    requires
        points@.len() >= 1,
        points_in_range(points@),
        points_in_range(boundary@),
    ensures
        match r {
            Ok(d) => {
                &&& signed_area2(boundary@) != 0
                &&& Some(faces_view(d.faces@)) == voronoi_spec(points@, boundary@)
                &&& crate::dcel::dcel_ok(d.faces@)
                &&& d.faces@.len() == dedup_spec(points@).len()
                &&& forall|i: int|
                    0 <= i < d.faces@.len() ==> #[trigger] d.faces@[i].site == dedup_spec(
                        points@,
                    )[i]
            },
            Err(e) => (e == VoronoiError::DegenerateBoundary && signed_area2(boundary@) == 0) || (
            e == VoronoiError::ClipFailure && signed_area2(boundary@) != 0 && voronoi_spec(
                points@,
                boundary@,
            ) is None),
        },
{
    let s2 = boundary.signed_doubled_area();
    if s2 == 0 {
        return Err(VoronoiError::DegenerateBoundary);
    }
    let verts: Vec<Point> = if s2 < 0 {
        reversed(boundary.vertices())
    } else {
        boundary.vertices().clone()
    };
    proof {
        assert(verts@ == oriented(boundary@));
        assert(points_in_range(verts@)) by {
            assert forall|i: int| 0 <= i < verts@.len() implies #[trigger] verts@[i].in_range() by {
                if signed_area2(boundary@) < 0 {
                    assert(verts@[i] == boundary@[boundary@.len() - 1 - i]);
                }
            }
        }
    }
    let base = boundary_edges(&verts);
    let sites = dedup_points(&points);
    proof {
        lemma_dedup_in_range(points@);
    }
    let n = sites.len();
    let mut faces: Vec<Face> = Vec::new();
    let mut i: usize = 0;
    while i < n
        invariant
            points_in_range(points@),
            points_in_range(sites@),
            signed_area2(boundary@) != 0,
            n == sites@.len(),
            i <= n,
            sites@ == dedup_spec(points@),
            edges_ok(base@),
            base@ == base_edges(oriented(boundary@)),
            faces@.len() == i,
            Some(faces_view(faces@)) == faces_build(sites@, base@, i as int),
            crate::dcel::dcel_ok(faces@),
            forall|j: int| 0 <= j < i ==> #[trigger] faces@[j].site == sites@[j],
        decreases n - i,
    {
        let region = match cell_region(&sites, i, &base) {
            Ok(region) => region,
            Err(e) => {
                proof {
                    assert(faces_build(sites@, base@, i as int + 1) is None);
                    lemma_faces_none(sites@, base@, i as int + 1, n as int);
                    assert(faces_build(sites@, base@, n as int) is None);
                    assert(voronoi_spec(points@, boundary@) is None);
                }
                return Err(e);
            },
        };
        if !crate::dcel::check_face(&region) {
            proof {
                assert(faces_build(sites@, base@, i as int + 1) is None);
                lemma_faces_none(sites@, base@, i as int + 1, n as int);
                assert(faces_build(sites@, base@, n as int) is None);
                assert(voronoi_spec(points@, boundary@) is None);
            }
            return Err(VoronoiError::ClipFailure);
        }
        let site = sites[i];
        let ghost old_faces = faces@;
        faces.push(Face { site, edges: region });
        proof {
            assert(faces_view(faces@) =~= faces_view(old_faces).push(
                (sites@[i as int], faces@[i as int].edges@),
            ));
        }
        i += 1;
    }
    Ok(DCEL { faces })
}

/// The boundary vertex walk reversed.
fn reversed(v: &Vec<Point>) -> (r: Vec<Point>)
    ensures
        r@ == v@.reverse(),
{
    let n = v.len();
    let mut r: Vec<Point> = Vec::new();
    let mut i: usize = 0;
    while i < n
        invariant
            n == v@.len(),
            i <= n,
            r@.len() == i,
            forall|j: int| 0 <= j < i ==> #[trigger] r@[j] == v@[n - 1 - j],
        decreases n - i,
    {
        r.push(v[n - 1 - i]);
        i += 1;
    }
    proof {
        assert(r@ =~= v@.reverse());
    }
    r
}

/// The tagged edge list of the oriented boundary walk.
fn boundary_edges(verts: &Vec<Point>) -> (r: Vec<Edge>)
    requires
        points_in_range(verts@),
    ensures
        r@ == base_edges(verts@),
        edges_ok(r@),
{
    let n = verts.len();
    let mut r: Vec<Edge> = Vec::new();
    let mut k: usize = 0;
    while k < n
        invariant
            points_in_range(verts@),
            n == verts@.len(),
            k <= n,
            r@.len() == k,
            forall|j: int| 0 <= j < k ==> #[trigger] r@[j] == base_edges(verts@)[j],
            edges_ok(r@),
        decreases n - k,
    {
        let next = if k + 1 == n {
            0
        } else {
            k + 1
        };
        proof {
            lemma_cyclic_next(k as int, n as int);
            assert(verts@[(k as int + 1) % n as int] == verts@[next as int]);
            assert(verts@[k as int].in_range());
            assert(verts@[next as int].in_range());
        }
        let line = edge_line(verts[k], verts[next]);
        r.push(Edge { line, tag: EdgeTag::Boundary(k) });
        k += 1;
    }
    proof {
        assert(r@ =~= base_edges(verts@));
    }
    r
}

} // verus!
