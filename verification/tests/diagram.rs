use voronoi::{
    lloyd_relaxation, make_line_segments, make_polygons, polygon_centroid, voronoi, Cell, Point,
    VoronoiError,
};

/// Twice the signed area of a polygon, by the shoelace sum.
fn doubled_area_of(poly: &[Point]) -> i128 {
    let n = poly.len();
    let mut acc: i128 = 0;
    for k in 0..n {
        let a = poly[k];
        let b = poly[(k + 1) % n];
        acc += (a.x() as i128 + b.x() as i128) * (b.y() as i128 - a.y() as i128);
    }
    acc.abs()
}

#[test]
fn single_site_gets_whole_cell() {
    // One site: its face is the full boundary square.
    let cell = Cell::new(4);
    let d = voronoi(vec![Point::new(1, 1)], &cell).unwrap();
    let polys = make_polygons(&d);
    assert_eq!(polys.len(), 1);
    assert_eq!(
        polys[0],
        vec![
            Point::new(4, 0),
            Point::new(4, 4),
            Point::new(0, 4),
            Point::new(0, 0)
        ]
    );
}

#[test]
fn two_sites_split_on_bisector() {
    // Two sites at the same height: faces split by the vertical bisector,
    // and exactly one internal segment lies on it, joining bottom to top.
    let cell = Cell::new(4);
    let d = voronoi(vec![Point::new(1, 2), Point::new(3, 2)], &cell).unwrap();
    let polys = make_polygons(&d);
    assert_eq!(polys.len(), 2);
    assert_eq!(
        polys[0],
        vec![
            Point::new(2, 0),
            Point::new(2, 4),
            Point::new(0, 4),
            Point::new(0, 0)
        ]
    );
    assert_eq!(
        polys[1],
        vec![
            Point::new(4, 0),
            Point::new(4, 4),
            Point::new(2, 4),
            Point::new(2, 0)
        ]
    );
    let segs = make_line_segments(&d);
    let internal: Vec<_> = segs
        .iter()
        .filter(|(a, b)| a.x() == 2 && b.x() == 2)
        .collect();
    assert_eq!(internal.len(), 1);
    let (a, b) = internal[0];
    let mut ys = [a.y(), b.y()];
    ys.sort();
    assert_eq!(ys, [0, 4]);
}

#[test]
fn faces_partition_cell_area() {
    // The faces tile the boundary exactly: their areas sum to the cell's.
    let cell = Cell::new(4);
    let d = voronoi(
        vec![Point::new(1, 2), Point::new(3, 2), Point::new(2, 1)],
        &cell,
    )
    .unwrap();
    let polys = make_polygons(&d);
    let total: i128 = polys.iter().map(|p| doubled_area_of(p)).sum();
    assert_eq!(total, cell.doubled_area());
}

#[test]
fn collinear_sites_make_parallel_strips() {
    // Three collinear sites: no spurious vertex at their degenerate
    // circumcenter; the middle face is a strip between parallel bisectors.
    let cell = Cell::new(8);
    let d = voronoi(
        vec![Point::new(2, 4), Point::new(4, 4), Point::new(6, 4)],
        &cell,
    )
    .unwrap();
    let polys = make_polygons(&d);
    assert_eq!(polys.len(), 3);
    assert_eq!(
        polys[1],
        vec![
            Point::new(5, 0),
            Point::new(5, 8),
            Point::new(3, 8),
            Point::new(3, 0)
        ]
    );
    for p in &polys {
        assert_eq!(p.len(), 4);
    }
    let total: i128 = polys.iter().map(|p| doubled_area_of(p)).sum();
    assert_eq!(total, cell.doubled_area());
}

#[test]
fn duplicate_sites_merge() {
    // Duplicate coordinates yield one face per distinct coordinate.
    let cell = Cell::new(4);
    let d = voronoi(
        vec![Point::new(1, 1), Point::new(1, 1), Point::new(3, 3)],
        &cell,
    )
    .unwrap();
    assert_eq!(make_polygons(&d).len(), 2);
}

#[test]
fn voronoi_is_deterministic() {
    let cell = Cell::new(8);
    let pts = vec![Point::new(2, 3), Point::new(6, 5), Point::new(5, 1)];
    let d1 = voronoi(pts.clone(), &cell).unwrap();
    let d2 = voronoi(pts, &cell).unwrap();
    assert_eq!(make_polygons(&d1), make_polygons(&d2));
    assert_eq!(make_line_segments(&d1), make_line_segments(&d2));
}

#[test]
fn degenerate_boundary_is_rejected() {
    let cell = Cell::from_points(vec![
        Point::new(0, 0),
        Point::new(1, 1),
        Point::new(2, 2),
    ])
    .unwrap();
    let err = voronoi(vec![Point::new(1, 0)], &cell).unwrap_err();
    assert_eq!(err, VoronoiError::DegenerateBoundary);
}

#[test]
fn far_outside_site_fails_clipping() {
    // A site so far outside the boundary that its face is emptied.
    let cell = Cell::new(4);
    let err = voronoi(vec![Point::new(100, 2), Point::new(1, 2)], &cell).unwrap_err();
    assert_eq!(err, VoronoiError::ClipFailure);
}

#[test]
fn centroid_is_vertex_mean() {
    let square = vec![
        Point::new(0, 0),
        Point::new(4, 0),
        Point::new(4, 4),
        Point::new(0, 4),
    ];
    assert_eq!(polygon_centroid(&square), Point::new(2, 2));
    let tri = vec![Point::new(0, 0), Point::new(1, 0), Point::new(1, 1)];
    assert_eq!(polygon_centroid(&tri), Point::new(0, 0));
}

#[test]
fn centroid_rounds_down() {
    let pts = vec![Point::new(-3, 0), Point::new(0, 0)];
    assert_eq!(polygon_centroid(&pts), Point::new(-2, 0));
}

#[test]
fn lloyd_moves_corners_toward_centroids() {
    // The four corners of a square cell: one pass moves each point to the
    // centroid of its quadrant, strictly closer than the corner was.
    let cell = Cell::new(4);
    let corners = vec![
        Point::new(0, 0),
        Point::new(4, 0),
        Point::new(4, 4),
        Point::new(0, 4),
    ];
    let relaxed = lloyd_relaxation(corners, &cell).unwrap();
    assert_eq!(
        relaxed,
        vec![
            Point::new(1, 1),
            Point::new(3, 1),
            Point::new(3, 3),
            Point::new(1, 3)
        ]
    );
}

#[test]
fn lloyd_fixed_point_is_stable() {
    // An evenly spaced configuration stays put under further passes.
    let cell = Cell::new(4);
    let evenly = vec![
        Point::new(1, 1),
        Point::new(3, 1),
        Point::new(3, 3),
        Point::new(1, 3),
    ];
    let relaxed = lloyd_relaxation(evenly.clone(), &cell).unwrap();
    assert_eq!(relaxed, evenly);
}
