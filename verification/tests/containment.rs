use voronoi::{point_to_line, Cell, Point, VoronoiError};

#[test]
fn containment_simple() {
    let cell = Cell::new(10);
    assert!(cell.contains(&Point::new(1, 1)))
}

#[test]
fn containment_corners() {
    let cell = Cell::new(10);
    assert!(cell.contains(&Point::new(0, 0)));
    assert!(cell.contains(&Point::new(10, 10)));
}

#[test]
fn containment_edge() {
    let cell = Cell::new(10);
    assert!(cell.contains(&Point::new(0, 5)));
    assert!(cell.contains(&Point::new(10, 5)));
}

#[test]
fn outside_x() {
    let cell = Cell::new(10);
    assert!(!cell.contains(&Point::new(-1, 5)));
    assert!(!cell.contains(&Point::new(-10, 5)));
}

#[test]
fn outside_y() {
    let cell = Cell::new(10);
    assert!(!cell.contains(&Point::new(1, -5)));
    assert!(!cell.contains(&Point::new(10, -5)));
}

#[test]
fn contains_own_vertices() {
    let cell = Cell::new(10);
    for v in [
        Point::new(0, 0),
        Point::new(10, 0),
        Point::new(10, 10),
        Point::new(0, 10),
    ] {
        assert!(cell.contains(&v));
    }
}

#[test]
fn contains_nonconvex() {
    // An L-shaped (nonconvex) boundary: the notch is outside.
    let cell = Cell::from_points(vec![
        Point::new(0, 0),
        Point::new(4, 0),
        Point::new(4, 2),
        Point::new(2, 2),
        Point::new(2, 4),
        Point::new(0, 4),
    ])
    .unwrap();
    assert!(cell.contains(&Point::new(1, 3)));
    assert!(cell.contains(&Point::new(3, 1)));
    assert!(!cell.contains(&Point::new(3, 3)));
    for v in [
        Point::new(0, 0),
        Point::new(4, 0),
        Point::new(4, 2),
        Point::new(2, 2),
        Point::new(2, 4),
        Point::new(0, 4),
    ] {
        assert!(cell.contains(&v));
    }
}

#[test]
fn containment_horizontal_edge() {
    // Points exactly on the top and bottom (horizontal) edges are inside;
    // points level with those edges but beyond their x-span are not.
    let cell = Cell::new(10);
    assert!(cell.contains(&Point::new(5, 0)));
    assert!(cell.contains(&Point::new(5, 10)));
    assert!(!cell.contains(&Point::new(11, 10)));
    assert!(!cell.contains(&Point::new(-1, 0)));
}

#[test]
fn contains_vertex_inside_horizontal_run() {
    // The vertex (5,10) sits in the middle of the top edge's horizontal
    // run; the boundary still contains every one of its own vertices.
    let verts = vec![
        Point::new(0, 0),
        Point::new(10, 0),
        Point::new(10, 10),
        Point::new(5, 10),
        Point::new(0, 10),
    ];
    let cell = Cell::from_points(verts.clone()).unwrap();
    for v in verts {
        assert!(cell.contains(&v));
    }
}

#[test]
fn cell_range_check() {
    assert!(Cell::new(10).in_range());
    let big = Cell::from_points(vec![
        Point::new(0, 0),
        Point::new(1 << 40, 0),
        Point::new(0, 1),
    ])
    .unwrap();
    assert!(!big.in_range());
}

#[test]
fn contains_counts_chain_through_vertex_once() {
    // Two downward edges meet at the vertex (0,10), level with the query
    // point: half-open crossing counting must see one crossing there, not
    // two, so the interior point is inside and the exterior one is not.
    let cell = Cell::from_points(vec![
        Point::new(0, 0),
        Point::new(10, 0),
        Point::new(10, 10),
        Point::new(5, 12),
        Point::new(0, 10),
    ])
    .unwrap();
    assert!(cell.contains(&Point::new(6, 10)));
    assert!(!cell.contains(&Point::new(-1, 10)));
}

#[test]
fn from_points_needs_three() {
    let err = Cell::from_points(vec![Point::new(0, 0), Point::new(1, 0)]).unwrap_err();
    assert_eq!(err, VoronoiError::TooFewVertices);
    assert!(err.describe().contains("require 3"));
    assert!(Cell::from_points(vec![
        Point::new(0, 0),
        Point::new(1, 0),
        Point::new(0, 1)
    ])
    .is_ok());
}

#[test]
fn point_to_line_signs() {
    let a = Point::new(0, 0);
    let b = Point::new(4, 0);
    assert_eq!(point_to_line(&Point::new(2, 1), &a, &b), 1);
    assert_eq!(point_to_line(&Point::new(2, -1), &a, &b), -1);
    assert_eq!(point_to_line(&Point::new(2, 0), &a, &b), 0);
}

#[test]
fn doubled_area_square() {
    let cell = Cell::new(10);
    assert_eq!(cell.doubled_area(), 200);
}

#[test]
fn sides_pairs_cyclically() {
    let cell = Cell::new(10);
    let sides = cell.sides();
    assert_eq!(sides.len(), 4);
    assert_eq!(sides[0], (Point::new(0, 0), Point::new(10, 0)));
    assert_eq!(sides[3], (Point::new(0, 10), Point::new(0, 0)));
}
