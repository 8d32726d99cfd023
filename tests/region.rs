use terrain_lod::base::{Box2, Point2, Region};

fn square(x0: i32, y0: i32, x1: i32, y1: i32) -> Region {
    Region::new(vec![
        Point2::new(x0, y0),
        Point2::new(x1, y0),
        Point2::new(x1, y1),
        Point2::new(x0, y1),
    ])
}

#[test]
fn convex_polygon_contains_each_vertex() {
    let pts = vec![
        Point2::new(0, 0),
        Point2::new(10, -3),
        Point2::new(14, 6),
        Point2::new(5, 12),
        Point2::new(-4, 7),
    ];
    let r = Region::new(pts.clone());
    for p in &pts {
        assert!(r.contains_point(p));
    }
}

#[test]
fn triangle_contains_its_vertices_and_inside_point() {
    let r = Region::new(vec![Point2::new(0, 0), Point2::new(8, 0), Point2::new(0, 8)]);
    assert!(r.contains_point(&Point2::new(0, 0)));
    assert!(r.contains_point(&Point2::new(8, 0)));
    assert!(r.contains_point(&Point2::new(0, 8)));
    assert!(r.contains_point(&Point2::new(2, 2)));
    assert!(!r.contains_point(&Point2::new(7, 7)));
}

#[test]
fn vertex_of_a_concave_polygon_may_be_outside() {
    // the same-side test is exact only for convex polygons: here the fourth
    // vertex lies on both sides of the edges walked before it
    let r = Region::new(vec![
        Point2::new(0, 0),
        Point2::new(10, 0),
        Point2::new(10, 10),
        Point2::new(6, 10),
        Point2::new(6, 4),
        Point2::new(4, 4),
        Point2::new(4, 10),
        Point2::new(0, 10),
    ]);
    assert!(!r.contains_point(&Point2::new(4, 10)));
    assert!(r.contains_point(&Point2::new(0, 0)));
}

#[test]
fn degenerate_region_contains_nothing() {
    let r = Region::new(vec![Point2::new(0, 0), Point2::new(4, 4)]);
    assert!(!r.contains_point(&Point2::new(0, 0)));
    assert!(!r.intersects_line(&Point2::new(0, 0), &Point2::new(4, 4)));
}

#[test]
fn segment_crossing_an_edge_intersects() {
    let r = square(0, 0, 10, 10);
    assert!(r.intersects_line(&Point2::new(-5, 5), &Point2::new(5, 5)));
    assert!(!r.intersects_line(&Point2::new(20, 20), &Point2::new(30, 25)));
    // an endpoint on a vertex counts
    assert!(r.intersects_line(&Point2::new(10, 10), &Point2::new(40, 40)));
}

#[test]
fn box_inside_region_and_region_inside_box() {
    let r = square(0, 0, 100, 100);
    let inner = Box2::new(Point2::new(10, 10), Point2::new(20, 20));
    assert!(r.contains_box(&inner));
    assert!(r.intersects_box(&inner));
    let outer = Box2::new(Point2::new(-50, -50), Point2::new(500, 500));
    assert!(!r.contains_box(&outer));
    assert!(r.intersects_box(&outer));
    let apart = Box2::new(Point2::new(200, 200), Point2::new(210, 210));
    assert!(!r.intersects_box(&apart));
}

#[test]
fn bounding_box_of_points() {
    let r = Region::new(vec![Point2::new(3, -2), Point2::new(-7, 5), Point2::new(1, 9)]);
    let b = r.bounding_box();
    assert_eq!(b.min, Point2::new(-7, -2));
    assert_eq!(b.max, Point2::new(3, 9));
}

#[test]
fn region_in_world_limits() {
    assert!(square(0, 0, 10, 10).is_in_world());
    assert!(!square(0, 0, i32::MAX, 10).is_in_world());
}
