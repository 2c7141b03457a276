use convex_hull_pf::coord::Coord;
use convex_hull_pf::orientation::Orientation;
use convex_hull_pf::polygon::Polygon;
use convex_hull_pf::segment::Segment;

fn c(x: i64, y: i64) -> Coord {
    Coord { x, y }
}

fn seg(ax: i64, ay: i64, bx: i64, by: i64) -> Segment {
    Segment::from_coords(c(ax, ay), c(bx, by))
}

#[test]
fn orientation_classifies_turns() {
    // with y drawn downwards, a negative cross product is clockwise
    assert_eq!(
        Orientation::from_coords(c(0, 0), c(1, 0), c(1, 1)),
        Orientation::Clockwise
    );
    assert_eq!(
        Orientation::from_coords(c(0, 0), c(1, 0), c(1, -1)),
        Orientation::Counterclockwise
    );
    assert_eq!(
        Orientation::from_coords(c(0, 0), c(2, 2), c(4, 4)),
        Orientation::Colinear
    );
}

#[test]
fn orientation_is_colinear() {
    assert!(Orientation::Colinear.is_colinear());
    assert!(!Orientation::Clockwise.is_colinear());
    assert!(!Orientation::Counterclockwise.is_colinear());
}

#[test]
fn orientation_invert_swaps() {
    assert_eq!(Orientation::Clockwise.invert(), Orientation::Counterclockwise);
    assert_eq!(Orientation::Counterclockwise.invert(), Orientation::Clockwise);
    assert_eq!(Orientation::Colinear.invert(), Orientation::Colinear);
}

#[test]
fn orientation_antisymmetry_on_values() {
    // a non-colinear triple read backwards turns the opposite way
    let (p, q, r) = (c(0, 0), c(3, 1), c(5, 7));
    let forward = Orientation::from_coords(p, q, r);
    let backward = Orientation::from_coords(r, q, p);
    assert_ne!(forward, Orientation::Colinear);
    assert_eq!(backward, forward.invert());
    // a colinear triple is colinear in either order
    let (p, q, r) = (c(0, 0), c(2, 4), c(3, 6));
    assert_eq!(Orientation::from_coords(p, q, r), Orientation::Colinear);
    assert_eq!(Orientation::from_coords(r, q, p), Orientation::Colinear);
}

#[test]
fn segment_canonicalizes_endpoint_order() {
    let a = c(5, -1);
    let b = c(2, 9);
    assert_eq!(Segment::from_coords(a, b), Segment::from_coords(b, a));
    let s = Segment::from_coords(a, b);
    assert_eq!(s.a, b);
    assert_eq!(s.b, a);
    // ties on x are broken by y
    let s = Segment::from_coords(c(3, 8), c(3, 2));
    assert_eq!(s.a, c(3, 2));
    assert_eq!(s.b, c(3, 8));
}

#[test]
fn segment_contains_colinear_coord() {
    let s = seg(0, 0, 4, 4);
    assert!(s.contains_colinear_coord(c(2, 2)));
    assert!(s.contains_colinear_coord(c(0, 0)));
    assert!(s.contains_colinear_coord(c(4, 4)));
    // colinear but outside the bounding box
    assert!(!s.contains_colinear_coord(c(5, 5)));
    // not colinear at all
    assert!(!s.contains_colinear_coord(c(1, 0)));
}

#[test]
fn segments_crossing_intersect() {
    assert!(seg(0, 0, 4, 4).intersects(&seg(0, 4, 4, 0)));
}

#[test]
fn segments_sharing_an_endpoint_do_not_intersect() {
    // deliberate policy: adjacent polygon edges must not register
    assert!(!seg(0, 0, 4, 4).intersects(&seg(4, 4, 8, 0)));
    assert!(!seg(0, 0, 4, 4).intersects(&seg(0, 0, 4, 4)));
}

#[test]
fn parallel_segments_do_not_intersect() {
    assert!(!seg(0, 0, 4, 0).intersects(&seg(0, 1, 4, 1)));
}

#[test]
fn colinear_overlapping_segments_intersect() {
    assert!(seg(0, 0, 4, 0).intersects(&seg(2, 0, 6, 0)));
    // colinear but disjoint
    assert!(!seg(0, 0, 2, 0).intersects(&seg(4, 0, 6, 0)));
}

#[test]
fn coord_distance_is_absolute_cross_product() {
    let s = seg(0, 0, 4, 0);
    assert_eq!(s.coord_distance(c(2, 3)), 12);
    assert_eq!(s.coord_distance(c(2, -3)), 12);
    assert_eq!(s.coord_distance(c(2, 0)), 0);
}

#[test]
fn polygon_segments_are_the_cyclic_edges() {
    let square = Polygon {
        points: vec![c(0, 0), c(4, 0), c(4, 4), c(0, 4)],
    };
    let edges = square.segments();
    assert_eq!(edges.len(), 4);
    assert_eq!(edges[0], seg(0, 0, 4, 0));
    assert_eq!(edges[1], seg(4, 0, 4, 4));
    assert_eq!(edges[2], seg(4, 4, 0, 4));
    assert_eq!(edges[3], seg(0, 4, 0, 0));
}

#[test]
fn intersecting_polygon_coords_takes_whole_polygons() {
    let square = Polygon {
        points: vec![c(4, -2), c(6, -2), c(6, 2), c(4, 2)],
    };
    let far = Polygon {
        points: vec![c(100, 100), c(102, 100), c(101, 103)],
    };
    let polygons = vec![square, far];
    let direct = seg(0, 0, 10, 0);
    let coords = direct.get_intersecting_polygon_coords(&polygons);
    assert_eq!(coords.len(), 4);
    for corner in [c(4, -2), c(6, -2), c(6, 2), c(4, 2)] {
        assert!(coords.contains(&corner));
    }
}

#[test]
fn intersecting_polygons_are_reported_once_each() {
    let square = Polygon {
        points: vec![c(4, -2), c(6, -2), c(6, 2), c(4, 2)],
    };
    let far = Polygon {
        points: vec![c(100, 100), c(102, 100), c(101, 103)],
    };
    let polygons = vec![square.clone(), far];
    let direct = seg(0, 0, 10, 0);
    let hit = direct.get_intersecting_polygons(&polygons);
    assert_eq!(hit.len(), 1);
    assert_eq!(hit[0].points, square.points);
}

#[test]
fn repeated_polygon_is_reported_once() {
    let square = Polygon {
        points: vec![c(4, -2), c(6, -2), c(6, 2), c(4, 2)],
    };
    let polygons = vec![square.clone(), square.clone()];
    let direct = seg(0, 0, 10, 0);
    let hit = direct.get_intersecting_polygons(&polygons);
    assert_eq!(hit.len(), 1);
    assert_eq!(hit[0].points, square.points);
    // the vertex set is likewise free of duplicates
    let coords = direct.get_intersecting_polygon_coords(&polygons);
    assert_eq!(coords.len(), 4);
}

#[test]
fn segment_missing_all_polygons_collects_nothing() {
    let square = Polygon {
        points: vec![c(4, -2), c(6, -2), c(6, 2), c(4, 2)],
    };
    let polygons = vec![square];
    let s = seg(0, 10, 10, 10);
    assert!(s.get_intersecting_polygon_coords(&polygons).is_empty());
    assert!(s.get_intersecting_polygons(&polygons).is_empty());
}
