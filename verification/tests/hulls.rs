use convex_hull_pf::coord::Coord;
use convex_hull_pf::error::ErrorKind;
use convex_hull_pf::hull::Hull;
use convex_hull_pf::orientation::Orientation;
use convex_hull_pf::quickhull::{calculate_hull, quick_hull};
use convex_hull_pf::segment::Segment;

fn c(x: i64, y: i64) -> Coord {
    Coord { x, y }
}

fn seg(ax: i64, ay: i64, bx: i64, by: i64) -> Segment {
    Segment::from_coords(c(ax, ay), c(bx, by))
}

fn assert_edge_set(hull: &[Segment], expected: &[Segment]) {
    assert_eq!(hull.len(), expected.len());
    for e in expected {
        assert!(hull.contains(e), "missing edge {:?}", e);
    }
}

#[test]
fn too_few_points_are_insufficient() {
    let empty: Vec<Coord> = Vec::new();
    assert_eq!(quick_hull(&empty), Err(ErrorKind::InsufficientPoints));
    assert_eq!(
        quick_hull(&vec![c(3, 3)]),
        Err(ErrorKind::InsufficientPoints)
    );
    assert_eq!(
        calculate_hull(&empty),
        Err(ErrorKind::InsufficientPoints)
    );
}

#[test]
fn two_points_give_the_single_edge() {
    let hull = quick_hull(&vec![c(7, 1), c(2, 5)]).unwrap();
    assert_eq!(hull, vec![seg(2, 5, 7, 1)]);
}

#[test]
fn colinear_points_collapse_to_one_edge() {
    let hull = quick_hull(&vec![c(0, 0), c(2, 0), c(4, 0)]).unwrap();
    assert_eq!(hull, vec![seg(0, 0, 4, 0)]);
}

#[test]
fn square_hull_excludes_interior_point() {
    let points = vec![c(0, 0), c(4, 0), c(4, 4), c(0, 4), c(2, 2)];
    let hull = quick_hull(&points).unwrap();
    assert_edge_set(
        &hull,
        &[
            seg(0, 0, 4, 0),
            seg(4, 0, 4, 4),
            seg(4, 4, 0, 4),
            seg(0, 0, 0, 4),
        ],
    );
    // every hull vertex is an input point, and the interior point is on
    // no edge
    for e in &hull {
        assert!(points.contains(&e.a));
        assert!(points.contains(&e.b));
        assert!(e.a != c(2, 2) && e.b != c(2, 2));
    }
}

#[test]
fn hull_vertices_are_input_points() {
    let points = vec![c(0, 0), c(9, 1), c(5, 7), c(3, 2), c(1, 6), c(7, 4)];
    let hull = calculate_hull(&points).unwrap();
    assert!(hull.len() >= 3);
    for e in &hull {
        assert!(points.contains(&e.a));
        assert!(points.contains(&e.b));
    }
}

#[test]
fn hull_edges_support_the_point_set() {
    // convexity: across every returned edge, no two input points lie
    // strictly on opposite sides, so all points are on or inside the hull
    let points = vec![c(0, 0), c(9, 1), c(5, 7), c(3, 2), c(1, 6), c(7, 4), c(4, 4)];
    let hull = quick_hull(&points).unwrap();
    for e in &hull {
        let mut clockwise = false;
        let mut counterclockwise = false;
        for p in &points {
            match Orientation::from_coords(e.a, e.b, *p) {
                Orientation::Clockwise => clockwise = true,
                Orientation::Counterclockwise => counterclockwise = true,
                Orientation::Colinear => {}
            }
        }
        assert!(!(clockwise && counterclockwise));
    }
}

#[test]
fn extreme_points_appear_on_hull_edges() {
    let points = vec![c(0, 0), c(9, 1), c(5, 7), c(3, 2), c(1, 6), c(7, 4)];
    let hull = quick_hull(&points).unwrap();
    // the lexicographically smallest and largest points each end some edge
    assert!(hull.iter().any(|e| e.a == c(0, 0) || e.b == c(0, 0)));
    assert!(hull.iter().any(|e| e.a == c(9, 1) || e.b == c(9, 1)));
}

#[test]
fn hull_from_segment_set_keeps_the_segments() {
    let segments = vec![seg(0, 0, 1, 0), seg(1, 0, 0, 1)];
    let h = Hull::from_segment_set(segments.clone());
    assert_eq!(h.segment_set, segments);
}
