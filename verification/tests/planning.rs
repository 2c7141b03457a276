use convex_hull_pf::coord::Coord;
use convex_hull_pf::error::{Error, ErrorKind};
use convex_hull_pf::leg::expand_leg_hull;
use convex_hull_pf::planner::{process, Input};
use convex_hull_pf::polygon::Polygon;
use convex_hull_pf::segment::Segment;

fn c(x: i64, y: i64) -> Coord {
    Coord { x, y }
}

fn seg(ax: i64, ay: i64, bx: i64, by: i64) -> Segment {
    Segment::from_coords(c(ax, ay), c(bx, by))
}

fn assert_edge_set(hull: &[Segment], expected: &[Segment]) {
    assert_eq!(hull.len(), expected.len());
    for e in expected {
        assert!(hull.contains(e), "missing edge {:?}", e);
    }
}

fn obstacle_square() -> Polygon {
    Polygon {
        points: vec![c(4, -2), c(6, -2), c(6, 2), c(4, 2)],
    }
}

#[test]
fn leg_with_no_obstacles_is_the_direct_segment() {
    let hull = expand_leg_hull(c(0, 0), c(10, 0), &Vec::new()).unwrap();
    assert_eq!(hull.segment_set, vec![seg(0, 0, 10, 0)]);
}

#[test]
fn leg_with_untouched_obstacles_is_the_direct_segment() {
    let far = Polygon {
        points: vec![c(50, 50), c(52, 50), c(51, 53)],
    };
    let hull = expand_leg_hull(c(0, 0), c(10, 0), &vec![far]).unwrap();
    assert_eq!(hull.segment_set, vec![seg(0, 0, 10, 0)]);
}

#[test]
fn degenerate_leg_fails() {
    let err = expand_leg_hull(c(3, 3), c(3, 3), &Vec::new()).unwrap_err();
    assert_eq!(err, ErrorKind::GeometryDegenerate);
}

#[test]
fn leg_detours_around_one_obstacle() {
    let hull = expand_leg_hull(c(0, 0), c(10, 0), &vec![obstacle_square()]).unwrap();
    assert_ne!(hull.segment_set, vec![seg(0, 0, 10, 0)]);
    assert_edge_set(
        &hull.segment_set,
        &[
            seg(0, 0, 4, 2),
            seg(4, 2, 6, 2),
            seg(6, 2, 10, 0),
            seg(0, 0, 4, -2),
            seg(4, -2, 6, -2),
            seg(6, -2, 10, 0),
        ],
    );
}

#[test]
fn hull_growth_discovers_chained_obstacles() {
    // the second obstacle misses the direct segment but blocks the detour
    // around the first one, so a second growth iteration must find it
    let second = Polygon {
        points: vec![c(1, 1), c(3, 1), c(2, 3)],
    };
    let hull =
        expand_leg_hull(c(0, 0), c(10, 0), &vec![obstacle_square(), second]).unwrap();
    assert_edge_set(
        &hull.segment_set,
        &[
            seg(0, 0, 4, 2),
            seg(4, 2, 6, 2),
            seg(6, 2, 10, 0),
            seg(0, 0, 4, -2),
            seg(4, -2, 6, -2),
            seg(6, -2, 10, 0),
            seg(0, 0, 2, 3),
            seg(2, 3, 6, 2),
        ],
    );
}

#[test]
fn scenario_one_obstacle_detours_via_its_corners() {
    let input = Input {
        start: c(0, 0),
        end: c(10, 0),
        route: Vec::new(),
        polygons: vec![obstacle_square()],
    };
    let output = process(input).unwrap();
    assert_eq!(output.hulls.len(), 1);
    let edges = &output.hulls[0].segment_set;
    // not the bare direct segment: the hull detours via the obstacle corners
    assert_ne!(*edges, vec![seg(0, 0, 10, 0)]);
    // one path from start to end over the upper corners, one over the lower
    assert!(edges.contains(&seg(0, 0, 4, 2)));
    assert!(edges.contains(&seg(4, 2, 6, 2)));
    assert!(edges.contains(&seg(6, 2, 10, 0)));
    assert!(edges.contains(&seg(0, 0, 4, -2)));
    // the echoed input is unchanged
    assert_eq!(output.input.start, c(0, 0));
    assert_eq!(output.input.end, c(10, 0));
    assert_eq!(output.input.polygons.len(), 1);
}

#[test]
fn scenario_empty_plane_gives_one_direct_hull() {
    let input = Input {
        start: c(0, 0),
        end: c(10, 0),
        route: Vec::new(),
        polygons: Vec::new(),
    };
    let output = process(input).unwrap();
    assert_eq!(output.hulls.len(), 1);
    assert_eq!(output.hulls[0].segment_set, vec![seg(0, 0, 10, 0)]);
}

#[test]
fn scenario_route_waypoint_gives_two_direct_hulls() {
    let input = Input {
        start: c(0, 0),
        end: c(10, 0),
        route: vec![c(5, 5)],
        polygons: Vec::new(),
    };
    let output = process(input).unwrap();
    assert_eq!(output.hulls.len(), 2);
    assert_eq!(output.hulls[0].segment_set, vec![seg(0, 0, 5, 5)]);
    assert_eq!(output.hulls[1].segment_set, vec![seg(5, 5, 10, 0)]);
}

#[test]
fn failing_leg_reports_its_index() {
    let input = Input {
        start: c(0, 0),
        end: c(10, 0),
        route: vec![c(5, 5), c(5, 5)],
        polygons: Vec::new(),
    };
    let err = process(input).unwrap_err();
    assert_eq!(err.kind, ErrorKind::GeometryDegenerate);
    assert_eq!(err.leg, 1);
    assert_eq!(err.message(), "degenerate geometry on a leg");
}

#[test]
fn error_messages_name_each_kind() {
    let e = Error {
        kind: ErrorKind::InsufficientPoints,
        leg: 0,
    };
    assert_eq!(e.message(), "insufficient points for a convex hull");
    let e = Error {
        kind: ErrorKind::IterationLimitExceeded,
        leg: 0,
    };
    assert_eq!(e.message(), "hull growth exceeded its iteration limit");
}
