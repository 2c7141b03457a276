use convex_hull_pf::coord::{
    contains_coord, copy_coords, insert_coord, lex_less, union_coords, Coord,
};
use convex_hull_pf::hull::{contains_segment, insert_segment, union_segments};
use convex_hull_pf::segment::Segment;

fn c(x: i64, y: i64) -> Coord {
    Coord { x, y }
}

fn seg(ax: i64, ay: i64, bx: i64, by: i64) -> Segment {
    Segment::from_coords(c(ax, ay), c(bx, by))
}

#[test]
fn lex_less_orders_by_x_then_y() {
    assert!(lex_less(c(1, 9), c(2, 0)));
    assert!(lex_less(c(1, 2), c(1, 3)));
    assert!(!lex_less(c(1, 3), c(1, 3)));
    assert!(!lex_less(c(2, 0), c(1, 9)));
}

#[test]
fn insert_coord_deduplicates() {
    let mut v = vec![c(1, 1), c(2, 2)];
    insert_coord(&mut v, c(2, 2));
    assert_eq!(v, vec![c(1, 1), c(2, 2)]);
    insert_coord(&mut v, c(3, 3));
    assert_eq!(v, vec![c(1, 1), c(2, 2), c(3, 3)]);
    assert!(contains_coord(&v, c(3, 3)));
    assert!(!contains_coord(&v, c(4, 4)));
}

#[test]
fn union_coords_reports_growth() {
    let mut v = vec![c(1, 1), c(2, 2)];
    // a subset does not grow the set
    assert!(!union_coords(&mut v, &vec![c(2, 2), c(1, 1)]));
    assert_eq!(v, vec![c(1, 1), c(2, 2)]);
    // anything new does
    assert!(union_coords(&mut v, &vec![c(2, 2), c(5, 5)]));
    assert_eq!(v, vec![c(1, 1), c(2, 2), c(5, 5)]);
}

#[test]
fn copy_coords_copies_exactly() {
    let v = vec![c(1, 2), c(3, 4)];
    assert_eq!(copy_coords(&v), v);
}

#[test]
fn segment_sets_deduplicate_and_union() {
    let mut hull = Vec::new();
    insert_segment(&mut hull, seg(0, 0, 1, 1));
    insert_segment(&mut hull, seg(1, 1, 0, 0));
    assert_eq!(hull, vec![seg(0, 0, 1, 1)]);
    assert!(contains_segment(&hull, seg(0, 0, 1, 1)));
    union_segments(&mut hull, &vec![seg(0, 0, 1, 1), seg(2, 2, 3, 3)]);
    assert_eq!(hull, vec![seg(0, 0, 1, 1), seg(2, 2, 3, 3)]);
}
