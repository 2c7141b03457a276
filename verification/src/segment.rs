//! The `Segment` struct: a canonical line segment with exact intersection
//! and distance predicates.

use vstd::prelude::*;
use crate::coord::{Coord, in_bounds, lex_le, distinct_coords};
use crate::orientation::{Orientation, cross, orientation_of, lemma_cross_fits};
use crate::polygon::{Polygon, polygon_wf, poly_intersects, same_points};

verus! {

/// Represents a line segment AB, stored with its lexicographically smaller
/// endpoint first (by x, then y), so that the same unordered pair of points
/// always builds the same value.
#[derive(Debug, Copy, Clone, PartialEq, Eq, Structural)]
pub struct Segment {
    /// The lexicographically smaller endpoint of the segment.
    pub a: Coord,
    /// The lexicographically larger endpoint of the segment.
    pub b: Coord,
}

/// The canonical segment over the unordered pair `{a, b}`.
pub open spec fn spec_canonical(a: Coord, b: Coord) -> Segment {
    if lex_le(a, b) {
        Segment { a, b }
    } else {
        Segment { a: b, b: a }
    }
}

impl Segment {
    /// A segment is well formed when its endpoints are in canonical order.
    pub open spec fn wf(self) -> bool {
        lex_le(self.a, self.b)
    }

    /// Both endpoints are within the coordinate bound.
    pub open spec fn in_bounds(self) -> bool {
        in_bounds(self.a) && in_bounds(self.b)
    }

    /// A point lies on the closed segment: it is colinear with the endpoints
    /// and inside their bounding box.
    pub open spec fn spec_contains_colinear(self, c: Coord) -> bool {
        &&& orientation_of(self.a, self.b, c) is Colinear
        &&& (if self.a.x <= self.b.x {
            self.a.x <= c.x <= self.b.x
        } else {
            self.b.x <= c.x <= self.a.x
        })
        &&& (if self.a.y <= self.b.y {
            self.a.y <= c.y <= self.b.y
        } else {
            self.b.y <= c.y <= self.a.y
        })
    }

    /// The distance measure of a point from the line through the segment:
    /// the absolute value of the cross product, proportional to (but not
    /// equal to) the Euclidean distance. Zero exactly on colinear points.
    pub open spec fn spec_distance(self, c: Coord) -> int {
        if cross(self.a, self.b, c) >= 0 {
            cross(self.a, self.b, c)
        } else {
            -cross(self.a, self.b, c)
        }
    }

    /// Whether two segments intersect. Segments that share an endpoint never
    /// count as intersecting (deliberate policy: adjacent polygon edges must
    /// not register against each other or themselves). Otherwise the standard
    /// orientation straddle test applies, with bounding-box containment as
    /// the fallback for the four colinear edge cases.
    pub open spec fn spec_intersects(self, other: Segment) -> bool {
        if self.a == other.a || self.a == other.b || self.b == other.a || self.b == other.b {
            false
        } else {
            let o1 = orientation_of(self.a, self.b, other.a);
            let o2 = orientation_of(self.a, self.b, other.b);
            let o3 = orientation_of(other.a, other.b, self.a);
            let o4 = orientation_of(other.a, other.b, self.b);
            ||| (o1 != o2 && o3 != o4)
            ||| (o1 is Colinear && spec_canonical(self.a, self.b).spec_contains_colinear(other.a))
            ||| (o2 is Colinear && spec_canonical(self.a, self.b).spec_contains_colinear(other.b))
            ||| (o3 is Colinear && spec_canonical(other.a, other.b).spec_contains_colinear(self.a))
            ||| (o4 is Colinear && spec_canonical(other.a, other.b).spec_contains_colinear(self.b))
        }
    }

    /// Constructs a line segment from its endpoints, in canonical order:
    /// the same unordered pair always yields the same segment.
    pub fn from_coords(a: Coord, b: Coord) -> (s: Segment)
        ensures
            s == spec_canonical(a, b),
            s.wf(),
    {
        if a.x < b.x || (a.x == b.x && a.y <= b.y) {
            Segment { a, b }
        } else {
            Segment { a: b, b: a }
        }
    }

    /// Checks if a point lies on `self`: colinear with the endpoints and
    /// within their bounding box.
    pub fn contains_colinear_coord(&self, coord: Coord) -> (r: bool)
        requires
            self.in_bounds(),
            in_bounds(coord),
        ensures
            r == self.spec_contains_colinear(coord),
    {
        if Orientation::from_coords(self.a, self.b, coord).is_colinear() {
            let max_x: i64 = if self.a.x >= self.b.x { self.a.x } else { self.b.x };
            let min_x: i64 = if self.a.x <= self.b.x { self.a.x } else { self.b.x };
            let max_y: i64 = if self.a.y >= self.b.y { self.a.y } else { self.b.y };
            let min_y: i64 = if self.a.y <= self.b.y { self.a.y } else { self.b.y };
            coord.x <= max_x && coord.x >= min_x && coord.y <= max_y && coord.y >= min_y
        } else {
            false
        }
    }

    /// Checks if `self` intersects another line segment.
    pub fn intersects(&self, other: &Segment) -> (r: bool)
        requires
            self.in_bounds(),
            other.in_bounds(),
        ensures
            r == self.spec_intersects(*other),
    {
        if self.a == other.a || self.a == other.b || self.b == other.a || self.b == other.b {
            return false;
        }

        let o1 = Orientation::from_coords(self.a, self.b, other.a);
        let o2 = Orientation::from_coords(self.a, self.b, other.b);
        let o3 = Orientation::from_coords(other.a, other.b, self.a);
        let o4 = Orientation::from_coords(other.a, other.b, self.b);

        if o1 != o2 && o3 != o4 {
            return true;
        }

        if o1.is_colinear() && Segment::from_coords(self.a, self.b).contains_colinear_coord(
            other.a,
        ) {
            return true;
        }

        if o2.is_colinear() && Segment::from_coords(self.a, self.b).contains_colinear_coord(
            other.b,
        ) {
            return true;
        }

        if o3.is_colinear() && Segment::from_coords(other.a, other.b).contains_colinear_coord(
            self.a,
        ) {
            return true;
        }

        if o4.is_colinear() && Segment::from_coords(other.a, other.b).contains_colinear_coord(
            self.b,
        ) {
            return true;
        }

        false
    }

    /// Returns a value proportional to the distance between the point and
    /// the line extending the segment: the absolute value of a cross
    /// product. Used only for relative comparison, never as a metric.
    pub fn coord_distance(&self, other: Coord) -> (r: i64)
        requires
            self.in_bounds(),
            in_bounds(other),
        ensures
            r == self.spec_distance(other),
            r == 0 <==> orientation_of(self.a, self.b, other) is Colinear,
    {
        proof {
            lemma_cross_fits(self.a, self.b, other);
            crate::orientation::lemma_mul_bound(
                other.y - self.a.y,
                self.b.x - self.a.x,
                2_000_000_000,
            );
            crate::orientation::lemma_mul_bound(
                self.b.y - self.a.y,
                other.x - self.a.x,
                2_000_000_000,
            );
            assert((other.y - self.a.y) * (self.b.x - self.a.x) - (self.b.y - self.a.y) * (
            other.x - self.a.x) == -cross(self.a, self.b, other)) by (nonlinear_arith);
        }
        let n: i64 = (other.y - self.a.y) * (self.b.x - self.a.x) - (self.b.y - self.a.y) * (
        other.x - self.a.x);
        if n >= 0 {
            n
        } else {
            -n
        }
    }

    /// Finds the polygons whose boundary intersects the segment, in input
    /// order, each distinct boundary reported once.
    pub fn get_intersecting_polygons(&self, polygons: &Vec<Polygon>) -> (r: Vec<Polygon>)
        requires
            self.in_bounds(),
            forall|j: int| 0 <= j < polygons@.len() ==> polygon_wf(#[trigger] polygons@[j]),
        ensures
            forall|p: Polygon|
                #[trigger] r@.contains(p) ==> exists|j: int|
                    0 <= j < polygons@.len() && #[trigger] same_points(p, polygons@[j])
                        && poly_intersects(polygons@[j], *self),
            forall|j: int|
                0 <= j < polygons@.len() && poly_intersects(#[trigger] polygons@[j], *self)
                    ==> exists|k: int|
                    0 <= k < r@.len() && same_points(#[trigger] r@[k], polygons@[j]),
            forall|k: int, l: int|
                0 <= k < l < r@.len() ==> !same_points(#[trigger] r@[k], #[trigger] r@[l]),
    {
        let mut r: Vec<Polygon> = Vec::new();
        let ghost mut w: Seq<int> = Seq::empty();
        let mut j: usize = 0;
        while j < polygons.len()
            invariant
                0 <= j <= polygons@.len(),
                self.in_bounds(),
                forall|i: int| 0 <= i < polygons@.len() ==> polygon_wf(#[trigger] polygons@[i]),
                w.len() == r@.len(),
                forall|k: int|
                    #![trigger w[k]]
                    0 <= k < r@.len() ==> 0 <= w[k] < polygons@.len() && same_points(
                        r@[k],
                        polygons@[w[k]],
                    ) && poly_intersects(polygons@[w[k]], *self),
                forall|i: int|
                    0 <= i < j && poly_intersects(#[trigger] polygons@[i], *self)
                        ==> exists|k: int|
                        0 <= k < r@.len() && same_points(#[trigger] r@[k], polygons@[i]),
                forall|k: int, l: int|
                    0 <= k < l < r@.len() ==> !same_points(#[trigger] r@[k], #[trigger] r@[l]),
            decreases polygons@.len() - j,
        {
            let ghost r_before = r@;
            let mut added = false;
            if crate::polygon::polygon_intersects_segment(&polygons[j], self) {
                if !crate::polygon::contains_same_points(&r, &polygons[j]) {
                    let p = Polygon { points: crate::coord::copy_coords(&polygons[j].points) };
                    proof {
                        assert(same_points(p, polygons@[j as int]));
                    }
                    r.push(p);
                    added = true;
                    proof {
                        w = w.push(j as int);
                        assert(same_points(r@[r@.len() - 1], polygons@[j as int]));
                        assert forall|k: int, l: int| 0 <= k < l < r@.len() implies !same_points(
                            #[trigger] r@[k],
                            #[trigger] r@[l],
                        ) by {
                            if l < r_before.len() {
                                assert(r@[k] == r_before[k] && r@[l] == r_before[l]);
                            } else {
                                assert(r@[k] == r_before[k]);
                                assert(!same_points(r_before[k], polygons@[j as int]));
                            }
                        }
                    }
                }
            }
            proof {
                assert forall|i: int|
                    0 <= i < j + 1 && poly_intersects(#[trigger] polygons@[i], *self) implies
                    exists|k: int|
                    0 <= k < r@.len() && same_points(#[trigger] r@[k], polygons@[i]) by {
                    if i < j {
                        let k = choose|k: int|
                            0 <= k < r_before.len() && same_points(
                                #[trigger] r_before[k],
                                polygons@[i],
                            );
                        assert(r@[k] == r_before[k]);
                        assert(same_points(r@[k], polygons@[i]));
                    } else if added {
                        assert(same_points(r@[r@.len() - 1], polygons@[i]));
                    } else {
                        // either this boundary does not intersect, or one
                        // with the same vertices is already present
                        let k = choose|k: int|
                            0 <= k < r_before.len() && same_points(
                                #[trigger] r_before[k],
                                polygons@[j as int],
                            );
                        assert(r@[k] == r_before[k]);
                        assert(same_points(r@[k], polygons@[i]));
                    }
                }
            }
            j = j + 1;
        }
        proof {
            assert forall|p: Polygon| #[trigger] r@.contains(p) implies exists|i: int|
                0 <= i < polygons@.len() && #[trigger] same_points(p, polygons@[i])
                    && poly_intersects(polygons@[i], *self) by {
                let k = choose|k: int| 0 <= k < r@.len() && r@[k] == p;
                assert(same_points(p, polygons@[w[k]]));
            }
        }
        r
    }

    /// Collects the vertices of every polygon whose boundary intersects the
    /// segment: a polygon either contributes all of its vertices or none.
    /// The result holds no duplicates.
    pub fn get_intersecting_polygon_coords(&self, polygons: &Vec<Polygon>) -> (r: Vec<Coord>)
        requires
            self.in_bounds(),
            forall|j: int| 0 <= j < polygons@.len() ==> polygon_wf(#[trigger] polygons@[j]),
        ensures
            distinct_coords(r@),
            forall|c: Coord|
                #[trigger] r@.contains(c) <==> exists|j: int|
                    0 <= j < polygons@.len() && #[trigger] poly_intersects(polygons@[j], *self)
                        && polygons@[j].points@.contains(c),
            forall|c: Coord| r@.contains(c) ==> in_bounds(c),
    {
        let mut r: Vec<Coord> = Vec::new();
        let mut j: usize = 0;
        while j < polygons.len()
            invariant
                0 <= j <= polygons@.len(),
                self.in_bounds(),
                forall|i: int| 0 <= i < polygons@.len() ==> polygon_wf(#[trigger] polygons@[i]),
                distinct_coords(r@),
                forall|c: Coord|
                    #[trigger] r@.contains(c) <==> exists|i: int|
                        0 <= i < j && #[trigger] poly_intersects(polygons@[i], *self)
                            && polygons@[i].points@.contains(c),
            decreases polygons@.len() - j,
        {
            if crate::polygon::polygon_intersects_segment(&polygons[j], self) {
                let points = &polygons[j].points;
                let mut v: usize = 0;
                while v < points.len()
                    invariant
                        0 <= v <= points@.len(),
                        points@ == polygons@[j as int].points@,
                        0 <= j < polygons@.len(),
                        poly_intersects(polygons@[j as int], *self),
                        distinct_coords(r@),
                        forall|c: Coord|
                            #[trigger] r@.contains(c) <==> (exists|i: int|
                                0 <= i < j && #[trigger] poly_intersects(polygons@[i], *self)
                                    && polygons@[i].points@.contains(c)) || exists|u: int|
                                0 <= u < v && points@[u] == c,
                    decreases points@.len() - v,
                {
                    let c = points[v];
                    crate::coord::insert_coord(&mut r, c);
                    proof {
                        assert(points@[v as int] == c);
                    }
                    v = v + 1;
                }
                proof {
                    assert forall|c: Coord| #[trigger] r@.contains(c) implies (exists|i: int|
                        0 <= i < j + 1 && #[trigger] poly_intersects(polygons@[i], *self)
                            && polygons@[i].points@.contains(c)) by {
                        if exists|u: int| 0 <= u < points@.len() && points@[u] == c {
                            assert(polygons@[j as int].points@.contains(c));
                        }
                    }
                }
            }
            j = j + 1;
        }
        proof {
            assert forall|c: Coord| r@.contains(c) implies in_bounds(c) by {
                let i = choose|i: int|
                    0 <= i < polygons@.len() && #[trigger] poly_intersects(polygons@[i], *self)
                        && polygons@[i].points@.contains(c);
                assert(polygon_wf(polygons@[i]));
            }
        }
        r
    }
}

/// Canonicalization: building a segment from the same two endpoints in either
/// order yields the same value.
pub proof fn lemma_canonical_symmetric(a: Coord, b: Coord)
    ensures
        spec_canonical(a, b) == spec_canonical(b, a),
{
    crate::coord::lemma_lex_total(a, b);
}

} // verus!
