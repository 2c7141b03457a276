//! The `Polygon` struct: an ordered, cyclic vertex boundary and its edges.

use vstd::prelude::*;
use crate::coord::{Coord, in_bounds};
use crate::segment::{Segment, spec_canonical};

verus! {

/// Represents a polygon: an ordered, cyclic sequence of vertices defining a
/// closed boundary. No winding order is assumed; only the edge set matters.
#[derive(Debug, Clone)]
pub struct Polygon {
    /// The points that make up the polygon, in boundary order.
    pub points: Vec<Coord>,
}

/// A usable polygon: at least three vertices, all within the coordinate
/// bound.
pub open spec fn polygon_wf(p: Polygon) -> bool {
    &&& p.points@.len() >= 3
    &&& forall|i: int| 0 <= i < p.points@.len() ==> in_bounds(#[trigger] p.points@[i])
}

/// The edge of `p` that starts at vertex `i` and ends at the next vertex,
/// cyclically: the last vertex joins back to the first.
pub open spec fn poly_edge(p: Polygon, i: int) -> Segment {
    spec_canonical(
        p.points@[i],
        p.points@[if i + 1 == p.points@.len() {
            0
        } else {
            i + 1
        }],
    )
}

/// Two polygons with the same vertex sequence describe the same boundary.
pub open spec fn same_points(a: Polygon, b: Polygon) -> bool {
    a.points@ == b.points@
}

/// Whether any edge of the polygon's boundary intersects the segment.
pub open spec fn poly_intersects(p: Polygon, s: Segment) -> bool {
    exists|i: int| 0 <= i < p.points@.len() && (#[trigger] poly_edge(p, i)).spec_intersects(s)
}

impl Polygon {
    /// Returns the segments that make up the polygon's boundary: edge `i`
    /// joins vertex `i` to vertex `i + 1`, cyclically.
    pub fn segments(&self) -> (r: Vec<Segment>)
        requires
            self.points@.len() >= 1,
        ensures
            r@.len() == self.points@.len(),
            forall|i: int| 0 <= i < r@.len() ==> r@[i] == poly_edge(*self, i),
            polygon_wf(*self) ==> forall|i: int|
                0 <= i < r@.len() ==> (#[trigger] r@[i]).in_bounds(),
    {
        let n = self.points.len();
        let mut r: Vec<Segment> = Vec::new();
        let mut i: usize = 0;
        while i < n
            invariant
                0 <= i <= n,
                n == self.points@.len(),
                n >= 1,
                r@.len() == i,
                forall|k: int| 0 <= k < i ==> r@[k] == poly_edge(*self, k),
            decreases n - i,
        {
            let next: usize = if i + 1 == n {
                0
            } else {
                i + 1
            };
            let s = Segment::from_coords(self.points[i], self.points[next]);
            r.push(s);
            i = i + 1;
        }
        proof {
            if polygon_wf(*self) {
                assert forall|i: int| 0 <= i < r@.len() implies (#[trigger] r@[i]).in_bounds() by {
                    assert(r@[i] == poly_edge(*self, i));
                    assert(in_bounds(self.points@[i]));
                    assert(in_bounds(self.points@[(i + 1) % (self.points@.len() as int)]));
                }
            }
        }
        r
    }
}

/// Whether `v` already holds a polygon with the same vertex sequence as
/// `p`.
pub fn contains_same_points(v: &Vec<Polygon>, p: &Polygon) -> (r: bool)
    ensures
        r <==> exists|k: int| 0 <= k < v@.len() && same_points(#[trigger] v@[k], *p),
{
    let mut i: usize = 0;
    while i < v.len()
        invariant
            0 <= i <= v@.len(),
            forall|k: int| 0 <= k < i ==> !same_points(#[trigger] v@[k], *p),
        decreases v@.len() - i,
    {
        if crate::coord::coords_equal(&v[i].points, &p.points) {
            proof {
                assert(same_points(v@[i as int], *p));
            }
            return true;
        }
        i = i + 1;
    }
    false
}

/// Whether any edge of the polygon intersects the segment, checking edge by
/// edge and stopping at the first hit.
pub fn polygon_intersects_segment(p: &Polygon, s: &Segment) -> (r: bool)
    requires
        polygon_wf(*p),
        s.in_bounds(),
    ensures
        r == poly_intersects(*p, *s),
{
    let edges = p.segments();
    let mut i: usize = 0;
    while i < edges.len()
        invariant
            0 <= i <= edges@.len(),
            edges@.len() == p.points@.len(),
            polygon_wf(*p),
            s.in_bounds(),
            forall|k: int| 0 <= k < edges@.len() ==> edges@[k] == poly_edge(*p, k),
            forall|k: int| 0 <= k < edges@.len() ==> (#[trigger] edges@[k]).in_bounds(),
            forall|k: int| 0 <= k < i ==> !(#[trigger] poly_edge(*p, k)).spec_intersects(*s),
        decreases edges@.len() - i,
    {
        if edges[i].intersects(s) {
            proof {
                assert(poly_edge(*p, i as int).spec_intersects(*s));
            }
            return true;
        }
        i = i + 1;
    }
    false
}

} // verus!
