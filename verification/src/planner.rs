//! The path planner: runs the leg expansion over every consecutive pair of
//! waypoints and assembles the ordered hull list.

use vstd::prelude::*;
use crate::coord::{Coord, in_bounds};
use crate::polygon::Polygon;
use crate::hull::{Hull, distinct_segments};
use crate::segment::spec_canonical;
use crate::leg::{
    expand_leg_hull, polys_wf, total_vertices, leg_unobstructed, leg_edge_ok,
    has_leg_fixed_point,
};
use crate::error::Error;

verus! {

/// The input of a path computation: a path from `start` to `end` through
/// the ordered `route` waypoints, avoiding the `polygons`.
#[derive(Debug, Clone)]
pub struct Input {
    /// The start of the path.
    pub start: Coord,
    /// The end of the path.
    pub end: Coord,
    /// Points that must be passed in order from start to end.
    pub route: Vec<Coord>,
    /// The polygons that block the path.
    pub polygons: Vec<Polygon>,
}

impl Input {
    /// The full ordered waypoint sequence: start, the route, end.
    pub open spec fn waypoints(self) -> Seq<Coord> {
        seq![self.start] + self.route@ + seq![self.end]
    }

    /// A usable input: all coordinates bounded, all polygons well formed,
    /// and a total vertex count small enough for the iteration caps.
    pub open spec fn wf(self) -> bool {
        &&& in_bounds(self.start)
        &&& in_bounds(self.end)
        &&& forall|k: int| 0 <= k < self.route@.len() ==> in_bounds(#[trigger] self.route@[k])
        &&& polys_wf(self.polygons@)
        &&& total_vertices(self.polygons@) + 2 <= 0x4000_0000
    }
}

/// The output of a path computation: the input it was computed from,
/// echoed for downstream rendering, and one hull per leg, in leg order.
#[derive(Debug)]
pub struct Output {
    /// The input that generated this output.
    pub input: Input,
    /// The point-to-point hulls along the path, one per leg.
    pub hulls: Vec<Hull>,
}

/// Everything `process` promises of the hull of one leg: at least one edge,
/// no duplicate edges, every edge between obstacle vertices and leg
/// endpoints, a candidate set and final rebuild witnessing the stable state
/// of the leg's hull growth (see `leg_fixed_point`), and a leg whose direct
/// segment is unobstructed keeps exactly that direct segment.
pub open spec fn leg_hull_ok(origin: Coord, destination: Coord, ps: Seq<Polygon>, h: Hull) -> bool {
    &&& h.segment_set@.len() >= 1
    &&& distinct_segments(h.segment_set@)
    &&& forall|k: int|
        0 <= k < h.segment_set@.len() ==> leg_edge_ok(
            origin,
            destination,
            ps,
            #[trigger] h.segment_set@[k],
        )
    &&& has_leg_fixed_point(origin, destination, ps, h.segment_set@)
    &&& (origin != destination && leg_unobstructed(origin, destination, ps)
        ==> h.segment_set@ == seq![spec_canonical(origin, destination)])
}

/// Some hull satisfies everything `process` promises of the given leg: the
/// leg's hull computation can end in a stable state.
pub open spec fn some_leg_hull(origin: Coord, destination: Coord, ps: Seq<Polygon>) -> bool {
    exists|h: Hull| #[trigger] leg_hull_ok(origin, destination, ps, h)
}

/// Processes the input into its output by generating one convex hull per
/// leg of the path, in leg order.
///
/// The first failing leg aborts the whole computation: no partial result is
/// returned, and the error names a leg that was not owed success, while
/// every leg before it admits a valid hull. Each returned hull is witnessed
/// by a stable candidate set (see `leg_fixed_point`). When every leg joins
/// two distinct waypoints and meets no obstacle, success is guaranteed and
/// each hull is exactly its leg's direct segment.
pub fn process(input: Input) -> (r: Result<Output, Error>)
    requires
        input.wf(),
    ensures
        r matches Ok(out) ==> {
            &&& out.input == input
            &&& out.hulls@.len() == input.waypoints().len() - 1
            &&& forall|i: int|
                0 <= i < out.hulls@.len() ==> leg_hull_ok(
                    input.waypoints()[i],
                    input.waypoints()[i + 1],
                    input.polygons@,
                    #[trigger] out.hulls@[i],
                )
        },
        r matches Err(e) ==> (e.kind is GeometryDegenerate && e.leg < input.waypoints().len() - 1
            && !(input.waypoints()[e.leg as int] != input.waypoints()[e.leg + 1]
            && leg_unobstructed(
            input.waypoints()[e.leg as int],
            input.waypoints()[e.leg + 1],
            input.polygons@,
        )) && forall|i: int|
            #![trigger input.waypoints()[i]]
            0 <= i < e.leg ==> some_leg_hull(
                input.waypoints()[i],
                input.waypoints()[i + 1],
                input.polygons@,
            )),
        (forall|i: int|
            #![trigger input.waypoints()[i]]
            0 <= i < input.waypoints().len() - 1 ==> (input.waypoints()[i] != input.waypoints()[i
                + 1] && leg_unobstructed(
                input.waypoints()[i],
                input.waypoints()[i + 1],
                input.polygons@,
            ))) ==> r is Ok,
{
    let mut waypoints: Vec<Coord> = Vec::new();
    waypoints.push(input.start);
    let mut i: usize = 0;
    while i < input.route.len()
        invariant
            0 <= i <= input.route@.len(),
            waypoints@ =~= seq![input.start] + input.route@.subrange(0, i as int),
        decreases input.route@.len() - i,
    {
        waypoints.push(input.route[i]);
        proof {
            assert(waypoints@ =~= seq![input.start] + input.route@.subrange(0, i as int + 1));
        }
        i = i + 1;
    }
    waypoints.push(input.end);
    proof {
        assert(input.route@.subrange(0, input.route@.len() as int) =~= input.route@);
        assert(waypoints@ =~= input.waypoints());
        assert forall|k: int| 0 <= k < waypoints@.len() implies in_bounds(
            #[trigger] waypoints@[k],
        ) by {
            if k == 0 {
            } else if k < waypoints@.len() - 1 {
                assert(waypoints@[k] == input.route@[k - 1]);
            } else {
                assert(waypoints@[k] == input.end);
            }
        }
    }

    let n_legs = waypoints.len() - 1;
    let mut hulls: Vec<Hull> = Vec::new();
    let mut leg: usize = 0;
    while leg < n_legs
        invariant
            input.wf(),
            waypoints@ == input.waypoints(),
            forall|k: int| 0 <= k < waypoints@.len() ==> in_bounds(#[trigger] waypoints@[k]),
            n_legs == waypoints@.len() - 1,
            waypoints@.len() >= 2,
            0 <= leg <= n_legs,
            hulls@.len() == leg,
            forall|i: int|
                0 <= i < leg ==> leg_hull_ok(
                    waypoints@[i],
                    waypoints@[i + 1],
                    input.polygons@,
                    #[trigger] hulls@[i],
                ),
        decreases n_legs - leg,
    {
        let origin = waypoints[leg];
        let destination = waypoints[leg + 1];
        let ghost hulls_before = hulls@;
        match expand_leg_hull(origin, destination, &input.polygons) {
            Ok(h) => {
                hulls.push(h);
                proof {
                    assert forall|i: int| 0 <= i < leg + 1 implies leg_hull_ok(
                        waypoints@[i],
                        waypoints@[i + 1],
                        input.polygons@,
                        #[trigger] hulls@[i],
                    ) by {
                        if i < leg {
                            assert(hulls@[i] == hulls_before[i]);
                        }
                    }
                }
            },
            Err(e) => {
                proof {
                    // were every leg distinct and unobstructed, this leg
                    // would have succeeded; every earlier leg did
                    assert(e is GeometryDegenerate);
                    assert forall|i: int| #![trigger waypoints@[i]] 0 <= i < leg implies some_leg_hull(
                        waypoints@[i],
                        waypoints@[i + 1],
                        input.polygons@,
                    ) by {
                        assert(leg_hull_ok(
                            waypoints@[i],
                            waypoints@[i + 1],
                            input.polygons@,
                            hulls@[i],
                        ));
                    }
                }
                return Err(Error { kind: e, leg });
            },
        }
        leg = leg + 1;
    }
    Ok(Output { input, hulls })
}

} // verus!
