//! The per-leg fixed-point algorithm: grows the set of obstacle vertices
//! that one leg must avoid, rebuilding the convex hull until it stabilizes.

use vstd::prelude::*;
use crate::coord::{
    Coord, in_bounds, distinct_coords, insert_coord, union_coords,
};
use crate::segment::{Segment, spec_canonical};
use crate::polygon::{Polygon, polygon_wf, poly_intersects};
use crate::hull::{Hull, distinct_segments, union_segments, supports};
use crate::quickhull::{calculate_hull, hull_edge_ok};
use crate::error::ErrorKind;

verus! {

/// Every polygon of the sequence is well formed.
pub open spec fn polys_wf(ps: Seq<Polygon>) -> bool {
    forall|j: int| 0 <= j < ps.len() ==> polygon_wf(#[trigger] ps[j])
}

/// The coordinate is a vertex of some polygon of the sequence.
pub open spec fn coord_in_polys(c: Coord, ps: Seq<Polygon>) -> bool {
    exists|j: int| 0 <= j < ps.len() && (#[trigger] ps[j]).points@.contains(c)
}

/// No polygon's boundary intersects the direct segment of the leg.
pub open spec fn leg_unobstructed(origin: Coord, destination: Coord, ps: Seq<Polygon>) -> bool {
    forall|j: int|
        0 <= j < ps.len() ==> !poly_intersects(#[trigger] ps[j], spec_canonical(origin, destination))
}

/// An edge a leg's hull may hold: two distinct bounded endpoints in canonical
/// order, each of them an obstacle vertex or a leg endpoint.
pub open spec fn leg_edge_ok(
    origin: Coord,
    destination: Coord,
    ps: Seq<Polygon>,
    e: Segment,
) -> bool {
    &&& e.wf()
    &&& e.a != e.b
    &&& e.in_bounds()
    &&& (coord_in_polys(e.a, ps) || e.a == origin || e.a == destination)
    &&& (coord_in_polys(e.b, ps) || e.b == origin || e.b == destination)
}

/// The stable state in which one leg's hull growth ends, witnessed by its
/// candidate point set `cands` and the edge set `last` of the final hull
/// rebuild.
///
/// The candidate set holds distinct obstacle vertices besides the two leg
/// endpoints, and is closed under obstacle discovery: every polygon whose
/// boundary intersects the direct segment, or any returned hull edge,
/// contributes all of its vertices. The final rebuild's edges are among the
/// returned edges, join candidate points, and their lines each support the
/// whole candidate set: no candidate lies strictly outside the final
/// boundary. In particular, a leg whose direct segment cuts through an
/// obstacle cannot come back as the bare direct segment: two of that
/// obstacle's vertices are candidates on opposite sides of it.
pub open spec fn leg_fixed_point(
    origin: Coord,
    destination: Coord,
    ps: Seq<Polygon>,
    edges: Seq<Segment>,
    cands: Seq<Coord>,
    last: Seq<Segment>,
) -> bool {
    &&& distinct_coords(cands)
    &&& cands.contains(origin)
    &&& cands.contains(destination)
    &&& forall|c: Coord| #[trigger]
        cands.contains(c) ==> in_bounds(c) && (coord_in_polys(c, ps) || c == origin || c
            == destination)
    &&& forall|j: int, c: Coord|
        0 <= j < ps.len() && poly_intersects(ps[j], spec_canonical(origin, destination))
            && #[trigger] ps[j].points@.contains(c) ==> cands.contains(c)
    &&& forall|k: int, j: int, c: Coord|
        #![trigger poly_intersects(ps[j], edges[k]), ps[j].points@.contains(c)]
        0 <= k < edges.len() && 0 <= j < ps.len() && poly_intersects(ps[j], edges[k])
            && ps[j].points@.contains(c) ==> cands.contains(c)
    &&& last.len() >= 1
    &&& forall|k: int|
        0 <= k < last.len() ==> edges.contains(#[trigger] last[k]) && supports(cands, last[k])
            && cands.contains(last[k].a) && cands.contains(last[k].b) && last[k].a != last[k].b
}

/// Some candidate set and final rebuild witness the stable state of a
/// leg's hull growth (see [`leg_fixed_point`]).
pub open spec fn has_leg_fixed_point(
    origin: Coord,
    destination: Coord,
    ps: Seq<Polygon>,
    edges: Seq<Segment>,
) -> bool {
    exists|cands: Seq<Coord>, last: Seq<Segment>| #[trigger]
        leg_fixed_point(origin, destination, ps, edges, cands, last)
}

/// The total number of vertices over all polygons; the candidate point set
/// of one leg can never exceed it by more than the two leg endpoints.
pub open spec fn total_vertices(ps: Seq<Polygon>) -> int
    decreases ps.len(),
{
    if ps.len() == 0 {
        0
    } else {
        total_vertices(ps.drop_last()) + ps.last().points@.len()
    }
}

proof fn lemma_total_vertices_nonneg(ps: Seq<Polygon>)
    ensures
        total_vertices(ps) >= 0,
    decreases ps.len(),
{
    if ps.len() > 0 {
        lemma_total_vertices_nonneg(ps.drop_last());
    }
}

proof fn lemma_total_vertices_step(ps: Seq<Polygon>, i: int)
    requires
        0 <= i < ps.len(),
    ensures
        total_vertices(ps.subrange(0, i + 1)) == total_vertices(ps.subrange(0, i))
            + ps[i].points@.len(),
{
    let s = ps.subrange(0, i + 1);
    assert(s.drop_last() =~= ps.subrange(0, i));
    assert(s.last() == ps[i]);
}

proof fn lemma_total_vertices_prefix_le(ps: Seq<Polygon>, i: int)
    requires
        0 <= i <= ps.len(),
    ensures
        total_vertices(ps.subrange(0, i)) <= total_vertices(ps),
    decreases ps.len() - i,
{
    if i == ps.len() {
        assert(ps.subrange(0, i) =~= ps);
    } else {
        lemma_total_vertices_step(ps, i);
        lemma_total_vertices_nonneg(ps.subrange(0, i));
        lemma_total_vertices_prefix_le(ps, i + 1);
    }
}

/// Counts the vertices over all polygons.
fn count_vertices(polygons: &Vec<Polygon>) -> (r: usize)
    requires
        total_vertices(polygons@) <= 0x4000_0000,
    ensures
        r == total_vertices(polygons@),
{
    let mut sum: usize = 0;
    let mut i: usize = 0;
    proof {
        assert(polygons@.subrange(0, 0) =~= Seq::<Polygon>::empty());
    }
    while i < polygons.len()
        invariant
            0 <= i <= polygons@.len(),
            sum == total_vertices(polygons@.subrange(0, i as int)),
            total_vertices(polygons@) <= 0x4000_0000,
        decreases polygons@.len() - i,
    {
        proof {
            lemma_total_vertices_step(polygons@, i as int);
            lemma_total_vertices_prefix_le(polygons@, i as int + 1);
            lemma_total_vertices_nonneg(polygons@.subrange(0, i as int));
        }
        sum = sum + polygons[i].points.len();
        i = i + 1;
    }
    proof {
        assert(polygons@.subrange(0, polygons@.len() as int) =~= polygons@);
    }
    sum
}

/// The set of all polygon vertices.
spec fn polys_vert_set(ps: Seq<Polygon>) -> Set<Coord>
    decreases ps.len(),
{
    if ps.len() == 0 {
        Set::empty()
    } else {
        polys_vert_set(ps.drop_last()).union(ps.last().points@.to_set())
    }
}

proof fn lemma_polys_vert_set(ps: Seq<Polygon>)
    ensures
        polys_vert_set(ps).finite(),
        polys_vert_set(ps).len() <= total_vertices(ps),
        forall|c: Coord| #[trigger] polys_vert_set(ps).contains(c) <==> coord_in_polys(c, ps),
    decreases ps.len(),
{
    broadcast use vstd::set::group_set_axioms;
    broadcast use vstd::seq_lib::seq_to_set_is_finite;

    if ps.len() == 0 {
        assert forall|c: Coord| !coord_in_polys(c, ps) by {}
    } else {
        let rest = ps.drop_last();
        let last = ps.last();
        lemma_polys_vert_set(rest);
        last.points@.lemma_cardinality_of_set();
        vstd::set_lib::lemma_len_union(polys_vert_set(rest), last.points@.to_set());
        lemma_total_vertices_nonneg(rest);
        assert forall|c: Coord| #[trigger] polys_vert_set(ps).contains(c) implies coord_in_polys(
            c,
            ps,
        ) by {
            if polys_vert_set(rest).contains(c) {
                let j = choose|j: int| 0 <= j < rest.len() && (#[trigger] rest[j]).points@.contains(
                    c,
                );
                assert(ps[j].points@.contains(c));
            } else {
                assert(last.points@.to_set().contains(c));
                assert(ps[ps.len() - 1].points@.contains(c));
            }
        }
        assert forall|c: Coord| coord_in_polys(c, ps) implies #[trigger] polys_vert_set(
            ps,
        ).contains(c) by {
            let j = choose|j: int| 0 <= j < ps.len() && (#[trigger] ps[j]).points@.contains(c);
            if j < ps.len() - 1 {
                assert(rest[j].points@.contains(c));
            } else {
                assert(last.points@.contains(c));
                assert(last.points@.to_set().contains(c));
            }
        }
    }
}

/// The growth bound of the candidate set: a distinct sequence whose
/// elements are all obstacle vertices or leg endpoints cannot outgrow the
/// total vertex count plus two. Since each round of hull growth adds at
/// least one such element, this bounds the rounds of one leg.
pub proof fn lemma_candidates_bound(cand: Seq<Coord>, ps: Seq<Polygon>, o: Coord, d: Coord)
    requires
        distinct_coords(cand),
        forall|c: Coord| #[trigger] cand.contains(c) ==> coord_in_polys(c, ps) || c == o || c == d,
    ensures
        cand.len() <= total_vertices(ps) + 2,
{
    broadcast use vstd::set::group_set_axioms;

    lemma_polys_vert_set(ps);
    let u0 = polys_vert_set(ps);
    let u = u0.insert(o).insert(d);
    assert(cand.no_duplicates()) by {
        assert forall|i: int, j: int|
            0 <= i < cand.len() && 0 <= j < cand.len() && i != j implies cand[i] != cand[j] by {
            if i < j {
            } else {
                assert(j < i);
            }
        }
    }
    cand.unique_seq_to_set();
    assert(cand.to_set().subset_of(u)) by {
        assert forall|c: Coord| #[trigger] cand.to_set().contains(c) implies u.contains(c) by {
            assert(cand.contains(c));
        }
    }
    vstd::set_lib::lemma_len_subset(cand.to_set(), u);
}

/// Expands the hull of one leg of the path.
///
/// Starting from the direct segment between the two endpoints, the candidate
/// point set repeatedly takes in every vertex of every polygon that
/// intersects the current hull boundary (or the direct segment), and the
/// hull is rebuilt over the grown set, until an iteration discovers nothing
/// new. Routing around one obstacle can bring the boundary into contact with
/// another, previously uninvolved obstacle; the candidate set grows
/// monotonically and is bounded by the total vertex count plus two, which
/// bounds the number of iterations. The loop carries an explicit iteration
/// cap as a defensive measure, and the proof shows the cap is never reached:
/// `IterationLimitExceeded` is never returned.
///
/// A leg whose direct segment meets no obstacle yields exactly the one
/// direct edge. Every result is a stable state: some candidate set closed
/// under obstacle discovery, together with a final rebuild whose edges
/// support it, witnesses the returned hull (see [`leg_fixed_point`]). A
/// failure of the hull construction surfaces as `GeometryDegenerate`, and
/// for a leg whose endpoints coincide and meet no obstacle that failure is
/// certain.
pub fn expand_leg_hull(origin: Coord, destination: Coord, polygons: &Vec<Polygon>) -> (r: Result<
    Hull,
    ErrorKind,
>)
    requires
        in_bounds(origin),
        in_bounds(destination),
        polys_wf(polygons@),
        total_vertices(polygons@) + 2 <= 0x4000_0000,
    ensures
        r matches Err(e) ==> e is GeometryDegenerate,
        origin == destination && polygons@.len() == 0 ==> (r matches Err(e) && e
            is GeometryDegenerate),
        origin != destination && leg_unobstructed(origin, destination, polygons@) ==> (r matches Ok(
            h,
        ) && h.segment_set@ == seq![spec_canonical(origin, destination)]),
        r matches Ok(h) ==> {
            &&& h.segment_set@.len() >= 1
            &&& distinct_segments(h.segment_set@)
            &&& forall|k: int|
                0 <= k < h.segment_set@.len() ==> leg_edge_ok(
                    origin,
                    destination,
                    polygons@,
                    #[trigger] h.segment_set@[k],
                )
        },
        r matches Ok(h) ==> has_leg_fixed_point(origin, destination, polygons@, h.segment_set@),
{
    let direct = Segment::from_coords(origin, destination);
    let total = count_vertices(polygons);
    let cap: usize = total + 3;

    let mut candidates: Vec<Coord> = Vec::new();
    let mut hull: Vec<Segment> = Vec::new();
    let ghost mut last_edges: Seq<Segment> = Seq::empty();
    let mut iterations: usize = 0;

    proof {
        lemma_total_vertices_nonneg(polygons@);
    }

    loop
        invariant
            in_bounds(origin),
            in_bounds(destination),
            polys_wf(polygons@),
            total == total_vertices(polygons@),
            total + 2 <= 0x4000_0000,
            cap == total + 3,
            direct == spec_canonical(origin, destination),
            direct.in_bounds(),
            distinct_coords(candidates@),
            forall|c: Coord| #[trigger]
                candidates@.contains(c) ==> in_bounds(c) && (coord_in_polys(c, polygons@) || c
                    == origin || c == destination),
            distinct_segments(hull@),
            forall|k: int|
                0 <= k < hull@.len() ==> leg_edge_ok(
                    origin,
                    destination,
                    polygons@,
                    #[trigger] hull@[k],
                ),
            iterations <= candidates@.len(),
            iterations >= 1 ==> hull@.len() >= 1,
            iterations == 0 ==> candidates@.len() == 0 && hull@.len() == 0,
            iterations >= 1 ==> candidates@.contains(origin) && candidates@.contains(destination),
            iterations >= 1 ==> last_edges.len() >= 1 && forall|k: int|
                0 <= k < last_edges.len() ==> hull@.contains(#[trigger] last_edges[k])
                    && hull_edge_ok(candidates@, last_edges[k]),
            iterations <= cap,
            origin != destination && leg_unobstructed(origin, destination, polygons@) ==> ((
            iterations == 0 && candidates@ == Seq::<Coord>::empty() && hull@ == Seq::<
                Segment,
            >::empty()) || (iterations == 1 && candidates@ == seq![origin, destination] && hull@
                == seq![spec_canonical(origin, destination)])),
        decreases cap - iterations,
    {
        proof {
            lemma_candidates_bound(candidates@, polygons@, origin, destination);
        }
        if iterations >= cap {
            // unreachable: the candidate set bounds the iteration count below
            // the cap, as the invariants above show; the check stays as a
            // defensive bound
            proof {
                assert(false);
            }
            return Err(ErrorKind::IterationLimitExceeded);
        }
        iterations = iterations + 1;

        // gather the vertices of every polygon that intersects the direct
        // segment or any current hull edge
        let mut new = direct.get_intersecting_polygon_coords(polygons);
        proof {
            if origin != destination && leg_unobstructed(origin, destination, polygons@) {
                if new@.len() > 0 {
                    assert(new@.contains(new@[0]));
                }
                assert(new@.len() == 0);
            }
            assert forall|j: int, c: Coord|
                0 <= j < polygons@.len() && poly_intersects(
                    polygons@[j],
                    spec_canonical(origin, destination),
                ) && #[trigger] polygons@[j].points@.contains(c) implies new@.contains(c) by {
                assert(poly_intersects(polygons@[j], direct));
            }
        }
        let mut hi: usize = 0;
        while hi < hull.len()
            invariant
                0 <= hi <= hull@.len(),
                polys_wf(polygons@),
                in_bounds(origin),
                in_bounds(destination),
                direct == spec_canonical(origin, destination),
                forall|k: int|
                    0 <= k < hull@.len() ==> leg_edge_ok(
                        origin,
                        destination,
                        polygons@,
                        #[trigger] hull@[k],
                    ),
                distinct_coords(new@),
                forall|c: Coord| #[trigger]
                    new@.contains(c) ==> in_bounds(c) && coord_in_polys(c, polygons@),
                forall|j: int, c: Coord|
                    0 <= j < polygons@.len() && poly_intersects(
                        polygons@[j],
                        spec_canonical(origin, destination),
                    ) && #[trigger] polygons@[j].points@.contains(c) ==> new@.contains(c),
                forall|h: int, j: int, c: Coord|
                    #![trigger poly_intersects(polygons@[j], hull@[h]), polygons@[j].points@.contains(c)]
                    0 <= h < hi && 0 <= j < polygons@.len() && poly_intersects(
                        polygons@[j],
                        hull@[h],
                    ) && polygons@[j].points@.contains(c) ==> new@.contains(c),
                origin != destination && leg_unobstructed(origin, destination, polygons@) && (
                hull@.len() == 0 || hull@ == seq![spec_canonical(origin, destination)])
                    ==> new@.len() == 0,
            decreases hull@.len() - hi,
        {
            let seg_coords = (&hull[hi]).get_intersecting_polygon_coords(polygons);
            proof {
                assert(leg_edge_ok(origin, destination, polygons@, hull@[hi as int]));
                if origin != destination && leg_unobstructed(origin, destination, polygons@)
                    && hull@ == seq![spec_canonical(origin, destination)] {
                    if seg_coords@.len() > 0 {
                        assert(seg_coords@.contains(seg_coords@[0]));
                    }
                    assert(seg_coords@.len() == 0);
                }
            }
            let ghost new_before = new@;
            union_coords(&mut new, &seg_coords);
            proof {
                assert forall|c: Coord| #[trigger] new@.contains(c) implies in_bounds(c)
                    && coord_in_polys(c, polygons@) by {
                    if !new_before.contains(c) {
                        assert(seg_coords@.contains(c));
                    }
                }
                assert forall|j: int, c: Coord|
                    0 <= j < polygons@.len() && poly_intersects(
                        polygons@[j],
                        spec_canonical(origin, destination),
                    ) && #[trigger] polygons@[j].points@.contains(c) implies new@.contains(c) by {
                    assert(new_before.contains(c));
                }
                assert forall|h: int, j: int, c: Coord|
                    #![trigger poly_intersects(polygons@[j], hull@[h]), polygons@[j].points@.contains(c)]
                    0 <= h < hi + 1 && 0 <= j < polygons@.len() && poly_intersects(
                        polygons@[j],
                        hull@[h],
                    ) && polygons@[j].points@.contains(c) implies new@.contains(c) by {
                    if h < hi {
                        assert(new_before.contains(c));
                    } else {
                        assert(seg_coords@.contains(c));
                    }
                }
                if origin != destination && leg_unobstructed(origin, destination, polygons@)
                    && hull@ == seq![spec_canonical(origin, destination)] {
                    if new@.len() > 0 {
                        assert(new@.contains(new@[0]));
                    }
                }
            }
            hi = hi + 1;
        }

        // fixed point reached: nothing new was discovered for this hull
        let had_hull = hull.len() > 0;
        let ghost cand_before = candidates@;
        let grew = union_coords(&mut candidates, &new);
        proof {
            assert forall|c: Coord| #[trigger] candidates@.contains(c) implies in_bounds(c) && (
            coord_in_polys(c, polygons@) || c == origin || c == destination) by {
                if !cand_before.contains(c) {
                    assert(new@.contains(c));
                }
            }
        }
        if had_hull && !grew {
            proof {
                if origin == destination && polygons@.len() == 0 {
                    // a hull edge would need two distinct endpoints among
                    // obstacle vertices and leg endpoints, and there is only
                    // one such point
                    assert(leg_edge_ok(origin, destination, polygons@, hull@[0]));
                    assert(false);
                }
                // nothing new was discovered, so the candidate set is closed
                // under obstacle discovery and unchanged since the last hull
                // rebuild
                assert(candidates@ == cand_before);
                assert forall|j: int, c: Coord|
                    0 <= j < polygons@.len() && poly_intersects(
                        polygons@[j],
                        spec_canonical(origin, destination),
                    ) && #[trigger] polygons@[j].points@.contains(c) implies candidates@.contains(
                    c,
                ) by {
                    assert(new@.contains(c));
                }
                assert forall|k: int, j: int, c: Coord|
                    #![trigger poly_intersects(polygons@[j], hull@[k]), polygons@[j].points@.contains(c)]
                    0 <= k < hull@.len() && 0 <= j < polygons@.len() && poly_intersects(
                        polygons@[j],
                        hull@[k],
                    ) && polygons@[j].points@.contains(c) implies candidates@.contains(c) by {
                    assert(new@.contains(c));
                }
                assert(leg_fixed_point(
                    origin,
                    destination,
                    polygons@,
                    hull@,
                    candidates@,
                    last_edges,
                ));
            }
            let result = Hull::from_segment_set(hull);
            proof {
                assert(leg_fixed_point(
                    origin,
                    destination,
                    polygons@,
                    result.segment_set@,
                    candidates@,
                    last_edges,
                ));
                assert(has_leg_fixed_point(origin, destination, polygons@, result.segment_set@));
            }
            return Ok(result);
        }

        // grow the candidate set by the leg endpoints and every vertex found
        let ghost cand_mid = candidates@;
        insert_coord(&mut candidates, origin);
        insert_coord(&mut candidates, destination);
        proof {
            assert forall|c: Coord| #[trigger] candidates@.contains(c) implies in_bounds(c) && (
            coord_in_polys(c, polygons@) || c == origin || c == destination) by {}
            assert(candidates@.contains(origin));
            assert(candidates@.contains(destination));
            assert(candidates@.len() >= 1);
            lemma_candidates_bound(candidates@, polygons@, origin, destination);
            if origin != destination && leg_unobstructed(origin, destination, polygons@) {
                if iterations == 1 {
                    assert(cand_mid == Seq::<Coord>::empty());
                    assert(candidates@ =~= seq![origin, destination]);
                }
            }
        }

        // rebuild the hull over the grown candidate set
        proof {
            assert forall|k: int| 0 <= k < candidates@.len() implies in_bounds(
                #[trigger] candidates@[k],
            ) by {
                assert(candidates@.contains(candidates@[k]));
            }
        }
        match calculate_hull(&candidates) {
            Ok(new_edges) => {
                proof {
                    assert forall|k: int| 0 <= k < new_edges@.len() implies leg_edge_ok(
                        origin,
                        destination,
                        polygons@,
                        #[trigger] new_edges@[k],
                    ) by {
                        assert(hull_edge_ok(candidates@, new_edges@[k]));
                        assert(candidates@.contains(new_edges@[k].a));
                        assert(candidates@.contains(new_edges@[k].b));
                    }
                }
                let ghost hull_before = hull@;
                union_segments(&mut hull, &new_edges);
                proof {
                    last_edges = new_edges@;
                    assert forall|k: int| 0 <= k < last_edges.len() implies hull@.contains(
                        #[trigger] last_edges[k],
                    ) && hull_edge_ok(candidates@, last_edges[k]) by {
                        assert(new_edges@.contains(new_edges@[k]));
                        assert(hull_edge_ok(candidates@, new_edges@[k]));
                    }
                    assert forall|k: int| 0 <= k < hull@.len() implies leg_edge_ok(
                        origin,
                        destination,
                        polygons@,
                        #[trigger] hull@[k],
                    ) by {
                        assert(hull@.contains(hull@[k]));
                        if !hull_before.contains(hull@[k]) {
                            assert(new_edges@.contains(hull@[k]));
                            let ke = choose|ke: int|
                                0 <= ke < new_edges@.len() && new_edges@[ke] == hull@[k];
                        }
                        if hull_before.contains(hull@[k]) {
                            let kb = choose|kb: int|
                                0 <= kb < hull_before.len() && hull_before[kb] == hull@[k];
                        }
                    }
                    if origin != destination && leg_unobstructed(origin, destination, polygons@)
                        && iterations == 1 {
                        assert(hull_before == Seq::<Segment>::empty());
                        assert(new_edges@ =~= seq![spec_canonical(origin, destination)]);
                        assert(hull@ == seq![spec_canonical(origin, destination)]);
                    }
                }
            },
            Err(_) => {
                proof {
                    if origin != destination {
                        assert(candidates@.contains(origin));
                        assert(candidates@.contains(destination));
                        let ko = choose|ko: int|
                            0 <= ko < candidates@.len() && candidates@[ko] == origin;
                        let kd = choose|kd: int|
                            0 <= kd < candidates@.len() && candidates@[kd] == destination;
                        assert(ko != kd);
                        assert(candidates@.len() >= 2);
                    }
                }
                return Err(ErrorKind::GeometryDegenerate);
            },
        }
    }
}

} // verus!
