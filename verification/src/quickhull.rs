//! Convex-hull construction by the quickhull method: extreme points first,
//! then iterative farthest-point partitioning over an explicit work stack.

use vstd::prelude::*;
use crate::coord::{
    Coord, in_bounds, lex_le, distinct_coords, lex_less, lemma_lex_total, lemma_lex_trans,
};
use crate::orientation::{
    Orientation, orientation_of, lemma_cross_cyclic, lemma_cross_swap, lemma_cross_degenerate,
    lemma_orientation_swap,
};
use crate::segment::{Segment, spec_canonical};
use crate::hull::{distinct_segments, supports, insert_segment};
use crate::error::ErrorKind;

verus! {

/// An edge the hull construction may emit: its endpoints are two distinct
/// input points in canonical order, and the line through it supports the
/// whole input set. Together these clauses say that every input point lies
/// on or inside the boundary formed by the edges, and that every hull
/// vertex is an input point.
pub open spec fn hull_edge_ok(input: Seq<Coord>, e: Segment) -> bool {
    &&& input.contains(e.a)
    &&& input.contains(e.b)
    &&& e.a != e.b
    &&& e.wf()
    &&& supports(input, e)
}

/// All coordinates of the sequence are within the coordinate bound.
pub open spec fn all_in_bounds(s: Seq<Coord>) -> bool {
    forall|k: int| 0 <= k < s.len() ==> in_bounds(#[trigger] s[k])
}

/// Every triple of the sequence is colinear: the whole set lies on one
/// line.
pub open spec fn all_colinear(s: Seq<Coord>) -> bool {
    forall|i: int, j: int, k: int|
        #![trigger orientation_of(s[i], s[j], s[k])]
        0 <= i < s.len() && 0 <= j < s.len() && 0 <= k < s.len() ==> orientation_of(
            s[i],
            s[j],
            s[k],
        ) is Colinear
}

/// `m` is the lexicographically smallest element of `s` (minimum x, ties by
/// minimum y).
pub open spec fn is_lex_min(s: Seq<Coord>, m: Coord) -> bool {
    s.contains(m) && forall|k: int| 0 <= k < s.len() ==> lex_le(m, #[trigger] s[k])
}

/// `m` is the lexicographically largest element of `s` (maximum x, ties by
/// maximum y).
pub open spec fn is_lex_max(s: Seq<Coord>, m: Coord) -> bool {
    s.contains(m) && forall|k: int| 0 <= k < s.len() ==> lex_le(#[trigger] s[k], m)
}

/// One pending baseline of the hull search: either some input point lies on
/// the `target` side of the line (p1, p2) and the search splits there, or
/// the edge (p1, p2) is emitted.
struct Baseline {
    p1: Coord,
    p2: Coord,
    target: Orientation,
}

spec fn baseline_ok(input: Seq<Coord>, b: Baseline) -> bool {
    &&& input.contains(b.p1)
    &&& input.contains(b.p2)
    &&& b.p1 != b.p2
    &&& (b.target is Clockwise || b.target is Counterclockwise)
}

/// Some edge of the set ends in the point `p`.
pub open spec fn has_endpoint(edges: Seq<Segment>, p: Coord) -> bool {
    exists|k: int| 0 <= k < edges.len() && ((#[trigger] edges[k]).a == p || edges[k].b == p)
}

/// The point `p` is still in play: it is an endpoint of a pending baseline
/// or of an emitted edge. Baselines hand their endpoints on to their
/// children, so a point in play ends up on an emitted edge.
spec fn point_active(p: Coord, stack: Seq<Baseline>, hull: Seq<Segment>) -> bool {
    ||| exists|k: int|
        0 <= k < stack.len() && ((#[trigger] stack[k]).p1 == p || stack[k].p2 == p)
    ||| has_endpoint(hull, p)
}

/// Splitting a baseline at a divider keeps both its endpoints in play: each
/// child keeps one of them.
proof fn lemma_point_active_split(
    p: Coord,
    stack_before: Seq<Baseline>,
    stack_after: Seq<Baseline>,
    hull: Seq<Segment>,
    b: Baseline,
    n1: Baseline,
    n2: Baseline,
)
    requires
        stack_before.len() > 0,
        b == stack_before.last(),
        stack_after == stack_before.drop_last().push(n1).push(n2),
        n1.p2 == b.p1,
        n2.p2 == b.p2,
        point_active(p, stack_before, hull),
    ensures
        point_active(p, stack_after, hull),
{
    if exists|k: int|
        0 <= k < stack_before.len() && ((#[trigger] stack_before[k]).p1 == p
            || stack_before[k].p2 == p) {
        let k = choose|k: int|
            0 <= k < stack_before.len() && ((#[trigger] stack_before[k]).p1 == p
                || stack_before[k].p2 == p);
        if k < stack_before.len() - 1 {
            assert(stack_after[k] == stack_before[k]);
        } else {
            if b.p1 == p {
                assert(stack_after[stack_after.len() - 2] == n1);
            } else {
                assert(stack_after[stack_after.len() - 1] == n2);
            }
        }
    }
}

/// Emitting a baseline's edge keeps both its endpoints in play: they become
/// endpoints of an edge the hull holds.
proof fn lemma_point_active_emit(
    p: Coord,
    stack_before: Seq<Baseline>,
    stack_after: Seq<Baseline>,
    hull_before: Seq<Segment>,
    hull_after: Seq<Segment>,
    b: Baseline,
    e: Segment,
)
    requires
        stack_before.len() > 0,
        b == stack_before.last(),
        stack_after == stack_before.drop_last(),
        (e.a == b.p1 && e.b == b.p2) || (e.a == b.p2 && e.b == b.p1),
        hull_after.contains(e),
        forall|k: int| 0 <= k < hull_before.len() ==> hull_after[k] == hull_before[k],
        hull_before.len() <= hull_after.len(),
        point_active(p, stack_before, hull_before),
    ensures
        point_active(p, stack_after, hull_after),
{
    if exists|k: int|
        0 <= k < stack_before.len() && ((#[trigger] stack_before[k]).p1 == p
            || stack_before[k].p2 == p) {
        let k = choose|k: int|
            0 <= k < stack_before.len() && ((#[trigger] stack_before[k]).p1 == p
                || stack_before[k].p2 == p);
        if k < stack_before.len() - 1 {
            assert(stack_after[k] == stack_before[k]);
        } else {
            let ke = choose|ke: int| 0 <= ke < hull_after.len() && hull_after[ke] == e;
            assert(hull_after[ke].a == p || hull_after[ke].b == p);
        }
    } else {
        let k = choose|k: int|
            0 <= k < hull_before.len() && ((#[trigger] hull_before[k]).a == p
                || hull_before[k].b == p);
        assert(hull_after[k] == hull_before[k]);
    }
}

/// The extreme points of a nonempty set: the lexicographically smallest
/// (minimum x, ties by minimum y) and largest (maximum x, ties by maximum
/// y). The explicit tie-break keeps the choice deterministic.
fn find_extremes(input: &Vec<Coord>) -> (r: (Coord, Coord))
    requires
        input@.len() >= 1,
    ensures
        input@.contains(r.0),
        input@.contains(r.1),
        forall|k: int|
            0 <= k < input@.len() ==> crate::coord::lex_le(r.0, #[trigger] input@[k])
                && crate::coord::lex_le(input@[k], r.1),
{
    let mut leftest = input[0];
    let mut rightest = input[0];
    proof {
        assert(input@.contains(input@[0]));
    }
    let mut k: usize = 1;
    while k < input.len()
        invariant
            1 <= k <= input@.len(),
            input@.contains(leftest),
            input@.contains(rightest),
            forall|i: int|
                0 <= i < k ==> crate::coord::lex_le(leftest, #[trigger] input@[i])
                    && crate::coord::lex_le(input@[i], rightest),
        decreases input@.len() - k,
    {
        let c = input[k];
        proof {
            assert(input@.contains(input@[k as int]));
        }
        if lex_less(c, leftest) {
            leftest = c;
        }
        if lex_less(rightest, c) {
            rightest = c;
        }
        proof {
            assert forall|i: int| 0 <= i < k + 1 implies crate::coord::lex_le(
                leftest,
                #[trigger] input@[i],
            ) && crate::coord::lex_le(input@[i], rightest) by {
                lemma_lex_total(leftest, input@[i]);
                lemma_lex_total(input@[i], rightest);
            }
        }
        k = k + 1;
    }
    (leftest, rightest)
}

/// The farthest input point strictly on the `target` side of the line
/// (p1, p2), or `None` when no input point lies on that side. Among points
/// at the same distance the lexicographically smallest wins, so the choice
/// does not depend on iteration order.
fn find_divider(input: &Vec<Coord>, p1: Coord, p2: Coord, target: Orientation) -> (r: Option<
    Coord,
>)
    requires
        all_in_bounds(input@),
        in_bounds(p1),
        in_bounds(p2),
        target is Clockwise || target is Counterclockwise,
    ensures
        match r {
            Some(d) => input@.contains(d) && orientation_of(p1, p2, d) == target && forall|k: int|
                0 <= k < input@.len() && orientation_of(p1, p2, #[trigger] input@[k]) == target
                    ==> spec_canonical(p1, p2).spec_distance(input@[k]) <= spec_canonical(
                    p1,
                    p2,
                ).spec_distance(d) && (spec_canonical(p1, p2).spec_distance(input@[k])
                    == spec_canonical(p1, p2).spec_distance(d) ==> lex_le(d, input@[k])),
            None => forall|k: int|
                0 <= k < input@.len() ==> orientation_of(p1, p2, #[trigger] input@[k]) != target,
        },
{
    let base = Segment::from_coords(p1, p2);
    proof {
        lemma_orientation_swap(p1, p2, p1);
    }
    let mut best: Option<Coord> = None;
    let mut best_dist: i64 = 0;
    let mut k: usize = 0;
    while k < input.len()
        invariant
            0 <= k <= input@.len(),
            all_in_bounds(input@),
            in_bounds(p1),
            in_bounds(p2),
            target is Clockwise || target is Counterclockwise,
            base == spec_canonical(p1, p2),
            base.in_bounds(),
            match best {
                Some(d) => input@.contains(d) && orientation_of(p1, p2, d) == target && best_dist
                    == base.spec_distance(d) && forall|i: int|
                    0 <= i < k && orientation_of(p1, p2, #[trigger] input@[i]) == target
                        ==> base.spec_distance(input@[i]) <= best_dist && (base.spec_distance(
                        input@[i],
                    ) == best_dist ==> lex_le(d, input@[i])),
                None => best_dist == 0 && forall|i: int|
                    0 <= i < k ==> orientation_of(p1, p2, #[trigger] input@[i]) != target,
            },
        decreases input@.len() - k,
    {
        let c = input[k];
        proof {
            assert(input@.contains(input@[k as int]));
        }
        let o = Orientation::from_coords(p1, p2, c);
        let dist = base.coord_distance(c);
        proof {
            lemma_orientation_swap(p1, p2, c);
        }
        if o == target {
            let take: bool = match &best {
                None => dist > best_dist,
                Some(d) => dist > best_dist || (dist == best_dist && lex_less(c, *d)),
            };
            proof {
                if best is None {
                    assert(orientation_of(base.a, base.b, c) != Orientation::Colinear);
                    assert(dist != 0);
                }
            }
            let ghost previous = best;
            if take {
                best = Some(c);
                best_dist = dist;
            }
            proof {
                match best {
                    Some(d) => {
                        assert forall|i: int|
                            0 <= i < k + 1 && orientation_of(p1, p2, #[trigger] input@[i])
                                == target implies base.spec_distance(input@[i]) <= best_dist && (
                        base.spec_distance(input@[i]) == best_dist ==> lex_le(d, input@[i])) by {
                            if i < k {
                                match previous {
                                    Some(dp) => {
                                        if take && base.spec_distance(input@[i]) == best_dist {
                                            lemma_lex_trans(d, dp, input@[i]);
                                        }
                                    },
                                    None => {},
                                }
                            } else {
                                if !take {
                                    lemma_lex_total(input@[i], d);
                                }
                            }
                        }
                    },
                    None => {},
                }
            }
        }
        k = k + 1;
    }
    best
}

/// The edge emitted for a baseline whose target side holds no input point
/// supports the whole input set.
proof fn lemma_emit_supports(input: Seq<Coord>, p1: Coord, p2: Coord, target: Orientation)
    requires
        target is Clockwise || target is Counterclockwise,
        forall|k: int|
            0 <= k < input.len() ==> orientation_of(p1, p2, #[trigger] input[k]) != target,
    ensures
        supports(input, spec_canonical(p1, p2)),
{
    let e = spec_canonical(p1, p2);
    if lex_le(p1, p2) {
        assert(e.a == p1 && e.b == p2);
        assert(supports(input, e));
    } else {
        assert(e.a == p2 && e.b == p1);
        assert forall|k: int| 0 <= k < input.len() implies orientation_of(
            e.a,
            e.b,
            #[trigger] input[k],
        ) != target.spec_invert() by {
            lemma_orientation_swap(p1, p2, input[k]);
        }
        assert(supports(input, e));
    }
}

/// Calculates the convex hull of a set of distinct points as an unordered
/// edge set.
///
/// On success every returned edge joins two distinct input points in
/// canonical order and the line through it has the whole input on one closed
/// side (`hull_edge_ok`): the input lies on or inside the returned boundary.
/// The two extreme points (lexicographically smallest and largest) each end
/// some returned edge. Fewer than two points are rejected as
/// `InsufficientPoints`; a set of exactly two points yields exactly the one
/// edge joining them, and a set lying on one line yields exactly the single
/// edge spanning its extremes. The work stack is bounded by a fuel counter
/// as a defensive measure; exceeding it surfaces as
/// `IterationLimitExceeded`, and the proofs here show that cannot happen on
/// two-point or colinear inputs.
pub fn quick_hull(input: &Vec<Coord>) -> (r: Result<Vec<Segment>, ErrorKind>)
    requires
        distinct_coords(input@),
        all_in_bounds(input@),
        input@.len() <= 0x4000_0000,
    ensures
        r matches Ok(hull) ==> {
            &&& input@.len() >= 2
            &&& hull@.len() >= 1
            &&& distinct_segments(hull@)
            &&& forall|k: int| 0 <= k < hull@.len() ==> hull_edge_ok(input@, #[trigger] hull@[k])
        },
        r matches Err(e) ==> ((e is InsufficientPoints <==> input@.len() < 2) && (
        e is InsufficientPoints || e is IterationLimitExceeded)),
        input@.len() == 2 ==> (r matches Ok(hull) && hull@ =~= seq![
            spec_canonical(input@[0], input@[1]),
        ]),
        input@.len() >= 2 && all_colinear(input@) ==> (r matches Ok(hull)
            && exists|l: Coord, g: Coord|
            is_lex_min(input@, l) && is_lex_max(input@, g) && hull@ == seq![spec_canonical(l, g)]),
        r matches Ok(hull) ==> (exists|l: Coord| #[trigger]
            is_lex_min(input@, l) && has_endpoint(hull@, l)) && (exists|g: Coord| #[trigger]
            is_lex_max(input@, g) && has_endpoint(hull@, g)),
{
    let n = input.len();
    if n < 2 {
        return Err(ErrorKind::InsufficientPoints);
    }

    let extremes = find_extremes(input);
    let leftest = extremes.0;
    let rightest = extremes.1;
    proof {
        assert(leftest != rightest) by {
            lemma_lex_total(leftest, input@[0]);
            lemma_lex_total(input@[0], rightest);
            lemma_lex_total(leftest, input@[1]);
            lemma_lex_total(input@[1], rightest);
        }
    }

    let mut stack: Vec<Baseline> = Vec::new();
    stack.push(Baseline { p1: leftest, p2: rightest, target: Orientation::Clockwise });
    stack.push(Baseline { p1: leftest, p2: rightest, target: Orientation::Counterclockwise });
    let mut hull: Vec<Segment> = Vec::new();
    proof {
        assert(stack@[0].p1 == leftest && stack@[0].p2 == rightest);
        assert(point_active(leftest, stack@, hull@));
        assert(point_active(rightest, stack@, hull@));
    }

    proof {
        assert(n * n <= 0x4000_0000 * 0x4000_0000) by (nonlinear_arith)
            requires
                0 <= n <= 0x4000_0000,
        ;
    }
    let squared: u64 = (n as u64) * (n as u64);
    let mut fuel: u64 = 3 * squared + 4;

    while stack.len() > 0
        invariant
            distinct_coords(input@),
            all_in_bounds(input@),
            n == input@.len(),
            2 <= n <= 0x4000_0000,
            forall|k: int| 0 <= k < stack@.len() ==> baseline_ok(input@, #[trigger] stack@[k]),
            forall|k: int| 0 <= k < hull@.len() ==> hull_edge_ok(input@, #[trigger] hull@[k]),
            distinct_segments(hull@),
            stack@.len() > 0 || hull@.len() > 0,
            n == 2 ==> stack@.len() <= fuel,
            input@.contains(leftest),
            input@.contains(rightest),
            forall|k: int|
                0 <= k < input@.len() ==> lex_le(leftest, #[trigger] input@[k]) && lex_le(
                    input@[k],
                    rightest,
                ),
            all_colinear(input@) ==> forall|k: int|
                0 <= k < stack@.len() ==> (#[trigger] stack@[k]).p1 == leftest && stack@[k].p2
                    == rightest,
            all_colinear(input@) ==> forall|k: int|
                0 <= k < hull@.len() ==> #[trigger] hull@[k] == spec_canonical(leftest, rightest),
            all_colinear(input@) ==> stack@.len() <= fuel,
            point_active(leftest, stack@, hull@),
            point_active(rightest, stack@, hull@),
        decreases fuel,
    {
        if fuel == 0 {
            // With two points, or with all points on one line, the stack
            // drains before the fuel does, so this exit is unreachable then,
            // as the invariants above show.
            assert(n != 2);
            assert(!all_colinear(input@));
            return Err(ErrorKind::IterationLimitExceeded);
        }
        fuel = fuel - 1;

        let ghost stack_before = stack@;
        let b = stack.pop().unwrap();
        let ghost stack_prev = stack@;
        match find_divider(input, b.p1, b.p2, b.target) {
            Some(d) => {
                proof {
                    if all_colinear(input@) {
                        // no triple of a colinear set can turn clockwise or
                        // counterclockwise, so no divider exists
                        let ki = choose|i: int| 0 <= i < input@.len() && input@[i] == b.p1;
                        let kj = choose|i: int| 0 <= i < input@.len() && input@[i] == b.p2;
                        let kd = choose|i: int| 0 <= i < input@.len() && input@[i] == d;
                        assert(orientation_of(input@[ki], input@[kj], input@[kd]) is Colinear);
                        assert(false);
                    }
                    lemma_cross_degenerate(b.p1, b.p2);
                    // d is strictly off the line (p1, p2), so it is neither
                    // endpoint, and the triples (d, p1, p2) and (d, p2, p1)
                    // are not colinear either.
                    lemma_cross_cyclic(b.p1, b.p2, d);
                    lemma_cross_cyclic(b.p2, d, b.p1);
                    lemma_cross_cyclic(d, b.p2, b.p1);
                    lemma_cross_swap(b.p1, b.p2, d);
                    if n == 2 {
                        let kd = choose|i: int| 0 <= i < input@.len() && input@[i] == d;
                        let k1 = choose|i: int| 0 <= i < input@.len() && input@[i] == b.p1;
                        let k2 = choose|i: int| 0 <= i < input@.len() && input@[i] == b.p2;
                        assert(k1 != k2);
                        assert(kd == k1 || kd == k2);
                        assert(false);
                    }
                }
                let t1 = Orientation::from_coords(d, b.p1, b.p2).invert();
                let t2 = Orientation::from_coords(d, b.p2, b.p1).invert();
                stack.push(Baseline { p1: d, p2: b.p1, target: t1 });
                stack.push(Baseline { p1: d, p2: b.p2, target: t2 });
                proof {
                    let ghost n1 = Baseline { p1: d, p2: b.p1, target: t1 };
                    let ghost n2 = Baseline { p1: d, p2: b.p2, target: t2 };
                    assert(stack@ =~= stack_before.drop_last().push(n1).push(n2));
                    lemma_point_active_split(
                        leftest,
                        stack_before,
                        stack@,
                        hull@,
                        b,
                        n1,
                        n2,
                    );
                    lemma_point_active_split(
                        rightest,
                        stack_before,
                        stack@,
                        hull@,
                        b,
                        n1,
                        n2,
                    );
                    assert forall|k: int| 0 <= k < stack@.len() implies baseline_ok(
                        input@,
                        #[trigger] stack@[k],
                    ) by {
                        if k < stack_prev.len() {
                            assert(stack@[k] == stack_prev[k]);
                        }
                    }
                }
            },
            None => {
                let e = Segment::from_coords(b.p1, b.p2);
                proof {
                    lemma_emit_supports(input@, b.p1, b.p2, b.target);
                }
                let ghost hull_prev = hull@;
                insert_segment(&mut hull, e);
                proof {
                    assert(hull@.contains(e));
                    assert(hull@.len() > 0);
                    assert(stack@ =~= stack_before.drop_last());
                    assert forall|k: int| 0 <= k < hull_prev.len() implies hull@[k]
                        == hull_prev[k] by {}
                    lemma_point_active_emit(
                        leftest,
                        stack_before,
                        stack@,
                        hull_prev,
                        hull@,
                        b,
                        e,
                    );
                    lemma_point_active_emit(
                        rightest,
                        stack_before,
                        stack@,
                        hull_prev,
                        hull@,
                        b,
                        e,
                    );
                    if all_colinear(input@) {
                        assert(e == spec_canonical(leftest, rightest));
                        assert forall|k2: int| 0 <= k2 < hull@.len() implies #[trigger] hull@[k2]
                            == spec_canonical(leftest, rightest) by {
                            if k2 < hull_prev.len() {
                                assert(hull@[k2] == hull_prev[k2]);
                            }
                        }
                    }
                }
            },
        }
    }

    proof {
        if n == 2 {
            let c = spec_canonical(input@[0], input@[1]);
            assert forall|k: int| 0 <= k < hull@.len() implies hull@[k] == c by {
                let e = hull@[k];
                assert(hull_edge_ok(input@, e));
                let ka = choose|i: int| 0 <= i < input@.len() && input@[i] == e.a;
                let kb = choose|i: int| 0 <= i < input@.len() && input@[i] == e.b;
                lemma_lex_total(input@[0], input@[1]);
                assert(ka != kb);
            }
            assert(hull@.len() < 2) by {
                if hull@.len() >= 2 {
                    assert(hull@[0] == c && hull@[1] == c);
                }
            }
            assert(hull@ =~= seq![c]);
        }
        if all_colinear(input@) {
            let c = spec_canonical(leftest, rightest);
            assert(hull@.len() < 2) by {
                if hull@.len() >= 2 {
                    assert(hull@[0] == c && hull@[1] == c);
                }
            }
            assert(hull@ =~= seq![c]);
            assert(is_lex_min(input@, leftest));
            assert(is_lex_max(input@, rightest));
        }
        assert(is_lex_min(input@, leftest));
        assert(is_lex_max(input@, rightest));
        assert(has_endpoint(hull@, leftest));
        assert(has_endpoint(hull@, rightest));
    }
    Ok(hull)
}

/// Calculates the edges that form the convex hull of a set of points: the
/// entry point the leg expansion uses. The contract is that of
/// [`quick_hull`], which does the work.
pub fn calculate_hull(polypoints: &Vec<Coord>) -> (r: Result<Vec<Segment>, ErrorKind>)
    requires
        distinct_coords(polypoints@),
        all_in_bounds(polypoints@),
        polypoints@.len() <= 0x4000_0000,
    ensures
        r matches Ok(hull) ==> {
            &&& polypoints@.len() >= 2
            &&& hull@.len() >= 1
            &&& distinct_segments(hull@)
            &&& forall|k: int|
                0 <= k < hull@.len() ==> hull_edge_ok(polypoints@, #[trigger] hull@[k])
        },
        r matches Err(e) ==> ((e is InsufficientPoints <==> polypoints@.len() < 2) && (
        e is InsufficientPoints || e is IterationLimitExceeded)),
        polypoints@.len() == 2 ==> (r matches Ok(hull) && hull@ =~= seq![
            spec_canonical(polypoints@[0], polypoints@[1]),
        ]),
        polypoints@.len() >= 2 && all_colinear(polypoints@) ==> (r matches Ok(hull)
            && exists|l: Coord, g: Coord|
            is_lex_min(polypoints@, l) && is_lex_max(polypoints@, g) && hull@ == seq![
                spec_canonical(l, g),
            ]),
{
    quick_hull(polypoints)
}

} // verus!
