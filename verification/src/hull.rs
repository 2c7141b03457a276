//! The `Hull` struct: the convex boundary computed for one path leg.

use vstd::prelude::*;
use crate::coord::Coord;
use crate::segment::Segment;
use crate::orientation::{Orientation, orientation_of};

verus! {

/// Represents a convex hull: an unordered collection of boundary segments.
/// The hull construction and the leg expansion build it without duplicate
/// segments; `from_segment_set` itself takes the segments as given.
#[derive(Debug, Clone)]
pub struct Hull {
    /// The segments that constitute the hull.
    pub segment_set: Vec<Segment>,
}

impl Hull {
    /// Constructs a hull from its segments.
    pub fn from_segment_set(segment_set: Vec<Segment>) -> (h: Hull)
        ensures
            h.segment_set@ == segment_set@,
    {
        Hull { segment_set }
    }
}

/// A sequence of segments with no repeated element.
pub open spec fn distinct_segments(s: Seq<Segment>) -> bool {
    forall|i: int, j: int| 0 <= i < j < s.len() ==> s[i] != s[j]
}

/// The line through `s` supports the point set `ps`: every point of `ps`
/// lies on one closed side of it. This is the convexity guarantee for one
/// hull edge: no point is strictly outside the hull across that edge.
pub open spec fn supports(ps: Seq<Coord>, s: Segment) -> bool {
    ||| (forall|k: int|
        0 <= k < ps.len() ==> orientation_of(s.a, s.b, #[trigger] ps[k])
            != Orientation::Clockwise)
    ||| (forall|k: int|
        0 <= k < ps.len() ==> orientation_of(s.a, s.b, #[trigger] ps[k])
            != Orientation::Counterclockwise)
}

/// Whether `v` holds the segment `s`.
pub fn contains_segment(v: &Vec<Segment>, s: Segment) -> (r: bool)
    ensures
        r == v@.contains(s),
{
    let mut i: usize = 0;
    while i < v.len()
        invariant
            0 <= i <= v@.len(),
            forall|k: int| 0 <= k < i ==> v@[k] != s,
        decreases v@.len() - i,
    {
        if v[i] == s {
            return true;
        }
        i = i + 1;
    }
    false
}

/// Appends `s` to `v` unless it is already present, so a distinct vector
/// stays distinct.
pub fn insert_segment(v: &mut Vec<Segment>, s: Segment)
    ensures
        final(v)@ == if old(v)@.contains(s) {
            old(v)@
        } else {
            old(v)@.push(s)
        },
        final(v)@.contains(s),
        forall|x: Segment| #[trigger] final(v)@.contains(x) <==> old(v)@.contains(x) || x == s,
        distinct_segments(old(v)@) ==> distinct_segments(final(v)@),
        old(v)@.len() <= final(v)@.len() <= old(v)@.len() + 1,
{
    if !contains_segment(v, s) {
        let ghost before = v@;
        v.push(s);
        proof {
            assert(v@[before.len() as int] == s);
            assert(v@.contains(s));
            assert forall|x: Segment| #[trigger] v@.contains(x) implies before.contains(x) || x
                == s by {
                let k = choose|k: int| 0 <= k < v@.len() && v@[k] == x;
                if k < before.len() {
                    assert(before[k] == x);
                }
            }
            assert forall|x: Segment| before.contains(x) implies v@.contains(x) by {
                let k = choose|k: int| 0 <= k < before.len() && before[k] == x;
                assert(v@[k] == x);
            }
            assert forall|i: int, j: int|
                distinct_segments(before) && 0 <= i < j < v@.len() implies v@[i] != v@[j] by {
                if j < before.len() {
                    assert(v@[i] == before[i] && v@[j] == before[j]);
                } else {
                    assert(v@[j] == s && v@[i] == before[i]);
                    assert(before.contains(v@[i]));
                }
            }
        }
    }
}

/// Unions `new_edges` into `hull`, keeping it distinct. Existing edges stay
/// at their positions; edges inserted into an empty hull come out exactly as
/// given.
pub fn union_segments(hull: &mut Vec<Segment>, new_edges: &Vec<Segment>)
    requires
        distinct_segments(old(hull)@),
        distinct_segments(new_edges@),
    ensures
        distinct_segments(final(hull)@),
        forall|x: Segment| #[trigger]
            final(hull)@.contains(x) <==> old(hull)@.contains(x) || new_edges@.contains(x),
        forall|k: int| 0 <= k < old(hull)@.len() ==> final(hull)@[k] == old(hull)@[k],
        old(hull)@.len() <= final(hull)@.len(),
        new_edges@.len() > 0 ==> final(hull)@.len() >= 1,
        old(hull)@.len() == 0 ==> final(hull)@ == new_edges@,
{
    let mut i: usize = 0;
    proof {
        assert(new_edges@.subrange(0, 0) =~= Seq::<Segment>::empty());
    }
    while i < new_edges.len()
        invariant
            0 <= i <= new_edges@.len(),
            distinct_segments(hull@),
            distinct_segments(new_edges@),
            forall|x: Segment| #[trigger]
                hull@.contains(x) <==> old(hull)@.contains(x) || new_edges@.subrange(
                    0,
                    i as int,
                ).contains(x),
            forall|k: int| 0 <= k < old(hull)@.len() ==> hull@[k] == old(hull)@[k],
            old(hull)@.len() <= hull@.len(),
            old(hull)@.len() == 0 ==> hull@ == new_edges@.subrange(0, i as int),
        decreases new_edges@.len() - i,
    {
        let e = new_edges[i];
        proof {
            crate::coord::lemma_subrange_step_contains(new_edges@, i as int, e);
            if old(hull)@.len() == 0 {
                // the incoming edges are distinct, so this one is not yet
                // present and will be appended
                if hull@.contains(e) {
                    let k = choose|k: int| 0 <= k < hull@.len() && hull@[k] == e;
                    assert(new_edges@.subrange(0, i as int)[k] == e);
                    assert(new_edges@[k] == e && new_edges@[i as int] == e);
                }
            }
        }
        insert_segment(hull, e);
        proof {
            assert forall|x: Segment| #[trigger] hull@.contains(x) implies (old(hull)@.contains(x)
                || new_edges@.subrange(0, i as int + 1).contains(x)) by {
                crate::coord::lemma_subrange_step_contains(new_edges@, i as int, x);
            }
            assert forall|x: Segment|
                old(hull)@.contains(x) || new_edges@.subrange(0, i as int + 1).contains(
                    x,
                ) implies #[trigger] hull@.contains(x) by {
                crate::coord::lemma_subrange_step_contains(new_edges@, i as int, x);
            }
            if old(hull)@.len() == 0 {
                assert(hull@ =~= new_edges@.subrange(0, i as int + 1));
            }
        }
        i = i + 1;
    }
    proof {
        assert(new_edges@.subrange(0, new_edges@.len() as int) =~= new_edges@);
        if new_edges@.len() > 0 {
            assert(hull@.contains(new_edges@[0]));
        }
    }
}

} // verus!
