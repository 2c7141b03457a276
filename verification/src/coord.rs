//! The `Coord` struct: a point on the integer grid.

use vstd::prelude::*;

verus! {

/// Coordinates are kept within this bound so that every cross product the
/// geometric predicates compute fits in an `i64` without overflow: with
/// `|x|, |y| <= 1_000_000_000`, each difference of coordinates is at most
/// `2 * 10^9` in magnitude, each product of two differences at most
/// `4 * 10^18`, and a difference of two such products at most `8 * 10^18`,
/// below `i64::MAX`.
pub const MAX_COORD: i64 = 1_000_000_000;

/// A coordinate in the cartesian plane.
#[derive(Debug, Copy, Clone, PartialEq, Eq, Structural)]
pub struct Coord {
    /// The x coordinate.
    pub x: i64,
    /// The y coordinate.
    pub y: i64,
}

/// A coordinate small enough that cross products over it cannot overflow.
pub open spec fn in_bounds(c: Coord) -> bool {
    -MAX_COORD <= c.x <= MAX_COORD && -MAX_COORD <= c.y <= MAX_COORD
}

/// Lexicographic order on coordinates: by x, then by y.
pub open spec fn lex_le(a: Coord, b: Coord) -> bool {
    a.x < b.x || (a.x == b.x && a.y <= b.y)
}

/// Strict lexicographic order on coordinates.
pub open spec fn lex_lt(a: Coord, b: Coord) -> bool {
    lex_le(a, b) && a != b
}

/// The lexicographic order is total and antisymmetric.
pub proof fn lemma_lex_total(a: Coord, b: Coord)
    ensures
        lex_le(a, b) || lex_le(b, a),
        lex_le(a, b) && lex_le(b, a) ==> a == b,
{
}

/// The lexicographic order is transitive.
pub proof fn lemma_lex_trans(a: Coord, b: Coord, c: Coord)
    ensures
        lex_le(a, b) && lex_le(b, c) ==> lex_le(a, c),
{
}

/// A sequence with no repeated element.
pub open spec fn distinct_coords(s: Seq<Coord>) -> bool {
    forall|i: int, j: int| 0 <= i < j < s.len() ==> s[i] != s[j]
}

/// Extending a prefix of a sequence by one element extends what it holds by
/// exactly that element.
pub proof fn lemma_subrange_step_contains<T>(s: Seq<T>, i: int, c: T)
    requires
        0 <= i < s.len(),
    ensures
        s.subrange(0, i + 1).contains(c) <==> s.subrange(0, i).contains(c) || c == s[i],
{
    if s.subrange(0, i + 1).contains(c) {
        let k = choose|k: int| 0 <= k < i + 1 && (#[trigger] s.subrange(0, i + 1)[k]) == c;
        if k < i {
            assert(s.subrange(0, i)[k] == c);
        }
    }
    if s.subrange(0, i).contains(c) {
        let k = choose|k: int| 0 <= k < i && (#[trigger] s.subrange(0, i)[k]) == c;
        assert(s.subrange(0, i + 1)[k] == c);
    }
    if c == s[i] {
        assert(s.subrange(0, i + 1)[i] == c);
    }
}

/// Whether `a` is lexicographically before `b`, by x then by y.
pub fn lex_less(a: Coord, b: Coord) -> (r: bool)
    ensures
        r == lex_lt(a, b),
{
    a.x < b.x || (a.x == b.x && a.y < b.y)
}

/// Whether `v` holds the coordinate `c`.
pub fn contains_coord(v: &Vec<Coord>, c: Coord) -> (r: bool)
    ensures
        r == v@.contains(c),
{
    let mut i: usize = 0;
    while i < v.len()
        invariant
            0 <= i <= v@.len(),
            forall|k: int| 0 <= k < i ==> v@[k] != c,
        decreases v@.len() - i,
    {
        if v[i] == c {
            return true;
        }
        i = i + 1;
    }
    false
}

/// Appends `c` to `v` unless it is already present, so a distinct vector
/// stays distinct.
pub fn insert_coord(v: &mut Vec<Coord>, c: Coord)
    ensures
        final(v)@ == if old(v)@.contains(c) {
            old(v)@
        } else {
            old(v)@.push(c)
        },
        final(v)@.contains(c),
        forall|x: Coord| #[trigger] final(v)@.contains(x) <==> old(v)@.contains(x) || x == c,
        distinct_coords(old(v)@) ==> distinct_coords(final(v)@),
        old(v)@.len() <= final(v)@.len() <= old(v)@.len() + 1,
        old(v)@.contains(c) == (final(v)@.len() == old(v)@.len()),
{
    if !contains_coord(v, c) {
        let ghost before = v@;
        v.push(c);
        proof {
            assert(v@[before.len() as int] == c);
            assert(v@.contains(c));
            assert forall|x: Coord| #[trigger] v@.contains(x) implies before.contains(x) || x
                == c by {
                let k = choose|k: int| 0 <= k < v@.len() && v@[k] == x;
                if k < before.len() {
                    assert(before[k] == x);
                }
            }
            assert forall|x: Coord| before.contains(x) implies v@.contains(x) by {
                let k = choose|k: int| 0 <= k < before.len() && before[k] == x;
                assert(v@[k] == x);
            }
            assert forall|i: int, j: int|
                distinct_coords(before) && 0 <= i < j < v@.len() implies v@[i] != v@[j] by {
                if j < before.len() {
                    assert(v@[i] == before[i] && v@[j] == before[j]);
                } else {
                    assert(v@[j] == c && v@[i] == before[i]);
                    assert(before.contains(v@[i]));
                }
            }
        }
    }
}

/// Unions `new` into `candidates`, keeping it distinct and reporting whether
/// anything was added: the flag is false exactly when `new` was already a
/// subset, which is the fixed-point test of the hull growth loop.
pub fn union_coords(candidates: &mut Vec<Coord>, new: &Vec<Coord>) -> (grew: bool)
    requires
        distinct_coords(old(candidates)@),
    ensures
        distinct_coords(final(candidates)@),
        forall|c: Coord| #[trigger]
            final(candidates)@.contains(c) <==> old(candidates)@.contains(c) || new@.contains(c),
        forall|k: int|
            0 <= k < old(candidates)@.len() ==> final(candidates)@[k] == old(candidates)@[k],
        old(candidates)@.len() <= final(candidates)@.len(),
        grew == (final(candidates)@.len() > old(candidates)@.len()),
        grew <==> exists|c: Coord| new@.contains(c) && !old(candidates)@.contains(c),
        !grew ==> final(candidates)@ == old(candidates)@,
{
    let initial_len = candidates.len();
    let mut i: usize = 0;
    proof {
        assert(new@.subrange(0, 0) =~= Seq::<Coord>::empty());
    }
    while i < new.len()
        invariant
            0 <= i <= new@.len(),
            distinct_coords(candidates@),
            initial_len == old(candidates)@.len(),
            forall|c: Coord| #[trigger]
                candidates@.contains(c) <==> old(candidates)@.contains(c) || new@.subrange(
                    0,
                    i as int,
                ).contains(c),
            forall|k: int|
                0 <= k < old(candidates)@.len() ==> candidates@[k] == old(candidates)@[k],
            old(candidates)@.len() <= candidates@.len(),
            candidates@.len() == old(candidates)@.len() ==> candidates@ == old(candidates)@,
            (candidates@.len() > old(candidates)@.len()) <==> exists|c: Coord|
                new@.subrange(0, i as int).contains(c) && !old(candidates)@.contains(c),
        decreases new@.len() - i,
    {
        let c = new[i];
        proof {
            lemma_subrange_step_contains(new@, i as int, c);
        }
        let ghost before = candidates@;
        insert_coord(candidates, c);
        proof {
            if candidates@.len() > before.len() {
                // this element was genuinely new
                assert(!before.contains(c));
                assert(new@.subrange(0, i as int + 1).contains(c)) by {
                    lemma_subrange_step_contains(new@, i as int, c);
                }
                assert(!old(candidates)@.contains(c));
            } else {
                if candidates@.len() > old(candidates)@.len() {
                    let ghost w = choose|w: Coord|
                        new@.subrange(0, i as int).contains(w) && !old(candidates)@.contains(w);
                    assert(new@.subrange(0, i as int + 1).contains(w)) by {
                        lemma_subrange_step_contains(new@, i as int, w);
                    }
                }
            }
            if !(candidates@.len() > old(candidates)@.len()) {
                assert forall|x: Coord|
                    new@.subrange(0, i as int + 1).contains(x) implies old(candidates)@.contains(
                    x,
                ) by {
                    lemma_subrange_step_contains(new@, i as int, x);
                    if x == new@[i as int] {
                        assert(candidates@.contains(x));
                        assert(candidates@ == old(candidates)@);
                    }
                }
            }
            assert forall|x: Coord| #[trigger] candidates@.contains(x) implies (old(
                candidates,
            )@.contains(x) || new@.subrange(0, i as int + 1).contains(x)) by {
                lemma_subrange_step_contains(new@, i as int, x);
            }
            assert forall|x: Coord|
                old(candidates)@.contains(x) || new@.subrange(0, i as int + 1).contains(
                    x,
                ) implies #[trigger] candidates@.contains(x) by {
                lemma_subrange_step_contains(new@, i as int, x);
            }
        }
        i = i + 1;
    }
    proof {
        assert(new@.subrange(0, new@.len() as int) =~= new@);
    }
    candidates.len() > initial_len
}

/// Whether two coordinate vectors hold the same coordinates in the same
/// order.
pub fn coords_equal(a: &Vec<Coord>, b: &Vec<Coord>) -> (r: bool)
    ensures
        r == (a@ == b@),
{
    if a.len() != b.len() {
        return false;
    }
    let mut i: usize = 0;
    while i < a.len()
        invariant
            0 <= i <= a@.len(),
            a@.len() == b@.len(),
            forall|k: int| 0 <= k < i ==> a@[k] == b@[k],
        decreases a@.len() - i,
    {
        if a[i] != b[i] {
            return false;
        }
        i = i + 1;
    }
    proof {
        assert(a@ =~= b@);
    }
    true
}

/// Copies a coordinate vector element by element.
pub fn copy_coords(v: &Vec<Coord>) -> (r: Vec<Coord>)
    ensures
        r@ == v@,
{
    let mut r: Vec<Coord> = Vec::new();
    let mut i: usize = 0;
    while i < v.len()
        invariant
            0 <= i <= v@.len(),
            r@ == v@.subrange(0, i as int),
        decreases v@.len() - i,
    {
        r.push(v[i]);
        i = i + 1;
    }
    proof {
        assert(v@.subrange(0, v@.len() as int) =~= v@);
    }
    r
}

} // verus!
