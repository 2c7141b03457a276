//! The `Orientation` enum: the turn made by an ordered triple of points.

use vstd::prelude::*;
use crate::coord::{Coord, in_bounds};

verus! {

/// Represents the orientation of three points.
///
/// The sign convention is fixed once and used by every consumer: a negative
/// cross product (see [`cross`]) means `Clockwise`, a positive one means
/// `Counterclockwise`, zero means `Colinear`. (With the y axis drawn
/// downwards, as the usual image rendering does, a negative cross product is
/// a clockwise turn.)
#[derive(Copy, Clone, Debug, PartialEq, Eq, Structural)]
pub enum Orientation {
    /// Three points are colinear.
    Colinear,
    /// Three points are in clockwise orientation.
    Clockwise,
    /// Three points are in counterclockwise orientation.
    Counterclockwise,
}

/// The cross product of the vectors `q - p` and `r - q`, up to sign: the
/// quantity whose sign classifies the turn `p -> q -> r`.
pub open spec fn cross(p: Coord, q: Coord, r: Coord) -> int {
    (q.y - p.y) * (r.x - q.x) - (q.x - p.x) * (r.y - q.y)
}

/// The orientation of the ordered triple `(p, q, r)`.
pub open spec fn orientation_of(p: Coord, q: Coord, r: Coord) -> Orientation {
    if cross(p, q, r) < 0 {
        Orientation::Clockwise
    } else if cross(p, q, r) > 0 {
        Orientation::Counterclockwise
    } else {
        Orientation::Colinear
    }
}

impl Orientation {
    /// The opposite orientation: `Clockwise` and `Counterclockwise` swap,
    /// `Colinear` stays itself.
    pub open spec fn spec_invert(self) -> Orientation {
        match self {
            Orientation::Colinear => Orientation::Colinear,
            Orientation::Clockwise => Orientation::Counterclockwise,
            Orientation::Counterclockwise => Orientation::Clockwise,
        }
    }

    /// Computes an orientation from coordinates, exactly: `Colinear` is
    /// returned exactly when the integer cross product is zero.
    pub fn from_coords(p: Coord, q: Coord, r: Coord) -> (o: Orientation)
        requires
            in_bounds(p),
            in_bounds(q),
            in_bounds(r),
        ensures
            o == orientation_of(p, q, r),
    {
        proof {
            lemma_cross_fits(p, q, r);
        }
        let n: i64 = (q.y - p.y) * (r.x - q.x) - (q.x - p.x) * (r.y - q.y);
        if n < 0 {
            Orientation::Clockwise
        } else if n > 0 {
            Orientation::Counterclockwise
        } else {
            Orientation::Colinear
        }
    }

    /// Returns true if Orientation is Colinear.
    pub fn is_colinear(self) -> (r: bool)
        ensures
            r == (self is Colinear),
    {
        self == Orientation::Colinear
    }

    /// Returns the opposite orientation: Clockwise becomes Counterclockwise,
    /// Counterclockwise becomes Clockwise, and Colinear stays the same.
    pub fn invert(self) -> (r: Self)
        ensures
            r == self.spec_invert(),
    {
        match self {
            Orientation::Colinear => Orientation::Colinear,
            Orientation::Clockwise => Orientation::Counterclockwise,
            Orientation::Counterclockwise => Orientation::Clockwise,
        }
    }
}

/// For bounded coordinates the cross product fits comfortably in an `i64`,
/// and so do the two products it is built from.
pub proof fn lemma_cross_fits(p: Coord, q: Coord, r: Coord)
    requires
        in_bounds(p),
        in_bounds(q),
        in_bounds(r),
    ensures
        -4_000_000_000_000_000_000 <= (q.y - p.y) * (r.x - q.x) <= 4_000_000_000_000_000_000,
        -4_000_000_000_000_000_000 <= (q.x - p.x) * (r.y - q.y) <= 4_000_000_000_000_000_000,
        -8_000_000_000_000_000_000 <= cross(p, q, r) <= 8_000_000_000_000_000_000,
{
    lemma_mul_bound(q.y - p.y, r.x - q.x, 2_000_000_000);
    lemma_mul_bound(q.x - p.x, r.y - q.y, 2_000_000_000);
}

/// Bounds on both factors bound their product.
pub proof fn lemma_mul_bound(a: int, b: int, m: int)
    requires
        0 <= m,
        -m <= a <= m,
        -m <= b <= m,
    ensures
        -m * m <= a * b <= m * m,
{
    assert(-m * m <= a * b <= m * m) by (nonlinear_arith)
        requires
            0 <= m,
            -m <= a <= m,
            -m <= b <= m,
    ;
}

/// Swapping the first two points of a triple negates the cross product.
pub proof fn lemma_cross_swap(p: Coord, q: Coord, r: Coord)
    ensures
        cross(q, p, r) == -cross(p, q, r),
{
    assert(cross(q, p, r) == -cross(p, q, r)) by (nonlinear_arith);
}

/// The cross product is invariant under cyclic rotation of the triple.
pub proof fn lemma_cross_cyclic(p: Coord, q: Coord, r: Coord)
    ensures
        cross(p, q, r) == cross(q, r, p),
{
    assert(cross(p, q, r) == cross(q, r, p)) by (nonlinear_arith);
}

/// A triple that repeats one of the two base points is colinear.
pub proof fn lemma_cross_degenerate(p: Coord, q: Coord)
    ensures
        cross(p, q, p) == 0,
        cross(p, q, q) == 0,
        orientation_of(p, q, p) is Colinear,
        orientation_of(p, q, q) is Colinear,
{
    assert(cross(p, q, p) == 0) by (nonlinear_arith);
    assert(cross(p, q, q) == 0) by (nonlinear_arith);
}

/// Swapping the first two points of a triple inverts its orientation; in
/// particular a colinear triple stays colinear.
pub proof fn lemma_orientation_swap(p: Coord, q: Coord, r: Coord)
    ensures
        orientation_of(q, p, r) == orientation_of(p, q, r).spec_invert(),
{
    lemma_cross_swap(p, q, r);
}

/// Antisymmetry of the orientation predicate: reversing a triple inverts its
/// orientation, so a non-colinear triple read backwards turns the opposite
/// way, and a colinear triple is colinear in either order.
pub proof fn lemma_orientation_antisymmetry(p: Coord, q: Coord, r: Coord)
    ensures
        orientation_of(r, q, p) == orientation_of(p, q, r).spec_invert(),
{
    assert(cross(r, q, p) == -cross(p, q, r)) by (nonlinear_arith);
}

} // verus!
