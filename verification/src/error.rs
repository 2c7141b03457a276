//! Error kinds of the hull computation.

use vstd::prelude::*;

verus! {

/// The ways in which the hull computation can fail. Any of these aborts the
/// whole path computation; no partial per-leg results are returned.
#[derive(Debug, Copy, Clone, PartialEq, Eq, Structural)]
pub enum ErrorKind {
    /// Fewer than two distinct points were given to the hull construction.
    InsufficientPoints,
    /// Extreme-point selection or hull construction cannot proceed for a
    /// leg (for example, a leg whose endpoints coincide and meet no
    /// obstacle supplies a single candidate point).
    GeometryDegenerate,
    /// An iteration cap of the hull computation was exceeded: an
    /// internal-consistency fault, not a user error. The per-leg loop's own
    /// cap is proved unreachable (see `expand_leg_hull`, whose errors are
    /// never of this kind); the hull construction's work-stack bound (see
    /// `quick_hull`) remains a defensive measure.
    IterationLimitExceeded,
}

/// A failure of the path computation: the kind of fault together with the
/// index (0-based, in leg order) of the leg on which it arose.
#[derive(Debug, Copy, Clone, PartialEq, Eq, Structural)]
pub struct Error {
    /// What went wrong.
    pub kind: ErrorKind,
    /// The index of the failing leg.
    pub leg: usize,
}

impl Error {
    /// A short description of the error, for callers that print it.
    pub fn message(&self) -> (r: &'static str)
        ensures
            r@ =~= match self.kind {
                ErrorKind::InsufficientPoints => "insufficient points for a convex hull"@,
                ErrorKind::GeometryDegenerate => "degenerate geometry on a leg"@,
                ErrorKind::IterationLimitExceeded => "hull growth exceeded its iteration limit"@,
            },
    {
        match self.kind {
            ErrorKind::InsufficientPoints => "insufficient points for a convex hull",
            ErrorKind::GeometryDegenerate => "degenerate geometry on a leg",
            ErrorKind::IterationLimitExceeded => "hull growth exceeded its iteration limit",
        }
    }
}

} // verus!
