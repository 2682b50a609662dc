//! Movement-timing model kinds and the canonical order of an atom pair.

use vstd::prelude::*;

use crate::ids::AtomId;

verus! {

/// How movement time grows with distance.
#[derive(Clone, Copy, Debug, PartialEq, Eq, Structural)]
pub enum SpeedModelKind {
    /// √-law `t = √(d/a)`, the default.
    Sqrt,
    /// Jerk-limited symmetric S-curve.
    JerkLimited,
}

impl Default for SpeedModelKind {
    fn default() -> (r: Self)
        ensures
            r == SpeedModelKind::Sqrt,
    {
        SpeedModelKind::Sqrt
    }
}

/// Canonical ordering of an unordered atom pair: smaller id first.
pub fn ordered_pair(a: AtomId, b: AtomId) -> (r: (AtomId, AtomId))
    ensures
        r == (if a.0 <= b.0 { (a, b) } else { (b, a) }),
{
    if a.0 <= b.0 { (a, b) } else { (b, a) }
}

} // verus!
