//! Where the smoothing kernel applies.
//!
//! The kernel reaches one cell width. These are the tests on a distance that
//! pick the branch of a kernel formula; the formulas themselves are
//! arithmetic on measured quantities and are evaluated by the caller.

use vstd::prelude::*;
use crate::binary32::{less_eq, nan, scaled, unit, lemma_one, ONE};

verus! {

/// The distance up to which one particle influences another: one.
pub const INFLUENCE_RADIUS: u32 = ONE;

/// The distance up to which two particles count as being in the same place:
/// the single-precision number nearest to one millionth.
pub const COINCIDENCE: u32 = 0x3586_37bd;

/// What a neighbour at some distance adds to a pressure gradient.
#[derive(Clone, Copy, Debug, PartialEq, Eq, Structural)]
pub enum Reach {
    /// At the radius or beyond: nothing.
    Beyond,
    /// Closer than makes a direction: a small push in a random direction.
    Coincident,
    /// Within the radius and apart: a push along the line between the two.
    Apart,
}

/// The squared distance is a number, and at least the squared radius.
pub open spec fn beyond_radius_sq(dist_sq: u32) -> bool {
    !nan(dist_sq) && scaled(dist_sq) >= unit()
}

/// The distance is a number from zero to the radius, both included.
pub open spec fn in_support(distance: u32) -> bool {
    !nan(distance) && 0 <= scaled(distance) <= unit()
}

/// The distance is a number above zero and at most the radius.
pub open spec fn on_slope(distance: u32) -> bool {
    !nan(distance) && 0 < scaled(distance) <= unit()
}

/// The case of a neighbour at `distance`. A distance that is not a number
/// is neither beyond the radius nor coincident.
pub open spec fn reach_of(distance: u32) -> Reach {
    if !nan(distance) && scaled(distance) >= unit() {
        Reach::Beyond
    } else if !nan(distance) && scaled(distance) <= scaled(COINCIDENCE) {
        Reach::Coincident
    } else {
        Reach::Apart
    }
}

/// Whether a candidate is rejected for its squared distance, before any
/// root is taken.
pub fn rejects_squared_distance(dist_sq: u32) -> (rejected: bool)
    ensures
        rejected == beyond_radius_sq(dist_sq),
{
    proof {
        lemma_one();
    }
    less_eq(INFLUENCE_RADIUS, dist_sq)
}

/// Whether the density kernel is the cubic at `distance`; elsewhere it is
/// zero.
pub fn influence_applies(distance: u32) -> (applies: bool)
    ensures
        applies == in_support(distance),
{
    proof {
        lemma_one();
    }
    less_eq(0, distance) && less_eq(distance, INFLUENCE_RADIUS)
}

/// Whether the kernel's derivative is the square at `distance`; elsewhere,
/// and at zero, it is zero.
pub fn derivative_applies(distance: u32) -> (applies: bool)
    ensures
        applies == on_slope(distance),
{
    proof {
        lemma_one();
    }
    influence_applies(distance) && !less_eq(distance, 0)
}

/// The case of a neighbour at `distance` in the sum of a pressure gradient.
pub fn classify_neighbor(distance: u32) -> (reach: Reach)
    ensures
        reach == reach_of(distance),
{
    proof {
        lemma_one();
    }
    if less_eq(INFLUENCE_RADIUS, distance) {
        Reach::Beyond
    } else if less_eq(distance, COINCIDENCE) {
        Reach::Coincident
    } else {
        Reach::Apart
    }
}

} // verus!
