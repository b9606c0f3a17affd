//! Circles and the bounds that keep every product of coordinates exact.
use crate::vector_math::{Vec2, within};
use vstd::prelude::*;

verus! {

/// Largest magnitude of a position component, in length units (`2^37 − 1`).
pub const MAX_COORD: i64 = 137_438_953_471;

/// Largest radius, in length units (`2^36`).
pub const MAX_RADIUS: i64 = 68_719_476_736;

/// A circle: a centre and a radius.
#[derive(Clone, Copy, Debug, PartialEq, Eq, Structural)]
pub struct Circle {
    pub position: Vec2,
    pub radius: i64,
}

/// Centre and radius within the supported range.
pub open spec fn circle_in_range(c: Circle) -> bool {
    within(c.position, MAX_COORD as int) && 0 <= c.radius <= MAX_RADIUS
}

/// Squared distance between two points.
pub open spec fn dist_sq(a: Vec2, b: Vec2) -> int {
    (a.x - b.x) * (a.x - b.x) + (a.y - b.y) * (a.y - b.y)
}

/// The two discs share interior points.
pub open spec fn overlapping(a: Circle, b: Circle) -> bool {
    dist_sq(a.position, b.position) < (a.radius + b.radius) * (a.radius + b.radius)
}

impl Circle {
    /// Whether the two circles overlap (touching does not count).
    pub fn intersect(&self, b: &Circle) -> (r: bool)
        requires
            circle_in_range(*self),
            circle_in_range(*b),
        ensures
            r == overlapping(*self, *b),
    {
        let dx = self.position.x as i128 - b.position.x as i128;
        let dy = self.position.y as i128 - b.position.y as i128;
        let rs = self.radius as i128 + b.radius as i128;
        proof {
            lemma_offset_square(dx as int);
            lemma_offset_square(dy as int);
            lemma_offset_square(rs as int);
        }
        dx * dx + dy * dy < rs * rs
    }
}

/// The square of a difference of two coordinates stays far inside `i128`.
pub proof fn lemma_offset_square(x: int)
    requires
        -2 * MAX_COORD <= x <= 2 * MAX_COORD,
    ensures
        0 <= x * x <= (2 * MAX_COORD) * (2 * MAX_COORD),
{
    assert(0 <= x * x <= (2 * MAX_COORD) * (2 * MAX_COORD)) by (nonlinear_arith)
        requires
            -2 * MAX_COORD <= x <= 2 * MAX_COORD,
    ;
}

} // verus!
