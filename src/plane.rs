//! Walls: infinite lines with a unit normal pointing into the playable side.
use crate::geometry::MAX_COORD;
use crate::vector_math::{Vec2, within};
use vstd::prelude::*;

verus! {

/// A wall through `position` whose unit `normal` points towards the side
/// where bodies move freely.
#[derive(Clone, Copy, Debug, PartialEq, Eq, Structural)]
pub struct Plane {
    pub position: Vec2,
    pub normal: Vec2,
}

/// A unit vector with integer components: one of the four axis directions.
pub open spec fn is_unit_axis(n: Vec2) -> bool {
    (n.x == 0 && (n.y == 1 || n.y == -1)) || (n.y == 0 && (n.x == 1 || n.x == -1))
}

/// A point within range and a unit normal.
pub open spec fn plane_in_range(p: Plane) -> bool {
    within(p.position, MAX_COORD as int) && is_unit_axis(p.normal)
}

/// Signed distance of `point` from the wall, positive on the free side.
pub open spec fn signed_distance(p: Plane, point: Vec2) -> int {
    p.normal.x * (point.x - p.position.x) + p.normal.y * (point.y - p.position.y)
}

} // verus!
