//! Planar vector algebra on integer vectors.
//!
//! A rotation is described by a direction vector `d` rather than an angle:
//! rotating by `d` turns a vector by the angle of `d` and scales it by `|d|`.
//! Rotating by the conjugate of `d` turns by the opposite angle, so the two
//! together scale by `|d|²` and turn by nothing.
use vstd::prelude::*;

verus! {

/// A vector of the plane with integer components.
#[derive(Clone, Copy, Debug, PartialEq, Eq, Structural)]
pub struct Vec2 {
    pub x: i64,
    pub y: i64,
}

/// Squared Euclidean length.
pub open spec fn norm_sq(v: Vec2) -> int {
    v.x * v.x + v.y * v.y
}

/// Dot product.
pub open spec fn dot(a: Vec2, b: Vec2) -> int {
    a.x * b.x + a.y * b.y
}

/// `(x, y)` rotated by the angle of the direction `(dx, dy)` and scaled by
/// its length. The direction `(dx, -dy)` stands for the opposite angle.
pub open spec fn rot(x: int, y: int, dx: int, dy: int) -> (int, int) {
    (x * dx - y * dy, x * dy + y * dx)
}

/// `v` rotated by the angle of `d` and scaled by `|d|`.
pub open spec fn rotated(v: Vec2, d: Vec2) -> (int, int) {
    rot(v.x as int, v.y as int, d.x as int, d.y as int)
}

/// Every component of `v` lies within `bound` of zero.
pub open spec fn within(v: Vec2, bound: int) -> bool {
    -bound <= v.x <= bound && -bound <= v.y <= bound
}

/// The largest component magnitude that keeps the products below in range.
pub const COMPONENT_LIMIT: i64 = 2_000_000_000;

impl Vec2 {
    pub open spec fn zero_spec() -> Vec2 {
        Vec2 { x: 0, y: 0 }
    }

    pub fn new(x: i64, y: i64) -> (r: Vec2)
        ensures
            r.x == x,
            r.y == y,
    {
        Vec2 { x, y }
    }

    pub fn zero() -> (r: Vec2)
        ensures
            r == Vec2::zero_spec(),
    {
        Vec2 { x: 0, y: 0 }
    }
}

/// Squared length of `vec`.
pub fn length_squared(vec: &Vec2) -> (r: i128)
    requires
        within(*vec, COMPONENT_LIMIT as int),
    ensures
        r == norm_sq(*vec),
{
    proof {
        lemma_product_bound(vec.x as int, vec.x as int, COMPONENT_LIMIT as int);
        lemma_product_bound(vec.y as int, vec.y as int, COMPONENT_LIMIT as int);
    }
    (vec.x as i128) * (vec.x as i128) + (vec.y as i128) * (vec.y as i128)
}

/// Dot product of `a` and `b`.
pub fn dot_product(a: &Vec2, b: &Vec2) -> (r: i128)
    requires
        within(*a, COMPONENT_LIMIT as int),
        within(*b, COMPONENT_LIMIT as int),
    ensures
        r == dot(*a, *b),
{
    proof {
        lemma_product_bound(a.x as int, b.x as int, COMPONENT_LIMIT as int);
        lemma_product_bound(a.y as int, b.y as int, COMPONENT_LIMIT as int);
    }
    (a.x as i128) * (b.x as i128) + (a.y as i128) * (b.y as i128)
}

/// `vec` rotated by the angle of `dir` and scaled by `|dir|`, as wide integers.
pub fn rotate(vec: &Vec2, dir: &Vec2) -> (r: (i128, i128))
    requires
        within(*vec, COMPONENT_LIMIT as int),
        within(*dir, COMPONENT_LIMIT as int),
    ensures
        r.0 == rotated(*vec, *dir).0,
        r.1 == rotated(*vec, *dir).1,
{
    proof {
        lemma_product_bound(vec.x as int, dir.x as int, COMPONENT_LIMIT as int);
        lemma_product_bound(vec.y as int, dir.y as int, COMPONENT_LIMIT as int);
        lemma_product_bound(vec.x as int, dir.y as int, COMPONENT_LIMIT as int);
        lemma_product_bound(vec.y as int, dir.x as int, COMPONENT_LIMIT as int);
    }
    let (vx, vy, dx, dy) = (vec.x as i128, vec.y as i128, dir.x as i128, dir.y as i128);
    (vx * dx - vy * dy, vx * dy + vy * dx)
}

pub proof fn lemma_product_bound(a: int, b: int, k: int) by (nonlinear_arith)
    requires
        -k <= a <= k,
        -k <= b <= k,
    ensures
        -(k * k) <= a * b <= k * k,
{
}

/// Rotating by a direction and then by the opposite angle scales the vector
/// by the squared length of the direction and turns it by nothing: for a unit
/// direction the vector comes back unchanged.
pub proof fn lemma_rotate_round_trip(v: Vec2, d: Vec2)
    ensures
        rot(rotated(v, d).0, rotated(v, d).1, d.x as int, -d.y) == (
        norm_sq(d) * v.x,
        norm_sq(d) * v.y,
        ),
{
    let (vx, vy, dx, dy) = (v.x as int, v.y as int, d.x as int, d.y as int);
    assert((vx * dx - vy * dy) * dx - (vx * dy + vy * dx) * (-dy) == (dx * dx + dy * dy) * vx)
        by (nonlinear_arith);
    assert((vx * dx - vy * dy) * (-dy) + (vx * dy + vy * dx) * dx == (dx * dx + dy * dy) * vy)
        by (nonlinear_arith);
}

pub proof fn lemma_square_of_difference(a: int, b: int) by (nonlinear_arith)
    ensures
        (a - b) * (a - b) == a * a - 2 * (a * b) + b * b,
{
}

} // verus!
