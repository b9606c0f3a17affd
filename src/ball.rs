//! Moving circular bodies: time of impact against another body or a wall,
//! and the elastic response to either.
use crate::geometry::{Circle, circle_in_range, MAX_COORD, MAX_RADIUS, lemma_offset_square};
use crate::math::{
    find_roots,
    discriminant,
    below_roots,
    above_roots,
    normalized,
    rounded_roots,
};
use crate::plane::{Plane, plane_in_range, signed_distance, is_unit_axis};
use crate::elastic::{
    collision_axis,
    elastic_rounded,
    lemma_response_bounds,
    lemma_rounded_bound,
    lemma_denominator_positive,
};
use crate::vector_math::{Vec2, within, norm_sq, dot};
use crate::LENGTH_SCALE;
use vstd::prelude::*;

verus! {

/// Largest magnitude of a velocity component, in length units per tick (`2^22`).
pub const MAX_SPEED: i64 = 4_194_304;

/// Largest mass (`2^16`).
pub const MAX_MASS: i64 = 65_536;

/// Radius of a default body: sixteen units of display distance.
pub const DEFAULT_RADIUS: i64 = 16 * LENGTH_SCALE;

/// A rigid circular body moving at constant velocity between collisions.
#[derive(Clone, Copy, Debug)]
pub struct Ball {
    pub circle: Circle,
    pub velocity: Vec2,
    pub mass: i64,
}

/// Truncating division: the quotient rounded towards zero (`m > 0`).
pub open spec fn trunc_div(n: int, m: int) -> int {
    if n >= 0 {
        n / m
    } else {
        -((-n) / m)
    }
}

/// `n / m` rounded towards zero, for a quotient known to fit in `i64`.
fn trunc_quotient(n: i128, m: i128) -> (r: i64)
    requires
        m > 0,
        -0x100_0000_0000_0000_0000_0000_0000_0000 < n < 0x100_0000_0000_0000_0000_0000_0000_0000,
        -0x8000_0000 <= trunc_div(n as int, m as int) <= 0x8000_0000,
    ensures
        r == trunc_div(n as int, m as int),
{
    if n >= 0 {
        (n / m) as i64
    } else {
        -((-n) / m) as i64
    }
}

/// Absolute value.
pub open spec fn abs(n: int) -> int {
    if n < 0 {
        -n
    } else {
        n
    }
}

/// `v` reflected about a wall with unit normal `n`: `v − 2·(v·n)·n`.
pub open spec fn reflected(v: Vec2, n: Vec2) -> (int, int) {
    (v.x - 2 * dot(n, v) * n.x, v.y - 2 * dot(n, v) * n.y)
}

/// Rate at which the body closes on the wall (negative while approaching).
pub open spec fn normal_speed(b: Ball, p: Plane) -> int {
    dot(p.normal, b.velocity)
}

/// Displacement along the normal still to go before the near edge touches
/// the wall: the radius less the signed distance of the centre.
pub open spec fn gap_to_wall(b: Ball, p: Plane) -> int {
    b.circle.radius - signed_distance(p, b.circle.position)
}

/// Time at which the near edge of `b` touches `p`, rounded towards zero, if
/// it lies ahead (`invert` false: at or after now; true: at or before now).
pub open spec fn plane_time(b: Ball, p: Plane, invert: bool) -> Option<int> {
    let v = normal_speed(b, p);
    let s = gap_to_wall(b, p);
    if v == 0 {
        None
    } else if invert {
        if s * v <= 0 {
            Some(-(abs(s) / abs(v)))
        } else {
            None
        }
    } else {
        if s * v >= 0 {
            Some(abs(s) / abs(v))
        } else {
            None
        }
    }
}

/// Coefficients `(A, B, C)` of the squared gap between two bodies as a
/// polynomial in elapsed time `t`: `|Δp + t·Δv|² − (ra + rb)² = A·t² + B·t + C`,
/// with `Δp` and `Δv` the position and velocity of `a` relative to `b`.
pub open spec fn contact_poly(a: Ball, b: Ball) -> (int, int, int) {
    let dx = a.circle.position.x - b.circle.position.x;
    let dy = a.circle.position.y - b.circle.position.y;
    let ux = a.velocity.x - b.velocity.x;
    let uy = a.velocity.y - b.velocity.y;
    let rs = a.circle.radius + b.circle.radius;
    (ux * ux + uy * uy, 2 * (dx * ux + dy * uy), dx * dx + dy * dy - rs * rs)
}

/// Squared distance between the centres less the squared sum of the radii,
/// after both bodies have moved for `t` ticks: negative while they overlap.
pub open spec fn contact_gap(a: Ball, b: Ball, t: int) -> int {
    let dx = a.circle.position.x - b.circle.position.x + t * (a.velocity.x - b.velocity.x);
    let dy = a.circle.position.y - b.circle.position.y + t * (a.velocity.y - b.velocity.y);
    let rs = a.circle.radius + b.circle.radius;
    dx * dx + dy * dy - rs * rs
}

/// The contact polynomial in the direction of the search: with `invert`
/// time runs backwards, which negates the linear coefficient.
pub open spec fn directed_poly(a: Ball, b: Ball, invert: bool) -> (int, int, int) {
    let (p, q, r) = contact_poly(a, b);
    if invert {
        (p, -q, r)
    } else {
        (p, q, r)
    }
}

/// The bodies touch at some instant in the direction of the search: they
/// move relative to each other, the gap has a real root, and a root lies at
/// or after now (the smaller root is ahead when `B ≤ 0` and `C ≥ 0`, the
/// larger one when `B ≤ 0` or `C ≤ 0`).
pub open spec fn has_impact(a: Ball, b: Ball, invert: bool) -> bool {
    let (p, q, r) = directed_poly(a, b, invert);
    p != 0 && discriminant(p, q, r) >= 0 && (q <= 0 || r <= 0)
}

/// `t` is the time of impact: the first contact ahead rounded away from it
/// (down when it is the entry, the smaller root; up when only the exit, the
/// larger root, is ahead), counted negative when the search runs backwards.
pub open spec fn is_impact_time(a: Ball, b: Ball, invert: bool, t: int) -> bool {
    let (p, q, r) = directed_poly(a, b, invert);
    let d = discriminant(p, q, r);
    let u = if invert {
        -t
    } else {
        t
    };
    if q <= 0 && r >= 0 {
        below_roots(p, q, d, u) && !below_roots(p, q, d, u + 1)
    } else {
        above_roots(p, q, d, u) && !above_roots(p, q, d, u - 1)
    }
}

/// `|a·b| ≤ ka·kb` when `|a| ≤ ka` and `|b| ≤ kb`.
pub proof fn lemma_mul_bound(a: int, b: int, ka: int, kb: int) by (nonlinear_arith)
    requires
        -ka <= a <= ka,
        -kb <= b <= kb,
    ensures
        -(ka * kb) <= a * b <= ka * kb,
{
}

impl Ball {
    /// Position, radius, velocity and mass lie within the supported range.
    pub open spec fn in_range(self) -> bool {
        &&& circle_in_range(self.circle)
        &&& within(self.velocity, MAX_SPEED as int)
        &&& 1 <= self.mass <= MAX_MASS
    }

    /// A body of unit mass and default radius, at rest at the origin.
    pub fn default() -> (r: Ball)
        ensures
            r.circle.position == Vec2::zero_spec(),
            r.circle.radius == DEFAULT_RADIUS,
            r.velocity == Vec2::zero_spec(),
            r.mass == 1,
            r.in_range(),
    {
        Ball { circle: Circle { position: Vec2::zero(), radius: DEFAULT_RADIUS }, velocity: Vec2::zero(), mass: 1 }
    }

    pub fn get_mass(&self) -> (r: i64)
        ensures
            r == self.mass,
    {
        self.mass
    }

    /// Sets the mass, which must be positive.
    pub fn set_mass(&mut self, m: i64)
        requires
            1 <= m <= MAX_MASS,
        ensures
            final(self).mass == m,
            final(self).circle == old(self).circle,
            final(self).velocity == old(self).velocity,
    {
        self.mass = m;
    }

    pub fn get_position(&self) -> (r: Vec2)
        ensures
            r == self.circle.position,
    {
        self.circle.position
    }

    pub fn set_position(&mut self, x: i64, y: i64)
        ensures
            final(self).circle.position == (Vec2 { x, y }),
            final(self).circle.radius == old(self).circle.radius,
            final(self).velocity == old(self).velocity,
            final(self).mass == old(self).mass,
    {
        self.circle.position = Vec2::new(x, y);
    }

    /// Translates the body by `offset`.
    pub fn displace(&mut self, offset: &Vec2)
        requires
            i64::MIN <= old(self).circle.position.x + offset.x <= i64::MAX,
            i64::MIN <= old(self).circle.position.y + offset.y <= i64::MAX,
        ensures
            final(self).circle.position.x == old(self).circle.position.x + offset.x,
            final(self).circle.position.y == old(self).circle.position.y + offset.y,
            final(self).circle.radius == old(self).circle.radius,
            final(self).velocity == old(self).velocity,
            final(self).mass == old(self).mass,
    {
        self.circle.position = Vec2::new(self.circle.position.x + offset.x, self.circle.position.y + offset.y);
    }

    /// Velocities of `a` and `b` after a perfectly elastic collision, without
    /// changing either body. Both velocities are turned into the frame of the
    /// line of centres, the components along it are exchanged by the
    /// one-dimensional elastic formula, the perpendicular components are
    /// kept, and the result is turned back; each component of the exact
    /// result is then rounded towards zero.
    pub fn resolve_collision(a: &Ball, b: &Ball) -> (r: (Vec2, Vec2))
        requires
            a.in_range(),
            b.in_range(),
        ensures
            r.0.x == elastic_rounded(*a, *b).0.0,
            r.0.y == elastic_rounded(*a, *b).0.1,
            r.1.x == elastic_rounded(*a, *b).1.0,
            r.1.y == elastic_rounded(*a, *b).1.1,
    {
        let mut dx = a.circle.position.x as i128 - b.circle.position.x as i128;
        let mut dy = a.circle.position.y as i128 - b.circle.position.y as i128;
        if dx == 0 && dy == 0 {
            dx = 1;
            dy = 0;
        }
        assert((dx as int, dy as int) == collision_axis(*a, *b));
        let (vax, vay) = (a.velocity.x as i128, a.velocity.y as i128);
        let (vbx, vby) = (b.velocity.x as i128, b.velocity.y as i128);
        let (ma, mb) = (a.mass as i128, b.mass as i128);
        proof {
            lemma_response_bounds(dx as int, dy as int, vax as int, vay as int, vbx as int, vby as int, ma as int, mb as int);
            lemma_rounded_bound(*a, *b);
            lemma_denominator_positive(*a, *b);
        }
        proof {
            let (v, c) = (0x40_0000int, 0x40_0000_0000int);
            lemma_mul_bound(vax as int, dx as int, v, c);
            lemma_mul_bound(vay as int, -dy, v, c);
            lemma_mul_bound(vax as int, -dy, v, c);
            lemma_mul_bound(vay as int, dx as int, v, c);
            lemma_mul_bound(vbx as int, dx as int, v, c);
            lemma_mul_bound(vby as int, -dy, v, c);
            lemma_mul_bound(vbx as int, -dy, v, c);
            lemma_mul_bound(vby as int, dx as int, v, c);
        }
        // Into the frame of the line of centres.
        let ua0 = vax * dx - vay * (-dy);
        let ua1 = vax * (-dy) + vay * dx;
        let ub0 = vbx * dx - vby * (-dy);
        let ub1 = vbx * (-dy) + vby * dx;
        proof {
            let (u, m1, m2) = (0x4000_0000_0000_0000int, 0x1_0000int, 0x2_0000int);
            lemma_mul_bound(ua0 as int, ma - mb, u, m1);
            lemma_mul_bound(ub0 as int, 2 * mb, u, m2);
            lemma_mul_bound(ua0 as int, 2 * ma, u, m2);
            lemma_mul_bound(ub0 as int, mb - ma, u, m1);
        }
        // One-dimensional elastic collision along the line, scaled by ma + mb.
        let wa0 = ua0 * (ma - mb) + ub0 * (2 * mb);
        let wa1 = ua1 * (ma + mb);
        let wb0 = ua0 * (2 * ma) + ub0 * (mb - ma);
        let wb1 = ub1 * (ma + mb);
        proof {
            let (w, c) = (0x1_0000_0000_0000_0000_0000int, 0x40_0000_0000int);
            lemma_mul_bound(wa0 as int, dx as int, w, c);
            lemma_mul_bound(wa1 as int, dy as int, w, c);
            lemma_mul_bound(wa0 as int, dy as int, w, c);
            lemma_mul_bound(wa1 as int, dx as int, w, c);
            lemma_mul_bound(wb0 as int, dx as int, w, c);
            lemma_mul_bound(wb1 as int, dy as int, w, c);
            lemma_mul_bound(wb0 as int, dy as int, w, c);
            lemma_mul_bound(wb1 as int, dx as int, w, c);
        }
        // Back to the world frame.
        let nax = wa0 * dx - wa1 * dy;
        let nay = wa0 * dy + wa1 * dx;
        let nbx = wb0 * dx - wb1 * dy;
        let nby = wb0 * dy + wb1 * dx;
        let den = (ma + mb) * (dx * dx + dy * dy);
        (
            Vec2::new(trunc_quotient(nax, den), trunc_quotient(nay, den)),
            Vec2::new(trunc_quotient(nbx, den), trunc_quotient(nby, den)),
        )
    }

    /// Time until two bodies touch, from the roots of the squared gap between
    /// them. Searching forwards it is the entry into contact rounded down
    /// when that lies at or after now, else the exit rounded up when that
    /// does; with `invert_time` the search runs backwards and the time is
    /// negative. `None` when the bodies do not move relative to each other,
    /// never touch, or touch only on the other side of now.
    pub fn collision_time(ball1: &Ball, ball2: &Ball, invert_time: bool) -> (r: Option<i128>)
        requires
            ball1.in_range(),
            ball2.in_range(),
        ensures
            r is Some <==> has_impact(*ball1, *ball2, invert_time),
            r matches Some(t) ==> is_impact_time(*ball1, *ball2, invert_time, t as int),
    {
        let dx = ball1.circle.position.x as i128 - ball2.circle.position.x as i128;
        let dy = ball1.circle.position.y as i128 - ball2.circle.position.y as i128;
        let ux = ball1.velocity.x as i128 - ball2.velocity.x as i128;
        let uy = ball1.velocity.y as i128 - ball2.velocity.y as i128;
        let rs = ball1.circle.radius as i128 + ball2.circle.radius as i128;
        proof {
            lemma_contact_bounds(dx as int, dy as int, ux as int, uy as int, rs as int);
        }
        let p = ux * ux + uy * uy;
        let q0 = 2 * (dx * ux + dy * uy);
        let r = dx * dx + dy * dy - rs * rs;
        let q = if invert_time {
            -q0
        } else {
            q0
        };
        if p == 0 {
            return None;
        }
        match find_roots(p, q, r) {
            None => None,
            Some((lo, hi)) => {
                assert(normalized(p as int, q as int, r as int) == (p as int, q as int, r as int));
                if q <= 0 && r >= 0 {
                    Some(
                        if invert_time {
                            -lo
                        } else {
                            lo
                        },
                    )
                } else if q <= 0 || r <= 0 {
                    Some(
                        if invert_time {
                            -hi
                        } else {
                            hi
                        },
                    )
                } else {
                    None
                }
            },
        }
    }

    /// Whether the two bodies are closing in on each other: the distance
    /// between their centres is decreasing.
    pub fn approaching(a: &Ball, b: &Ball) -> (r: bool)
        requires
            a.in_range(),
            b.in_range(),
        ensures
            r == (contact_poly(*a, *b).1 < 0),
    {
        let dx = a.circle.position.x as i128 - b.circle.position.x as i128;
        let dy = a.circle.position.y as i128 - b.circle.position.y as i128;
        let ux = a.velocity.x as i128 - b.velocity.x as i128;
        let uy = a.velocity.y as i128 - b.velocity.y as i128;
        proof {
            lemma_contact_bounds(dx as int, dy as int, ux as int, uy as int, 0);
        }
        dx * ux + dy * uy < 0
    }

    /// Whether the body is closing in on the wall.
    pub fn approaching_plane(&self, plane: &Plane) -> (r: bool)
        requires
            self.in_range(),
            plane_in_range(*plane),
        ensures
            r == (normal_speed(*self, *plane) < 0),
    {
        let n = plane.normal;
        proof {
            lemma_unit_scale(n.x as int, self.velocity.x as int);
            lemma_unit_scale(n.y as int, self.velocity.y as int);
        }
        n.x * self.velocity.x + n.y * self.velocity.y < 0
    }

    /// Reflects the velocity about the wall: the component along the normal
    /// changes sign, the one along the wall is kept.
    pub fn resolve_plane_collision(&mut self, plane: &Plane)
        requires
            old(self).in_range(),
            plane_in_range(*plane),
        ensures
            final(self).velocity.x == reflected(old(self).velocity, plane.normal).0,
            final(self).velocity.y == reflected(old(self).velocity, plane.normal).1,
            final(self).circle == old(self).circle,
            final(self).mass == old(self).mass,
            final(self).in_range(),
    {
        let n = plane.normal;
        proof {
            lemma_unit_scale(n.x as int, self.velocity.x as int);
            lemma_unit_scale(n.y as int, self.velocity.y as int);
        }
        let v = n.x * self.velocity.x + n.y * self.velocity.y;
        proof {
            lemma_unit_scale(n.x as int, 2 * v);
            lemma_unit_scale(n.y as int, 2 * v);
        }
        self.velocity = Vec2::new(self.velocity.x - 2 * v * n.x, self.velocity.y - 2 * v * n.y);
    }

    /// Time until the near edge of the body touches the wall, rounded towards
    /// zero: `None` when the body moves parallel to the wall or the contact
    /// lies on the other side of now. With `invert_time` the search runs
    /// backwards and the time is negative.
    pub fn plane_collision_time(&self, plane: &Plane, invert_time: bool) -> (r: Option<i128>)
        requires
            self.in_range(),
            plane_in_range(*plane),
        ensures
            r matches Some(t) ==> plane_time(*self, *plane, invert_time) == Some(t as int),
            r is None ==> plane_time(*self, *plane, invert_time) is None,
    {
        let n = plane.normal;
        proof {
            lemma_unit_scale(n.x as int, self.velocity.x as int);
            lemma_unit_scale(n.y as int, self.velocity.y as int);
            lemma_unit_scale(n.x as int, self.circle.position.x - plane.position.x);
            lemma_unit_scale(n.y as int, self.circle.position.y - plane.position.y);
        }
        let v = (n.x * self.velocity.x + n.y * self.velocity.y) as i128;
        if v == 0 {
            return None;
        }
        let dist = n.x as i128 * (self.circle.position.x as i128 - plane.position.x as i128)
            + n.y as i128 * (self.circle.position.y as i128 - plane.position.y as i128);
        let s = self.circle.radius as i128 - dist;
        let abs_s = if s < 0 {
            -s
        } else {
            s
        };
        let abs_v = if v < 0 {
            -v
        } else {
            v
        };
        let ahead = (s >= 0 && v > 0) || (s <= 0 && v < 0);
        let behind = (s <= 0 && v > 0) || (s >= 0 && v < 0);
        assert((ahead <==> s * v >= 0) && (behind <==> s * v <= 0)) by (nonlinear_arith)
            requires
                v != 0,
                ahead <==> ((s >= 0 && v > 0) || (s <= 0 && v < 0)),
                behind <==> ((s <= 0 && v > 0) || (s >= 0 && v < 0)),
        ;
        if invert_time {
            if behind {
                Some(-(abs_s / abs_v))
            } else {
                None
            }
        } else {
            if ahead {
                Some(abs_s / abs_v)
            } else {
                None
            }
        }
    }
}

/// Magnitudes of the contact polynomial's coefficients for bodies in range.
proof fn lemma_contact_bounds(dx: int, dy: int, ux: int, uy: int, rs: int)
    requires
        -2 * MAX_COORD <= dx <= 2 * MAX_COORD,
        -2 * MAX_COORD <= dy <= 2 * MAX_COORD,
        -2 * MAX_SPEED <= ux <= 2 * MAX_SPEED,
        -2 * MAX_SPEED <= uy <= 2 * MAX_SPEED,
        0 <= rs <= 2 * MAX_RADIUS,
    ensures
        0 <= ux * ux <= 0x4000_0000_0000,
        0 <= uy * uy <= 0x4000_0000_0000,
        0 <= ux * ux + uy * uy <= 0x8000_0000_0000,
        -0x2000_0000_0000_0000 < dx * ux < 0x2000_0000_0000_0000,
        -0x2000_0000_0000_0000 < dy * uy < 0x2000_0000_0000_0000,
        0 <= dx * dx < 0x1000_0000_0000_0000_0000,
        0 <= dy * dy < 0x1000_0000_0000_0000_0000,
        -0x4000_0000_0000_0000 < dx * ux + dy * uy < 0x4000_0000_0000_0000,
        0 <= dx * dx + dy * dy < 0x2000_0000_0000_0000_0000,
        0 <= rs * rs <= 0x400_0000_0000_0000_0000,
        -0x1000_0000_0000_0000_0000_0000_0000_0000 < (ux * ux + uy * uy) * (dx * dx + dy * dy - rs
            * rs) < 0x1000_0000_0000_0000_0000_0000_0000_0000,
{
    lemma_mul_bound(ux, ux, 8_388_608, 8_388_608);
    lemma_mul_bound(uy, uy, 8_388_608, 8_388_608);
    lemma_mul_bound(dx, ux, 274_877_906_942, 8_388_608);
    lemma_mul_bound(dy, uy, 274_877_906_942, 8_388_608);
    lemma_mul_bound(dx, dx, 274_877_906_942, 274_877_906_942);
    lemma_mul_bound(dy, dy, 274_877_906_942, 274_877_906_942);
    lemma_mul_bound(rs, rs, 137_438_953_472, 137_438_953_472);
    assert(0 <= ux * ux && 0 <= uy * uy && 0 <= rs * rs && 0 <= dx * dx && 0 <= dy * dy)
        by (nonlinear_arith);
    let p = ux * ux + uy * uy;
    let r = dx * dx + dy * dy - rs * rs;
    assert(-0x1000_0000_0000_0000_0000_0000_0000_0000 < p * r < 0x1000_0000_0000_0000_0000_0000_0000_0000)
        by (nonlinear_arith)
        requires
            0 <= p <= 0x8000_0000_0000,
            -0x400_0000_0000_0000_0000 <= r < 0x2000_0000_0000_0000_0000,
    ;
}

/// A component of a unit axis vector scales a number by one, minus one or zero.
pub proof fn lemma_unit_scale(c: int, a: int)
    requires
        c == 0 || c == 1 || c == -1,
    ensures
        c == 0 ==> c * a == 0,
        c == 1 ==> c * a == a,
        c == -1 ==> c * a == -a,
{
}

/// Reflection about a wall keeps the speed.
pub proof fn lemma_reflection_keeps_speed(v: Vec2, n: Vec2)
    requires
        is_unit_axis(n),
    ensures
        reflected(v, n).0 * reflected(v, n).0 + reflected(v, n).1 * reflected(v, n).1 == norm_sq(v),
{
    lemma_unit_scale(n.x as int, v.x as int);
    lemma_unit_scale(n.y as int, v.y as int);
    let k = 2 * dot(n, v);
    lemma_unit_scale(n.x as int, k);
    lemma_unit_scale(n.y as int, k);
    assert(k * n.x == n.x * k && k * n.y == n.y * k) by (nonlinear_arith);
    assert((-v.x) * (-v.x) == v.x * v.x && (-v.y) * (-v.y) == v.y * v.y) by (nonlinear_arith);
}

/// The squared gap is the contact polynomial evaluated at `t`.
pub proof fn lemma_gap_is_poly(a: Ball, b: Ball, t: int)
    ensures
        contact_gap(a, b, t) == contact_poly(a, b).0 * (t * t) + contact_poly(a, b).1 * t
            + contact_poly(a, b).2,
{
    let dx = a.circle.position.x - b.circle.position.x;
    let dy = a.circle.position.y - b.circle.position.y;
    let ux = a.velocity.x - b.velocity.x;
    let uy = a.velocity.y - b.velocity.y;
    lemma_shifted_square(dx, ux, t);
    lemma_shifted_square(dy, uy, t);
    assert((ux * ux + uy * uy) * (t * t) == (ux * ux) * (t * t) + (uy * uy) * (t * t))
        by (nonlinear_arith);
    assert(2 * (dx * ux + dy * uy) * t == 2 * ((dx * ux) * t) + 2 * ((dy * uy) * t))
        by (nonlinear_arith);
}

/// `(d + t·u)² = d² + 2·(d·u)·t + u²·t²`.
proof fn lemma_shifted_square(d: int, u: int, t: int) by (nonlinear_arith)
    ensures
        (d + t * u) * (d + t * u) == d * d + 2 * ((d * u) * t) + (u * u) * (t * t),
{
}

/// At or before the entry root the gap is not negative:
/// `4·p·(p·t² + q·t + r) = (2·p·t + q)² − (q² − 4·p·r)`.
pub proof fn lemma_below_roots_gap(p: int, q: int, r: int, t: int)
    requires
        p > 0,
        below_roots(p, q, discriminant(p, q, r), t),
    ensures
        p * (t * t) + q * t + r >= 0,
{
    let x = 2 * p * t + q;
    assert(x * x - (q * q - 4 * p * r) == 4 * p * (p * (t * t) + q * t + r)) by (nonlinear_arith)
        requires
            x == 2 * p * t + q,
    ;
    assert(p * (t * t) + q * t + r >= 0) by (nonlinear_arith)
        requires
            p > 0,
            x * x - (q * q - 4 * p * r) >= 0,
            x * x - (q * q - 4 * p * r) == 4 * p * (p * (t * t) + q * t + r),
    ;
}

/// Being at or below the roots carries over to earlier times.
pub proof fn lemma_below_roots_earlier(p: int, q: int, d: int, t0: int, t: int)
    requires
        p > 0,
        t <= t0,
        below_roots(p, q, d, t0),
    ensures
        below_roots(p, q, d, t),
{
    let x0 = 2 * p * t0 + q;
    let x = 2 * p * t + q;
    assert(x <= x0) by (nonlinear_arith)
        requires
            p > 0,
            t <= t0,
            x0 == 2 * p * t0 + q,
            x == 2 * p * t + q,
    ;
    assert(x * x >= x0 * x0) by (nonlinear_arith)
        requires
            x <= x0 <= 0,
    ;
}

/// Two bodies apart now: unless they are closing in on a contact ahead, the
/// gap stays non-negative for all time ahead; if they are, it stays
/// non-negative up to the reported time of impact.
pub proof fn lemma_pair_clear(a: Ball, b: Ball)
    requires
        contact_gap(a, b, 0) >= 0,
    ensures
        !(contact_poly(a, b).1 < 0 && has_impact(a, b, false)) ==> forall|t: int|
            0 <= t ==> #[trigger] contact_gap(a, b, t) >= 0,
        forall|t0: int, t: int|
            contact_poly(a, b).1 < 0 && is_impact_time(a, b, false, t0) && 0 <= t <= t0
                ==> #[trigger] is_impact_time(a, b, false, t0) && #[trigger] contact_gap(a, b, t) >= 0,
{
    let (p, q, r) = contact_poly(a, b);
    lemma_gap_is_poly(a, b, 0);
    assert(r >= 0);
    assert(p >= 0) by (nonlinear_arith)
        requires
            p == (a.velocity.x - b.velocity.x) * (a.velocity.x - b.velocity.x) + (a.velocity.y
                - b.velocity.y) * (a.velocity.y - b.velocity.y),
    ;
    assert forall|t: int| 0 <= t implies #[trigger] contact_gap(a, b, t) >= 0 || (q < 0 && has_impact(a, b, false)) by {
        lemma_gap_is_poly(a, b, t);
        if q >= 0 {
            assert(p * (t * t) + q * t + r >= 0) by (nonlinear_arith)
                requires
                    p >= 0,
                    q >= 0,
                    r >= 0,
                    t >= 0,
            ;
        } else if p == 0 {
            // no relative motion means no linear term either
            assert(q == 0) by (nonlinear_arith)
                requires
                    p == contact_poly(a, b).0,
                    p == 0,
                    q == contact_poly(a, b).1,
                    contact_poly(a, b).0 == (a.velocity.x - b.velocity.x) * (a.velocity.x - b.velocity.x)
                        + (a.velocity.y - b.velocity.y) * (a.velocity.y - b.velocity.y),
                    contact_poly(a, b).1 == 2 * ((a.circle.position.x - b.circle.position.x) * (
                    a.velocity.x - b.velocity.x) + (a.circle.position.y - b.circle.position.y) * (
                    a.velocity.y - b.velocity.y)),
            ;
        } else if discriminant(p, q, r) < 0 {
            let x = 2 * p * t + q;
            assert(x * x - (q * q - 4 * p * r) == 4 * p * (p * (t * t) + q * t + r))
                by (nonlinear_arith)
                requires
                    x == 2 * p * t + q,
            ;
            assert(x * x >= 0) by (nonlinear_arith);
            assert(p * (t * t) + q * t + r >= 0) by (nonlinear_arith)
                requires
                    p > 0,
                    x * x >= 0,
                    q * q - 4 * p * r < 0,
                    x * x - (q * q - 4 * p * r) == 4 * p * (p * (t * t) + q * t + r),
            ;
        }
    }
    assert forall|t0: int, t: int|
        q < 0 && is_impact_time(a, b, false, t0) && 0 <= t <= t0 implies #[trigger] is_impact_time(
            a,
            b,
            false,
            t0,
        ) && #[trigger] contact_gap(a, b, t) >= 0 by {
        lemma_gap_is_poly(a, b, t);
        assert(p >= 0) by (nonlinear_arith)
            requires
                p == (a.velocity.x - b.velocity.x) * (a.velocity.x - b.velocity.x) + (a.velocity.y
                    - b.velocity.y) * (a.velocity.y - b.velocity.y),
        ;
        if p == 0 {
            assert(q == 0) by (nonlinear_arith)
                requires
                    p == 0,
                    p == (a.velocity.x - b.velocity.x) * (a.velocity.x - b.velocity.x) + (a.velocity.y
                        - b.velocity.y) * (a.velocity.y - b.velocity.y),
                    q == 2 * ((a.circle.position.x - b.circle.position.x) * (a.velocity.x
                        - b.velocity.x) + (a.circle.position.y - b.circle.position.y) * (
                    a.velocity.y - b.velocity.y)),
            ;
        } else {
            lemma_below_roots_earlier(p, q, discriminant(p, q, r), t0, t);
            lemma_below_roots_gap(p, q, r, t);
        }
    }
}

/// For bodies apart now and closing in, the time of impact is not in the past.
pub proof fn lemma_entry_ahead(a: Ball, b: Ball, t: int)
    requires
        contact_gap(a, b, 0) >= 0,
        contact_poly(a, b).1 < 0,
        has_impact(a, b, false),
        is_impact_time(a, b, false, t),
    ensures
        t >= 0,
{
    let (p, q, r) = contact_poly(a, b);
    lemma_gap_is_poly(a, b, 0);
    assert(p >= 0) by (nonlinear_arith)
        requires
            p == (a.velocity.x - b.velocity.x) * (a.velocity.x - b.velocity.x) + (a.velocity.y
                - b.velocity.y) * (a.velocity.y - b.velocity.y),
    ;
    assert(p * r >= 0) by (nonlinear_arith)
        requires
            p >= 0,
            r >= 0,
    ;
    let d = discriminant(p, q, r);
    assert(below_roots(p, q, d, 0));
    if t < 0 {
        lemma_below_roots_earlier(p, q, d, 0, t + 1);
    }
}

/// Two bodies apart and closing in on a contact: the reported time `t` is
/// the contact instant rounded down to the tick grid. After moving for `t`
/// ticks the centres are still at least the sum of the radii apart, and the
/// contact itself falls before `t + 1` (the smaller root of the squared gap
/// lies in `[t, t + 1)`).
pub proof fn lemma_impact_time_brackets_contact(a: Ball, b: Ball, t: int)
    requires
        contact_gap(a, b, 0) > 0,
        contact_poly(a, b).1 < 0,
        has_impact(a, b, false),
        is_impact_time(a, b, false, t),
    ensures
        0 <= t,
        contact_gap(a, b, t) >= 0,
        ({
            let (p, q, r) = contact_poly(a, b);
            below_roots(p, q, discriminant(p, q, r), t) && !below_roots(
                p,
                q,
                discriminant(p, q, r),
                t + 1,
            )
        }),
{
    lemma_entry_ahead(a, b, t);
    lemma_pair_clear(a, b);
    assert(contact_gap(a, b, t) >= 0);
}

/// Bodies exactly touching and moving relative to each other have a time of
/// impact of zero, in either direction of time.
pub proof fn lemma_touching_time_zero(a: Ball, b: Ball, invert: bool)
    requires
        contact_gap(a, b, 0) == 0,
        contact_poly(a, b).0 != 0,
    ensures
        has_impact(a, b, invert),
        is_impact_time(a, b, invert, 0),
{
    lemma_gap_is_poly(a, b, 0);
    let (p, q, r) = directed_poly(a, b, invert);
    assert(r == 0);
    assert(p >= 0) by (nonlinear_arith)
        requires
            p == (a.velocity.x - b.velocity.x) * (a.velocity.x - b.velocity.x) + (a.velocity.y
                - b.velocity.y) * (a.velocity.y - b.velocity.y),
    ;
    let d = discriminant(p, q, r);
    assert(d == q * q);
    assert(q * q >= 0) by (nonlinear_arith);
    if q <= 0 {
        let x = 2 * p * 1 + q;
        assert(!(x <= 0 && x * x >= d)) by (nonlinear_arith)
            requires
                p > 0,
                q <= 0,
                x == 2 * p + q,
                d == q * q,
        ;
    } else {
        let x = 2 * p * (0 - 1) + q;
        assert(!(x >= 0 && x * x >= d)) by (nonlinear_arith)
            requires
                p > 0,
                q > 0,
                x == -2 * p + q,
                d == q * q,
        ;
    }
}

/// A body exactly touching a wall and moving across its normal has a time
/// of contact of zero, in either direction of time.
pub proof fn lemma_touching_wall_time_zero(b: Ball, p: Plane, invert: bool)
    requires
        gap_to_wall(b, p) == 0,
        normal_speed(b, p) != 0,
    ensures
        plane_time(b, p, invert) == Some(0int),
{
}

/// Being at or above the roots carries over to later times.
pub proof fn lemma_above_roots_later(p: int, q: int, d: int, t0: int, t: int)
    requires
        p > 0,
        t0 <= t,
        above_roots(p, q, d, t0),
    ensures
        above_roots(p, q, d, t),
{
    let x0 = 2 * p * t0 + q;
    let x = 2 * p * t + q;
    assert(x0 <= x) by (nonlinear_arith)
        requires
            p > 0,
            t0 <= t,
            x0 == 2 * p * t0 + q,
            x == 2 * p * t + q,
    ;
    assert(x * x >= x0 * x0) by (nonlinear_arith)
        requires
            0 <= x0 <= x,
    ;
}

/// The time of impact is unique.
pub proof fn lemma_impact_time_unique(a: Ball, b: Ball, invert: bool, t1: int, t2: int)
    requires
        has_impact(a, b, invert),
        is_impact_time(a, b, invert, t1),
        is_impact_time(a, b, invert, t2),
    ensures
        t1 == t2,
{
    let (p, q, r) = directed_poly(a, b, invert);
    assert(p >= 0) by (nonlinear_arith)
        requires
            p == (a.velocity.x - b.velocity.x) * (a.velocity.x - b.velocity.x) + (a.velocity.y
                - b.velocity.y) * (a.velocity.y - b.velocity.y),
    ;
    let d = discriminant(p, q, r);
    let u1 = if invert { -t1 } else { t1 };
    let u2 = if invert { -t2 } else { t2 };
    if q <= 0 && r >= 0 {
        if u1 < u2 {
            lemma_below_roots_earlier(p, q, d, u2, u1 + 1);
        } else if u2 < u1 {
            lemma_below_roots_earlier(p, q, d, u1, u2 + 1);
        }
    } else {
        if u1 < u2 {
            lemma_above_roots_later(p, q, d, u1, u2 - 1);
        } else if u2 < u1 {
            lemma_above_roots_later(p, q, d, u2, u1 - 1);
        }
    }
}

} // verus!
