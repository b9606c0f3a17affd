//! The exact elastic response of two colliding bodies, and the laws it obeys.
//!
//! Both velocities are turned into the frame whose first axis is the line of
//! centres (rotation by the conjugate of the axis `d`), the components along
//! that axis are exchanged as in a one-dimensional elastic collision, the
//! perpendicular components are kept, and the result is turned back
//! (rotation by `d`). Rotating twice by `d` scales by `|d|²` and the
//! one-dimensional formula divides by `ma + mb`, so every post-collision
//! component is an exact fraction with denominator `(ma + mb)·|d|²`.
use crate::ball::{Ball, trunc_div, lemma_mul_bound};
use crate::vector_math::{rot, lemma_square_of_difference};
use vstd::prelude::*;

verus! {

/// Axis of the collision: from the centre of `b` to the centre of `a`, or
/// the first coordinate axis when the centres coincide.
pub open spec fn collision_axis(a: Ball, b: Ball) -> (int, int) {
    let dx = a.circle.position.x - b.circle.position.x;
    let dy = a.circle.position.y - b.circle.position.y;
    if dx == 0 && dy == 0 {
        (1, 0)
    } else {
        (dx, dy)
    }
}

/// Common denominator of the exact post-collision velocities: `(ma + mb)·|d|²`.
pub open spec fn elastic_denominator(a: Ball, b: Ball) -> int {
    let (dx, dy) = collision_axis(a, b);
    (a.mass + b.mass) * (dx * dx + dy * dy)
}

/// Numerators of the exact post-collision velocities of `a` and `b`.
pub open spec fn elastic_numerators(a: Ball, b: Ball) -> ((int, int), (int, int)) {
    let (dx, dy) = collision_axis(a, b);
    let (ma, mb) = (a.mass as int, b.mass as int);
    let ua = rot(a.velocity.x as int, a.velocity.y as int, dx, -dy);
    let ub = rot(b.velocity.x as int, b.velocity.y as int, dx, -dy);
    let wa = (ua.0 * (ma - mb) + ub.0 * (2 * mb), ua.1 * (ma + mb));
    let wb = (ua.0 * (2 * ma) + ub.0 * (mb - ma), ub.1 * (ma + mb));
    (rot(wa.0, wa.1, dx, dy), rot(wb.0, wb.1, dx, dy))
}

/// The post-collision velocities rounded towards zero to the integer grid.
pub open spec fn elastic_rounded(a: Ball, b: Ball) -> ((int, int), (int, int)) {
    let ((nax, nay), (nbx, nby)) = elastic_numerators(a, b);
    let den = elastic_denominator(a, b);
    (
        (trunc_div(nax, den), trunc_div(nay, den)),
        (trunc_div(nbx, den), trunc_div(nby, den)),
    )
}

/// Kinetic energy, doubled: `ma·|va|² + mb·|vb|²`.
pub open spec fn energy2(ma: int, mb: int, va: (int, int), vb: (int, int)) -> int {
    ma * (va.0 * va.0 + va.1 * va.1) + mb * (vb.0 * vb.0 + vb.1 * vb.1)
}

/// Closing speed along the axis, times `|d|`: `(va − vb)·d`.
pub open spec fn approach(a: Ball, b: Ball) -> int {
    let (dx, dy) = collision_axis(a, b);
    (a.velocity.x - b.velocity.x) * dx + (a.velocity.y - b.velocity.y) * dy
}

/// Turning `(x, y)` by the conjugate of `d` and back gives `|d|²·(x, y)`,
/// written with the two components of the turned vector.
proof fn lemma_turn_back(x: int, y: int, dx: int, dy: int)
    ensures
        ({
            let u = rot(x, y, dx, -dy);
            u.0 * dx - u.1 * dy == x * (dx * dx + dy * dy) && u.0 * dy + u.1 * dx == y * (dx * dx
                + dy * dy)
        }),
{
    assert((x * dx - y * (-dy)) * dx - (x * (-dy) + y * dx) * dy == x * (dx * dx + dy * dy))
        by (nonlinear_arith);
    assert((x * dx - y * (-dy)) * dy + (x * (-dy) + y * dx) * dx == y * (dx * dx + dy * dy))
        by (nonlinear_arith);
}

/// The exact response as an impulse along the axis:
/// `Na = den·va − 2·mb·k·d` and `Nb = den·vb + 2·ma·k·d`, with `k = (va − vb)·d`.
pub proof fn lemma_elastic_impulse_form(a: Ball, b: Ball)
    ensures
        ({
            let (dx, dy) = collision_axis(a, b);
            let den = elastic_denominator(a, b);
            let k = approach(a, b);
            let ((nax, nay), (nbx, nby)) = elastic_numerators(a, b);
            &&& nax == den * a.velocity.x - 2 * b.mass * k * dx
            &&& nay == den * a.velocity.y - 2 * b.mass * k * dy
            &&& nbx == den * b.velocity.x + 2 * a.mass * k * dx
            &&& nby == den * b.velocity.y + 2 * a.mass * k * dy
        }),
{
    let (dx, dy) = collision_axis(a, b);
    let (ma, mb) = (a.mass as int, b.mass as int);
    let m = ma + mb;
    let l = dx * dx + dy * dy;
    let (vax, vay, vbx, vby) = (a.velocity.x as int, a.velocity.y as int, b.velocity.x as int, b.velocity.y as int);
    let ua = rot(vax, vay, dx, -dy);
    let ub = rot(vbx, vby, dx, -dy);
    lemma_turn_back(vax, vay, dx, dy);
    lemma_turn_back(vbx, vby, dx, dy);
    let k = approach(a, b);
    assert(k == ua.0 - ub.0) by (nonlinear_arith)
        requires
            k == (vax - vbx) * dx + (vay - vby) * dy,
            ua.0 == vax * dx - vay * (-dy),
            ub.0 == vbx * dx - vby * (-dy),
    ;
    let wa0 = ua.0 * (ma - mb) + ub.0 * (2 * mb);
    let wa1 = ua.1 * m;
    let wb0 = ua.0 * (2 * ma) + ub.0 * (mb - ma);
    let wb1 = ub.1 * m;
    assert(wa0 == m * ua.0 - 2 * mb * k) by (nonlinear_arith)
        requires
            wa0 == ua.0 * (ma - mb) + ub.0 * (2 * mb),
            k == ua.0 - ub.0,
            m == ma + mb,
    ;
    assert(wb0 == m * ub.0 + 2 * ma * k) by (nonlinear_arith)
        requires
            wb0 == ua.0 * (2 * ma) + ub.0 * (mb - ma),
            k == ua.0 - ub.0,
            m == ma + mb,
    ;
    let den = elastic_denominator(a, b);
    assert(den == m * l);
    // Each numerator component is m·(turned back velocity) minus the impulse.
    assert(wa0 * dx - wa1 * dy == m * (ua.0 * dx - ua.1 * dy) - 2 * mb * k * dx) by (nonlinear_arith)
        requires
            wa0 == m * ua.0 - 2 * mb * k,
            wa1 == ua.1 * m,
    ;
    assert(wa0 * dy + wa1 * dx == m * (ua.0 * dy + ua.1 * dx) - 2 * mb * k * dy) by (nonlinear_arith)
        requires
            wa0 == m * ua.0 - 2 * mb * k,
            wa1 == ua.1 * m,
    ;
    assert(wb0 * dx - wb1 * dy == m * (ub.0 * dx - ub.1 * dy) + 2 * ma * k * dx) by (nonlinear_arith)
        requires
            wb0 == m * ub.0 + 2 * ma * k,
            wb1 == ub.1 * m,
    ;
    assert(wb0 * dy + wb1 * dx == m * (ub.0 * dy + ub.1 * dx) + 2 * ma * k * dy) by (nonlinear_arith)
        requires
            wb0 == m * ub.0 + 2 * ma * k,
            wb1 == ub.1 * m,
    ;
    assert(m * (vax * l) == (m * l) * vax && m * (vay * l) == (m * l) * vay && m * (vbx * l) == (m
        * l) * vbx && m * (vby * l) == (m * l) * vby) by (nonlinear_arith);
}

/// `|s·u − c·d|² = s²·|u|² − 2·s·c·(u·d) + c²·|d|²`.
proof fn lemma_norm_of_shift(s: int, ux: int, uy: int, c: int, dx: int, dy: int)
    ensures
        (s * ux - c * dx) * (s * ux - c * dx) + (s * uy - c * dy) * (s * uy - c * dy) == (s * s) * (
        ux * ux + uy * uy) - 2 * ((s * c) * (ux * dx + uy * dy)) + (c * c) * (dx * dx + dy * dy),
{
    lemma_square_of_difference(s * ux, c * dx);
    lemma_square_of_difference(s * uy, c * dy);
    assert((s * ux) * (s * ux) == (s * s) * (ux * ux)) by (nonlinear_arith);
    assert((s * uy) * (s * uy) == (s * s) * (uy * uy)) by (nonlinear_arith);
    assert((c * dx) * (c * dx) == (c * c) * (dx * dx)) by (nonlinear_arith);
    assert((c * dy) * (c * dy) == (c * c) * (dy * dy)) by (nonlinear_arith);
    assert((s * ux) * (c * dx) == (s * c) * (ux * dx)) by (nonlinear_arith);
    assert((s * uy) * (c * dy) == (s * c) * (uy * dy)) by (nonlinear_arith);
    assert((s * s) * (ux * ux) + (s * s) * (uy * uy) == (s * s) * (ux * ux + uy * uy))
        by (nonlinear_arith);
    assert((c * c) * (dx * dx) + (c * c) * (dy * dy) == (c * c) * (dx * dx + dy * dy))
        by (nonlinear_arith);
    assert((s * c) * (ux * dx) + (s * c) * (uy * dy) == (s * c) * (ux * dx + uy * dy))
        by (nonlinear_arith);
}

proof fn lemma_momentum_terms(ma: int, mb: int, den: int, va: int, vb: int, k: int, d: int)
    ensures
        ma * (den * va - 2 * mb * k * d) + mb * (den * vb + 2 * ma * k * d) == den * (ma * va + mb
            * vb),
{
    let j = k * d;
    assert(2 * mb * k * d == 2 * (mb * j) && 2 * ma * k * d == 2 * (ma * j)) by (nonlinear_arith)
        requires
            j == k * d,
    ;
    assert(ma * (den * va - 2 * (mb * j)) + mb * (den * vb + 2 * (ma * j)) == den * (ma * va + mb
        * vb)) by (nonlinear_arith);
}

/// Momentum is conserved exactly by the unrounded response:
/// `ma·Na + mb·Nb = den·(ma·va + mb·vb)`.
pub proof fn lemma_elastic_momentum(a: Ball, b: Ball)
    ensures
        ({
            let den = elastic_denominator(a, b);
            let ((nax, nay), (nbx, nby)) = elastic_numerators(a, b);
            &&& a.mass * nax + b.mass * nbx == den * (a.mass * a.velocity.x + b.mass * b.velocity.x)
            &&& a.mass * nay + b.mass * nby == den * (a.mass * a.velocity.y + b.mass * b.velocity.y)
        }),
{
    lemma_elastic_impulse_form(a, b);
    let (dx, dy) = collision_axis(a, b);
    let den = elastic_denominator(a, b);
    let k = approach(a, b);
    lemma_momentum_terms(a.mass as int, b.mass as int, den, a.velocity.x as int, b.velocity.x as int, k, dx);
    lemma_momentum_terms(a.mass as int, b.mass as int, den, a.velocity.y as int, b.velocity.y as int, k, dy);
}

/// The algebra behind energy conservation, on the impulse form.
proof fn lemma_energy_terms(
    ma: int,
    mb: int,
    l: int,
    k: int,
    pa: int,
    pb: int,
    ea: int,
    eb: int,
)
    requires
        k == pa - pb,
    ensures
        ({
            let den = (ma + mb) * l;
            let ca = 2 * mb * k;
            let cb = -(2 * ma * k);
            ma * ((den * den) * ea - 2 * ((den * ca) * pa) + (ca * ca) * l) + mb * ((den * den) * eb
                - 2 * ((den * cb) * pb) + (cb * cb) * l) == (den * den) * (ma * ea + mb * eb)
        }),
{
    let den = (ma + mb) * l;
    let ca = 2 * mb * k;
    let cb = -(2 * ma * k);
    let z = ma * mb * (k * k);
    let w = ma * mb * k;
    assert(ma * ca == 2 * w && mb * cb == -2 * w) by (nonlinear_arith)
        requires
            ca == 2 * mb * k,
            cb == -(2 * ma * k),
            w == ma * mb * k,
    ;
    lemma_regroup(ma, den, ca, pa);
    lemma_regroup(mb, den, cb, pb);
    assert(den * ((2 * w) * pa) + den * ((-2 * w) * pb) == den * (2 * (w * (pa - pb))))
        by (nonlinear_arith);
    assert(w * (pa - pb) == z) by (nonlinear_arith)
        requires
            w == ma * mb * k,
            z == ma * mb * (k * k),
            k == pa - pb,
    ;
    assert(ma * (ca * ca) == 4 * (z * mb) && mb * (cb * cb) == 4 * (z * ma)) by (nonlinear_arith)
        requires
            ca == 2 * mb * k,
            cb == -(2 * ma * k),
            z == ma * mb * (k * k),
    ;
    lemma_assoc(ma, ca * ca, l);
    lemma_assoc(mb, cb * cb, l);
    assert((4 * (z * mb)) * l + (4 * (z * ma)) * l == 4 * (z * ((ma + mb) * l))) by (nonlinear_arith);
    assert(ma * ((den * den) * ea) + mb * ((den * den) * eb) == (den * den) * (ma * ea + mb * eb))
        by (nonlinear_arith);
    assert(den * (2 * z) == 2 * (z * den)) by (nonlinear_arith);
    assert((ma * ca) * pa == (2 * w) * pa);
    assert((mb * cb) * pb == (-2 * w) * pb);
    lemma_distribute(ma, (den * den) * ea, (den * ca) * pa, (ca * ca) * l);
    lemma_distribute(mb, (den * den) * eb, (den * cb) * pb, (cb * cb) * l);
}

/// `m·(x·l) = (m·x)·l`.
proof fn lemma_assoc(m: int, x: int, l: int) by (nonlinear_arith)
    ensures
        m * (x * l) == (m * x) * l,
{
}

/// `m·(x·(y·z)) = x·((m·y)·z)`.
proof fn lemma_regroup(m: int, x: int, y: int, z: int) by (nonlinear_arith)
    ensures
        m * ((x * y) * z) == x * ((m * y) * z),
{
}

/// `m·(x − 2·y + z) = m·x − 2·(m·y) + m·z`.
proof fn lemma_distribute(m: int, x: int, y: int, z: int) by (nonlinear_arith)
    ensures
        m * (x - 2 * y + z) == m * x - 2 * (m * y) + m * z,
{
}

/// Kinetic energy is conserved exactly by the unrounded response:
/// `ma·|Na|² + mb·|Nb|² = den²·(ma·|va|² + mb·|vb|²)`.
pub proof fn lemma_elastic_energy(a: Ball, b: Ball)
    ensures
        ({
            let den = elastic_denominator(a, b);
            let (na, nb) = elastic_numerators(a, b);
            energy2(a.mass as int, b.mass as int, na, nb) == (den * den) * energy2(
                a.mass as int,
                b.mass as int,
                (a.velocity.x as int, a.velocity.y as int),
                (b.velocity.x as int, b.velocity.y as int),
            )
        }),
{
    lemma_elastic_impulse_form(a, b);
    let (dx, dy) = collision_axis(a, b);
    let den = elastic_denominator(a, b);
    let k = approach(a, b);
    let (ma, mb) = (a.mass as int, b.mass as int);
    let (vax, vay, vbx, vby) = (a.velocity.x as int, a.velocity.y as int, b.velocity.x as int, b.velocity.y as int);
    let l = dx * dx + dy * dy;
    let ca = 2 * mb * k;
    let cb = -(2 * ma * k);
    lemma_norm_of_shift(den, vax, vay, ca, dx, dy);
    lemma_norm_of_shift(den, vbx, vby, cb, dx, dy);
    lemma_shift_forms(den, vax, vay, vbx, vby, ma, mb, k, dx, dy);
    lemma_approach_split(vax, vay, vbx, vby, dx, dy);
    lemma_energy_terms(ma, mb, l, k, vax * dx + vay * dy, vbx * dx + vby * dy, vax * vax + vay * vay, vbx * vbx + vby * vby);
}

proof fn lemma_shift_forms(
    den: int,
    vax: int,
    vay: int,
    vbx: int,
    vby: int,
    ma: int,
    mb: int,
    k: int,
    dx: int,
    dy: int,
)
    ensures
        den * vax - 2 * mb * k * dx == den * vax - (2 * mb * k) * dx,
        den * vay - 2 * mb * k * dy == den * vay - (2 * mb * k) * dy,
        den * vbx + 2 * ma * k * dx == den * vbx - (-(2 * ma * k)) * dx,
        den * vby + 2 * ma * k * dy == den * vby - (-(2 * ma * k)) * dy,
{
    assert((-(2 * ma * k)) * dx == -((2 * ma * k) * dx)) by (nonlinear_arith);
    assert((-(2 * ma * k)) * dy == -((2 * ma * k) * dy)) by (nonlinear_arith);
}

proof fn lemma_approach_split(vax: int, vay: int, vbx: int, vby: int, dx: int, dy: int)
    ensures
        (vax - vbx) * dx + (vay - vby) * dy == (vax * dx + vay * dy) - (vbx * dx + vby * dy),
{
    assert((vax - vbx) * dx == vax * dx - vbx * dx) by (nonlinear_arith);
    assert((vay - vby) * dy == vay * dy - vby * dy) by (nonlinear_arith);
}

/// Truncation towards zero: the quotient times the divisor falls short of
/// the dividend by less than the divisor, and never exceeds it in magnitude.
pub proof fn lemma_trunc_div(n: int, m: int)
    requires
        m > 0,
    ensures
        -m < n - trunc_div(n, m) * m < m,
        (trunc_div(n, m) * m) * (trunc_div(n, m) * m) <= n * n,
{
    vstd::arithmetic::div_mod::lemma_fundamental_div_mod(n, m);
    vstd::arithmetic::div_mod::lemma_fundamental_div_mod(-n, m);
    let q = trunc_div(n, m);
    if n >= 0 {
        assert(q * m == m * (n / m)) by (nonlinear_arith)
            requires
                q == n / m,
        ;
        assert(0 <= q * m <= n);
    } else {
        assert(q * m == -(m * ((-n) / m))) by (nonlinear_arith)
            requires
                q == -((-n) / m),
        ;
        assert(n <= q * m <= 0);
    }
    assert((q * m) * (q * m) <= n * n) by (nonlinear_arith)
        requires
            (0 <= q * m <= n) || (n <= q * m <= 0),
    ;
}

/// Rounding keeps momentum within one unit per unit of mass:
/// `|ma·va' + mb·vb' − (ma·va + mb·vb)| < ma + mb` in each component.
pub proof fn lemma_rounded_momentum(a: Ball, b: Ball)
    requires
        a.mass >= 1,
        b.mass >= 1,
    ensures
        ({
            let ((qax, qay), (qbx, qby)) = elastic_rounded(a, b);
            let px = a.mass * a.velocity.x + b.mass * b.velocity.x;
            let py = a.mass * a.velocity.y + b.mass * b.velocity.y;
            &&& -(a.mass + b.mass) < a.mass * qax + b.mass * qbx - px < a.mass + b.mass
            &&& -(a.mass + b.mass) < a.mass * qay + b.mass * qby - py < a.mass + b.mass
        }),
{
    lemma_elastic_momentum(a, b);
    lemma_denominator_positive(a, b);
    let den = elastic_denominator(a, b);
    let ((nax, nay), (nbx, nby)) = elastic_numerators(a, b);
    lemma_trunc_div(nax, den);
    lemma_trunc_div(nay, den);
    lemma_trunc_div(nbx, den);
    lemma_trunc_div(nby, den);
    let (ma, mb) = (a.mass as int, b.mass as int);
    lemma_rounded_sum(ma, mb, den, nax, nbx, trunc_div(nax, den), trunc_div(nbx, den), ma * a.velocity.x + mb * b.velocity.x);
    lemma_rounded_sum(ma, mb, den, nay, nby, trunc_div(nay, den), trunc_div(nby, den), ma * a.velocity.y + mb * b.velocity.y);
}

proof fn lemma_rounded_sum(ma: int, mb: int, den: int, na: int, nb: int, qa: int, qb: int, p: int)
    requires
        ma >= 1,
        mb >= 1,
        den > 0,
        -den < na - qa * den < den,
        -den < nb - qb * den < den,
        ma * na + mb * nb == den * p,
    ensures
        -(ma + mb) < ma * qa + mb * qb - p < ma + mb,
{
    assert(-(ma * den) < ma * na - ma * (qa * den) < ma * den) by (nonlinear_arith)
        requires
            ma >= 1,
            -den < na - qa * den < den,
    ;
    assert(-(mb * den) < mb * nb - mb * (qb * den) < mb * den) by (nonlinear_arith)
        requires
            mb >= 1,
            -den < nb - qb * den < den,
    ;
    let e = ma * qa + mb * qb - p;
    assert(ma * (qa * den) + mb * (qb * den) == den * (e + p)) by (nonlinear_arith)
        requires
            e == ma * qa + mb * qb - p,
    ;
    assert((ma + mb) * den == ma * den + mb * den) by (nonlinear_arith);
    assert(den * (e + p) - den * p == den * e) by (nonlinear_arith);
    assert(-(ma + mb) < e < ma + mb) by (nonlinear_arith)
        requires
            den > 0,
            -((ma + mb) * den) < den * e < (ma + mb) * den,
    ;
}

pub proof fn lemma_denominator_positive(a: Ball, b: Ball)
    requires
        a.mass >= 1,
        b.mass >= 1,
    ensures
        elastic_denominator(a, b) > 0,
{
    let (dx, dy) = collision_axis(a, b);
    assert(dx * dx + dy * dy > 0) by (nonlinear_arith)
        requires
            dx != 0 || dy != 0,
    ;
    assert((a.mass + b.mass) * (dx * dx + dy * dy) > 0) by (nonlinear_arith)
        requires
            a.mass + b.mass > 0,
            dx * dx + dy * dy > 0,
    ;
}

/// Rounding towards zero never adds energy: `ma·|va'|² + mb·|vb'|²` is at
/// most `ma·|va|² + mb·|vb|²`, which the unrounded response keeps exactly.
pub proof fn lemma_rounded_energy(a: Ball, b: Ball)
    requires
        a.mass >= 1,
        b.mass >= 1,
    ensures
        ({
            let (qa, qb) = elastic_rounded(a, b);
            energy2(a.mass as int, b.mass as int, qa, qb) <= energy2(
                a.mass as int,
                b.mass as int,
                (a.velocity.x as int, a.velocity.y as int),
                (b.velocity.x as int, b.velocity.y as int),
            )
        }),
{
    lemma_elastic_energy(a, b);
    lemma_denominator_positive(a, b);
    let den = elastic_denominator(a, b);
    let ((nax, nay), (nbx, nby)) = elastic_numerators(a, b);
    lemma_trunc_div(nax, den);
    lemma_trunc_div(nay, den);
    lemma_trunc_div(nbx, den);
    lemma_trunc_div(nby, den);
    let ((qax, qay), (qbx, qby)) = elastic_rounded(a, b);
    let e0 = energy2(
        a.mass as int,
        b.mass as int,
        (a.velocity.x as int, a.velocity.y as int),
        (b.velocity.x as int, b.velocity.y as int),
    );
    lemma_scaled_square(qax, den);
    lemma_scaled_square(qay, den);
    lemma_scaled_square(qbx, den);
    lemma_scaled_square(qby, den);
    lemma_energy_scaled(a.mass as int, b.mass as int, den, qax, qay, qbx, qby, nax, nay, nbx, nby, e0);
}

proof fn lemma_spread(k: int, ma: int, mb: int, w: int, x: int, y: int, z: int) by (nonlinear_arith)
    ensures
        k * (ma * (w + x) + mb * (y + z)) == ma * (k * w) + ma * (k * x) + mb * (k * y) + mb * (k
            * z),
{
}

proof fn lemma_scale_le(m: int, x: int, y: int) by (nonlinear_arith)
    requires
        m >= 0,
        x <= y,
    ensures
        m * x <= m * y,
{
}

proof fn lemma_scaled_square(q: int, m: int) by (nonlinear_arith)
    ensures
        (q * m) * (q * m) == (m * m) * (q * q),
{
}

proof fn lemma_energy_scaled(
    ma: int,
    mb: int,
    den: int,
    qax: int,
    qay: int,
    qbx: int,
    qby: int,
    nax: int,
    nay: int,
    nbx: int,
    nby: int,
    e0: int,
)
    requires
        ma >= 1,
        mb >= 1,
        den > 0,
        (den * den) * (qax * qax) <= nax * nax,
        (den * den) * (qay * qay) <= nay * nay,
        (den * den) * (qbx * qbx) <= nbx * nbx,
        (den * den) * (qby * qby) <= nby * nby,
        energy2(ma, mb, (nax, nay), (nbx, nby)) == (den * den) * e0,
    ensures
        energy2(ma, mb, (qax, qay), (qbx, qby)) <= e0,
{
    let dd = den * den;
    let e1 = energy2(ma, mb, (qax, qay), (qbx, qby));
    lemma_scale_le(ma, dd * (qax * qax), nax * nax);
    lemma_scale_le(ma, dd * (qay * qay), nay * nay);
    lemma_scale_le(mb, dd * (qbx * qbx), nbx * nbx);
    lemma_scale_le(mb, dd * (qby * qby), nby * nby);
    lemma_spread(dd, ma, mb, qax * qax, qay * qay, qbx * qbx, qby * qby);
    assert(energy2(ma, mb, (nax, nay), (nbx, nby)) == ma * (nax * nax) + ma * (nay * nay) + mb * (
    nbx * nbx) + mb * (nby * nby)) by (nonlinear_arith);
    assert(dd > 0) by (nonlinear_arith)
        requires
            den > 0,
            dd == den * den,
    ;
    assert(e1 <= e0) by (nonlinear_arith)
        requires
            dd > 0,
            dd * e1 <= dd * e0,
    ;
}

/// Bodies in range come out of a collision with components below `2^31`.
pub proof fn lemma_rounded_bound(a: Ball, b: Ball)
    requires
        a.in_range(),
        b.in_range(),
    ensures
        ({
            let ((qax, qay), (qbx, qby)) = elastic_rounded(a, b);
            &&& -0x8000_0000 <= qax <= 0x8000_0000
            &&& -0x8000_0000 <= qay <= 0x8000_0000
            &&& -0x8000_0000 <= qbx <= 0x8000_0000
            &&& -0x8000_0000 <= qby <= 0x8000_0000
        }),
{
    lemma_rounded_energy(a, b);
    let ((qax, qay), (qbx, qby)) = elastic_rounded(a, b);
    let (ma, mb) = (a.mass as int, b.mass as int);
    let (vax, vay, vbx, vby) = (a.velocity.x as int, a.velocity.y as int, b.velocity.x as int, b.velocity.y as int);
    lemma_mul_bound(vax, vax, 0x40_0000, 0x40_0000);
    lemma_mul_bound(vay, vay, 0x40_0000, 0x40_0000);
    lemma_mul_bound(vbx, vbx, 0x40_0000, 0x40_0000);
    lemma_mul_bound(vby, vby, 0x40_0000, 0x40_0000);
    assert(0 <= vax * vax && 0 <= vay * vay && 0 <= vbx * vbx && 0 <= vby * vby) by (nonlinear_arith);
    let e0 = energy2(ma, mb, (vax, vay), (vbx, vby));
    assert(e0 <= 0x4000_0000_0000_0000) by (nonlinear_arith)
        requires
            1 <= ma <= 0x1_0000,
            1 <= mb <= 0x1_0000,
            0 <= vax * vax <= 0x1000_0000_0000,
            0 <= vay * vay <= 0x1000_0000_0000,
            0 <= vbx * vbx <= 0x1000_0000_0000,
            0 <= vby * vby <= 0x1000_0000_0000,
            e0 == ma * (vax * vax + vay * vay) + mb * (vbx * vbx + vby * vby),
    ;
    lemma_component_bound(ma, mb, qax, qay, qbx, qby, e0);
    lemma_component_bound(ma, mb, qay, qax, qbx, qby, e0);
    lemma_component_bound(mb, ma, qbx, qby, qax, qay, e0);
    lemma_component_bound(mb, ma, qby, qbx, qax, qay, e0);
}

proof fn lemma_component_bound(ma: int, mb: int, x: int, y: int, z: int, w: int, e0: int)
    requires
        ma >= 1,
        mb >= 1,
        ma * (x * x + y * y) + mb * (z * z + w * w) <= e0 <= 0x4000_0000_0000_0000,
    ensures
        -0x8000_0000 <= x <= 0x8000_0000,
{
    assert(x * x <= 0x4000_0000_0000_0000) by (nonlinear_arith)
        requires
            ma >= 1,
            mb >= 1,
            ma * (x * x + y * y) + mb * (z * z + w * w) <= 0x4000_0000_0000_0000,
    ;
    if x > 0x8000_0000 || x < -0x8000_0000 {
        assert(x * x > 0x4000_0000_0000_0000) by (nonlinear_arith)
            requires
                x > 0x8000_0000 || x < -0x8000_0000,
        ;
    }
}

/// Magnitudes of the intermediate products of the response for bodies in range.
pub proof fn lemma_response_bounds(
    dx: int,
    dy: int,
    vax: int,
    vay: int,
    vbx: int,
    vby: int,
    ma: int,
    mb: int,
)
    requires
        -0x40_0000_0000 <= dx <= 0x40_0000_0000,
        -0x40_0000_0000 <= dy <= 0x40_0000_0000,
        -0x40_0000 <= vax <= 0x40_0000,
        -0x40_0000 <= vay <= 0x40_0000,
        -0x40_0000 <= vbx <= 0x40_0000,
        -0x40_0000 <= vby <= 0x40_0000,
        1 <= ma <= 0x1_0000,
        1 <= mb <= 0x1_0000,
    ensures
        ({
            let ua = rot(vax, vay, dx, -dy);
            let ub = rot(vbx, vby, dx, -dy);
            let wa = (ua.0 * (ma - mb) + ub.0 * (2 * mb), ua.1 * (ma + mb));
            let wb = (ua.0 * (2 * ma) + ub.0 * (mb - ma), ub.1 * (ma + mb));
            &&& -0x4000_0000_0000_0000 < ua.0 < 0x4000_0000_0000_0000
            &&& -0x4000_0000_0000_0000 < ua.1 < 0x4000_0000_0000_0000
            &&& -0x4000_0000_0000_0000 < ub.0 < 0x4000_0000_0000_0000
            &&& -0x4000_0000_0000_0000 < ub.1 < 0x4000_0000_0000_0000
            &&& -0x1_0000_0000_0000_0000_0000 < wa.0 < 0x1_0000_0000_0000_0000_0000
            &&& -0x1_0000_0000_0000_0000_0000 < wa.1 < 0x1_0000_0000_0000_0000_0000
            &&& -0x1_0000_0000_0000_0000_0000 < wb.0 < 0x1_0000_0000_0000_0000_0000
            &&& -0x1_0000_0000_0000_0000_0000 < wb.1 < 0x1_0000_0000_0000_0000_0000
            &&& -0x100_0000_0000_0000_0000_0000_0000_0000 < rot(wa.0, wa.1, dx, dy).0
                < 0x100_0000_0000_0000_0000_0000_0000_0000
            &&& -0x100_0000_0000_0000_0000_0000_0000_0000 < rot(wa.0, wa.1, dx, dy).1
                < 0x100_0000_0000_0000_0000_0000_0000_0000
            &&& -0x100_0000_0000_0000_0000_0000_0000_0000 < rot(wb.0, wb.1, dx, dy).0
                < 0x100_0000_0000_0000_0000_0000_0000_0000
            &&& -0x100_0000_0000_0000_0000_0000_0000_0000 < rot(wb.0, wb.1, dx, dy).1
                < 0x100_0000_0000_0000_0000_0000_0000_0000
            &&& 0 <= dx * dx <= 0x1000_0000_0000_0000_0000
            &&& 0 <= dy * dy <= 0x1000_0000_0000_0000_0000
            &&& 0 <= (ma + mb) * (dx * dx + dy * dy) <= 0x4000_0000_0000_0000_0000_0000
        }),
{
    lemma_mul_bound(vax, dx, 0x40_0000, 0x40_0000_0000);
    lemma_mul_bound(vay, dy, 0x40_0000, 0x40_0000_0000);
    lemma_mul_bound(vax, -dy, 0x40_0000, 0x40_0000_0000);
    lemma_mul_bound(vay, -dy, 0x40_0000, 0x40_0000_0000);
    lemma_mul_bound(vay, dx, 0x40_0000, 0x40_0000_0000);
    lemma_mul_bound(vbx, dx, 0x40_0000, 0x40_0000_0000);
    lemma_mul_bound(vby, -dy, 0x40_0000, 0x40_0000_0000);
    lemma_mul_bound(vbx, -dy, 0x40_0000, 0x40_0000_0000);
    lemma_mul_bound(vby, dx, 0x40_0000, 0x40_0000_0000);
    let ua = rot(vax, vay, dx, -dy);
    let ub = rot(vbx, vby, dx, -dy);
    lemma_mul_bound(ua.0, ma - mb, 0x4000_0000_0000_0000, 0x1_0000);
    lemma_mul_bound(ub.0, 2 * mb, 0x4000_0000_0000_0000, 0x2_0000);
    lemma_mul_bound(ua.1, ma + mb, 0x4000_0000_0000_0000, 0x2_0000);
    lemma_mul_bound(ua.0, 2 * ma, 0x4000_0000_0000_0000, 0x2_0000);
    lemma_mul_bound(ub.0, mb - ma, 0x4000_0000_0000_0000, 0x1_0000);
    lemma_mul_bound(ub.1, ma + mb, 0x4000_0000_0000_0000, 0x2_0000);
    let wa = (ua.0 * (ma - mb) + ub.0 * (2 * mb), ua.1 * (ma + mb));
    let wb = (ua.0 * (2 * ma) + ub.0 * (mb - ma), ub.1 * (ma + mb));
    lemma_mul_bound(wa.0, dx, 0x1_0000_0000_0000_0000_0000, 0x40_0000_0000);
    lemma_mul_bound(wa.1, dy, 0x1_0000_0000_0000_0000_0000, 0x40_0000_0000);
    lemma_mul_bound(wa.0, dy, 0x1_0000_0000_0000_0000_0000, 0x40_0000_0000);
    lemma_mul_bound(wa.1, dx, 0x1_0000_0000_0000_0000_0000, 0x40_0000_0000);
    lemma_mul_bound(wb.0, dx, 0x1_0000_0000_0000_0000_0000, 0x40_0000_0000);
    lemma_mul_bound(wb.1, dy, 0x1_0000_0000_0000_0000_0000, 0x40_0000_0000);
    lemma_mul_bound(wb.0, dy, 0x1_0000_0000_0000_0000_0000, 0x40_0000_0000);
    lemma_mul_bound(wb.1, dx, 0x1_0000_0000_0000_0000_0000, 0x40_0000_0000);
    lemma_mul_bound(dx, dx, 0x40_0000_0000, 0x40_0000_0000);
    lemma_mul_bound(dy, dy, 0x40_0000_0000, 0x40_0000_0000);
    assert(0 <= dx * dx && 0 <= dy * dy) by (nonlinear_arith);
    lemma_mul_bound(ma + mb, dx * dx + dy * dy, 0x2_0000, 0x2000_0000_0000_0000_0000);
    assert(0 <= (ma + mb) * (dx * dx + dy * dy)) by (nonlinear_arith)
        requires
            ma + mb >= 0,
            dx * dx + dy * dy >= 0,
    ;
}

} // verus!
