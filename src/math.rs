//! Closed-form real roots of a quadratic, on integers.
//!
//! The roots of `a·t² + b·t + c` are irrational in general; what is computed
//! is the greatest integer at or below the smaller root and the least integer
//! at or above the larger one. Both are characterised without square roots:
//! for `a > 0` and `x = 2·a·t + b`, the value `t` lies at or below the smaller
//! root exactly when `x ≤ 0` and `x² ≥ b² − 4·a·c`, and at or above the larger
//! root exactly when `x ≥ 0` and `x² ≥ b² − 4·a·c`.
use vstd::prelude::*;

verus! {

/// Relies on `num::integer::sqrt` on `u128`: the truncated square root,
/// `r² ≤ x < (r + 1)²`.
#[verifier::external_body]
pub(crate) fn isqrt(x: u128) -> (r: u128)
    ensures
        r * r <= x < (r + 1) * (r + 1),
{
    num::integer::sqrt(x)
}

/// Discriminant of `a·t² + b·t + c`.
pub open spec fn discriminant(a: int, b: int, c: int) -> int {
    b * b - 4 * a * c
}

/// The polynomial with its leading coefficient made positive (same roots).
pub open spec fn normalized(a: int, b: int, c: int) -> (int, int, int) {
    if a < 0 {
        (-a, -b, -c)
    } else {
        (a, b, c)
    }
}

/// For `p > 0`: `t` lies at or below both roots of a polynomial with leading
/// coefficient `p`, linear coefficient `q` and discriminant `d`.
pub open spec fn below_roots(p: int, q: int, d: int, t: int) -> bool {
    let x = 2 * p * t + q;
    x <= 0 && x * x >= d
}

/// For `p > 0`: `t` lies at or above both roots.
pub open spec fn above_roots(p: int, q: int, d: int, t: int) -> bool {
    let x = 2 * p * t + q;
    x >= 0 && x * x >= d
}

/// `t` lies at or below both real roots of `a·t² + b·t + c` (`a ≠ 0`).
pub open spec fn at_or_below_roots(a: int, b: int, c: int, t: int) -> bool {
    below_roots(normalized(a, b, c).0, normalized(a, b, c).1, discriminant(a, b, c), t)
}

/// `t` lies at or above both real roots of `a·t² + b·t + c` (`a ≠ 0`).
pub open spec fn at_or_above_roots(a: int, b: int, c: int, t: int) -> bool {
    above_roots(normalized(a, b, c).0, normalized(a, b, c).1, discriminant(a, b, c), t)
}

/// `lo` is the floor of the smaller root and `hi` the ceiling of the larger.
pub open spec fn rounded_roots(a: int, b: int, c: int, lo: int, hi: int) -> bool {
    &&& at_or_below_roots(a, b, c, lo)
    &&& !at_or_below_roots(a, b, c, lo + 1)
    &&& at_or_above_roots(a, b, c, hi)
    &&& !at_or_above_roots(a, b, c, hi - 1)
}

/// Coefficients small enough for the discriminant to be computed exactly.
pub open spec fn coefficients_in_range(a: int, b: int, c: int) -> bool {
    &&& a != 0
    &&& -0x1_0000_0000_0000_0000 < a < 0x1_0000_0000_0000_0000
    &&& -0x8000_0000_0000_0000 < b < 0x8000_0000_0000_0000
    &&& -0x4000_0000_0000_0000_0000_0000_0000_0000 < c < 0x4000_0000_0000_0000_0000_0000_0000_0000
    &&& -0x1000_0000_0000_0000_0000_0000_0000_0000 < a * c < 0x1000_0000_0000_0000_0000_0000_0000_0000
}

/// The real roots of `a·t² + b·t + c`, rounded outwards to integers: `None`
/// when there is no real root, else the floor of the smaller root and the
/// ceiling of the larger one.
pub fn find_roots(a: i128, b: i128, c: i128) -> (r: Option<(i128, i128)>)
    requires
        coefficients_in_range(a as int, b as int, c as int),
    ensures
        r is None <==> discriminant(a as int, b as int, c as int) < 0,
        r matches Some((lo, hi)) ==> -0x2000_0000_0000_0000_0000_0000_0000_0000 < lo <= hi
            < 0x2000_0000_0000_0000_0000_0000_0000_0000 && rounded_roots(
            a as int,
            b as int,
            c as int,
            lo as int,
            hi as int,
        ),
{
    let (p, q, r) = if a < 0 {
        (-a, -b, -c)
    } else {
        (a, b, c)
    };
    assert(p * r == a * c) by (nonlinear_arith)
        requires
            (a < 0 && p == -a && r == -c) || (a >= 0 && p == a && r == c),
    ;
    proof {
        lemma_square_bound(q as int);
    }
    assert(4 * p * r == 4 * (p * r)) by (nonlinear_arith);
    let d = q * q - 4 * p * r;
    assert(d == discriminant(a as int, b as int, c as int)) by (nonlinear_arith)
        requires
            (a < 0 && p == -a && q == -b && r == -c) || (a >= 0 && p == a && q == b && r == c),
            d == q * q - 4 * p * r,
    ;
    if d < 0 {
        return None;
    }
    let root = isqrt(d as u128);
    proof {
        lemma_root_bound(root as int, d as int);
    }
    let s = root as i128;
    let two_p = 2 * p;
    let lo0 = floor_div(-q - s, two_p);
    let hi0 = ceil_div(-q + s, two_p);
    proof {
        lemma_floor_div_bounds(-q - s, two_p as int);
        lemma_ceil_div_bounds(-q + s, two_p as int);
    }
    let x_lo = two_p * lo0 + q;
    let x_hi = two_p * hi0 + q;
    let lo = if x_lo <= -s - 1 || (x_lo == -s && s * s == d) {
        lo0
    } else {
        lo0 - 1
    };
    let hi = if x_hi >= s + 1 || (x_hi == s && s * s == d) {
        hi0
    } else {
        hi0 + 1
    };
    proof {
        lemma_rounding_choice(p as int, q as int, d as int, s as int, lo0 as int, hi0 as int);
        assert(normalized(a as int, b as int, c as int) == (p as int, q as int, r as int));
    }
    Some((lo, hi))
}

/// `n / m` rounded down, for `m > 0`.
fn floor_div(n: i128, m: i128) -> (r: i128)
    requires
        m > 0,
        -0x1000_0000_0000_0000_0000_0000_0000_0000 < n < 0x1000_0000_0000_0000_0000_0000_0000_0000,
        m < 0x1000_0000_0000_0000_0000_0000_0000_0000,
    ensures
        r == n / m,
        -0x1000_0000_0000_0000_0000_0000_0000_0000 < r < 0x1000_0000_0000_0000_0000_0000_0000_0000,
{
    proof {
        lemma_floor_div_magnitude(n as int, m as int);
    }
    if n >= 0 {
        n / m
    } else {
        let k = (-n + m - 1) / m;
        proof {
            lemma_negated_floor(n as int, m as int, k as int);
        }
        -k
    }
}

/// `n / m` rounded up, for `m > 0`.
fn ceil_div(n: i128, m: i128) -> (r: i128)
    requires
        m > 0,
        -0x1000_0000_0000_0000_0000_0000_0000_0000 < n < 0x1000_0000_0000_0000_0000_0000_0000_0000,
        m < 0x1000_0000_0000_0000_0000_0000_0000_0000,
    ensures
        r == -((-n) / (m as int)),
        -0x1000_0000_0000_0000_0000_0000_0000_0000 < r < 0x1000_0000_0000_0000_0000_0000_0000_0000,
{
    -floor_div(-n, m)
}

proof fn lemma_negated_floor(n: int, m: int, k: int)
    requires
        m > 0,
        n < 0,
        k == (-n + m - 1) / m,
    ensures
        k == -(n / m),
{
    let r = (-n + m - 1) % m;
    vstd::arithmetic::div_mod::lemma_fundamental_div_mod(-n + m - 1, m);
    assert(n == m * (-k) + (m - 1 - r)) by (nonlinear_arith)
        requires
            -n + m - 1 == m * k + r,
    ;
    vstd::arithmetic::div_mod::lemma_fundamental_div_mod_converse(n, m, -k, m - 1 - r);
}

proof fn lemma_floor_div_magnitude(n: int, m: int)
    requires
        m > 0,
    ensures
        n >= 0 ==> 0 <= n / m <= n,
        n < 0 ==> n <= n / m < 0,
{
    vstd::arithmetic::div_mod::lemma_fundamental_div_mod(n, m);
    let q = n / m;
    let r = n % m;
    assert(n >= 0 ==> 0 <= q <= n) by (nonlinear_arith)
        requires
            m > 0,
            n == m * q + r,
            0 <= r < m,
    ;
    assert(n < 0 ==> n <= q < 0) by (nonlinear_arith)
        requires
            m > 0,
            n == m * q + r,
            0 <= r < m,
    ;
}

proof fn lemma_floor_div_bounds(n: int, m: int)
    requires
        m > 0,
    ensures
        m * (n / m) <= n < m * (n / m) + m,
{
    vstd::arithmetic::div_mod::lemma_fundamental_div_mod(n, m);
}

proof fn lemma_ceil_div_bounds(n: int, m: int)
    requires
        m > 0,
    ensures
        m * (-((-n) / m)) >= n > m * (-((-n) / m)) - m,
{
    vstd::arithmetic::div_mod::lemma_fundamental_div_mod(-n, m);
    assert(m * (-((-n) / m)) == -(m * ((-n) / m))) by (nonlinear_arith);
}

proof fn lemma_square_bound(q: int)
    requires
        -0x8000_0000_0000_0000 < q < 0x8000_0000_0000_0000,
    ensures
        0 <= q * q < 0x4000_0000_0000_0000_0000_0000_0000_0000,
{
    assert(0 <= q * q < 0x8000_0000_0000_0000 * 0x8000_0000_0000_0000) by (nonlinear_arith)
        requires
            -0x8000_0000_0000_0000 < q < 0x8000_0000_0000_0000,
    ;
}

/// A truncated square root of a value below `2^127` is below `2^64`.
proof fn lemma_root_bound(s: int, d: int)
    requires
        0 <= s,
        s * s <= d < 0x8000_0000_0000_0000_0000_0000_0000_0000,
    ensures
        s < 0x1_0000_0000_0000_0000,
{
    if s >= 0x1_0000_0000_0000_0000 {
        assert(s * s >= 0x1_0000_0000_0000_0000 * 0x1_0000_0000_0000_0000) by (nonlinear_arith)
            requires
                s >= 0x1_0000_0000_0000_0000,
        ;
    }
}

/// With `s` the truncated square root of `d`, whether `x² ≥ d` is read off
/// the position of `x` against `±s`.
proof fn lemma_square_threshold(x: int, s: int, d: int)
    requires
        0 <= s,
        s * s <= d < (s + 1) * (s + 1),
    ensures
        (x <= 0 && x * x >= d) <==> (x <= -s - 1 || (x == -s && s * s == d)),
        (x >= 0 && x * x >= d) <==> (x >= s + 1 || (x == s && s * s == d)),
{
    if x <= -s - 1 {
        assert(x * x >= (s + 1) * (s + 1)) by (nonlinear_arith)
            requires
                x <= -s - 1,
                0 <= s,
        ;
    } else if x >= s + 1 {
        assert(x * x >= (s + 1) * (s + 1)) by (nonlinear_arith)
            requires
                x >= s + 1,
                0 <= s,
        ;
    } else if x == s || x == -s {
        assert(x * x == s * s) by (nonlinear_arith)
            requires
                x == s || x == -s,
        ;
    } else {
        assert(x * x < s * s) by (nonlinear_arith)
            requires
                -s < x < s,
        ;
    }
}

proof fn lemma_rounding_choice(p: int, q: int, d: int, s: int, lo0: int, hi0: int)
    requires
        p > 0,
        0 <= s,
        s * s <= d < (s + 1) * (s + 1),
        2 * p * lo0 <= -q - s < 2 * p * lo0 + 2 * p,
        2 * p * hi0 >= -q + s > 2 * p * hi0 - 2 * p,
    ensures
        ({
            let x_lo = 2 * p * lo0 + q;
            let lo = if x_lo <= -s - 1 || (x_lo == -s && s * s == d) {
                lo0
            } else {
                lo0 - 1
            };
            below_roots(p, q, d, lo) && !below_roots(p, q, d, lo + 1)
        }),
        ({
            let x_hi = 2 * p * hi0 + q;
            let hi = if x_hi >= s + 1 || (x_hi == s && s * s == d) {
                hi0
            } else {
                hi0 + 1
            };
            above_roots(p, q, d, hi) && !above_roots(p, q, d, hi - 1)
        }),
        lo0 <= hi0,
{
    let x_lo = 2 * p * lo0 + q;
    let x_hi = 2 * p * hi0 + q;
    assert(2 * p * (lo0 + 1) == 2 * p * lo0 + 2 * p) by (nonlinear_arith);
    assert(2 * p * (lo0 - 1) == 2 * p * lo0 - 2 * p) by (nonlinear_arith);
    assert(2 * p * (hi0 + 1) == 2 * p * hi0 + 2 * p) by (nonlinear_arith);
    assert(2 * p * (hi0 - 1) == 2 * p * hi0 - 2 * p) by (nonlinear_arith);
    lemma_square_threshold(x_lo, s, d);
    lemma_square_threshold(x_lo + 2 * p, s, d);
    lemma_square_threshold(x_lo - 2 * p, s, d);
    lemma_square_threshold(x_hi, s, d);
    lemma_square_threshold(x_hi + 2 * p, s, d);
    lemma_square_threshold(x_hi - 2 * p, s, d);
    assert(lo0 <= hi0) by (nonlinear_arith)
        requires
            p > 0,
            2 * p * lo0 <= 2 * p * hi0,
    ;
}

} // verus!
