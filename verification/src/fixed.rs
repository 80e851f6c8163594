//! Signed fixed-point arithmetic: an `i64` holds a real number scaled
//! by `SCALE`. This module gives the scale constants, a spec-level
//! model of Rust's truncating division (`tdiv`), overflow-checked
//! widening helpers, and a verified integer square root.

use vstd::prelude::*;

verus! {

use vstd::arithmetic::div_mod::lemma_fundamental_div_mod;

/// One world unit (or a color channel value of 1.0).
pub const SCALE: i64 = 65536;

/// Tolerance on the squared length of a normalized vector:
/// `unit` returns a vector whose squared length is within
/// `UNIT_TOL` of `SCALE * SCALE`.
pub const UNIT_TOL: i64 = 67108864;

/// Smallest squared length accepted by `unit` (so the relative
/// rounding error of normalization stays inside `UNIT_TOL`).
pub const UNIT_MIN_SQ: i64 = 65536;

/// Bound on the coordinates of scene points (sphere centers, camera
/// positions): about 4096 world units.
pub const COORD_MAX: i64 = 268435456;

/// Bound on the coordinates of a ray origin.
pub const ORIGIN_MAX: i64 = 536870912;

/// Bound on the coordinates of a ray direction, and the largest
/// component magnitude `dot` accepts without overflowing.
pub const DIR_MAX: i64 = 1073741824;

/// Truncating (round-toward-zero) division, the semantics of Rust's
/// `/` on signed integers; the divisor is expected to be positive.
pub open spec fn tdiv(n: int, d: int) -> int {
    if n >= 0 {
        n / d
    } else {
        -((-n) / d)
    }
}

/// For a positive divisor, truncating division rounds toward zero:
/// the quotient is within one divisor of the exact ratio and never
/// exceeds the numerator in magnitude.
pub proof fn lemma_tdiv_facts(n: int, d: int)
    requires
        1 <= d,
    ensures
        n >= 0 ==> d * tdiv(n, d) <= n < d * tdiv(n, d) + d,
        n < 0 ==> d * tdiv(n, d) - d < n <= d * tdiv(n, d),
        n >= 0 ==> 0 <= tdiv(n, d) <= n,
        n < 0 ==> n <= tdiv(n, d) <= 0,
{
    if n >= 0 {
        lemma_fundamental_div_mod(n, d);
        assert(0 <= n % d < d);
        assert(0 <= n / d <= n) by (nonlinear_arith)
            requires n >= 0 && d >= 1 && n == d * (n / d) + n % d && 0 <= n % d < d;
    } else {
        lemma_fundamental_div_mod(-n, d);
        assert(0 <= (-n) % d < d);
        assert(0 <= (-n) / d <= -n) by (nonlinear_arith)
            requires n < 0 && d >= 1 && -n == d * ((-n) / d) + (-n) % d && 0 <= (-n) % d < d;
        assert(d * tdiv(n, d) == -(d * ((-n) / d))) by (nonlinear_arith)
            requires tdiv(n, d) == -((-n) / d);
    }
}

/// A quotient with positive divisor is bounded by any bound on the
/// exact ratio: `|a| <= k * d` gives `|a / d| <= k`.
pub proof fn lemma_tdiv_bound(a: int, d: int, k: int)
    requires
        1 <= d,
        0 <= k,
        -(k * d) <= a <= k * d,
    ensures
        -k <= tdiv(a, d) <= k,
{
    lemma_tdiv_facts(a, d);
    if a >= 0 {
        assert(tdiv(a, d) <= k) by (nonlinear_arith)
            requires 1 <= d && a <= k * d && d * tdiv(a, d) <= a && 0 <= tdiv(a, d);
    } else {
        assert(-k <= tdiv(a, d)) by (nonlinear_arith)
            requires
                1 <= d && -(k * d) <= a && a <= d * tdiv(a, d) && tdiv(a, d) <= 0 && 0 <= k;
    }
}

/// Truncating division of an exact multiple recovers the factor.
pub proof fn lemma_tdiv_exact(q: int, m: int)
    requires
        1 <= m,
    ensures
        tdiv(q * m, m) == q,
{
    if q >= 0 {
        assert(q * m >= 0) by (nonlinear_arith)
            requires q >= 0 && m >= 1;
        vstd::arithmetic::div_mod::lemma_div_multiples_vanish(q, m);
        assert(m * q == q * m) by (nonlinear_arith);
    } else {
        assert(q * m < 0 && (-(q * m)) == (-q) * m) by (nonlinear_arith)
            requires q < 0 && m >= 1;
        vstd::arithmetic::div_mod::lemma_div_multiples_vanish(-q, m);
        assert(m * (-q) == (-q) * m) by (nonlinear_arith);
    }
}

/// Truncating division by a positive divisor is monotone in the
/// numerator.
pub proof fn lemma_tdiv_mono(a: int, b: int, d: int)
    requires
        1 <= d,
        a <= b,
    ensures
        tdiv(a, d) <= tdiv(b, d),
{
    lemma_tdiv_facts(a, d);
    lemma_tdiv_facts(b, d);
    if a >= 0 {
        vstd::arithmetic::div_mod::lemma_div_is_ordered(a, b, d);
    } else if b < 0 {
        vstd::arithmetic::div_mod::lemma_div_is_ordered(-b, -a, d);
    }
}

/// A common positive factor of numerator and divisor cancels.
pub proof fn lemma_tdiv_cancel(x: int, s: int, d: int)
    requires
        1 <= s,
        1 <= d,
    ensures
        tdiv(x * s, d * s) == tdiv(x, d),
{
    if x >= 0 {
        assert(x * s >= 0) by (nonlinear_arith)
            requires x >= 0 && s >= 1;
        assert(d * s >= 1) by (nonlinear_arith)
            requires d >= 1 && s >= 1;
        vstd::arithmetic::div_mod::lemma_div_denominator(x * s, s, d);
        assert((x * s) / s == x) by {
            vstd::arithmetic::div_mod::lemma_div_multiples_vanish(x, s);
            assert(s * x == x * s) by (nonlinear_arith);
        }
        assert(s * d == d * s) by (nonlinear_arith);
    } else {
        assert((-x) * s == -(x * s) && (-x) * s > 0) by (nonlinear_arith)
            requires x < 0 && s >= 1;
        assert(d * s >= 1) by (nonlinear_arith)
            requires d >= 1 && s >= 1;
        vstd::arithmetic::div_mod::lemma_div_denominator((-x) * s, s, d);
        assert(((-x) * s) / s == -x) by {
            vstd::arithmetic::div_mod::lemma_div_multiples_vanish(-x, s);
            assert(s * (-x) == (-x) * s) by (nonlinear_arith);
        }
        assert(s * d == d * s) by (nonlinear_arith);
    }
}

/// Widening product of two `i64` values, exact in `i128`.
pub fn mul64(a: i64, b: i64) -> (r: i128)
    ensures
        r == (a as int) * (b as int),
{
    proof {
        assert(-0x40000000000000000000000000000000 <= (a as int) * (b as int)
            <= 0x40000000000000000000000000000000) by (nonlinear_arith)
            requires
                -0x8000000000000000 <= a as int <= 0x7fffffffffffffff,
                -0x8000000000000000 <= b as int <= 0x7fffffffffffffff;
    }
    (a as i128) * (b as i128)
}

/// Product of two `i128` values that each fit in 64 bits, exact.
pub fn mul128(a: i128, b: i128) -> (r: i128)
    requires
        -0x8000000000000000 <= a <= 0x8000000000000000,
        -0x8000000000000000 <= b <= 0x8000000000000000,
    ensures
        r == a * b,
{
    proof {
        assert(-0x40000000000000000000000000000000 <= a * b
            <= 0x40000000000000000000000000000000) by (nonlinear_arith)
            requires
                -0x8000000000000000 <= a <= 0x8000000000000000,
                -0x8000000000000000 <= b <= 0x8000000000000000;
    }
    a * b
}

/// Truncating division with a positive divisor.
pub fn div128(n: i128, d: i128) -> (q: i128)
    requires
        1 <= d,
    ensures
        q == tdiv(n as int, d as int),
{
    proof {
        lemma_tdiv_facts(n as int, d as int);
    }
    n / d
}

/// `r` is the floor of the square root of `n`.
pub open spec fn is_sqrt_floor(n: int, r: int) -> bool {
    0 <= r && r * r <= n && n < (r + 1) * (r + 1)
}

/// The floor of the square root of a nonnegative integer.
pub open spec fn sqrt_floor(n: int) -> int {
    choose|r: int| is_sqrt_floor(n, r)
}

/// The floor square root is unique, so any witness pins `sqrt_floor`.
pub proof fn lemma_sqrt_floor(n: int, r: int)
    requires
        is_sqrt_floor(n, r),
    ensures
        sqrt_floor(n) == r,
{
    let r2 = sqrt_floor(n);
    assert(is_sqrt_floor(n, r2));
    assert(r2 == r) by (nonlinear_arith)
        requires is_sqrt_floor(n, r) && is_sqrt_floor(n, r2);
}

/// Floor square root by binary search.
pub fn isqrt(n: u128) -> (r: u64)
    requires
        n < 0x40000000000000000000000000000000,
    ensures
        is_sqrt_floor(n as int, r as int),
        r == sqrt_floor(n as int),
{
    let mut lo: u128 = 0;
    let mut hi: u128 = 0x8000000000000000;
    proof {
        assert((hi as int) * (hi as int) == 0x40000000000000000000000000000000)
            by (nonlinear_arith)
            requires hi == 0x8000000000000000;
    }
    while lo + 1 < hi
        invariant
            0 <= lo < hi <= 0x8000000000000000,
            (lo as int) * (lo as int) <= n as int,
            (n as int) < (hi as int) * (hi as int),
        decreases hi - lo,
    {
        let mid = lo + (hi - lo) / 2;
        assert(lo < mid < hi);
        proof {
            assert((mid as int) * (mid as int) < (hi as int) * (hi as int)
                <= 0x40000000000000000000000000000000) by (nonlinear_arith)
                requires 0 <= mid < hi <= 0x8000000000000000;
        }
        let sq = mid * mid;
        if sq <= n {
            lo = mid;
        } else {
            hi = mid;
        }
    }
    proof {
        assert(hi == lo + 1);
        lemma_sqrt_floor(n as int, lo as int);
    }
    lo as u64
}

/// Every nonnegative integer has a floor square root.
pub proof fn lemma_sqrt_exists(n: int)
    requires
        0 <= n,
    ensures
        is_sqrt_floor(n, sqrt_floor(n)),
    decreases n,
{
    if n == 0 {
        assert(is_sqrt_floor(0, 0)) by (nonlinear_arith);
        lemma_sqrt_floor(0, 0);
    } else {
        lemma_sqrt_exists(n - 1);
        let p = sqrt_floor(n - 1);
        if n < (p + 1) * (p + 1) {
            assert(is_sqrt_floor(n, p));
            lemma_sqrt_floor(n, p);
        } else {
            assert(is_sqrt_floor(n, p + 1)) by (nonlinear_arith)
                requires is_sqrt_floor(n - 1, p) && n >= (p + 1) * (p + 1);
            lemma_sqrt_floor(n, p + 1);
        }
    }
}

/// A square root of a perfect square is exact.
pub proof fn lemma_sqrt_of_square(r: int)
    requires
        0 <= r,
    ensures
        sqrt_floor(r * r) == r,
{
    assert(is_sqrt_floor(r * r, r)) by (nonlinear_arith)
        requires 0 <= r;
    lemma_sqrt_floor(r * r, r);
}

} // verus!
