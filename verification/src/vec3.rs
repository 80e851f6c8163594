//! Three-component fixed-point vectors, tagged at the type level as
//! positions or colors. A component is an `i64` holding a real value
//! scaled by `SCALE`; every operation's contract states the exact
//! integer result, including truncating divisions.

use vstd::prelude::*;
use core::marker::PhantomData;

verus! {

use crate::fixed::{
    SCALE, UNIT_TOL, UNIT_MIN_SQ, DIR_MAX, tdiv, sqrt_floor, is_sqrt_floor,
    lemma_sqrt_floor, lemma_tdiv_facts, lemma_tdiv_bound, mul64, mul128, div128, isqrt,
};

/// Marker capability for the tag that distinguishes positions from colors.
pub trait Phantom: Copy {}

/// Tags whose vectors carry color semantics.
pub trait PhantomColor: Phantom {}

/// Tags whose vectors carry position/direction semantics.
pub trait PhantomPosition: Phantom {}

#[derive(Clone, Copy, Debug)]
pub struct Color;

#[derive(Clone, Copy, Debug)]
pub struct Position;

impl Phantom for Color {}

impl Phantom for Position {}

impl PhantomColor for Color {}

impl PhantomPosition for Position {}

/// A fixed-point vector; the tag `T` is compile-time only.
#[derive(Copy)]
pub struct Vec3f<T: Phantom> {
    pub x: i64,
    pub y: i64,
    pub z: i64,
    pub tag: PhantomData<T>,
}

impl<T: Phantom> Clone for Vec3f<T> {
    fn clone(&self) -> (r: Self)
        ensures
            r == *self,
    {
        *self
    }
}

impl<T: Phantom> Vec3f<T> {
    /// All three components lie in `[-b, b]`.
    pub open spec fn bounded(self, b: int) -> bool {
        &&& -b <= self.x <= b
        &&& -b <= self.y <= b
        &&& -b <= self.z <= b
    }

    /// The exact (unscaled) inner product; at unit scale its value
    /// is `SCALE * SCALE` times the real dot product.
    pub open spec fn dot_spec(self, rhs: Self) -> int {
        self.x * rhs.x + self.y * rhs.y + self.z * rhs.z
    }

    /// The exact squared length (at scale `SCALE * SCALE`).
    pub open spec fn sq_len(self) -> int {
        self.dot_spec(self)
    }

    pub open spec fn make(x: int, y: int, z: int) -> Vec3f<T> {
        Vec3f { x: x as i64, y: y as i64, z: z as i64, tag: PhantomData }
    }

    pub fn from(items: [i64; 3]) -> (r: Self)
        ensures
            r.x == items[0] && r.y == items[1] && r.z == items[2],
    {
        Vec3f { x: items[0], y: items[1], z: items[2], tag: PhantomData }
    }

    pub fn new(x: i64, y: i64, z: i64) -> (r: Self)
        ensures
            r.x == x && r.y == y && r.z == z,
    {
        Vec3f { x, y, z, tag: PhantomData }
    }

    pub fn x(&self) -> (r: i64)
        ensures
            r == self.x,
    {
        self.x
    }

    pub fn y(&self) -> (r: i64)
        ensures
            r == self.y,
    {
        self.y
    }

    pub fn z(&self) -> (r: i64)
        ensures
            r == self.z,
    {
        self.z
    }

    pub fn repeat(v: i64) -> (r: Self)
        ensures
            r.x == v && r.y == v && r.z == v,
    {
        Vec3f { x: v, y: v, z: v, tag: PhantomData }
    }

    /// All channels of a color lie in `[0, SCALE]` (0.0 to 1.0).
    pub open spec fn channels_in_unit(self) -> bool {
        &&& 0 <= self.x <= SCALE
        &&& 0 <= self.y <= SCALE
        &&& 0 <= self.z <= SCALE
    }

    pub fn check_bounded(&self, b: i64) -> (r: bool)
        requires
            0 <= b,
        ensures
            r <==> self.bounded(b as int),
    {
        -b <= self.x && self.x <= b && -b <= self.y && self.y <= b && -b <= self.z && self.z <= b
    }

    pub fn is_zero(&self) -> (r: bool)
        ensures
            r <==> (self.x == 0 && self.y == 0 && self.z == 0),
    {
        self.x == 0 && self.y == 0 && self.z == 0
    }

    pub fn add(self, rhs: Self) -> (r: Self)
        requires
            self.bounded(0x2000000000000000),
            rhs.bounded(0x2000000000000000),
        ensures
            r.x == self.x + rhs.x && r.y == self.y + rhs.y && r.z == self.z + rhs.z,
    {
        Vec3f { x: self.x + rhs.x, y: self.y + rhs.y, z: self.z + rhs.z, tag: PhantomData }
    }

    pub fn sub(self, rhs: Self) -> (r: Self)
        requires
            self.bounded(0x2000000000000000),
            rhs.bounded(0x2000000000000000),
        ensures
            r.x == self.x - rhs.x && r.y == self.y - rhs.y && r.z == self.z - rhs.z,
    {
        Vec3f { x: self.x - rhs.x, y: self.y - rhs.y, z: self.z - rhs.z, tag: PhantomData }
    }

    pub fn neg(self) -> (r: Self)
        requires
            self.bounded(0x2000000000000000),
        ensures
            r.x == -self.x && r.y == -self.y && r.z == -self.z,
    {
        Vec3f { x: -self.x, y: -self.y, z: -self.z, tag: PhantomData }
    }

    pub fn dot(&self, rhs: Self) -> (r: i64)
        requires
            self.bounded(DIR_MAX as int),
            rhs.bounded(DIR_MAX as int),
        ensures
            r == self.dot_spec(rhs),
            -0x3000000000000000 <= r <= 0x3000000000000000,
    {
        proof {
            lemma_dot_bound(self.x as int, self.y as int, self.z as int,
                rhs.x as int, rhs.y as int, rhs.z as int, DIR_MAX as int);
        }
        let px = mul64(self.x, rhs.x);
        let py = mul64(self.y, rhs.y);
        let pz = mul64(self.z, rhs.z);
        (px + py + pz) as i64
    }

    pub fn squared_length(&self) -> (r: i64)
        requires
            self.bounded(DIR_MAX as int),
        ensures
            r == self.sq_len(),
            0 <= r <= 0x3000000000000000,
    {
        proof {
            lemma_dot_bound(self.x as int, self.y as int, self.z as int,
                self.x as int, self.y as int, self.z as int, DIR_MAX as int);
            lemma_sq_nonneg(self.x as int, self.y as int, self.z as int);
        }
        let px = mul64(self.x, self.x);
        let py = mul64(self.y, self.y);
        let pz = mul64(self.z, self.z);
        (px + py + pz) as i64
    }

    /// Apply a function to each component.
    pub fn map<F: Fn(i64) -> i64>(self, f: F) -> (r: Self)
        requires
            f.requires((self.x,)),
            f.requires((self.y,)),
            f.requires((self.z,)),
        ensures
            f.ensures((self.x,), r.x),
            f.ensures((self.y,), r.y),
            f.ensures((self.z,), r.z),
    {
        Vec3f { x: f(self.x), y: f(self.y), z: f(self.z), tag: PhantomData }
    }

    /// The floor square root of the squared length (a length at
    /// scale `SCALE`).
    pub fn magnitude(&self) -> (r: i64)
        requires
            self.bounded(DIR_MAX as int),
        ensures
            r == sqrt_floor(self.sq_len()),
            0 <= r <= 0x80000000,
    {
        let q = self.squared_length();
        let m = isqrt(q as u128);
        proof {
            assert(m as int <= 0x80000000) by (nonlinear_arith)
                requires
                    is_sqrt_floor(q as int, m as int),
                    q <= 0x3000000000000000;
        }
        m as i64
    }

    pub fn cross(&self, rhs: Self) -> (r: Self)
        requires
            self.bounded(DIR_MAX as int),
            rhs.bounded(DIR_MAX as int),
        ensures
            r.x == self.y * rhs.z - self.z * rhs.y,
            r.y == -(self.x * rhs.z - self.z * rhs.x),
            r.z == self.x * rhs.y - self.y * rhs.x,
    {
        proof {
            lemma_dot_bound(self.x as int, self.y as int, self.z as int,
                rhs.x as int, rhs.y as int, rhs.z as int, DIR_MAX as int);
            lemma_dot_bound(self.y as int, self.z as int, self.x as int,
                rhs.z as int, rhs.x as int, rhs.y as int, DIR_MAX as int);
            lemma_dot_bound(self.z as int, self.x as int, self.y as int,
                rhs.y as int, rhs.z as int, rhs.x as int, DIR_MAX as int);
        }
        let cx = mul64(self.y, rhs.z) - mul64(self.z, rhs.y);
        let cy = mul64(self.x, rhs.z) - mul64(self.z, rhs.x);
        let cz = mul64(self.x, rhs.y) - mul64(self.y, rhs.x);
        Vec3f { x: cx as i64, y: -(cy as i64), z: cz as i64, tag: PhantomData }
    }

    /// Componentwise fixed-point product (used to attenuate colors):
    /// each channel is `a * b / SCALE`, truncated.
    pub fn mul_fp(self, rhs: Self) -> (r: Self)
        requires
            self.bounded(DIR_MAX as int),
            rhs.bounded(DIR_MAX as int),
        ensures
            r.x == tdiv(self.x * rhs.x, SCALE as int),
            r.y == tdiv(self.y * rhs.y, SCALE as int),
            r.z == tdiv(self.z * rhs.z, SCALE as int),
    {
        let rx = div128(mul64(self.x, rhs.x), SCALE as i128);
        let ry = div128(mul64(self.y, rhs.y), SCALE as i128);
        let rz = div128(mul64(self.z, rhs.z), SCALE as i128);
        proof {
            lemma_tdiv_facts(self.x * rhs.x, SCALE as int);
            lemma_tdiv_facts(self.y * rhs.y, SCALE as int);
            lemma_tdiv_facts(self.z * rhs.z, SCALE as int);
            lemma_dot_bound(self.x as int, self.y as int, self.z as int,
                rhs.x as int, rhs.y as int, rhs.z as int, DIR_MAX as int);
        }
        Vec3f { x: rx as i64, y: ry as i64, z: rz as i64, tag: PhantomData }
    }

    /// Fixed-point scalar multiply: each component is `v * k / SCALE`,
    /// truncated.
    pub fn scale(self, k: i64) -> (r: Self)
        requires
            self.bounded(DIR_MAX as int),
            -0x100000000000 <= k <= 0x100000000000,
        ensures
            r.x == tdiv(self.x * k, SCALE as int),
            r.y == tdiv(self.y * k, SCALE as int),
            r.z == tdiv(self.z * k, SCALE as int),
            r.bounded(0x400000000000000),
    {
        let rx = div128(mul64(self.x, k), SCALE as i128);
        let ry = div128(mul64(self.y, k), SCALE as i128);
        let rz = div128(mul64(self.z, k), SCALE as i128);
        proof {
            lemma_scale_fits(self.x as int, k as int);
            lemma_scale_fits(self.y as int, k as int);
            lemma_scale_fits(self.z as int, k as int);
        }
        Vec3f { x: rx as i64, y: ry as i64, z: rz as i64, tag: PhantomData }
    }

    /// Componentwise division by a positive integer (not a fixed-point
    /// value); used to average sample sums.
    pub fn div_int(self, k: i64) -> (r: Self)
        requires
            1 <= k,
        ensures
            r.x == tdiv(self.x as int, k as int),
            r.y == tdiv(self.y as int, k as int),
            r.z == tdiv(self.z as int, k as int),
    {
        proof {
            lemma_tdiv_facts(self.x as int, k as int);
            lemma_tdiv_facts(self.y as int, k as int);
            lemma_tdiv_facts(self.z as int, k as int);
        }
        let rx = div128(self.x as i128, k as i128);
        let ry = div128(self.y as i128, k as i128);
        let rz = div128(self.z as i128, k as i128);
        Vec3f { x: rx as i64, y: ry as i64, z: rz as i64, tag: PhantomData }
    }

    /// The normalized vector: each component is `v * SCALE / m`
    /// truncated, where `m` is the floor square root of the squared
    /// length.
    pub open spec fn unit_spec(self) -> Vec3f<T> {
        let m = sqrt_floor(self.sq_len());
        Vec3f {
            x: tdiv(self.x * SCALE, m) as i64,
            y: tdiv(self.y * SCALE, m) as i64,
            z: tdiv(self.z * SCALE, m) as i64,
            tag: PhantomData,
        }
    }

    pub fn unit(&self) -> (r: Self)
        requires
            self.bounded(DIR_MAX as int),
            self.sq_len() >= UNIT_MIN_SQ,
        ensures
            r == self.unit_spec(),
            r.bounded(SCALE as int),
            r.x == tdiv(self.x * SCALE, sqrt_floor(self.sq_len())),
            r.y == tdiv(self.y * SCALE, sqrt_floor(self.sq_len())),
            r.z == tdiv(self.z * SCALE, sqrt_floor(self.sq_len())),
    {
        let q = self.squared_length();
        let m = isqrt(q as u128);
        proof {
            lemma_sq_nonneg(self.x as int, self.y as int, self.z as int);
            lemma_sqrt_ge_component(self.x as int, q as int, m as int);
            lemma_sqrt_ge_component(self.y as int, q as int, m as int);
            lemma_sqrt_ge_component(self.z as int, q as int, m as int);
            assert(m >= 1) by (nonlinear_arith)
                requires is_sqrt_floor(q as int, m as int), q >= 65536;
            lemma_scale_div_bound(self.x as int, m as int, SCALE as int);
            lemma_scale_div_bound(self.y as int, m as int, SCALE as int);
            lemma_scale_div_bound(self.z as int, m as int, SCALE as int);
        }
        let rx = div128(mul64(self.x, SCALE), m as i128);
        let ry = div128(mul64(self.y, SCALE), m as i128);
        let rz = div128(mul64(self.z, SCALE), m as i128);
        Vec3f { x: rx as i64, y: ry as i64, z: rz as i64, tag: PhantomData }
    }

    /// Specular reflection about `n` (`n` at unit scale):
    /// `v - 2 * dot(v, n) * n / SCALE^2`, truncated componentwise.
    pub open spec fn reflect_spec(self, n: Vec3f<T>) -> Vec3f<T> {
        let d = self.dot_spec(n);
        Vec3f {
            x: (self.x - tdiv(2 * d * n.x, SCALE * SCALE)) as i64,
            y: (self.y - tdiv(2 * d * n.y, SCALE * SCALE)) as i64,
            z: (self.z - tdiv(2 * d * n.z, SCALE * SCALE)) as i64,
            tag: PhantomData,
        }
    }

    pub fn reflect(&self, n: Vec3f<T>) -> (r: Vec3f<T>)
        requires
            self.bounded(2 * SCALE as int),
            n.bounded(2 * SCALE as int),
        ensures
            r == self.reflect_spec(n),
            r.bounded(128 * SCALE as int),
            r.x == self.x - tdiv(2 * self.dot_spec(n) * n.x, SCALE * SCALE),
            r.y == self.y - tdiv(2 * self.dot_spec(n) * n.y, SCALE * SCALE),
            r.z == self.z - tdiv(2 * self.dot_spec(n) * n.z, SCALE * SCALE),
    {
        let d = self.dot(n);
        proof {
            assert(-12 * (SCALE as int) * (SCALE as int) <= d
                <= 12 * (SCALE as int) * (SCALE as int)) by (nonlinear_arith)
                requires
                    d == self.dot_spec(n),
                    self.bounded(2 * SCALE as int),
                    n.bounded(2 * SCALE as int);
            lemma_reflect_term(self.x as int, n.x as int, d as int);
            lemma_reflect_term(self.y as int, n.y as int, d as int);
            lemma_reflect_term(self.z as int, n.z as int, d as int);
        }
        let s2: i128 = (SCALE as i128) * (SCALE as i128);
        let tx = div128(mul128(2 * (d as i128), n.x as i128), s2);
        let ty = div128(mul128(2 * (d as i128), n.y as i128), s2);
        let tz = div128(mul128(2 * (d as i128), n.z as i128), s2);
        Vec3f {
            x: self.x - tx as i64,
            y: self.y - ty as i64,
            z: self.z - tz as i64,
            tag: PhantomData,
        }
    }
}

impl<T: Phantom> Vec3f<T> {
    /// Snell discriminant at scale `SCALE^2`, for an already-normalized
    /// incoming vector `u`: `1 - eta^2 * (1 - dot(u, n)^2)`, each stage
    /// truncated as the executable code computes it.
    pub open spec fn refract_disc(u: Vec3f<T>, n: Vec3f<T>, eta: int) -> int {
        let s2 = (SCALE as int) * (SCALE as int);
        let dt = u.dot_spec(n);
        let dt2 = tdiv(dt * dt, s2);
        s2 - tdiv(eta * eta * (s2 - dt2), s2)
    }

    /// The refracted direction `eta * (u - n * dt) - n * sqrt(disc)`
    /// for an already-normalized incoming vector `u`.
    pub open spec fn refract_vec(u: Vec3f<T>, n: Vec3f<T>, eta: int) -> Vec3f<T> {
        let s2 = (SCALE as int) * (SCALE as int);
        let dt = u.dot_spec(n);
        let sq = sqrt_floor(Self::refract_disc(u, n, eta));
        Vec3f {
            x: (tdiv(eta * (u.x - tdiv(n.x * dt, s2)), SCALE as int)
                - tdiv(n.x * sq, SCALE as int)) as i64,
            y: (tdiv(eta * (u.y - tdiv(n.y * dt, s2)), SCALE as int)
                - tdiv(n.y * sq, SCALE as int)) as i64,
            z: (tdiv(eta * (u.z - tdiv(n.z * dt, s2)), SCALE as int)
                - tdiv(n.z * sq, SCALE as int)) as i64,
            tag: PhantomData,
        }
    }

    /// What `refract` returns: the refracted direction when the
    /// discriminant is positive, and nothing (total internal
    /// reflection) otherwise.
    pub open spec fn refract_spec(self, n: Vec3f<T>, eta: int) -> Option<Vec3f<T>> {
        let u = self.unit_spec();
        if Self::refract_disc(u, n, eta) > 0 {
            Some(Self::refract_vec(u, n, eta))
        } else {
            None
        }
    }

    /// Refraction by Snell's law; `None` when refraction is
    /// geometrically impossible (total internal reflection).
    pub fn refract(&self, n: Vec3f<T>, ni_over_nt: i64) -> (r: Option<Vec3f<T>>)
        requires
            self.bounded(DIR_MAX as int),
            self.sq_len() >= UNIT_MIN_SQ,
            n.bounded(SCALE as int),
            1 <= ni_over_nt <= 262144,
        ensures
            r == self.refract_spec(n, ni_over_nt as int),
            r matches Some(v) ==> v.bounded(128 * SCALE as int),
    {
        let u = self.unit();
        let dt = u.dot(n);
        proof {
            lemma_dot_bound(u.x as int, u.y as int, u.z as int, n.x as int, n.y as int,
                n.z as int, SCALE as int);
        }
        let s2: i128 = (SCALE as i128) * (SCALE as i128);
        let dt2 = div128(mul64(dt, dt), s2);
        proof {
            assert(0 <= (dt as int) * (dt as int) <= 9 * s2 * s2) by (nonlinear_arith)
                requires -3 * s2 <= dt <= 3 * s2 && s2 == (SCALE as int) * (SCALE as int);
            lemma_tdiv_bound((dt as int) * (dt as int), s2 as int, 9 * s2 as int);
            lemma_tdiv_facts((dt as int) * (dt as int), s2 as int);
            assert(0 <= tdiv((dt as int) * (dt as int), s2 as int));
        }
        let one_m = s2 - dt2;
        let e2 = mul64(ni_over_nt, ni_over_nt);
        proof {
            assert(1 <= (ni_over_nt as int) * (ni_over_nt as int) <= 0x1000000000)
                by (nonlinear_arith)
                requires 1 <= ni_over_nt <= 262144;
        }
        let term = div128(mul128(e2, one_m), s2);
        proof {
            assert(-(0x100000000000int * s2) <= e2 * one_m <= 0x100000000000int * s2)
                by (nonlinear_arith)
                requires
                    1 <= e2 <= 0x1000000000,
                    -9 * s2 <= one_m <= s2,
                    s2 == 0x100000000;
            lemma_tdiv_bound(e2 * one_m, s2 as int, 0x100000000000);
        }
        let disc = s2 - term;
        if disc > 0 {
            let sq64 = isqrt(disc as u128);
            proof {
                assert(sq64 as int <= 0x500000) by (nonlinear_arith)
                    requires
                        is_sqrt_floor(disc as int, sq64 as int),
                        0 < disc <= 0x100100000000;
                lemma_sqrt_floor(disc as int, sq64 as int);
            }
            let sq = sq64 as i128;
            let rx = refract_component(u.x, n.x, dt, ni_over_nt, sq);
            let ry = refract_component(u.y, n.y, dt, ni_over_nt, sq);
            let rz = refract_component(u.z, n.z, dt, ni_over_nt, sq);
            Some(Vec3f { x: rx, y: ry, z: rz, tag: PhantomData })
        } else {
            None
        }
    }
}

/// One component of the refracted direction:
/// `eta * (u - n * dt / SCALE^2) / SCALE - n * sq / SCALE`.
fn refract_component(ux: i64, nx: i64, dt: i64, eta: i64, sq: i128) -> (r: i64)
    requires
        -SCALE <= ux <= SCALE,
        -SCALE <= nx <= SCALE,
        -3 * (SCALE as int) * (SCALE as int) <= dt <= 3 * (SCALE as int) * (SCALE as int),
        1 <= eta <= 262144,
        0 <= sq <= 0x500000,
    ensures
        r == tdiv(eta * (ux - tdiv(nx * dt, (SCALE as int) * (SCALE as int))), SCALE as int)
            - tdiv(nx * sq, SCALE as int),
        -128 * (SCALE as int) <= r <= 128 * (SCALE as int),
{
    let s2: i128 = (SCALE as i128) * (SCALE as i128);
    proof {
        assert(-(3 * (SCALE as int) * s2) <= (nx as int) * (dt as int)
            <= 3 * (SCALE as int) * s2) by (nonlinear_arith)
            requires
                -SCALE <= nx <= SCALE,
                -3 * s2 <= dt <= 3 * s2,
                s2 == (SCALE as int) * (SCALE as int),
                SCALE == 65536;
        lemma_tdiv_bound((nx as int) * (dt as int), s2 as int, 3 * SCALE as int);
    }
    let ndt = div128(mul64(nx, dt), s2);
    let w = (ux as i128) - ndt;
    proof {
        assert(-(0x100000int * (SCALE as int)) <= (eta as int) * (w as int)
            <= 0x100000int * (SCALE as int)) by (nonlinear_arith)
            requires
                1 <= eta <= 262144,
                -4 * (SCALE as int) <= w <= 4 * (SCALE as int),
                SCALE == 65536;
        lemma_tdiv_bound((eta as int) * (w as int), SCALE as int, 0x100000);
        assert(-(0x500000int * (SCALE as int)) <= (nx as int) * (sq as int)
            <= 0x500000int * (SCALE as int)) by (nonlinear_arith)
            requires -SCALE <= nx <= SCALE && 0 <= sq <= 0x500000 && SCALE == 65536;
        lemma_tdiv_bound((nx as int) * (sq as int), SCALE as int, 0x500000);
    }
    let first = div128(mul128(eta as i128, w), SCALE as i128);
    let second = div128(mul128(nx as i128, sq), SCALE as i128);
    (first - second) as i64
}

/// The three products of components bounded by `b` sum to at most
/// `3 * b * b` in magnitude.
proof fn lemma_dot_bound(x: int, y: int, z: int, a: int, b: int, c: int, m: int)
    requires
        0 < m,
        -m <= x <= m && -m <= y <= m && -m <= z <= m,
        -m <= a <= m && -m <= b <= m && -m <= c <= m,
    ensures
        -m * m <= x * a <= m * m,
        -m * m <= y * b <= m * m,
        -m * m <= z * c <= m * m,
        -3 * m * m <= x * a + y * b + z * c <= 3 * m * m,
{
    assert(-m * m <= x * a <= m * m && -m * m <= y * b <= m * m
        && -m * m <= z * c <= m * m
        && -3 * m * m <= x * a + y * b + z * c <= 3 * m * m) by (nonlinear_arith)
        requires
            0 < m,
            -m <= x <= m && -m <= y <= m && -m <= z <= m,
            -m <= a <= m && -m <= b <= m && -m <= c <= m;
}

pub proof fn lemma_sq_nonneg(x: int, y: int, z: int)
    ensures
        0 <= x * x + y * y + z * z,
        0 <= x * x && 0 <= y * y && 0 <= z * z,
{
    assert(0 <= x * x && 0 <= y * y && 0 <= z * z) by (nonlinear_arith);
}

/// The normalized vector (as `unit_spec` states it) has components
/// within one unit.
pub proof fn lemma_unit_spec_bounded<T: Phantom>(v: Vec3f<T>)
    requires
        v.bounded(DIR_MAX as int),
        v.sq_len() >= UNIT_MIN_SQ,
    ensures
        v.unit_spec().bounded(SCALE as int),
        v.unit_spec().x == tdiv(v.x * SCALE, sqrt_floor(v.sq_len())),
        v.unit_spec().y == tdiv(v.y * SCALE, sqrt_floor(v.sq_len())),
        v.unit_spec().z == tdiv(v.z * SCALE, sqrt_floor(v.sq_len())),
        sqrt_floor(v.sq_len()) >= 256,
{
    let q = v.sq_len();
    crate::fixed::lemma_sqrt_exists(q);
    let m = sqrt_floor(q);
    assert(m >= 256) by (nonlinear_arith)
        requires is_sqrt_floor(q as int, m), q >= 65536;
    lemma_sq_nonneg(v.x as int, v.y as int, v.z as int);
    lemma_sqrt_ge_component(v.x as int, q, m);
    lemma_sqrt_ge_component(v.y as int, q, m);
    lemma_sqrt_ge_component(v.z as int, q, m);
    lemma_scale_div_bound(v.x as int, m, SCALE as int);
    lemma_scale_div_bound(v.y as int, m, SCALE as int);
    lemma_scale_div_bound(v.z as int, m, SCALE as int);
}

/// Normalization is accurate: the squared length of `unit_spec` lies
/// within `UNIT_TOL` of one, for any vector long enough to normalize.
#[verifier::rlimit(100)]
pub proof fn lemma_unit_norm_tolerance<T: Phantom>(v: Vec3f<T>)
    requires
        v.bounded(DIR_MAX as int),
        v.sq_len() >= UNIT_MIN_SQ,
    ensures
        (SCALE as int) * (SCALE as int) - UNIT_TOL <= v.unit_spec().sq_len() <= (SCALE as int) * (
        SCALE as int) + UNIT_TOL,
{
    let q = v.sq_len();
    lemma_unit_spec_bounded(v);
    let m = sqrt_floor(q);
    assert(is_sqrt_floor(q, m)) by {
        crate::fixed::lemma_sqrt_exists(q);
    }
    lemma_sq_nonneg(v.x as int, v.y as int, v.z as int);
    lemma_sqrt_ge_component(v.x as int, q, m);
    lemma_sqrt_ge_component(v.y as int, q, m);
    lemma_sqrt_ge_component(v.z as int, q, m);
    let u = v.unit_spec();
    let rx = u.x as int;
    let ry = u.y as int;
    let rz = u.z as int;
    // Each component is the scaled value with a rounding remainder
    // smaller than m in magnitude.
    let dx = v.x * 65536 - m * rx;
    let dy = v.y * 65536 - m * ry;
    let dz = v.z * 65536 - m * rz;
    lemma_tdiv_facts(v.x * 65536, m);
    lemma_tdiv_facts(v.y * 65536, m);
    lemma_tdiv_facts(v.z * 65536, m);
    assert(-m < dx < m && -m < dy < m && -m < dz < m);
    let rr = rx * rx + ry * ry + rz * rz;
    let ee = rx * dx + ry * dy + rz * dz;
    let ds = dx * dx + dy * dy + dz * dz;
    // Square each decomposition and sum the three.
    assert(4294967296 * (v.x * v.x) == m * m * (rx * rx) + 2 * m * (rx * dx) + dx * dx)
        by (nonlinear_arith)
        requires dx == v.x * 65536 - m * rx;
    assert(4294967296 * (v.y * v.y) == m * m * (ry * ry) + 2 * m * (ry * dy) + dy * dy)
        by (nonlinear_arith)
        requires dy == v.y * 65536 - m * ry;
    assert(4294967296 * (v.z * v.z) == m * m * (rz * rz) + 2 * m * (rz * dz) + dz * dz)
        by (nonlinear_arith)
        requires dz == v.z * 65536 - m * rz;
    assert(4294967296 * q == m * m * rr + 2 * (m * ee) + ds) by (nonlinear_arith)
        requires
            q == v.x * v.x + v.y * v.y + v.z * v.z,
            rr == rx * rx + ry * ry + rz * rz,
            ee == rx * dx + ry * dy + rz * dz,
            ds == dx * dx + dy * dy + dz * dz,
            4294967296 * (v.x * v.x) == m * m * (rx * rx) + 2 * m * (rx * dx) + dx * dx,
            4294967296 * (v.y * v.y) == m * m * (ry * ry) + 2 * m * (ry * dy) + dy * dy,
            4294967296 * (v.z * v.z) == m * m * (rz * rz) + 2 * m * (rz * dz) + dz * dz;
    // Bounds on the error terms.
    assert(-(196608 * m) <= ee <= 196608 * m && 0 <= ds <= 3 * (m * m)) by (nonlinear_arith)
        requires
            ee == rx * dx + ry * dy + rz * dz,
            ds == dx * dx + dy * dy + dz * dz,
            -65536 <= rx <= 65536 && -65536 <= ry <= 65536 && -65536 <= rz <= 65536,
            -m < dx < m && -m < dy < m && -m < dz < m,
            m >= 1;
    assert(-(393216 * (m * m)) <= 2 * (m * ee) <= 393216 * (m * m)) by (nonlinear_arith)
        requires -(196608 * m) <= ee <= 196608 * m && m >= 1;
    // The squared length lies within range of the exact square.
    assert(m * m <= q <= m * m + 2 * m) by (nonlinear_arith)
        requires is_sqrt_floor(q, m);
    assert(4294967296 * q >= 4294967296 * (m * m)) by (nonlinear_arith)
        requires q >= m * m;
    assert(4294967296 * q <= 4294967296 * (m * m) + 8589934592 * m) by (nonlinear_arith)
        requires q <= m * m + 2 * m;
    assert(8589934592 * m <= 33554432 * (m * m)) by (nonlinear_arith)
        requires m >= 256;
    // Lower bound: rr >= 65536^2 - 393219.
    assert(m * m * rr >= 4294574077 * (m * m));
    assert(rr >= 4294574077) by (nonlinear_arith)
        requires m * m * rr >= 4294574077 * (m * m) && m >= 1;
    // Upper bound: rr <= 65536^2 + 393216 + 33554432.
    assert(m * m * rr <= 4328914944 * (m * m));
    assert(rr <= 4328914944) by (nonlinear_arith)
        requires m * m * rr <= 4328914944 * (m * m) && m >= 1;
    assert(u.sq_len() == rr);
}

/// A vector with any nonzero component has a positive squared length.
pub proof fn lemma_nonzero_sq(x: int, y: int, z: int)
    requires
        x != 0 || y != 0 || z != 0,
    ensures
        x * x + y * y + z * z >= 1,
{
    lemma_sq_nonneg(x, y, z);
    if x != 0 {
        assert(x * x >= 1) by (nonlinear_arith)
            requires x != 0;
    } else if y != 0 {
        assert(y * y >= 1) by (nonlinear_arith)
            requires y != 0;
    } else {
        assert(z * z >= 1) by (nonlinear_arith)
            requires z != 0;
    }
}

/// Relies on rand::Rng::gen_range over a half-open `i64` range: the
/// sampled value lies within that range (and the range must not be
/// empty, since gen_range panics on an empty one).
#[verifier::external_body]
pub(crate) fn sample_range(lo: i64, hi: i64) -> (r: i64)
    requires
        lo < hi,
    ensures
        lo <= r < hi,
{
    rand::Rng::gen_range(&mut rand::thread_rng(), lo..hi)
}

impl Vec3f<Position> {
    /// A uniform random point inside the unit ball, by rejection
    /// sampling in `[-1, 1]^3`; a defensive iteration cap falls back
    /// to the origin (which also lies inside the ball).
    pub fn random_in_unit_space() -> (r: Vec3f<Position>)
        ensures
            r.sq_len() < (SCALE as int) * (SCALE as int),
            r.bounded(SCALE as int),
    {
        let mut tries: u32 = 0;
        while tries < 64
            invariant
                true,
            decreases 64 - tries,
        {
            let v = Vec3f::<Position>::new(
                sample_range(-SCALE, SCALE + 1),
                sample_range(-SCALE, SCALE + 1),
                sample_range(-SCALE, SCALE + 1),
            );
            let q = v.squared_length();
            if q < SCALE * SCALE {
                return v;
            }
            tries = tries + 1;
        }
        Vec3f::repeat(0)
    }

    /// A uniform random point inside the unit disk in the x-y plane,
    /// by the same rejection scheme.
    pub fn random_in_unit_disk() -> (r: Vec3f<Position>)
        ensures
            r.sq_len() < (SCALE as int) * (SCALE as int),
            r.bounded(SCALE as int),
            r.z == 0,
    {
        let mut tries: u32 = 0;
        while tries < 64
            invariant
                true,
            decreases 64 - tries,
        {
            let v = Vec3f::<Position>::new(
                sample_range(-SCALE, SCALE + 1),
                sample_range(-SCALE, SCALE + 1),
                0,
            );
            let q = v.squared_length();
            if q < SCALE * SCALE {
                return v;
            }
            tries = tries + 1;
        }
        Vec3f::repeat(0)
    }
}

/// A component of a vector never exceeds the floor square root of the
/// vector's squared length.
proof fn lemma_sqrt_ge_component(x: int, q: int, m: int)
    requires
        is_sqrt_floor(q, m),
        x * x <= q,
    ensures
        -m <= x <= m,
{
    assert(-m <= x <= m) by (nonlinear_arith)
        requires 0 <= m && q < (m + 1) * (m + 1) && x * x <= q;
}

/// Dividing `x * s` by `m >= |x|` keeps the result within `[-s, s]`.
proof fn lemma_scale_div_bound(x: int, m: int, s: int)
    requires
        1 <= m,
        -m <= x <= m,
        0 <= s,
    ensures
        -s <= tdiv(x * s, m) <= s,
{
    assert(x * s <= m * s && -(m * s) <= x * s) by (nonlinear_arith)
        requires 1 <= m && -m <= x <= m && 0 <= s;
    lemma_tdiv_facts(x * s, m);
    if x * s >= 0 {
        assert(tdiv(x * s, m) <= s) by (nonlinear_arith)
            requires
                1 <= m && x * s <= m * s && m * tdiv(x * s, m) <= x * s
                && 0 <= tdiv(x * s, m);
    } else {
        assert(-s <= tdiv(x * s, m)) by (nonlinear_arith)
            requires
                1 <= m && -(m * s) <= x * s && x * s <= m * tdiv(x * s, m)
                && tdiv(x * s, m) <= 0;
    }
}

/// The scaled product `x * k / SCALE` fits comfortably in an `i64`.
proof fn lemma_scale_fits(x: int, k: int)
    requires
        -0x40000000 <= x <= 0x40000000,
        -0x100000000000 <= k <= 0x100000000000,
    ensures
        -0x400000000000000 <= tdiv(x * k, SCALE as int) <= 0x400000000000000,
{
    assert(-0x400000000000000 * (SCALE as int) <= x * k
        <= 0x400000000000000 * (SCALE as int)) by (nonlinear_arith)
        requires
            -0x40000000 <= x <= 0x40000000,
            -0x100000000000 <= k <= 0x100000000000;
    lemma_tdiv_facts(x * k, SCALE as int);
    assert(-0x400000000000000 <= tdiv(x * k, SCALE as int) <= 0x400000000000000)
        by (nonlinear_arith)
        requires
            -0x400000000000000 * (SCALE as int) <= x * k <= 0x400000000000000 * (SCALE as int),
            SCALE == 65536,
            (SCALE as int) * tdiv(x * k, SCALE as int) <= x * k < (SCALE as int) * tdiv(x * k, SCALE as int) + (SCALE as int)
                || (SCALE as int) * tdiv(x * k, SCALE as int) - (SCALE as int) < x * k <= (SCALE as int) * tdiv(x * k, SCALE as int);
}

/// The reflection correction term fits in the available range.
proof fn lemma_reflect_term(x: int, nx: int, d: int)
    requires
        -2 * (SCALE as int) <= x <= 2 * (SCALE as int),
        -2 * (SCALE as int) <= nx <= 2 * (SCALE as int),
        -12 * (SCALE as int) * (SCALE as int) <= d <= 12 * (SCALE as int) * (SCALE as int),
    ensures
        -0x8000000000000000 <= 2 * d * nx <= 0x8000000000000000,
        -64 * (SCALE as int) <= tdiv(2 * d * nx, SCALE * SCALE) <= 64 * (SCALE as int),
{
    assert(-48 * (SCALE as int) * (SCALE as int) * (SCALE as int) <= 2 * d * nx
        <= 48 * (SCALE as int) * (SCALE as int) * (SCALE as int)) by (nonlinear_arith)
        requires
            -2 * (SCALE as int) <= nx <= 2 * (SCALE as int),
            -12 * (SCALE as int) * (SCALE as int) <= d <= 12 * (SCALE as int) * (SCALE as int);
    lemma_tdiv_facts(2 * d * nx, SCALE * SCALE);
    assert(-64 * (SCALE as int) <= tdiv(2 * d * nx, SCALE * SCALE) <= 64 * (SCALE as int))
        by (nonlinear_arith)
        requires
            SCALE == 65536,
            -48 * (SCALE as int) * (SCALE as int) * (SCALE as int) <= 2 * d * nx
                <= 48 * (SCALE as int) * (SCALE as int) * (SCALE as int),
            (SCALE * SCALE) * tdiv(2 * d * nx, SCALE * SCALE) <= 2 * d * nx
                    < (SCALE * SCALE) * tdiv(2 * d * nx, SCALE * SCALE) + SCALE * SCALE
                || (SCALE * SCALE) * tdiv(2 * d * nx, SCALE * SCALE) - SCALE * SCALE
                    < 2 * d * nx <= (SCALE * SCALE) * tdiv(2 * d * nx, SCALE * SCALE);
}

impl<T: Phantom> Default for Vec3f<T> {
    fn default() -> (r: Self)
        ensures
            r.x == 0 && r.y == 0 && r.z == 0,
    {
        Vec3f { x: 0, y: 0, z: 0, tag: PhantomData }
    }
}

impl<T: PhantomColor> Vec3f<T> {
    pub fn r(&self) -> (r: i64)
        ensures
            r == self.x,
    {
        self.x
    }

    pub fn g(&self) -> (r: i64)
        ensures
            r == self.y,
    {
        self.y
    }

    pub fn b(&self) -> (r: i64)
        ensures
            r == self.z,
    {
        self.z
    }
}

} // verus!
