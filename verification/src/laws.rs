//! The library's stated laws: properties of intersection, scattering
//! and estimation, proved from the public contracts.

use vstd::prelude::*;

verus! {

use crate::fixed::{
    SCALE, UNIT_TOL, UNIT_MIN_SQ, COORD_MAX, ORIGIN_MAX, DIR_MAX, sqrt_floor,
    lemma_sqrt_of_square, tdiv, lemma_tdiv_facts, lemma_tdiv_bound, lemma_tdiv_exact,
    lemma_tdiv_mono, lemma_tdiv_cancel,
};
use crate::hittable::{Hittable, HitRecord, List, Sphere, list_hit_from};
use crate::ray::Ray;
use crate::vec3::{Phantom, Position, Vec3f};

/// No false hits: a ray whose closest approach to the sphere center
/// exceeds the radius reports no hit. The closest-approach condition
/// is stated multiplied through by the positive `dot(d, d)`:
/// `|oc|^2 * |d|^2 - dot(oc, d)^2 > r^2 * |d|^2`.
pub proof fn lemma_no_false_hit(s: Sphere, ray: Ray, t_min: int, t_max: int)
    requires
        (s.qc(ray) + s.radius * s.radius) * s.qa(ray) - s.qb(ray) * s.qb(ray) > s.radius
            * s.radius * s.qa(ray),
    ensures
        s.hit_spec(ray, t_min, t_max) is None,
{
    let a = s.qa(ray);
    let b = s.qb(ray);
    let c = s.qc(ray);
    let r2 = s.radius * s.radius;
    assert(b * b - a * c <= 0) by (nonlinear_arith)
        requires (c + r2) * a - b * b > r2 * a;
}

/// A hit is reported exactly when the discriminant is positive and a
/// root of the quadratic lies in the open window, the nearer root
/// tested first, and that root passes the numeric guards of
/// `root_representable`; the reported parameter is that root.
pub proof fn lemma_sphere_hit_window(s: Sphere, ray: Ray, t_min: int, t_max: int)
    requires
        -0x100000000000 <= t_min <= t_max <= 0x100000000000,
    ensures
        s.hit_spec(ray, t_min, t_max) is Some <==> (s.disc(ray) > 0 && ((t_min < s.root_near(ray)
            < t_max && s.root_representable(ray, s.root_near(ray))) || (!(t_min < s.root_near(ray)
            < t_max) && t_min < s.root_far(ray) < t_max && s.root_representable(
            ray,
            s.root_far(ray),
        )))),
        s.hit_spec(ray, t_min, t_max) matches Some(h) ==> h.t == if t_min < s.root_near(ray)
            < t_max {
            s.root_near(ray)
        } else {
            s.root_far(ray)
        },
{
    if s.disc(ray) > 0 {
        let t1 = s.root_near(ray);
        let t2 = s.root_far(ray);
        if t_min < t1 < t_max {
            s.lemma_make_rec_representable(ray, t1);
        } else if t_min < t2 < t_max {
            s.lemma_make_rec_representable(ray, t2);
        }
    }
}

/// Normal unit length: every hit a sphere reports carries a normal
/// whose squared length is within `UNIT_TOL` of one.
pub proof fn lemma_sphere_normal_unit(s: Sphere, ray: Ray, t_min: int, t_max: int)
    ensures
        s.hit_spec(ray, t_min, t_max) matches Some(h) ==> (SCALE as int) * (SCALE as int)
            - UNIT_TOL <= h.normal.sq_len() <= (SCALE as int) * (SCALE as int) + UNIT_TOL,
{
}

/// Sphere intersection correctness, head-on: for a sphere at the
/// origin and a ray starting at distance `d > r` on the z axis aiming
/// at the center with a unit direction, the reported hit is exactly at
/// parameter `d - r`, at point `(0, 0, r)`, with outward unit normal
/// `(0, 0, 1)`.
pub proof fn lemma_sphere_head_on_hit(s: Sphere, ray: Ray, d: i64, t_min: i64, t_max: i64)
    requires
        s.center.x == 0 && s.center.y == 0 && s.center.z == 0,
        256 <= s.radius <= crate::fixed::COORD_MAX,
        ray.a.x == 0 && ray.a.y == 0 && ray.a.z == d,
        ray.b.x == 0 && ray.b.y == 0 && ray.b.z == -SCALE,
        s.radius < d <= crate::fixed::ORIGIN_MAX,
        0 <= t_min < d - s.radius,
        d - s.radius < t_max <= 0x100000000000,
    ensures
        s.hit_spec(ray, t_min as int, t_max as int) matches Some(h) ==> h.t == d - s.radius
            && h.p.x == 0 && h.p.y == 0 && h.p.z == s.radius && h.normal.x == 0 && h.normal.y == 0
            && h.normal.z == SCALE && h.material == s.material,
        s.hit_spec(ray, t_min as int, t_max as int) is Some,
{
    let sc = SCALE as int;
    let r = s.radius as int;
    let di = d as int;
    assert(s.qa(ray) == sc * sc && s.qb(ray) == -(di * sc) && s.qc(ray) == di * di - r * r)
        by (nonlinear_arith)
        requires
            ray.b.x == 0 && ray.b.y == 0 && ray.b.z == -SCALE,
            ray.a.x == 0 && ray.a.y == 0 && ray.a.z == d,
            s.center.x == 0 && s.center.y == 0 && s.center.z == 0,
            sc == SCALE as int && r == s.radius as int && di == d as int,
            s.qa(ray) == ray.b.sq_len(),
            s.qb(ray) == (ray.a.x - s.center.x) * ray.b.x + (ray.a.y - s.center.y) * ray.b.y + (
            ray.a.z - s.center.z) * ray.b.z,
            s.qc(ray) == (ray.a.x - s.center.x) * (ray.a.x - s.center.x) + (ray.a.y - s.center.y)
                * (ray.a.y - s.center.y) + (ray.a.z - s.center.z) * (ray.a.z - s.center.z)
                - s.radius * s.radius;
    assert(s.disc(ray) == (sc * r) * (sc * r) && s.disc(ray) > 0) by (nonlinear_arith)
        requires
            s.disc(ray) == s.qb(ray) * s.qb(ray) - s.qa(ray) * s.qc(ray),
            s.qa(ray) == sc * sc && s.qb(ray) == -(di * sc) && s.qc(ray) == di * di - r * r,
            sc == 65536 && 256 <= r && r < di;
    lemma_sqrt_of_square(sc * r);
    assert(sqrt_floor(s.disc(ray)) == sc * r);
    // The nearer root: (d * sc - sc * r) * sc / (sc * sc) == d - r.
    let t1 = s.root_near(ray);
    assert((-s.qb(ray) - sc * r) * sc == (di - r) * (sc * sc)) by (nonlinear_arith)
        requires s.qb(ray) == -(di * sc);
    lemma_tdiv_exact(di - r, sc * sc);
    assert(t1 == di - r);
    assert(t_min < t1 < t_max);
    // The hit point: (0, 0, d) + (t1 / sc) * (0, 0, -sc) == (0, 0, r).
    let p = ray.point_at_spec(t1);
    assert(ray.b.x * t1 == 0 && ray.b.y * t1 == 0 && ray.b.z * t1 == -(t1 * sc))
        by (nonlinear_arith)
        requires ray.b.x == 0 && ray.b.y == 0 && ray.b.z == -SCALE && sc == SCALE as int;
    lemma_tdiv_exact(0, sc);
    assert(tdiv(0 * sc, sc) == 0);
    assert(0 * sc == 0) by (nonlinear_arith);
    lemma_tdiv_exact(-t1, sc);
    assert((-t1) * sc == -(t1 * sc)) by (nonlinear_arith);
    assert(p.x == 0 && p.y == 0 && p.z == r);
    // The outward normal: unit((0, 0, r)) == (0, 0, sc).
    assert(p.bounded(crate::fixed::ORIGIN_MAX as int));
    let pc = Vec3f::<Position> { x: 0i64, y: 0i64, z: s.radius, tag: core::marker::PhantomData };
    assert(pc.sq_len() == r * r && r * r >= 65536) by (nonlinear_arith)
        requires pc.x == 0 && pc.y == 0 && pc.z == r && 256 <= r,
    ;
    lemma_sqrt_of_square(r);
    let n = pc.unit_spec();
    lemma_tdiv_exact(sc, r);
    assert(r * sc == sc * r) by (nonlinear_arith);
    assert(tdiv(pc.z * SCALE, sqrt_floor(pc.sq_len())) == sc) by {
        assert(sqrt_floor(pc.sq_len()) == r);
        assert(pc.z * SCALE == sc * r) by (nonlinear_arith)
            requires pc.z == r && sc == SCALE as int;
    }
    assert(n.z == SCALE);
    assert(n.x == 0 && n.y == 0) by {
        lemma_tdiv_exact(0, r);
        assert(0 * r == 0 && pc.x * SCALE == 0 && pc.y * SCALE == 0) by (nonlinear_arith)
            requires pc.x == 0 && pc.y == 0;
    }
    assert(n.sq_len() == sc * sc) by (nonlinear_arith)
        requires n.x == 0 && n.y == 0 && n.z == SCALE && sc == SCALE as int;
}

/// The offset from the sphere center to a record's hit point (the
/// unnormalized outward normal direction).
pub open spec fn record_offset(s: Sphere, h: HitRecord) -> Vec3f<Position> {
    Vec3f {
        x: (h.p.x - s.center.x) as i64,
        y: (h.p.y - s.center.y) as i64,
        z: (h.p.z - s.center.z) as i64,
        tag: core::marker::PhantomData,
    }
}

/// Front face: a hit reported on the nearer root carries a normal that
/// opposes the ray direction, whenever the incidence is not grazing.
/// "Not grazing" says the scaled root separation `sqrt(disc) * SCALE`
/// exceeds the fixed-point rounding margin, which involves the
/// direction bound `dmax` and the length of the reported offset
/// `h.p - center` (about the radius, at scale `SCALE`).
pub proof fn lemma_front_face(s: Sphere, ray: Ray, t_min: int, t_max: int, h: HitRecord, dmax: int)
    requires
        s.hit_spec(ray, t_min, t_max) == Some(h),
        t_min < s.root_near(ray) < t_max,
        0 <= t_min <= t_max <= 0x100000000000,
        s.center.bounded(COORD_MAX as int),
        ray.a.bounded(ORIGIN_MAX as int),
        ray.b.bounded(dmax),
        0 < dmax <= DIR_MAX as int,
        s.qa(ray) >= 1,
        sqrt_floor(s.disc(ray)) * (SCALE as int) > s.qa(ray) + 3 * (SCALE as int) * dmax + 3
            * sqrt_floor(record_offset(s, h).sq_len()) * dmax,
    ensures
        h.normal.dot_spec(ray.b) < 0,
{
    let sc = SCALE as int;
    let a = s.qa(ray);
    let bq = s.qb(ray);
    let t1 = s.root_near(ray);
    let sq = sqrt_floor(s.disc(ray));
    // The nearer-root branch produced the record.
    assert(s.make_rec(ray, t1) == Some(h));
    let p = ray.point_at_spec(t1);
    assert(h.p == p && p.bounded(ORIGIN_MAX as int));
    let pc = record_offset(s, h);
    assert(h.normal == pc.unit_spec() && pc.sq_len() >= UNIT_MIN_SQ);
    // The point components as exact integers: each scaled direction
    // offset fits well inside the range, so the spec casts are exact.
    let qx = tdiv(ray.b.x * t1, sc);
    let qy = tdiv(ray.b.y * t1, sc);
    let qz = tdiv(ray.b.z * t1, sc);
    assert(-(0x400000000000000int * sc) <= ray.b.x * t1 <= 0x400000000000000int * sc
        && -(0x400000000000000int * sc) <= ray.b.y * t1 <= 0x400000000000000int * sc
        && -(0x400000000000000int * sc) <= ray.b.z * t1 <= 0x400000000000000int * sc)
        by (nonlinear_arith)
        requires
            ray.b.bounded(dmax),
            0 < dmax <= 0x40000000,
            0 <= t1 <= 0x100000000000,
            sc == 65536;
    lemma_tdiv_bound(ray.b.x * t1, sc, 0x400000000000000);
    lemma_tdiv_bound(ray.b.y * t1, sc, 0x400000000000000);
    lemma_tdiv_bound(ray.b.z * t1, sc, 0x400000000000000);
    lemma_tdiv_facts(ray.b.x * t1, sc);
    lemma_tdiv_facts(ray.b.y * t1, sc);
    lemma_tdiv_facts(ray.b.z * t1, sc);
    let ux = ray.b.x * t1 - sc * qx;
    let uy = ray.b.y * t1 - sc * qy;
    let uz = ray.b.z * t1 - sc * qz;
    assert(-sc < ux < sc && -sc < uy < sc && -sc < uz < sc);
    assert(p.x == ray.a.x + qx && p.y == ray.a.y + qy && p.z == ray.a.z + qz);
    assert(pc.x == ray.a.x - s.center.x + qx && pc.y == ray.a.y - s.center.y + qy && pc.z
        == ray.a.z - s.center.z + qz);
    // The scaled offset-direction product, with its rounding error.
    let pd = pc.x * ray.b.x + pc.y * ray.b.y + pc.z * ray.b.z;
    assert(sc * (pc.x * ray.b.x) == sc * ((ray.a.x - s.center.x) * ray.b.x) + t1 * (ray.b.x
        * ray.b.x) - ux * ray.b.x) by (nonlinear_arith)
        requires
            pc.x == ray.a.x - s.center.x + qx,
            sc * qx == ray.b.x * t1 - ux;
    assert(sc * (pc.y * ray.b.y) == sc * ((ray.a.y - s.center.y) * ray.b.y) + t1 * (ray.b.y
        * ray.b.y) - uy * ray.b.y) by (nonlinear_arith)
        requires
            pc.y == ray.a.y - s.center.y + qy,
            sc * qy == ray.b.y * t1 - uy;
    assert(sc * (pc.z * ray.b.z) == sc * ((ray.a.z - s.center.z) * ray.b.z) + t1 * (ray.b.z
        * ray.b.z) - uz * ray.b.z) by (nonlinear_arith)
        requires
            pc.z == ray.a.z - s.center.z + qz,
            sc * qz == ray.b.z * t1 - uz;
    assert(sc * pd == sc * bq + t1 * a - (ux * ray.b.x + uy * ray.b.y + uz * ray.b.z))
        by (nonlinear_arith)
        requires
            pd == pc.x * ray.b.x + pc.y * ray.b.y + pc.z * ray.b.z,
            sc * (pc.x * ray.b.x) == sc * ((ray.a.x - s.center.x) * ray.b.x) + t1 * (ray.b.x
                * ray.b.x) - ux * ray.b.x,
            sc * (pc.y * ray.b.y) == sc * ((ray.a.y - s.center.y) * ray.b.y) + t1 * (ray.b.y
                * ray.b.y) - uy * ray.b.y,
            sc * (pc.z * ray.b.z) == sc * ((ray.a.z - s.center.z) * ray.b.z) + t1 * (ray.b.z
                * ray.b.z) - uz * ray.b.z,
            bq == (ray.a.x - s.center.x) * ray.b.x + (ray.a.y - s.center.y) * ray.b.y + (ray.a.z
                - s.center.z) * ray.b.z,
            a == ray.b.x * ray.b.x + ray.b.y * ray.b.y + ray.b.z * ray.b.z;
    // The near root times a is within one a of its exact numerator.
    lemma_tdiv_facts((-bq - sq) * sc, a);
    assert(t1 * a == a * t1 && (-bq - sq) * sc == -(sc * bq) - sq * sc) by (nonlinear_arith);
    assert(-(3 * sc * dmax) <= ux * ray.b.x + uy * ray.b.y + uz * ray.b.z <= 3 * sc * dmax)
        by (nonlinear_arith)
        requires
            -sc < ux < sc && -sc < uy < sc && -sc < uz < sc,
            ray.b.bounded(dmax),
            0 < dmax && sc == 65536;
    assert(sc * pd <= -(sq * sc) + a + 3 * sc * dmax);
    // Normalization moves the sign by less than 3 * m * dmax.
    crate::vec3::lemma_unit_spec_bounded(pc);
    let m = sqrt_floor(pc.sq_len());
    let n = pc.unit_spec();
    lemma_tdiv_facts(pc.x * sc, m);
    lemma_tdiv_facts(pc.y * sc, m);
    lemma_tdiv_facts(pc.z * sc, m);
    let rx = pc.x * sc - m * (n.x as int);
    let ry = pc.y * sc - m * (n.y as int);
    let rz = pc.z * sc - m * (n.z as int);
    assert(-m < rx < m && -m < ry < m && -m < rz < m);
    let nd = (n.x as int) * ray.b.x + (n.y as int) * ray.b.y + (n.z as int) * ray.b.z;
    assert(m * ((n.x as int) * ray.b.x) == sc * (pc.x * ray.b.x) - rx * ray.b.x)
        by (nonlinear_arith)
        requires m * (n.x as int) == pc.x * sc - rx;
    assert(m * ((n.y as int) * ray.b.y) == sc * (pc.y * ray.b.y) - ry * ray.b.y)
        by (nonlinear_arith)
        requires m * (n.y as int) == pc.y * sc - ry;
    assert(m * ((n.z as int) * ray.b.z) == sc * (pc.z * ray.b.z) - rz * ray.b.z)
        by (nonlinear_arith)
        requires m * (n.z as int) == pc.z * sc - rz;
    assert(m * nd == sc * pd - (rx * ray.b.x + ry * ray.b.y + rz * ray.b.z))
        by (nonlinear_arith)
        requires
            nd == (n.x as int) * ray.b.x + (n.y as int) * ray.b.y + (n.z as int) * ray.b.z,
            pd == pc.x * ray.b.x + pc.y * ray.b.y + pc.z * ray.b.z,
            m * ((n.x as int) * ray.b.x) == sc * (pc.x * ray.b.x) - rx * ray.b.x,
            m * ((n.y as int) * ray.b.y) == sc * (pc.y * ray.b.y) - ry * ray.b.y,
            m * ((n.z as int) * ray.b.z) == sc * (pc.z * ray.b.z) - rz * ray.b.z;
    assert(-(3 * m * dmax) <= rx * ray.b.x + ry * ray.b.y + rz * ray.b.z <= 3 * m * dmax)
        by (nonlinear_arith)
        requires
            -m < rx < m && -m < ry < m && -m < rz < m,
            ray.b.bounded(dmax),
            0 < dmax && m >= 1;
    assert(m * nd < 0);
    assert(nd < 0) by (nonlinear_arith)
        requires m * nd < 0 && m >= 1;
    assert(h.normal.dot_spec(ray.b) == nd);
}

/// The reflection law: against an exactly unit-length normal, and with
/// the correction term exactly divisible (no rounding), the reflected
/// direction makes the same angle with the normal as the incoming one:
/// `dot(reflect(v, n), n) == -dot(v, n)`.
pub proof fn lemma_reflection_law<T: Phantom>(v: Vec3f<T>, n: Vec3f<T>)
    requires
        v.bounded(2 * SCALE as int),
        n.bounded(SCALE as int),
        n.sq_len() == (SCALE as int) * (SCALE as int),
        (2 * v.dot_spec(n) * n.x) % ((SCALE as int) * (SCALE as int)) == 0,
        (2 * v.dot_spec(n) * n.y) % ((SCALE as int) * (SCALE as int)) == 0,
        (2 * v.dot_spec(n) * n.z) % ((SCALE as int) * (SCALE as int)) == 0,
    ensures
        v.reflect_spec(n).dot_spec(n) == -v.dot_spec(n),
{
    let sc = SCALE as int;
    let s2 = sc * sc;
    let dd = v.dot_spec(n);
    let qx = tdiv(2 * dd * n.x, s2);
    let qy = tdiv(2 * dd * n.y, s2);
    let qz = tdiv(2 * dd * n.z, s2);
    lemma_tdiv_divisible(2 * dd * n.x, s2);
    lemma_tdiv_divisible(2 * dd * n.y, s2);
    lemma_tdiv_divisible(2 * dd * n.z, s2);
    // The quotients are exact, so they recombine by ring reasoning.
    assert(qx * s2 == 2 * dd * n.x && qy * s2 == 2 * dd * n.y && qz * s2 == 2 * dd * n.z);
    assert(-12 * s2 <= dd <= 12 * s2) by (nonlinear_arith)
        requires
            dd == v.x * n.x + v.y * n.y + v.z * n.z,
            s2 == sc * sc && sc == 65536,
            v.bounded(2 * sc) && n.bounded(sc);
    let rv = v.reflect_spec(n);
    assert(-0x40000000 <= v.x - qx <= 0x40000000 && -0x40000000 <= v.y - qy <= 0x40000000
        && -0x40000000 <= v.z - qz <= 0x40000000) by (nonlinear_arith)
        requires
            qx * s2 == 2 * dd * n.x && qy * s2 == 2 * dd * n.y && qz * s2 == 2 * dd * n.z,
            s2 == sc * sc && sc == 65536,
            -12 * s2 <= dd <= 12 * s2,
            v.bounded(2 * sc) && n.bounded(sc);
    assert(rv.x == v.x - qx && rv.y == v.y - qy && rv.z == v.z - qz);
    // Multiply each quotient equation by its normal component and sum:
    // (qx nx + qy ny + qz nz) * sc^2 == 2 dd * |n|^2 == 2 dd * sc^2.
    assert((qx * n.x) * s2 == 2 * dd * (n.x * n.x)) by (nonlinear_arith)
        requires qx * s2 == 2 * dd * n.x;
    assert((qy * n.y) * s2 == 2 * dd * (n.y * n.y)) by (nonlinear_arith)
        requires qy * s2 == 2 * dd * n.y;
    assert((qz * n.z) * s2 == 2 * dd * (n.z * n.z)) by (nonlinear_arith)
        requires qz * s2 == 2 * dd * n.z;
    assert((qx * n.x + qy * n.y + qz * n.z) * s2 == (2 * dd) * s2) by (nonlinear_arith)
        requires
            (qx * n.x) * s2 == 2 * dd * (n.x * n.x),
            (qy * n.y) * s2 == 2 * dd * (n.y * n.y),
            (qz * n.z) * s2 == 2 * dd * (n.z * n.z),
            n.x * n.x + n.y * n.y + n.z * n.z == s2;
    assert(qx * n.x + qy * n.y + qz * n.z == 2 * dd) by (nonlinear_arith)
        requires (qx * n.x + qy * n.y + qz * n.z) * s2 == (2 * dd) * s2 && s2 == sc * sc && sc
            == 65536;
    assert((v.x - qx) * n.x == v.x * n.x - qx * n.x) by (nonlinear_arith);
    assert((v.y - qy) * n.y == v.y * n.y - qy * n.y) by (nonlinear_arith);
    assert((v.z - qz) * n.z == v.z * n.z - qz * n.z) by (nonlinear_arith);
    assert(rv.dot_spec(n) == -dd);
}

/// A divisible numerator divides exactly under truncating division.
proof fn lemma_tdiv_divisible(a: int, m: int)
    requires
        1 <= m,
        a % m == 0,
    ensures
        tdiv(a, m) * m == a,
{
    vstd::arithmetic::div_mod::lemma_fundamental_div_mod(a, m);
    assert(a == m * (a / m));
    if a >= 0 {
        assert(tdiv(a, m) * m == m * (a / m)) by (nonlinear_arith)
            requires tdiv(a, m) == a / m;
    } else {
        assert(-a == m * (-(a / m))) by (nonlinear_arith)
            requires a == m * (a / m);
        vstd::arithmetic::div_mod::lemma_div_multiples_vanish(-(a / m), m);
        assert((-a) / m == -(a / m));
        assert(tdiv(a, m) * m == m * (a / m)) by (nonlinear_arith)
            requires tdiv(a, m) == -((-a) / m) && (-a) / m == -(a / m);
    }
}

/// Dielectric symmetry: a vacuum-matched medium (refraction ratio of
/// exactly one) leaves an entering ray undeviated, whenever the
/// incidence is not grazing and the cosine is a whole multiple of the
/// scale (so no rounding occurs): refraction returns the normalized
/// incoming direction itself.
pub proof fn lemma_vacuum_refraction<T: Phantom>(v: Vec3f<T>, n: Vec3f<T>)
    requires
        v.bounded(crate::fixed::DIR_MAX as int),
        v.sq_len() >= crate::fixed::UNIT_MIN_SQ,
        n.bounded(SCALE as int),
        v.unit_spec().dot_spec(n) <= -SCALE,
        v.unit_spec().dot_spec(n) % (SCALE as int) == 0,
    ensures
        v.refract_spec(n, SCALE as int) == Some(v.unit_spec()),
{
    let sc = SCALE as int;
    let s2 = sc * sc;
    crate::vec3::lemma_unit_spec_bounded(v);
    let u = v.unit_spec();
    let dt = u.dot_spec(n);
    lemma_tdiv_divisible(dt, sc);
    assert(tdiv(dt, sc) * sc == dt);
    let km = tdiv(dt, sc);
    assert(km <= -1) by (nonlinear_arith)
        requires km * sc == dt && dt <= -sc && sc == 65536;
    // disc = dt^2 / sc^2 == km^2 exactly, a positive perfect square.
    assert(dt * dt == (km * km) * s2) by (nonlinear_arith)
        requires km * sc == dt && s2 == sc * sc;
    lemma_tdiv_exact(km * km, s2);
    let dt2 = tdiv(dt * dt, s2);
    assert(dt2 == km * km);
    lemma_tdiv_exact(s2 - dt2, s2);
    assert(sc * sc * (s2 - dt2) == (s2 - dt2) * s2) by (nonlinear_arith)
        requires s2 == sc * sc;
    let disc = Vec3f::<T>::refract_disc(u, n, sc);
    assert(disc == s2 - (s2 - dt2) && disc == km * km);
    assert(disc > 0) by (nonlinear_arith)
        requires disc == km * km && km <= -1;
    lemma_sqrt_of_square(-km);
    assert((-km) * (-km) == km * km) by (nonlinear_arith);
    assert(sqrt_floor(disc) == -km);
    // Each component: sc * w / sc == w, and the two normal terms cancel.
    let rv = Vec3f::<T>::refract_vec(u, n, sc);
    lemma_vacuum_component(u.x as int, n.x as int, dt, km, sc);
    lemma_vacuum_component(u.y as int, n.y as int, dt, km, sc);
    lemma_vacuum_component(u.z as int, n.z as int, dt, km, sc);
    assert(rv.x == u.x && rv.y == u.y && rv.z == u.z);
    assert(rv == u);
}

/// One component of the vacuum-matched refraction: the normal terms
/// cancel and the unit component passes through.
proof fn lemma_vacuum_component(ux: int, nx: int, dt: int, km: int, sc: int)
    requires
        sc == SCALE as int,
        km * sc == dt,
        km <= -1,
        -sc <= ux <= sc,
        -sc <= nx <= sc,
    ensures
        tdiv(sc * (ux - tdiv(nx * dt, sc * sc)), sc) - tdiv(nx * (-km), sc) == ux,
{
    let s2 = sc * sc;
    // nx * dt / sc^2 == nx * km / sc by cancelling one factor of sc.
    assert(nx * dt == (nx * km) * sc) by (nonlinear_arith)
        requires km * sc == dt;
    lemma_tdiv_cancel(nx * km, sc, sc);
    assert(tdiv(nx * dt, s2) == tdiv(nx * km, sc));
    // The first term is exact: sc * w / sc == w.
    let w = ux - tdiv(nx * km, sc);
    assert(sc * w == w * sc) by (nonlinear_arith);
    lemma_tdiv_exact(w, sc);
    // The subtracted normal term is the same quotient, negated.
    assert(nx * (-km) == -(nx * km)) by (nonlinear_arith);
    lemma_tdiv_neg(nx * km, sc);
}

/// Truncating division commutes with negation of the numerator.
proof fn lemma_tdiv_neg(a: int, m: int)
    requires
        1 <= m,
    ensures
        tdiv(-a, m) == -tdiv(a, m),
{
}

/// Narrowing the window above a reported hit hides the sphere: if the
/// hit parameter is at least the new upper bound, the narrowed window
/// holds no hit.
pub proof fn lemma_sphere_hit_narrow_none(
    s: Sphere,
    ray: Ray,
    t_min: int,
    t_max: int,
    t_new: int,
    h: HitRecord,
)
    requires
        s.hit_spec(ray, t_min, t_max) == Some(h),
        -0x100000000000 <= t_min <= t_max <= 0x100000000000,
        t_new <= h.t,
        s.qa(ray) >= 1,
    ensures
        s.hit_spec(ray, t_min, t_new) is None,
{
    let t1 = s.root_near(ray);
    let t2 = s.root_far(ray);
    lemma_roots_ordered(s, ray);
    assert(h.t == t1 || h.t == t2);
}

/// Narrowing the window to just above a reported hit keeps exactly
/// that hit.
pub proof fn lemma_sphere_hit_narrow_same(
    s: Sphere,
    ray: Ray,
    t_min: int,
    t_max: int,
    t_new: int,
    h: HitRecord,
)
    requires
        s.hit_spec(ray, t_min, t_max) == Some(h),
        -0x100000000000 <= t_min <= t_max <= 0x100000000000,
        h.t < t_new <= t_max,
        s.qa(ray) >= 1,
    ensures
        s.hit_spec(ray, t_min, t_new) == Some(h),
{
    let t1 = s.root_near(ray);
    let t2 = s.root_far(ray);
    lemma_roots_ordered(s, ray);
    assert(h.t == t1 || h.t == t2);
}

/// The nearer root never exceeds the farther root.
proof fn lemma_roots_ordered(s: Sphere, ray: Ray)
    requires
        s.qa(ray) >= 1,
    ensures
        s.disc(ray) > 0 ==> s.root_near(ray) <= s.root_far(ray),
{
    if s.disc(ray) > 0 {
        let sq = sqrt_floor(s.disc(ray));
        assert(sq >= 0) by {
            crate::fixed::lemma_sqrt_exists(s.disc(ray));
        }
        assert((-s.qb(ray) - sq) * SCALE <= (-s.qb(ray) + sq) * SCALE) by (nonlinear_arith)
            requires sq >= 0 && SCALE == 65536;
        lemma_tdiv_mono((-s.qb(ray) - sq) * SCALE, (-s.qb(ray) + sq) * SCALE, s.qa(ray));
    }
}

/// The aggregate picks the nearest: over a two-sphere list, when both
/// spheres report hits in the window, the aggregate reports the hit
/// with the smaller parameter (the first sphere's on an exact tie).
pub proof fn lemma_aggregate_picks_nearest(
    list: List<Sphere>,
    s1: Sphere,
    s2: Sphere,
    ray: Ray,
    t_min: int,
    t_max: int,
    h1: HitRecord,
    h2: HitRecord,
)
    requires
        list.list@ =~= seq![s1, s2],
        s1.hit_spec(ray, t_min, t_max) == Some(h1),
        s2.hit_spec(ray, t_min, t_max) == Some(h2),
        0 <= t_min <= t_max <= 0x100000000000,
        s1.qa(ray) >= 1,
        s2.qa(ray) >= 1,
        t_min < h1.t < t_max,
        t_min < h2.t < t_max,
    ensures
        h1.t <= h2.t ==> list.hit_spec(ray, t_min, t_max) == Some(h1),
        h2.t < h1.t ==> list.hit_spec(ray, t_min, t_max) == Some(h2),
{
    let objs = list.list@;
    assert(objs[0] == s1 && objs[1] == s2 && objs.len() == 2);
    assert(list.hit_spec(ray, t_min, t_max) == list_hit_from(objs, 0, ray, t_min, t_max, None));
    assert(list_hit_from(objs, 0, ray, t_min, t_max, None) == list_hit_from(
        objs,
        1,
        ray,
        t_min,
        h1.t as int,
        Some(h1),
    ));
    if h1.t <= h2.t {
        lemma_sphere_hit_narrow_none(s2, ray, t_min, t_max, h1.t as int, h2);
        assert(s2.hit_spec(ray, t_min, h1.t as int) is None);
        assert(list_hit_from(objs, 1, ray, t_min, h1.t as int, Some(h1)) == list_hit_from(
            objs,
            2,
            ray,
            t_min,
            h1.t as int,
            Some(h1),
        ));
    } else {
        lemma_sphere_hit_narrow_same(s2, ray, t_min, t_max, h1.t as int, h2);
        assert(s2.hit_spec(ray, t_min, h1.t as int) == Some(h2));
        assert(list_hit_from(objs, 1, ray, t_min, h1.t as int, Some(h1)) == list_hit_from(
            objs,
            2,
            ray,
            t_min,
            h2.t as int,
            Some(h2),
        ));
    }
}

} // verus!
