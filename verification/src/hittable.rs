//! Ray-geometry intersection: the `Hittable` capability, the `Sphere`
//! primitive, and the `List` aggregate that forwards to the closest hit.

use vstd::prelude::*;
use core::marker::PhantomData;

verus! {

use crate::fixed::{
    SCALE, UNIT_TOL, UNIT_MIN_SQ, COORD_MAX, ORIGIN_MAX, DIR_MAX, tdiv, sqrt_floor,
    is_sqrt_floor, mul64, mul128, div128, isqrt,
};
use crate::material::{Material, material_wf};
use crate::ray::{Ray, ray_wf};
use crate::vec3::{Position, Vec3f, lemma_sq_nonneg};

/// A successful intersection: parameter `t` along the ray, the hit
/// point, the outward surface normal (unit length within tolerance),
/// and the material at that point.
#[derive(Clone, Copy)]
pub struct HitRecord {
    pub t: i64,
    pub p: Vec3f<Position>,
    pub normal: Vec3f<Position>,
    pub material: Material,
}

/// What every reported hit guarantees: a nonnegative parameter, a
/// bounded hit point, a normal of unit length within `UNIT_TOL`, and
/// a well-formed material.
pub open spec fn hit_record_wf(rec: HitRecord) -> bool {
    &&& 0 <= rec.t
    &&& rec.p.bounded(ORIGIN_MAX as int)
    &&& rec.normal.bounded(SCALE as int)
    &&& (SCALE as int) * (SCALE as int) - UNIT_TOL <= rec.normal.sq_len()
        <= (SCALE as int) * (SCALE as int) + UNIT_TOL
    &&& material_wf(rec.material)
}

/// Capability for testing ray intersection against geometry.
pub trait Hittable: Sized {
    /// The shape's own validity (bounded coordinates, positive radius,
    /// well-formed material).
    spec fn wf(&self) -> bool;

    /// The exact intersection result `hit` returns.
    spec fn hit_spec(&self, ray: Ray, t_min: int, t_max: int) -> Option<HitRecord>;

    /// Closest qualifying intersection of `ray` with the shape in the
    /// open window `(t_min, t_max)`.
    fn hit(&self, ray: Ray, t_min: i64, t_max: i64) -> (r: Option<HitRecord>)
        requires
            self.wf(),
            ray_wf(ray),
            0 <= t_min <= t_max <= 0x100000000000,
        ensures
            r == self.hit_spec(ray, t_min as int, t_max as int),
            r matches Some(h) ==> t_min < h.t < t_max && hit_record_wf(h),
    ;
}

pub struct Sphere {
    pub center: Vec3f<Position>,
    pub radius: i64,
    pub material: Material,
}

impl Sphere {
    /// Quadratic coefficient `a = dot(direction, direction)`.
    pub open spec fn qa(self, ray: Ray) -> int {
        ray.b.sq_len()
    }

    /// Half coefficient `b = dot(origin - center, direction)`.
    pub open spec fn qb(self, ray: Ray) -> int {
        (ray.a.x - self.center.x) * ray.b.x + (ray.a.y - self.center.y) * ray.b.y + (ray.a.z
            - self.center.z) * ray.b.z
    }

    /// Constant coefficient `c = dot(oc, oc) - radius^2`.
    pub open spec fn qc(self, ray: Ray) -> int {
        (ray.a.x - self.center.x) * (ray.a.x - self.center.x) + (ray.a.y - self.center.y) * (
        ray.a.y - self.center.y) + (ray.a.z - self.center.z) * (ray.a.z - self.center.z)
            - self.radius * self.radius
    }

    /// The (quarter-scaled) discriminant `b^2 - a * c`; positive means
    /// two real roots.
    pub open spec fn disc(self, ray: Ray) -> int {
        self.qb(ray) * self.qb(ray) - self.qa(ray) * self.qc(ray)
    }

    /// The nearer root of the quadratic, at scale `SCALE`, truncated.
    pub open spec fn root_near(self, ray: Ray) -> int {
        tdiv((-self.qb(ray) - sqrt_floor(self.disc(ray))) * SCALE, self.qa(ray))
    }

    /// The farther root of the quadratic, at scale `SCALE`, truncated.
    pub open spec fn root_far(self, ray: Ray) -> int {
        tdiv((-self.qb(ray) + sqrt_floor(self.disc(ray))) * SCALE, self.qa(ray))
    }

    /// The record reported for a qualifying root `t`: the hit point,
    /// and the outward normal obtained by normalizing `p - center`.
    /// Degenerate numerics (a point out of bounds, or too close to the
    /// center to normalize) are reported as no hit.
    pub open spec fn make_rec(self, ray: Ray, t: int) -> Option<HitRecord> {
        let p = ray.point_at_spec(t);
        if !p.bounded(ORIGIN_MAX as int) {
            None
        } else {
            let pc = Vec3f::<Position> {
                x: (p.x - self.center.x) as i64,
                y: (p.y - self.center.y) as i64,
                z: (p.z - self.center.z) as i64,
                tag: PhantomData,
            };
            if pc.sq_len() < UNIT_MIN_SQ {
                None
            } else {
                let n = pc.unit_spec();
                if (SCALE as int) * (SCALE as int) - UNIT_TOL <= n.sq_len()
                    <= (SCALE as int) * (SCALE as int) + UNIT_TOL {
                    Some(HitRecord { t: t as i64, p, normal: n, material: self.material })
                } else {
                    None
                }
            }
        }
    }

    /// The numeric guards for reporting a root `t`: the hit point is
    /// within the coordinate range, far enough from the center to
    /// normalize (beyond 2^-8 world units), and the normalized normal
    /// lands within tolerance of unit length. On real scenes these
    /// always hold; `make_rec` reports a failing root as no hit.
    pub open spec fn root_representable(self, ray: Ray, t: int) -> bool {
        let p = ray.point_at_spec(t);
        let pc = Vec3f::<Position> {
            x: (p.x - self.center.x) as i64,
            y: (p.y - self.center.y) as i64,
            z: (p.z - self.center.z) as i64,
            tag: PhantomData,
        };
        &&& p.bounded(ORIGIN_MAX as int)
        &&& pc.sq_len() >= UNIT_MIN_SQ
        &&& (SCALE as int) * (SCALE as int) - UNIT_TOL <= pc.unit_spec().sq_len() <= (
        SCALE as int) * (SCALE as int) + UNIT_TOL
    }

    /// A root produces a record exactly when it is representable, and
    /// the record carries that root as its parameter.
    pub proof fn lemma_make_rec_representable(self, ray: Ray, t: int)
        ensures
            self.make_rec(ray, t) is Some <==> self.root_representable(ray, t),
            self.make_rec(ray, t) matches Some(h) ==> h.t == t as i64,
    {
    }

    fn make_rec_exec(&self, ray: Ray, t: i64) -> (r: Option<HitRecord>)
        requires
            self.wf(),
            ray_wf(ray),
            0 <= t <= 0x100000000000,
        ensures
            r == self.make_rec(ray, t as int),
            r matches Some(h) ==> h.t == t && hit_record_wf(h),
    {
        let p = ray.point_at_parameter(t);
        if !p.check_bounded(ORIGIN_MAX) {
            return None;
        }
        let pc = p.sub(self.center);
        let q = pc.squared_length();
        if q < UNIT_MIN_SQ {
            return None;
        }
        let n = pc.unit();
        let nq = n.squared_length();
        let s2: i64 = SCALE * SCALE;
        if s2 - UNIT_TOL <= nq && nq <= s2 + UNIT_TOL {
            Some(HitRecord { t, p, normal: n, material: self.material })
        } else {
            None
        }
    }
}

impl Hittable for Sphere {
    open spec fn wf(&self) -> bool {
        &&& self.center.bounded(COORD_MAX as int)
        &&& 1 <= self.radius <= COORD_MAX
        &&& material_wf(self.material)
    }

    open spec fn hit_spec(&self, ray: Ray, t_min: int, t_max: int) -> Option<HitRecord> {
        if self.disc(ray) > 0 {
            let t1 = self.root_near(ray);
            if t_min < t1 < t_max {
                self.make_rec(ray, t1)
            } else {
                let t2 = self.root_far(ray);
                if t_min < t2 < t_max {
                    self.make_rec(ray, t2)
                } else {
                    None
                }
            }
        } else {
            None
        }
    }

    fn hit(&self, ray: Ray, t_min: i64, t_max: i64) -> (r: Option<HitRecord>) {
        let oc = ray.origin().sub(self.center);
        let dir = ray.direction();
        let a = dir.dot(dir);
        proof {
            lemma_sq_nonneg(dir.x as int, dir.y as int, dir.z as int);
            assert(a >= 1);
        }
        let b = oc.dot(dir);
        let oc_sq = oc.squared_length();
        let rad2_128 = mul64(self.radius, self.radius);
        proof {
            assert(1 <= (self.radius as int) * (self.radius as int) <= 0x100000000000000)
                by (nonlinear_arith)
                requires 1 <= self.radius <= 0x10000000;
        }
        let c = oc_sq - (rad2_128 as i64);
        let bb = mul128(b as i128, b as i128);
        let ac = mul128(a as i128, c as i128);
        proof {
            assert(0 <= bb <= 0x3000000000000000int * 0x3000000000000000int
                && -(0x3000000000000000int * 0x3100000000000000int) <= ac
                    <= 0x3000000000000000int * 0x3100000000000000int) by (nonlinear_arith)
                requires
                    bb == (b as int) * (b as int),
                    ac == (a as int) * (c as int),
                    -0x3000000000000000 <= b <= 0x3000000000000000,
                    0 <= a <= 0x3000000000000000,
                    -0x3100000000000000 <= c <= 0x3100000000000000;
            assert(0x3000000000000000int * 0x3000000000000000int + 0x3000000000000000int
                * 0x3100000000000000int < 0x40000000000000000000000000000000int)
                by (nonlinear_arith);
        }
        let disc = bb - ac;
        if disc > 0 {
            let s64 = isqrt(disc as u128);
            let s = s64 as i128;
            proof {
                assert(0 <= s <= 0x4800000000000000) by (nonlinear_arith)
                    requires
                        is_sqrt_floor(disc as int, s as int),
                        0 < disc <= 0x3000000000000000int * 0x3000000000000000int
                            + 0x3000000000000000int * 0x3100000000000000int;
                crate::fixed::lemma_sqrt_floor(disc as int, s as int);
            }
            let num1 = mul128(-(b as i128) - s, SCALE as i128);
            let t1 = div128(num1, a as i128);
            if (t_min as i128) < t1 && t1 < (t_max as i128) {
                self.make_rec_exec(ray, t1 as i64)
            } else {
                let num2 = mul128(-(b as i128) + s, SCALE as i128);
                let t2 = div128(num2, a as i128);
                if (t_min as i128) < t2 && t2 < (t_max as i128) {
                    self.make_rec_exec(ray, t2 as i64)
                } else {
                    None
                }
            }
        } else {
            None
        }
    }
}

/// Owns a sequence of hittable items and forwards `hit` to the
/// closest qualifying one (first-closest wins on exact ties, since
/// only strictly smaller distances replace the current best).
pub struct List<T> {
    pub list: Vec<T>,
}

impl<T> List<T> {
    pub fn push(&mut self, item: T)
        ensures
            final(self).list@ == old(self).list@.push(item),
    {
        self.list.push(item)
    }
}

/// The fold the aggregate's linear scan computes: scanning from index
/// `i` with the current best record and its distance as the upper
/// window bound.
pub open spec fn list_hit_from<T: Hittable>(
    objs: Seq<T>,
    i: int,
    ray: Ray,
    t_min: int,
    closest: int,
    best: Option<HitRecord>,
) -> Option<HitRecord>
    decreases objs.len() - i,
{
    if i < 0 || i >= objs.len() {
        best
    } else {
        match objs[i].hit_spec(ray, t_min, closest) {
            Some(h) => list_hit_from(objs, i + 1, ray, t_min, h.t as int, Some(h)),
            None => list_hit_from(objs, i + 1, ray, t_min, closest, best),
        }
    }
}

impl<T: Hittable> Hittable for List<T> {
    open spec fn wf(&self) -> bool {
        forall|i: int| 0 <= i < self.list@.len() ==> (#[trigger] self.list@[i]).wf()
    }

    open spec fn hit_spec(&self, ray: Ray, t_min: int, t_max: int) -> Option<HitRecord> {
        list_hit_from(self.list@, 0, ray, t_min, t_max, None)
    }

    fn hit(&self, ray: Ray, t_min: i64, t_max: i64) -> (r: Option<HitRecord>) {
        let mut record: Option<HitRecord> = None;
        let mut closest: i64 = t_max;
        let mut idx: usize = 0;
        while idx < self.list.len()
            invariant
                0 <= idx <= self.list.len(),
                self.wf(),
                ray_wf(ray),
                0 <= t_min <= closest <= t_max <= 0x100000000000,
                list_hit_from(self.list@, 0, ray, t_min as int, t_max as int, None)
                    == list_hit_from(
                    self.list@,
                    idx as int,
                    ray,
                    t_min as int,
                    closest as int,
                    record,
                ),
                record matches Some(h) ==> t_min < h.t < t_max && h.t == closest
                    && hit_record_wf(h),
                record is None ==> closest == t_max,
            decreases self.list.len() - idx,
        {
            let obj = &self.list[idx];
            if let Some(new_record) = obj.hit(ray, t_min, closest) {
                closest = new_record.t;
                record = Some(new_record);
            }
            idx += 1;
        }
        record
    }
}

} // verus!
