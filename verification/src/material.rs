//! Surface-interaction policies: Lambertian diffuse, Metal reflective,
//! Dielectric refractive. A closed enum stands in for the original's
//! open capability; `scatter` dispatches on the variant.

use vstd::prelude::*;
use core::marker::PhantomData;

verus! {

use crate::fixed::{SCALE, UNIT_MIN_SQ, DIR_MAX, tdiv, lemma_tdiv_facts, lemma_tdiv_bound, div128};
use crate::hittable::{HitRecord, hit_record_wf};
use crate::ray::{Ray, ray_wf};
use crate::vec3::{Color, Position, Vec3f, lemma_nonzero_sq};

#[derive(Clone, Copy)]
pub enum Material {
    Lambertian { albedo: Vec3f<Color> },
    Metal { albedo: Vec3f<Color>, fuzz: i64 },
    Dielectric { ref_idx: i64 },
}

/// A material the tracer can work with: albedo channels in `[0, 1]`,
/// fuzz in `[0, 1]`, refractive index in `[0.5, 4]`.
pub open spec fn material_wf(m: Material) -> bool {
    match m {
        Material::Lambertian { albedo } => albedo.channels_in_unit(),
        Material::Metal { albedo, fuzz } => albedo.channels_in_unit() && 0 <= fuzz <= SCALE,
        Material::Dielectric { ref_idx } => 32768 <= ref_idx <= 262144,
    }
}

impl Material {
    pub fn lambertian(albedo: Vec3f<Color>) -> (r: Material)
        ensures
            r == (Material::Lambertian { albedo }),
    {
        Material::Lambertian { albedo }
    }

    pub fn metal(albedo: Vec3f<Color>, fuzz: i64) -> (r: Material)
        ensures
            r == (Material::Metal { albedo, fuzz }),
    {
        Material::Metal { albedo, fuzz }
    }

    pub fn dielectric(ref_idx: i64) -> (r: Material)
        ensures
            r == (Material::Dielectric { ref_idx }),
    {
        Material::Dielectric { ref_idx }
    }
}

/// What scattering returns for a given unit-ball sample `rnd`:
/// the attenuation color and the scattered ray, or nothing when the
/// ray is absorbed.
///
/// - Lambertian: direction `normal + rnd` (the origin falls back to
///   the normal itself), attenuation the albedo; always scatters.
/// - Metal: direction `reflect(unit(incoming), normal) + fuzz * rnd`,
///   attenuation the albedo; scatters only when the direction points
///   away from the surface (`dot(direction, normal) > 0`).
/// - Dielectric: refract against the outward or inward-flipped normal
///   by Snell's law, falling back to specular reflection on total
///   internal reflection; attenuation is opaque white.
///
/// An incoming direction too short to normalize, or a degenerate zero
/// scatter direction, is absorbed.
pub open spec fn scatter_spec(
    m: Material,
    ray: Ray,
    rec: HitRecord,
    rnd: Vec3f<Position>,
) -> Option<(Vec3f<Color>, Ray)> {
    match m {
        Material::Lambertian { albedo } => {
            let d = Vec3f::<Position> {
                x: (rec.normal.x + rnd.x) as i64,
                y: (rec.normal.y + rnd.y) as i64,
                z: (rec.normal.z + rnd.z) as i64,
                tag: PhantomData,
            };
            let dir = if d.x == 0 && d.y == 0 && d.z == 0 {
                rec.normal
            } else {
                d
            };
            Some((albedo, Ray { a: rec.p, b: dir }))
        },
        Material::Metal { albedo, fuzz } => {
            if ray.b.sq_len() < UNIT_MIN_SQ {
                None
            } else {
                let refl = ray.b.unit_spec().reflect_spec(rec.normal);
                let dir = Vec3f::<Position> {
                    x: (refl.x + tdiv(rnd.x * fuzz, SCALE as int)) as i64,
                    y: (refl.y + tdiv(rnd.y * fuzz, SCALE as int)) as i64,
                    z: (refl.z + tdiv(rnd.z * fuzz, SCALE as int)) as i64,
                    tag: PhantomData,
                };
                if dir.dot_spec(rec.normal) > 0 {
                    Some((albedo, Ray { a: rec.p, b: dir }))
                } else {
                    None
                }
            }
        },
        Material::Dielectric { ref_idx } => {
            if ray.b.sq_len() < UNIT_MIN_SQ {
                None
            } else {
                let dt = ray.b.dot_spec(rec.normal);
                let outward = if dt > 0 {
                    Vec3f::<Position> {
                        x: (-rec.normal.x) as i64,
                        y: (-rec.normal.y) as i64,
                        z: (-rec.normal.z) as i64,
                        tag: PhantomData,
                    }
                } else {
                    rec.normal
                };
                let eta = if dt > 0 {
                    ref_idx as int
                } else {
                    tdiv((SCALE as int) * (SCALE as int), ref_idx as int)
                };
                let dir = match ray.b.refract_spec(outward, eta) {
                    Some(refr) => if refr.x == 0 && refr.y == 0 && refr.z == 0 {
                        ray.b.unit_spec().reflect_spec(rec.normal)
                    } else {
                        refr
                    },
                    None => ray.b.unit_spec().reflect_spec(rec.normal),
                };
                if dir.x == 0 && dir.y == 0 && dir.z == 0 {
                    None
                } else {
                    Some((Vec3f { x: SCALE, y: SCALE, z: SCALE, tag: PhantomData }, Ray {
                        a: rec.p,
                        b: dir,
                    }))
                }
            }
        },
    }
}

impl Material {
    /// Deterministic scattering for a given unit-ball sample.
    pub fn scatter_sampled(&self, ray: Ray, rec: HitRecord, rnd: Vec3f<Position>) -> (r: Option<
        (Vec3f<Color>, Ray),
    >)
        requires
            material_wf(*self),
            ray_wf(ray),
            hit_record_wf(rec),
            rnd.bounded(SCALE as int),
            rnd.sq_len() < (SCALE as int) * (SCALE as int),
        ensures
            r == scatter_spec(*self, ray, rec, rnd),
            r matches Some(p) ==> ray_wf(p.1) && p.1.a == rec.p && p.0.channels_in_unit(),
    {
        match *self {
            Material::Lambertian { albedo } => {
                let d = rec.normal.add(rnd);
                let dir = if d.is_zero() {
                    rec.normal
                } else {
                    d
                };
                proof {
                    if !(d.x == 0 && d.y == 0 && d.z == 0) {
                        lemma_nonzero_sq(d.x as int, d.y as int, d.z as int);
                    }
                }
                Some((albedo, Ray { a: rec.p, b: dir }))
            },
            Material::Metal { albedo, fuzz } => {
                let q = ray.b.squared_length();
                if q < UNIT_MIN_SQ {
                    return None;
                }
                let u = ray.b.unit();
                let refl = u.reflect(rec.normal);
                proof {
                    lemma_fuzz_bound(rnd.x as int, fuzz as int);
                    lemma_fuzz_bound(rnd.y as int, fuzz as int);
                    lemma_fuzz_bound(rnd.z as int, fuzz as int);
                }
                let dir = refl.add(rnd.scale(fuzz));
                if dir.dot(rec.normal) > 0 {
                    proof {
                        if dir.x == 0 && dir.y == 0 && dir.z == 0 {
                            assert(dir.x * rec.normal.x + dir.y * rec.normal.y + dir.z
                                * rec.normal.z == 0) by (nonlinear_arith)
                                requires dir.x == 0 && dir.y == 0 && dir.z == 0;
                        }
                        lemma_nonzero_sq(dir.x as int, dir.y as int, dir.z as int);
                    }
                    Some((albedo, Ray { a: rec.p, b: dir }))
                } else {
                    None
                }
            },
            Material::Dielectric { ref_idx } => {
                let q = ray.b.squared_length();
                if q < UNIT_MIN_SQ {
                    return None;
                }
                let dt = ray.b.dot(rec.normal);
                let outward = if dt > 0 {
                    rec.normal.neg()
                } else {
                    rec.normal
                };
                let eta = if dt > 0 {
                    ref_idx
                } else {
                    proof {
                        lemma_eta_inverse(ref_idx as int);
                    }
                    let s2: i128 = (SCALE as i128) * (SCALE as i128);
                    div128(s2, ref_idx as i128) as i64
                };
                let u = ray.b.unit();
                let dir = match ray.b.refract(outward, eta) {
                    Some(refr) => if refr.is_zero() {
                        u.reflect(rec.normal)
                    } else {
                        refr
                    },
                    None => u.reflect(rec.normal),
                };
                if dir.is_zero() {
                    None
                } else {
                    proof {
                        lemma_nonzero_sq(dir.x as int, dir.y as int, dir.z as int);
                    }
                    Some((Vec3f::repeat(SCALE), Ray { a: rec.p, b: dir }))
                }
            },
        }
    }

    /// Scattering with a freshly drawn unit-ball sample: the result is
    /// `scatter_spec` for some point of the unit ball.
    pub fn scatter(&self, ray: Ray, rec: HitRecord) -> (r: Option<(Vec3f<Color>, Ray)>)
        requires
            material_wf(*self),
            ray_wf(ray),
            hit_record_wf(rec),
        ensures
            exists|rnd: Vec3f<Position>|
                rnd.bounded(SCALE as int) && rnd.sq_len() < (SCALE as int) * (SCALE as int)
                    && r == #[trigger] scatter_spec(*self, ray, rec, rnd),
            r matches Some(p) ==> ray_wf(p.1) && p.1.a == rec.p && p.0.channels_in_unit(),
    {
        let rnd = Vec3f::<Position>::random_in_unit_space();
        let r = self.scatter_sampled(ray, rec, rnd);
        proof {
            assert(rnd.bounded(SCALE as int) && rnd.sq_len() < (SCALE as int) * (SCALE as int)
                && r == scatter_spec(*self, ray, rec, rnd));
        }
        r
    }
}

/// The fuzz offset `rnd * fuzz / SCALE` stays within one unit.
proof fn lemma_fuzz_bound(r: int, fuzz: int)
    requires
        -SCALE <= r <= SCALE,
        0 <= fuzz <= SCALE,
    ensures
        -SCALE <= tdiv(r * fuzz, SCALE as int) <= SCALE,
{
    assert(-((SCALE as int) * SCALE) <= r * fuzz <= (SCALE as int) * SCALE) by (nonlinear_arith)
        requires -SCALE <= r <= SCALE && 0 <= fuzz <= SCALE;
    lemma_tdiv_bound(r * fuzz, SCALE as int, SCALE as int);
}

/// The reciprocal refraction ratio `SCALE^2 / ref_idx` stays within
/// the accepted ratio range for a well-formed refractive index.
proof fn lemma_eta_inverse(ref_idx: int)
    requires
        32768 <= ref_idx <= 262144,
    ensures
        16384 <= tdiv((SCALE as int) * (SCALE as int), ref_idx) <= 131072,
{
    lemma_tdiv_facts((SCALE as int) * (SCALE as int), ref_idx);
    assert(16384 <= tdiv((SCALE as int) * (SCALE as int), ref_idx) <= 131072)
        by (nonlinear_arith)
        requires
            32768 <= ref_idx <= 262144,
            (SCALE as int) * (SCALE as int) == 0x100000000,
            ref_idx * tdiv((SCALE as int) * (SCALE as int), ref_idx) <= (SCALE as int) * (
            SCALE as int) < ref_idx * tdiv((SCALE as int) * (SCALE as int), ref_idx) + ref_idx,
            0 <= tdiv((SCALE as int) * (SCALE as int), ref_idx);
}

} // verus!
