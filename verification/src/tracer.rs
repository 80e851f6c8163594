//! The recursive radiance estimator and the per-pixel sampling loop.

use vstd::prelude::*;
use core::marker::PhantomData;

verus! {

use crate::camera::Camera;
use crate::fixed::{
    SCALE, UNIT_MIN_SQ, tdiv, sqrt_floor, is_sqrt_floor, lemma_sqrt_floor, lemma_tdiv_facts,
    lemma_tdiv_bound, mul64, mul128, div128, isqrt,
};
use crate::hittable::{Hittable, List};
use crate::ray::{Ray, ray_wf};
use crate::vec3::{Color, Position, Vec3f, sample_range};

/// Smallest accepted hit parameter, about 0.001 world units: hits
/// closer than this are ignored to avoid self-intersection.
pub const T_MIN: i64 = 65;

/// Upper bound of the intersection window for primary rays.
pub const T_LIMIT: i64 = 0x100000000000;

/// The recursion cap: at this depth a hit contributes no energy.
pub const MAX_DEPTH: u32 = 50;

/// Sky color at the top of the gradient: (0.5, 0.7, 1.0).
pub const SKY_R: i64 = 32768;

pub const SKY_G: i64 = 45875;

pub const SKY_B: i64 = 65536;

/// The vertical sky gradient: linear interpolation from white at the
/// bottom (`t = 0`) to (0.5, 0.7, 1.0) at the top (`t = 1`), where
/// `t = (unit(direction).y + 1) / 2`; a direction too short to
/// normalize takes the midpoint.
pub open spec fn sky_spec(ray: Ray) -> Vec3f<Color> {
    let uy: int = if ray.b.sq_len() >= UNIT_MIN_SQ {
        ray.b.unit_spec().y as int
    } else {
        0
    };
    let t = tdiv(uy + SCALE, 2);
    Vec3f {
        x: (SCALE + tdiv(t * (SKY_R - SCALE), SCALE as int)) as i64,
        y: (SCALE + tdiv(t * (SKY_G - SCALE), SCALE as int)) as i64,
        z: (SCALE + tdiv(t * (SKY_B - SCALE), SCALE as int)) as i64,
        tag: PhantomData,
    }
}

/// The sky color for a ray that hits nothing. Every channel lies
/// between its sky-top value and white, whatever the direction.
pub fn sky(ray: Ray) -> (r: Vec3f<Color>)
    requires
        ray_wf(ray),
    ensures
        r == sky_spec(ray),
        r.channels_in_unit(),
        SKY_R <= r.x <= SCALE && SKY_G <= r.y <= SCALE && SKY_B <= r.z <= SCALE,
{
    let q = ray.b.squared_length();
    let uy: i64 = if q >= UNIT_MIN_SQ {
        ray.b.unit().y()
    } else {
        0
    };
    let t = (uy + SCALE) / 2;
    proof {
        lemma_tdiv_facts((uy + SCALE) as int, 2);
        lemma_sky_term(t as int, (SKY_R - SCALE) as int);
        lemma_sky_term(t as int, (SKY_G - SCALE) as int);
        lemma_sky_term(t as int, (SKY_B - SCALE) as int);
    }
    let cx = SCALE + div128(mul64(t, SKY_R - SCALE), SCALE as i128) as i64;
    let cy = SCALE + div128(mul64(t, SKY_G - SCALE), SCALE as i128) as i64;
    let cz = SCALE + div128(mul64(t, SKY_B - SCALE), SCALE as i128) as i64;
    Vec3f { x: cx, y: cy, z: cz, tag: PhantomData }
}

/// Interpolating toward a darker sky channel moves the value down by
/// at most the channel gap.
proof fn lemma_sky_term(t: int, d: int)
    requires
        0 <= t <= SCALE,
        -SCALE <= d <= 0,
    ensures
        d <= tdiv(t * d, SCALE as int) <= 0,
{
    assert(-(-d * (SCALE as int)) <= t * d <= 0 && t * d <= -d * (SCALE as int))
        by (nonlinear_arith)
        requires 0 <= t <= SCALE && -SCALE <= d <= 0;
    lemma_tdiv_bound(t * d, SCALE as int, -d);
}

/// An attenuated channel stays in `[0, 1]`.
proof fn lemma_attenuate(a: int, c: int)
    requires
        0 <= a <= SCALE,
        0 <= c <= SCALE,
    ensures
        0 <= tdiv(a * c, SCALE as int) <= SCALE,
{
    assert(0 <= a * c <= (SCALE as int) * SCALE) by (nonlinear_arith)
        requires 0 <= a <= SCALE && 0 <= c <= SCALE;
    lemma_tdiv_bound(a * c, SCALE as int, SCALE as int);
    lemma_tdiv_facts(a * c, SCALE as int);
}

/// The Monte Carlo radiance estimate for one ray: on a hit, recurse
/// through the material's scattering and attenuate, returning black at
/// the recursion cap or on absorption; on a miss, the sky gradient.
///
/// The contract pins the deterministic cases: a ray that hits nothing
/// returns exactly the sky gradient; a hit at the recursion cap
/// returns exactly black; and every returned channel lies in `[0, 1]`.
pub fn color<T: Hittable>(ray: Ray, world: &List<T>, depth: u32) -> (r: Vec3f<Color>)
    requires
        world.wf(),
        ray_wf(ray),
    ensures
        r.channels_in_unit(),
        world.hit_spec(ray, T_MIN as int, T_LIMIT as int) is None ==> r == sky_spec(ray),
        (world.hit_spec(ray, T_MIN as int, T_LIMIT as int) is Some && depth >= MAX_DEPTH) ==> r
            == (Vec3f::<Color> { x: 0, y: 0, z: 0, tag: PhantomData }),
    decreases MAX_DEPTH - depth,
{
    match world.hit(ray, T_MIN, T_LIMIT) {
        Some(rec) => {
            if depth >= MAX_DEPTH {
                Vec3f::repeat(0)
            } else {
                match rec.material.scatter(ray, rec) {
                    Some((attenuation, scattered)) => {
                        let c = color(scattered, world, depth + 1);
                        proof {
                            lemma_attenuate(attenuation.x as int, c.x as int);
                            lemma_attenuate(attenuation.y as int, c.y as int);
                            lemma_attenuate(attenuation.z as int, c.z as int);
                        }
                        attenuation.mul_fp(c)
                    },
                    None => Vec3f::repeat(0),
                }
            }
        },
        None => sky(ray),
    }
}

/// Gamma correction and quantization of one channel in `[0, 1]`:
/// the square root of the channel, scaled to a byte.
pub fn gamma_byte(c: i64) -> (r: u8)
    requires
        0 <= c <= SCALE,
    ensures
        r as int == tdiv(sqrt_floor(c * SCALE) * 255, SCALE as int),
{
    let cs = mul64(c, SCALE);
    let s = isqrt(cs as u128);
    proof {
        assert(s <= SCALE) by (nonlinear_arith)
            requires
                is_sqrt_floor(cs as int, s as int),
                0 <= cs <= 0x100000000,
                SCALE == 65536;
        lemma_sqrt_floor(cs as int, s as int);
        assert(0 <= (s as int) * 255 <= 255 * (SCALE as int)) by (nonlinear_arith)
            requires 0 <= s <= SCALE;
        lemma_tdiv_bound((s as int) * 255, SCALE as int, 255);
        lemma_tdiv_facts((s as int) * 255, SCALE as int);
    }
    let v = div128(mul128(s as i128, 255), SCALE as i128);
    v as u8
}

/// One output pixel: draw `ns` jittered camera rays, average the
/// radiance estimates, gamma-correct, and quantize to RGBA bytes.
/// Whatever the draws were, the three color bytes are the gamma-2
/// quantization of an averaged color whose channels lie in `[0, 1]`,
/// and the alpha byte is always opaque.
pub fn render_pixel<T: Hittable>(
    cam: &Camera,
    world: &List<T>,
    nx: u32,
    ny: u32,
    ns: u32,
    i: u32,
    j: u32,
) -> (r: (u8, u8, u8, u8))
    requires
        cam.wf(),
        world.wf(),
        1 <= nx <= 65536,
        1 <= ny <= 65536,
        1 <= ns <= 65536,
        i < nx,
        j < ny,
    ensures
        r.3 == 255,
        exists|total: Vec3f<Color>, avg: Vec3f<Color>|
            #![trigger avg.channels_in_unit(), tdiv(total.x as int, ns as int)]
            {
                &&& 0 <= total.x <= ns * SCALE
                &&& 0 <= total.y <= ns * SCALE
                &&& 0 <= total.z <= ns * SCALE
                &&& avg.x == tdiv(total.x as int, ns as int)
                &&& avg.y == tdiv(total.y as int, ns as int)
                &&& avg.z == tdiv(total.z as int, ns as int)
                &&& avg.channels_in_unit()
                &&& r.0 as int == tdiv(sqrt_floor(avg.x * SCALE) * 255, SCALE as int)
                &&& r.1 as int == tdiv(sqrt_floor(avg.y * SCALE) * 255, SCALE as int)
                &&& r.2 as int == tdiv(sqrt_floor(avg.z * SCALE) * 255, SCALE as int)
            },
{
    let mut col = Vec3f::<Color>::repeat(0);
    let mut s: u32 = 0;
    while s < ns
        invariant
            cam.wf(),
            world.wf(),
            s <= ns,
            1 <= nx <= 65536,
            1 <= ny <= 65536,
            1 <= ns <= 65536,
            i < nx,
            j < ny,
            0 <= col.x <= s * SCALE,
            0 <= col.y <= s * SCALE,
            0 <= col.z <= s * SCALE,
        decreases ns - s,
    {
        let du = sample_range(0, SCALE);
        let dv = sample_range(0, SCALE);
        let un = (i as i64) * SCALE + du;
        let vn = (j as i64) * SCALE + dv;
        proof {
            assert(0 <= un <= (nx as int) * SCALE && 0 <= vn <= (ny as int) * SCALE)
                by (nonlinear_arith)
                requires
                    un == (i as int) * SCALE + du,
                    vn == (j as int) * SCALE + dv,
                    0 <= i < nx && 0 <= j < ny && 0 <= du < SCALE && 0 <= dv < SCALE,
                    SCALE == 65536;
            lemma_tdiv_bound(un as int, nx as int, SCALE as int);
            lemma_tdiv_bound(vn as int, ny as int, SCALE as int);
            lemma_tdiv_facts(un as int, nx as int);
            lemma_tdiv_facts(vn as int, ny as int);
        }
        let u = un / (nx as i64);
        let v = vn / (ny as i64);
        let c = match cam.ray(u, v) {
            Some(rayv) => color(rayv, world, 0),
            None => Vec3f::repeat(0),
        };
        col = col.add(c);
        s = s + 1;
    }
    proof {
        lemma_tdiv_bound(col.x as int, ns as int, SCALE as int);
        lemma_tdiv_bound(col.y as int, ns as int, SCALE as int);
        lemma_tdiv_bound(col.z as int, ns as int, SCALE as int);
        lemma_tdiv_facts(col.x as int, ns as int);
        lemma_tdiv_facts(col.y as int, ns as int);
        lemma_tdiv_facts(col.z as int, ns as int);
        assert(col.x <= (ns as int) * SCALE && col.y <= (ns as int) * SCALE && col.z <= (
        ns as int) * SCALE) by (nonlinear_arith)
            requires
                0 <= col.x <= (ns as int) * SCALE,
                0 <= col.y <= (ns as int) * SCALE,
                0 <= col.z <= (ns as int) * SCALE;
    }
    let avg = col.div_int(ns as i64);
    let red = gamma_byte(avg.x());
    let green = gamma_byte(avg.y());
    let blue = gamma_byte(avg.z());
    proof {
        assert(0 <= col.x <= ns * SCALE && 0 <= col.y <= ns * SCALE && 0 <= col.z <= ns * SCALE
            && avg.x == tdiv(col.x as int, ns as int) && avg.y == tdiv(col.y as int, ns as int)
            && avg.z == tdiv(col.z as int, ns as int) && avg.channels_in_unit() && red as int == tdiv(
            sqrt_floor(avg.x * SCALE) * 255,
            SCALE as int,
        ) && green as int == tdiv(sqrt_floor(avg.y * SCALE) * 255, SCALE as int) && blue as int
            == tdiv(sqrt_floor(avg.z * SCALE) * 255, SCALE as int));
    }
    (red, green, blue, 255)
}

} // verus!
