//! The perspective camera: derived basis vectors, image-plane spans,
//! and a thin-lens ray generator for defocus blur.

use vstd::prelude::*;
use core::marker::PhantomData;

verus! {

use crate::fixed::{
    SCALE, UNIT_MIN_SQ, DIR_MAX, tdiv, lemma_tdiv_facts, lemma_tdiv_bound, lemma_tdiv_exact,
    mul64, div128,
};
use crate::ray::{Ray, ray_wf};
use crate::vec3::{Position, Vec3f, lemma_nonzero_sq};

/// Bound on camera positions and image-plane spans: about 2048 world
/// units, so that every generated ray stays within the tracer's range.
pub const CAM_MAX: i64 = 134217728;

pub struct Camera {
    pub origin: Vec3f<Position>,
    pub lower_left_corner: Vec3f<Position>,
    pub horizontal: Vec3f<Position>,
    pub vertical: Vec3f<Position>,
    pub u: Vec3f<Position>,
    pub v: Vec3f<Position>,
    pub w: Vec3f<Position>,
    pub lens_radius: i64,
}

impl Camera {
    /// A camera the ray generator can work with: bounded fields, a
    /// unit-scale basis, and a lens radius of at most one unit.
    pub open spec fn wf(&self) -> bool {
        &&& self.origin.bounded(CAM_MAX as int)
        &&& self.lower_left_corner.bounded(CAM_MAX as int)
        &&& self.horizontal.bounded(CAM_MAX as int)
        &&& self.vertical.bounded(CAM_MAX as int)
        &&& self.u.bounded(4 * SCALE as int)
        &&& self.v.bounded(4 * SCALE as int)
        &&& self.w.bounded(SCALE as int)
        &&& 0 <= self.lens_radius <= SCALE
    }

    /// The camera `new` derives, mirroring its fixed-point steps:
    /// basis `w = unit(lookfrom - lookat)`, `u = unit(cross(vup, w))`,
    /// `v = cross(w, u)`, spans scaled by the focus distance, and the
    /// lower-left corner of the image plane. `None` when the viewing
    /// geometry is degenerate (coincident eye and target, or `vup`
    /// parallel to the view axis) or a derived value leaves the range.
    pub open spec fn new_spec(
        lookfrom: Vec3f<Position>,
        lookat: Vec3f<Position>,
        vup: Vec3f<Position>,
        half_height: i64,
        aspect: i64,
        aperture: i64,
        focus_dist: i64,
    ) -> Option<Camera> {
        let wd = Vec3f::<Position> {
            x: (lookfrom.x - lookat.x) as i64,
            y: (lookfrom.y - lookat.y) as i64,
            z: (lookfrom.z - lookat.z) as i64,
            tag: PhantomData,
        };
        if wd.sq_len() < UNIT_MIN_SQ {
            None
        } else {
            let w = wd.unit_spec();
            let cu = Vec3f::<Position> {
                x: (vup.y * w.z - vup.z * w.y) as i64,
                y: (-(vup.x * w.z - vup.z * w.x)) as i64,
                z: (vup.x * w.y - vup.y * w.x) as i64,
                tag: PhantomData,
            };
            let csd = Vec3f::<Position> {
                x: tdiv(cu.x as int, SCALE as int) as i64,
                y: tdiv(cu.y as int, SCALE as int) as i64,
                z: tdiv(cu.z as int, SCALE as int) as i64,
                tag: PhantomData,
            };
            if csd.sq_len() < UNIT_MIN_SQ {
                None
            } else {
                let u = csd.unit_spec();
                let vc = Vec3f::<Position> {
                    x: (w.y * u.z - w.z * u.y) as i64,
                    y: (-(w.x * u.z - w.z * u.x)) as i64,
                    z: (w.x * u.y - w.y * u.x) as i64,
                    tag: PhantomData,
                };
                let v = Vec3f::<Position> {
                    x: tdiv(vc.x as int, SCALE as int) as i64,
                    y: tdiv(vc.y as int, SCALE as int) as i64,
                    z: tdiv(vc.z as int, SCALE as int) as i64,
                    tag: PhantomData,
                };
                let hw = tdiv(half_height * aspect, SCALE as int);
                let hwf = tdiv(hw * focus_dist, SCALE as int);
                let hhf = tdiv(half_height * focus_dist, SCALE as int);
                let horizontal = Vec3f::<Position> {
                    x: tdiv(u.x * (2 * hwf), SCALE as int) as i64,
                    y: tdiv(u.y * (2 * hwf), SCALE as int) as i64,
                    z: tdiv(u.z * (2 * hwf), SCALE as int) as i64,
                    tag: PhantomData,
                };
                let vertical = Vec3f::<Position> {
                    x: tdiv(v.x * (2 * hhf), SCALE as int) as i64,
                    y: tdiv(v.y * (2 * hhf), SCALE as int) as i64,
                    z: tdiv(v.z * (2 * hhf), SCALE as int) as i64,
                    tag: PhantomData,
                };
                let wfd = Vec3f::<Position> {
                    x: tdiv(w.x * focus_dist, SCALE as int) as i64,
                    y: tdiv(w.y * focus_dist, SCALE as int) as i64,
                    z: tdiv(w.z * focus_dist, SCALE as int) as i64,
                    tag: PhantomData,
                };
                let ll = Vec3f::<Position> {
                    x: (lookfrom.x - tdiv(horizontal.x as int, 2) - tdiv(vertical.x as int, 2)
                        - wfd.x) as i64,
                    y: (lookfrom.y - tdiv(horizontal.y as int, 2) - tdiv(vertical.y as int, 2)
                        - wfd.y) as i64,
                    z: (lookfrom.z - tdiv(horizontal.z as int, 2) - tdiv(vertical.z as int, 2)
                        - wfd.z) as i64,
                    tag: PhantomData,
                };
                if horizontal.bounded(CAM_MAX as int) && vertical.bounded(CAM_MAX as int)
                    && ll.bounded(CAM_MAX as int) {
                    Some(
                        Camera {
                            origin: lookfrom,
                            lower_left_corner: ll,
                            horizontal,
                            vertical,
                            u,
                            v,
                            w,
                            lens_radius: tdiv(aperture as int, 2) as i64,
                        },
                    )
                } else {
                    None
                }
            }
        }
    }

    pub fn new(
        lookfrom: Vec3f<Position>,
        lookat: Vec3f<Position>,
        vup: Vec3f<Position>,
        half_height: i64,
        aspect: i64,
        aperture: i64,
        focus_dist: i64,
    ) -> (r: Option<Camera>)
        requires
            lookfrom.bounded(CAM_MAX as int),
            lookat.bounded(CAM_MAX as int),
            vup.bounded(2 * SCALE as int),
            1 <= half_height <= 8 * SCALE,
            1 <= aspect <= 16 * SCALE,
            0 <= aperture <= 2 * SCALE,
            1 <= focus_dist <= CAM_MAX,
        ensures
            r == Self::new_spec(lookfrom, lookat, vup, half_height, aspect, aperture, focus_dist),
            r matches Some(c) ==> c.wf(),
    {
        let wd = lookfrom.sub(lookat);
        let wq = wd.squared_length();
        if wq < UNIT_MIN_SQ {
            return None;
        }
        let w = wd.unit();
        let cu = vup.cross(w);
        proof {
            lemma_cross_component_bound(vup.y as int, w.z as int, vup.z as int, w.y as int);
            lemma_cross_component_bound(vup.x as int, w.z as int, vup.z as int, w.x as int);
            lemma_cross_component_bound(vup.x as int, w.y as int, vup.y as int, w.x as int);
        }
        let csd = cu.div_int(SCALE);
        proof {
            lemma_tdiv_bound(cu.x as int, SCALE as int, 4 * SCALE as int);
            lemma_tdiv_bound(cu.y as int, SCALE as int, 4 * SCALE as int);
            lemma_tdiv_bound(cu.z as int, SCALE as int, 4 * SCALE as int);
        }
        let cq = csd.squared_length();
        if cq < UNIT_MIN_SQ {
            return None;
        }
        let u = csd.unit();
        let vc = w.cross(u);
        proof {
            lemma_cross_component_bound(w.y as int, u.z as int, w.z as int, u.y as int);
            lemma_cross_component_bound(w.x as int, u.z as int, w.z as int, u.x as int);
            lemma_cross_component_bound(w.x as int, u.y as int, w.y as int, u.x as int);
        }
        let v = vc.div_int(SCALE);
        proof {
            lemma_tdiv_bound(vc.x as int, SCALE as int, 4 * SCALE as int);
            lemma_tdiv_bound(vc.y as int, SCALE as int, 4 * SCALE as int);
            lemma_tdiv_bound(vc.z as int, SCALE as int, 4 * SCALE as int);
            assert(-(128 * (SCALE as int) * SCALE) <= (half_height as int) * (aspect as int)
                <= 128 * (SCALE as int) * SCALE) by (nonlinear_arith)
                requires 1 <= half_height <= 8 * SCALE && 1 <= aspect <= 16 * SCALE;
            lemma_tdiv_bound((half_height as int) * (aspect as int), SCALE as int,
                128 * SCALE as int);
        }
        let hw = div128(mul64(half_height, aspect), SCALE as i128) as i64;
        proof {
            assert(-(0x400000000int * (SCALE as int)) <= (hw as int) * (focus_dist as int)
                <= 0x400000000int * (SCALE as int)) by (nonlinear_arith)
                requires
                    -128 * (SCALE as int) <= hw <= 128 * (SCALE as int),
                    1 <= focus_dist <= 0x8000000,
                    SCALE == 65536;
            lemma_tdiv_bound((hw as int) * (focus_dist as int), SCALE as int, 0x400000000);
            assert(-(0x400000000int * (SCALE as int)) <= (half_height as int) * (
            focus_dist as int) <= 0x400000000int * (SCALE as int)) by (nonlinear_arith)
                requires
                    1 <= half_height <= 8 * SCALE,
                    1 <= focus_dist <= 0x8000000,
                    SCALE == 65536;
            lemma_tdiv_bound((half_height as int) * (focus_dist as int), SCALE as int,
                0x400000000);
        }
        let hwf = div128(mul64(hw, focus_dist), SCALE as i128) as i64;
        let hhf = div128(mul64(half_height, focus_dist), SCALE as i128) as i64;
        let horizontal = u.scale(2 * hwf);
        let vertical = v.scale(2 * hhf);
        let wfd = w.scale(focus_dist);
        proof {
            lemma_tdiv_facts(horizontal.x as int, 2);
            lemma_tdiv_facts(horizontal.y as int, 2);
            lemma_tdiv_facts(horizontal.z as int, 2);
            lemma_tdiv_facts(vertical.x as int, 2);
            lemma_tdiv_facts(vertical.y as int, 2);
            lemma_tdiv_facts(vertical.z as int, 2);
        }
        let ll = lookfrom.sub(horizontal.div_int(2)).sub(vertical.div_int(2)).sub(wfd);
        if horizontal.check_bounded(CAM_MAX) && vertical.check_bounded(CAM_MAX)
            && ll.check_bounded(CAM_MAX) {
            Some(
                Camera {
                    origin: lookfrom,
                    lower_left_corner: ll,
                    horizontal,
                    vertical,
                    u,
                    v,
                    w,
                    lens_radius: aperture / 2,
                },
            )
        } else {
            None
        }
    }

    /// The ray `ray` generates for screen coordinates `(s, t)` and a
    /// unit-disk aperture sample `rd`: the origin is offset within the
    /// lens disk, and the direction aims at the image-plane point.
    pub open spec fn ray_spec(self, s: int, t: int, rd: Vec3f<Position>) -> Ray {
        let rlx = tdiv(rd.x * self.lens_radius, SCALE as int);
        let rly = tdiv(rd.y * self.lens_radius, SCALE as int);
        let offx = tdiv(self.u.x * rlx, SCALE as int) + tdiv(self.v.x * rly, SCALE as int);
        let offy = tdiv(self.u.y * rlx, SCALE as int) + tdiv(self.v.y * rly, SCALE as int);
        let offz = tdiv(self.u.z * rlx, SCALE as int) + tdiv(self.v.z * rly, SCALE as int);
        let a = Vec3f::<Position> {
            x: (self.origin.x + offx) as i64,
            y: (self.origin.y + offy) as i64,
            z: (self.origin.z + offz) as i64,
            tag: PhantomData,
        };
        let b = Vec3f::<Position> {
            x: (self.lower_left_corner.x + tdiv(self.horizontal.x * s, SCALE as int) + tdiv(
                self.vertical.x * t,
                SCALE as int,
            ) - self.origin.x - offx) as i64,
            y: (self.lower_left_corner.y + tdiv(self.horizontal.y * s, SCALE as int) + tdiv(
                self.vertical.y * t,
                SCALE as int,
            ) - self.origin.y - offy) as i64,
            z: (self.lower_left_corner.z + tdiv(self.horizontal.z * s, SCALE as int) + tdiv(
                self.vertical.z * t,
                SCALE as int,
            ) - self.origin.z - offz) as i64,
            tag: PhantomData,
        };
        Ray { a, b }
    }

    /// A camera ray for normalized screen coordinates `(s, t)` in
    /// `[0, 1]`, with a random thin-lens aperture offset. Whatever the
    /// aperture draw, the result is `ray_spec` for some unit-disk
    /// sample, `None` exactly when that ray's direction is the zero
    /// vector; with a closed aperture the draw is irrelevant and the
    /// result is pinned outright.
    pub fn ray(&self, s: i64, t: i64) -> (r: Option<Ray>)
        requires
            self.wf(),
            0 <= s <= SCALE,
            0 <= t <= SCALE,
        ensures
            r matches Some(ray) ==> ray_wf(ray),
            exists|rd: Vec3f<Position>|
                #![trigger self.ray_spec(s as int, t as int, rd)]
                {
                    let made = self.ray_spec(s as int, t as int, rd);
                    &&& rd.bounded(SCALE as int)
                    &&& rd.sq_len() < (SCALE as int) * (SCALE as int)
                    &&& rd.z == 0
                    &&& r == (if made.b.x == 0 && made.b.y == 0 && made.b.z == 0 {
                        Option::<Ray>::None
                    } else {
                        Option::<Ray>::Some(made)
                    })
                },
            self.lens_radius == 0 ==> r == ({
                let made = self.ray_spec(s as int, t as int, Vec3f::<Position>::make(0, 0, 0));
                if made.b.x == 0 && made.b.y == 0 && made.b.z == 0 {
                    Option::<Ray>::None
                } else {
                    Option::<Ray>::Some(made)
                }
            }),
    {
        let rd = Vec3f::<Position>::random_in_unit_disk();
        let rl = rd.scale(self.lens_radius);
        proof {
            lemma_lens_bound(rd.x as int, self.lens_radius as int);
            lemma_lens_bound(rd.y as int, self.lens_radius as int);
            lemma_lens_bound(rd.z as int, self.lens_radius as int);
            lemma_offset_bound(self.u.x as int, rl.x as int);
            lemma_offset_bound(self.u.y as int, rl.x as int);
            lemma_offset_bound(self.u.z as int, rl.x as int);
            lemma_offset_bound(self.v.x as int, rl.y as int);
            lemma_offset_bound(self.v.y as int, rl.y as int);
            lemma_offset_bound(self.v.z as int, rl.y as int);
        }
        let offset = self.u.scale(rl.x).add(self.v.scale(rl.y));
        let a = self.origin.add(offset);
        proof {
            lemma_span_bound(self.horizontal.x as int, s as int);
            lemma_span_bound(self.horizontal.y as int, s as int);
            lemma_span_bound(self.horizontal.z as int, s as int);
            lemma_span_bound(self.vertical.x as int, t as int);
            lemma_span_bound(self.vertical.y as int, t as int);
            lemma_span_bound(self.vertical.z as int, t as int);
        }
        let hs = self.horizontal.scale(s);
        let vs = self.vertical.scale(t);
        let b = self.lower_left_corner.add(hs).add(vs).sub(self.origin).sub(offset);
        proof {
            assert(rd.bounded(SCALE as int) && rd.sq_len() < (SCALE as int) * (SCALE as int)
                && rd.z == 0 && (Ray { a, b }) == self.ray_spec(s as int, t as int, rd));
            if self.lens_radius == 0 {
                lemma_ray_spec_zero_lens(*self, s as int, t as int, rd);
            }
        }
        if b.is_zero() {
            None
        } else {
            proof {
                lemma_nonzero_sq(b.x as int, b.y as int, b.z as int);
            }
            Some(Ray { a, b })
        }
    }
}

/// With a closed aperture the lens offset vanishes, so the generated
/// ray does not depend on the disk sample.
proof fn lemma_ray_spec_zero_lens(cam: Camera, s: int, t: int, rd: Vec3f<Position>)
    requires
        cam.lens_radius == 0,
    ensures
        cam.ray_spec(s, t, rd) == cam.ray_spec(s, t, Vec3f::<Position>::make(0, 0, 0)),
{
    let z = Vec3f::<Position>::make(0, 0, 0);
    assert(rd.x * cam.lens_radius == 0 && rd.y * cam.lens_radius == 0 && z.x
        * cam.lens_radius == 0 && z.y * cam.lens_radius == 0) by (nonlinear_arith)
        requires cam.lens_radius == 0 && z.x == 0 && z.y == 0;
    lemma_tdiv_exact(0, SCALE as int);
    assert(0 * (SCALE as int) == 0) by (nonlinear_arith);
    assert(tdiv(0, SCALE as int) == 0);
    assert(cam.u.x * 0 == 0 && cam.u.y * 0 == 0 && cam.u.z * 0 == 0 && cam.v.x * 0 == 0
        && cam.v.y * 0 == 0 && cam.v.z * 0 == 0) by (nonlinear_arith);
}

/// A component of a cross product of vectors within two units stays
/// within four (scaled) units of the squared scale.
proof fn lemma_cross_component_bound(p: int, q: int, r: int, s: int)
    requires
        -2 * (SCALE as int) <= p <= 2 * (SCALE as int),
        -2 * (SCALE as int) <= r <= 2 * (SCALE as int),
        -SCALE <= q <= SCALE,
        -SCALE <= s <= SCALE,
    ensures
        -4 * (SCALE as int) * SCALE <= p * q - r * s <= 4 * (SCALE as int) * SCALE,
        -(4 * (SCALE as int)) * SCALE <= -(p * q - r * s) <= (4 * (SCALE as int)) * SCALE,
{
    assert(-2 * (SCALE as int) * SCALE <= p * q <= 2 * (SCALE as int) * SCALE && -2 * (
    SCALE as int) * SCALE <= r * s <= 2 * (SCALE as int) * SCALE) by (nonlinear_arith)
        requires
            -2 * (SCALE as int) <= p <= 2 * (SCALE as int),
            -2 * (SCALE as int) <= r <= 2 * (SCALE as int),
            -SCALE <= q <= SCALE,
            -SCALE <= s <= SCALE;
}

/// The lens offset `rd * lens_radius / SCALE` stays within one unit.
proof fn lemma_lens_bound(rd: int, lens: int)
    requires
        -SCALE <= rd <= SCALE,
        0 <= lens <= SCALE,
    ensures
        -SCALE <= tdiv(rd * lens, SCALE as int) <= SCALE,
{
    assert(-((SCALE as int) * SCALE) <= rd * lens <= (SCALE as int) * SCALE) by (nonlinear_arith)
        requires -SCALE <= rd <= SCALE && 0 <= lens <= SCALE;
    lemma_tdiv_bound(rd * lens, SCALE as int, SCALE as int);
}

/// A basis component times a lens offset, rescaled, stays within two
/// units.
proof fn lemma_offset_bound(u: int, rl: int)
    requires
        -4 * (SCALE as int) <= u <= 4 * (SCALE as int),
        -SCALE <= rl <= SCALE,
    ensures
        -4 * (SCALE as int) <= tdiv(u * rl, SCALE as int) <= 4 * (SCALE as int),
{
    assert(-(4 * (SCALE as int) * SCALE) <= u * rl <= 4 * (SCALE as int) * SCALE)
        by (nonlinear_arith)
        requires -4 * (SCALE as int) <= u <= 4 * (SCALE as int) && -SCALE <= rl <= SCALE;
    lemma_tdiv_bound(u * rl, SCALE as int, 4 * SCALE as int);
}

/// A span component scaled by a screen coordinate in `[0, 1]` stays
/// within the camera bound.
proof fn lemma_span_bound(h: int, s: int)
    requires
        -(CAM_MAX as int) <= h <= CAM_MAX as int,
        0 <= s <= SCALE,
    ensures
        -(CAM_MAX as int) <= tdiv(h * s, SCALE as int) <= CAM_MAX as int,
{
    assert(-((CAM_MAX as int) * SCALE) <= h * s <= (CAM_MAX as int) * SCALE) by (nonlinear_arith)
        requires -(CAM_MAX as int) <= h <= CAM_MAX as int && 0 <= s <= SCALE;
    lemma_tdiv_bound(h * s, SCALE as int, CAM_MAX as int);
}

} // verus!
