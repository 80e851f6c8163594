use raytracinginrust::camera::Camera;
use raytracinginrust::fixed::SCALE;
use raytracinginrust::hittable::{Hittable, List, Sphere};
use raytracinginrust::material::Material;
use raytracinginrust::ray::Ray;
use raytracinginrust::tracer::{color, gamma_byte, render_pixel, sky, T_LIMIT, T_MIN};
use raytracinginrust::vec3::{Color, Position, Vec3f};

fn pos(x: i64, y: i64, z: i64) -> Vec3f<Position> {
    Vec3f::new(x, y, z)
}

fn col(x: i64, y: i64, z: i64) -> Vec3f<Color> {
    Vec3f::new(x, y, z)
}

fn gray() -> Material {
    Material::lambertian(col(SCALE / 2, SCALE / 2, SCALE / 2))
}

const UNIT_TOL: i64 = 67108864;

#[test]
fn vec_arithmetic_exact() {
    let a = pos(SCALE, 2 * SCALE, -SCALE);
    let b = pos(3 * SCALE, -SCALE, 4 * SCALE);
    let s = a.add(b);
    assert_eq!((s.x(), s.y(), s.z()), (4 * SCALE, SCALE, 3 * SCALE));
    let d = a.sub(b);
    assert_eq!((d.x(), d.y(), d.z()), (-2 * SCALE, 3 * SCALE, -5 * SCALE));
    let n = a.neg();
    assert_eq!((n.x(), n.y(), n.z()), (-SCALE, -2 * SCALE, SCALE));
    assert_eq!(a.dot(b), (3 - 2 - 4) * SCALE * SCALE);
    let c = pos(SCALE, 0, 0).cross(pos(0, SCALE, 0));
    assert_eq!((c.x(), c.y(), c.z()), (0, 0, SCALE * SCALE));
}

#[test]
fn magnitude_and_unit_of_three_four_five() {
    let v = pos(3 * SCALE, 4 * SCALE, 0);
    assert_eq!(v.squared_length(), 25 * SCALE * SCALE);
    assert_eq!(v.magnitude(), 5 * SCALE);
    let u = v.unit();
    // 3/5 and 4/5 in fixed point, truncated.
    assert_eq!(u.x(), 3 * SCALE / 5);
    assert_eq!(u.y(), 4 * SCALE / 5);
    assert_eq!(u.z(), 0);
}

#[test]
fn unit_length_within_tolerance() {
    let v = pos(12345, -65432, 9999);
    let u = v.unit();
    let q = u.squared_length();
    assert!(q >= SCALE * SCALE - UNIT_TOL);
    assert!(q <= SCALE * SCALE + UNIT_TOL);
}

#[test]
fn reflect_flips_normal_component() {
    let v = pos(SCALE, -SCALE, 0);
    let n = pos(0, SCALE, 0);
    let r = v.reflect(n);
    assert_eq!((r.x(), r.y(), r.z()), (SCALE, SCALE, 0));
}

#[test]
fn refract_total_internal_reflection_is_none() {
    // Grazing exit from a dense medium: the discriminant is negative.
    let v = pos(SCALE, -6553, 0);
    let n = pos(0, SCALE, 0);
    assert!(v.refract(n, 3 * SCALE / 2).is_none());
}

#[test]
fn color_accessors_match_components() {
    let c = col(1, 2, 3);
    assert_eq!((c.r(), c.g(), c.b()), (1, 2, 3));
    assert_eq!((c.x(), c.y(), c.z()), (1, 2, 3));
    let f = Vec3f::<Color>::from([7, 8, 9]);
    assert_eq!((f.r(), f.g(), f.b()), (7, 8, 9));
    let rep = Vec3f::<Color>::repeat(5);
    assert_eq!((rep.x(), rep.y(), rep.z()), (5, 5, 5));
    let dflt: Vec3f<Position> = Default::default();
    assert!(dflt.is_zero());
}

#[test]
fn map_applies_componentwise() {
    let v = pos(1, -2, 3);
    let m = v.map(|x| x * 2);
    assert_eq!((m.x(), m.y(), m.z()), (2, -4, 6));
}

#[test]
fn ray_point_evaluator() {
    let r = Ray { a: pos(0, 0, 10 * SCALE), b: pos(0, 0, -SCALE) };
    assert_eq!(r.origin().z(), 10 * SCALE);
    assert_eq!(r.direction().z(), -SCALE);
    let p = r.point_at_parameter(4 * SCALE);
    assert_eq!((p.x(), p.y(), p.z()), (0, 0, 6 * SCALE));
}

#[test]
fn sphere_head_on_hit_at_d_minus_r() {
    // A sphere of radius 2 at the origin, a ray from z = 10 aiming at
    // the center: the hit is at t = 8, point (0, 0, 2), normal +z.
    let s = Sphere { center: pos(0, 0, 0), radius: 2 * SCALE, material: gray() };
    let ray = Ray { a: pos(0, 0, 10 * SCALE), b: pos(0, 0, -SCALE) };
    let h = s.hit(ray, T_MIN, T_LIMIT).expect("head-on ray must hit");
    assert_eq!(h.t, 8 * SCALE);
    assert_eq!((h.p.x(), h.p.y(), h.p.z()), (0, 0, 2 * SCALE));
    assert_eq!((h.normal.x(), h.normal.y(), h.normal.z()), (0, 0, SCALE));
    // Front face: the outward normal opposes the incoming direction.
    assert!(h.normal.dot(ray.b) < 0);
}

#[test]
fn sphere_miss_reports_no_hit() {
    // Closest approach 3 units, radius 1: no hit.
    let s = Sphere { center: pos(0, 0, 0), radius: SCALE, material: gray() };
    let ray = Ray { a: pos(0, 3 * SCALE, 10 * SCALE), b: pos(0, 0, -SCALE) };
    assert!(s.hit(ray, T_MIN, T_LIMIT).is_none());
}

#[test]
fn sphere_hit_normal_is_unit() {
    let s = Sphere { center: pos(0, 0, 0), radius: 2 * SCALE, material: gray() };
    let ray = Ray { a: pos(SCALE, SCALE / 2, 10 * SCALE), b: pos(0, 0, -SCALE) };
    let h = s.hit(ray, T_MIN, T_LIMIT).expect("oblique ray must hit");
    let q = h.normal.squared_length();
    assert!(q >= SCALE * SCALE - UNIT_TOL);
    assert!(q <= SCALE * SCALE + UNIT_TOL);
}

#[test]
fn aggregate_picks_nearest_of_two_spheres() {
    let near = Sphere {
        center: pos(0, 0, SCALE),
        radius: SCALE,
        material: Material::metal(col(SCALE, 0, 0), 0),
    };
    let far = Sphere { center: pos(0, 0, 0), radius: SCALE, material: gray() };
    let ray = Ray { a: pos(0, 0, 10 * SCALE), b: pos(0, 0, -SCALE) };
    let t_near = near.hit(ray, T_MIN, T_LIMIT).unwrap().t;
    let t_far = far.hit(ray, T_MIN, T_LIMIT).unwrap().t;
    assert!(t_near < t_far);
    let mut world: List<Sphere> = List { list: vec![far] };
    world.push(near);
    assert_eq!(world.list.len(), 2);
    let h = world.hit(ray, T_MIN, T_LIMIT).expect("aggregate must hit");
    assert_eq!(h.t, t_near);
    assert!(matches!(h.material, Material::Metal { .. }));
}

#[test]
fn lambertian_always_scatters_from_hit_point() {
    let s = Sphere { center: pos(0, 0, 0), radius: 2 * SCALE, material: gray() };
    let ray = Ray { a: pos(0, 0, 10 * SCALE), b: pos(0, 0, -SCALE) };
    let h = s.hit(ray, T_MIN, T_LIMIT).unwrap();
    for _ in 0..32 {
        let (attenuation, scattered) = h.material.scatter(ray, h).expect("lambertian scatters");
        assert_eq!(
            (attenuation.r(), attenuation.g(), attenuation.b()),
            (SCALE / 2, SCALE / 2, SCALE / 2)
        );
        assert_eq!((scattered.a.x(), scattered.a.y(), scattered.a.z()), (0, 0, 2 * SCALE));
        assert!(!scattered.b.is_zero());
    }
}

#[test]
fn metal_reflection_law_with_zero_fuzz() {
    // Flat-equivalent normal +y; incoming at 45 degrees. With fuzz 0
    // the scattered direction satisfies the reflection law exactly.
    let m = Material::metal(col(SCALE, SCALE, SCALE), 0);
    let s = Sphere { center: pos(0, -1000 * SCALE, 0), radius: 1000 * SCALE, material: m };
    let ray = Ray { a: pos(-10 * SCALE, 10 * SCALE, 0), b: pos(SCALE, -SCALE, 0) };
    let h = s.hit(ray, T_MIN, T_LIMIT).expect("must hit the plane-like sphere");
    let (_, scattered) = m.scatter(ray, h).expect("metal must scatter upward");
    let u = ray.b.unit();
    assert_eq!(scattered.b.dot(h.normal), -u.dot(h.normal));
    assert!(scattered.b.dot(h.normal) > 0);
}

#[test]
fn metal_absorbs_inward_scatter() {
    let m = Material::metal(col(SCALE, SCALE, SCALE), 0);
    // A hit record with normal +y and an incoming ray leaving along +y:
    // the reflected direction points into the surface and is absorbed.
    let s = Sphere { center: pos(0, -1000 * SCALE, 0), radius: 1000 * SCALE, material: m };
    let down = Ray { a: pos(0, 10 * SCALE, 0), b: pos(0, -SCALE, 0) };
    let mut h = s.hit(down, T_MIN, T_LIMIT).expect("must hit");
    h.normal = h.normal.neg();
    let up = Ray { a: down.a, b: down.b };
    assert!(m.scatter(up, h).is_none());
}

#[test]
fn dielectric_vacuum_match_is_undeviated() {
    // Refractive index 1.0: an entering ray continues along its own
    // unit direction, attenuated only by opaque white.
    let m = Material::dielectric(SCALE);
    let s = Sphere { center: pos(0, 0, 0), radius: 2 * SCALE, material: m };
    let ray = Ray { a: pos(0, 0, 10 * SCALE), b: pos(0, 0, -SCALE) };
    let h = s.hit(ray, T_MIN, T_LIMIT).unwrap();
    let (attenuation, scattered) = m.scatter(ray, h).expect("vacuum glass scatters");
    assert_eq!((attenuation.r(), attenuation.g(), attenuation.b()), (SCALE, SCALE, SCALE));
    let u = ray.b.unit();
    assert_eq!((scattered.b.x(), scattered.b.y(), scattered.b.z()), (u.x(), u.y(), u.z()));
}

#[test]
fn estimate_at_recursion_cap_is_black() {
    let s = Sphere { center: pos(0, 0, 0), radius: 2 * SCALE, material: gray() };
    let world: List<Sphere> = List { list: vec![s] };
    let ray = Ray { a: pos(0, 0, 10 * SCALE), b: pos(0, 0, -SCALE) };
    let c = color(ray, &world, 50);
    assert_eq!((c.r(), c.g(), c.b()), (0, 0, 0));
}

#[test]
fn sky_gradient_exact_endpoints() {
    let world: List<Sphere> = List { list: vec![] };
    let up = Ray { a: pos(0, 0, 0), b: pos(0, SCALE, 0) };
    let c = color(up, &world, 0);
    assert_eq!((c.r(), c.g(), c.b()), (SCALE / 2, 45875, SCALE));
    let down = Ray { a: pos(0, 0, 0), b: pos(0, -SCALE, 0) };
    let c = color(down, &world, 0);
    assert_eq!((c.r(), c.g(), c.b()), (SCALE, SCALE, SCALE));
}

#[test]
fn sky_gradient_bounds_for_oblique_rays() {
    let dirs = [
        pos(SCALE, SCALE / 3, -SCALE / 2),
        pos(-9999, 12345, 54321),
        pos(7, -3, 11),
        pos(SCALE, 0, 0),
    ];
    for d in dirs {
        let r = sky(Ray { a: pos(0, 0, 0), b: d });
        assert!(SCALE / 2 <= r.r() && r.r() <= SCALE);
        assert!(45875 <= r.g() && r.g() <= SCALE);
        assert_eq!(r.b(), SCALE);
    }
}

#[test]
fn random_unit_ball_samples_stay_inside() {
    for _ in 0..200 {
        let v = Vec3f::<Position>::random_in_unit_space();
        assert!(v.squared_length() < SCALE * SCALE);
    }
    for _ in 0..200 {
        let v = Vec3f::<Position>::random_in_unit_disk();
        assert!(v.squared_length() < SCALE * SCALE);
        assert_eq!(v.z(), 0);
    }
}

#[test]
fn gamma_byte_quantization() {
    assert_eq!(gamma_byte(0), 0);
    assert_eq!(gamma_byte(SCALE), 255);
    // sqrt(0.25) = 0.5 -> 127 after truncation.
    assert_eq!(gamma_byte(SCALE / 4), 127);
}

#[test]
fn camera_builds_and_shoots_valid_rays() {
    let cam = Camera::new(
        pos(13 * SCALE, 2 * SCALE, 3 * SCALE),
        pos(0, 0, 0),
        pos(0, SCALE, 0),
        11556,          // tan(10 degrees), fixed point
        116508,         // 16:9 aspect ratio
        6554,           // aperture 0.1
        10 * SCALE,     // focus distance
    )
    .expect("a sane camera must build");
    for _ in 0..16 {
        let ray = cam.ray(SCALE / 2, SCALE / 2).expect("center ray exists");
        assert!(!ray.b.is_zero());
        // The ray points from the eye roughly toward the origin.
        assert!(ray.b.x() < 0);
    }
}

#[test]
fn camera_ray_deterministic_with_closed_aperture() {
    // With aperture zero the lens offset vanishes, so the generated
    // ray does not depend on the aperture draw.
    let cam = Camera::new(
        pos(13 * SCALE, 2 * SCALE, 3 * SCALE),
        pos(0, 0, 0),
        pos(0, SCALE, 0),
        11556,
        116508,
        0,
        10 * SCALE,
    )
    .unwrap();
    let r1 = cam.ray(SCALE / 3, SCALE / 4).expect("ray exists");
    let r2 = cam.ray(SCALE / 3, SCALE / 4).expect("ray exists");
    assert_eq!((r1.a.x(), r1.a.y(), r1.a.z()), (r2.a.x(), r2.a.y(), r2.a.z()));
    assert_eq!((r1.b.x(), r1.b.y(), r1.b.z()), (r2.b.x(), r2.b.y(), r2.b.z()));
}

#[test]
fn camera_rejects_degenerate_geometry() {
    // Eye and target coincide.
    assert!(Camera::new(
        pos(0, 0, 0),
        pos(0, 0, 0),
        pos(0, SCALE, 0),
        11556,
        116508,
        0,
        10 * SCALE,
    )
    .is_none());
    // Up vector parallel to the view axis.
    assert!(Camera::new(
        pos(0, 10 * SCALE, 0),
        pos(0, 0, 0),
        pos(0, SCALE, 0),
        11556,
        116508,
        0,
        10 * SCALE,
    )
    .is_none());
}

#[test]
fn render_pixel_produces_opaque_bytes() {
    let cam = Camera::new(
        pos(13 * SCALE, 2 * SCALE, 3 * SCALE),
        pos(0, 0, 0),
        pos(0, SCALE, 0),
        11556,
        116508,
        6554,
        10 * SCALE,
    )
    .unwrap();
    let world: List<Sphere> = List {
        list: vec![Sphere { center: pos(0, 0, 0), radius: SCALE, material: gray() }],
    };
    let (_r, _g, _b, a) = render_pixel(&cam, &world, 8, 8, 4, 3, 3);
    assert_eq!(a, 255);
}

#[test]
fn monte_carlo_gray_sphere_converges_to_shaded_sky() {
    // A huge Lambertian sphere of albedo one half lit by the sky from
    // above: the average over many samples settles strictly between
    // black and the overhead sky color, and keeps the sky's channel
    // ordering (blue brightest).
    let s = Sphere {
        center: pos(0, -1000 * SCALE, 0),
        radius: 1000 * SCALE,
        material: gray(),
    };
    let world: List<Sphere> = List { list: vec![s] };
    let ray = Ray { a: pos(0, 5 * SCALE, 0), b: pos(0, -SCALE, 0) };
    let ns: i64 = 2000;
    let mut sum = Vec3f::<Color>::repeat(0);
    for _ in 0..ns {
        sum = sum.add(color(ray, &world, 0));
    }
    let avg = sum.div_int(ns);
    for ch in [avg.r(), avg.g(), avg.b()] {
        assert!(ch > SCALE / 16, "channel too dark: {ch}");
        assert!(ch < SCALE, "channel too bright: {ch}");
    }
    assert!(avg.b() >= avg.g() && avg.g() >= avg.r());
}
