//! End-to-end and unit tests over concrete fixed-point values.

use raytracer::camera::{Camera, ConfigError};
use raytracer::common::{clamp, infinity, random_double, rng_from_seed};
use raytracer::fx::Fx;
use raytracer::hittable::{HitRecord, Hittable, HittableList, Sphere};
use raytracer::material::{Dielectric, Lambertian, Material, Metal};
use raytracer::ray::Ray;
use raytracer::vec3::{cross, dot, Vec3};

const ONE: i128 = 65536;

fn fx(raw: i128) -> Fx {
    Fx::from_raw(raw)
}

fn v3(x: i128, y: i128, z: i128) -> Vec3 {
    Vec3::new(fx(x), fx(y), fx(z))
}

fn gray() -> Vec3 {
    v3(ONE / 2, ONE / 2, ONE / 2)
}

#[test]
fn fx_mul_truncates_toward_zero() {
    assert_eq!(fx(98304).mul(fx(98304)).raw, 147456); // 1.5 * 1.5 == 2.25
    assert_eq!(fx(-98304).mul(fx(98304)).raw, -147456);
    assert_eq!(fx(3).mul(fx(3)).raw, 0);
    assert_eq!(fx(-3).mul(fx(3)).raw, 0); // toward zero, not floor
}

#[test]
fn fx_div_and_sqrt_exact_values() {
    assert_eq!(Fx::from_int(3).div(Fx::from_int(2)).raw, 98304);
    assert_eq!(Fx::from_int(4).sqrt().raw, 2 * ONE);
    assert_eq!(Fx::from_int(2).sqrt().raw, 92681); // floor(sqrt(2) * 65536)
    assert_eq!(fx(0).sqrt().raw, 0);
}

#[test]
fn clamp_and_infinity() {
    assert_eq!(clamp(fx(-5), fx(0), fx(10)).raw, 0);
    assert_eq!(clamp(fx(15), fx(0), fx(10)).raw, 10);
    assert_eq!(clamp(fx(7), fx(0), fx(10)).raw, 7);
    assert!(infinity().raw > 1_000_000 * ONE);
}

#[test]
fn normalize_axis_is_exact_unit() {
    let v = v3(0, 2 * ONE, 0);
    let n = v.normalize();
    assert_eq!((n.x.raw, n.y.raw, n.z.raw), (0, ONE, 0));
}

#[test]
fn normalize_zero_stays_zero() {
    let z = Vec3::origin();
    let n = z.normalize();
    assert_eq!((n.x.raw, n.y.raw, n.z.raw), (0, 0, 0));
}

#[test]
fn normalize_has_near_unit_length() {
    let v = v3(ONE, 2 * ONE, 3 * ONE);
    let ls = v.normalize().length_squared();
    assert!(ls.raw >= 58982 && ls.raw <= 72090, "length_squared {}", ls.raw);
}

#[test]
fn reflect_flips_dot_and_keeps_length_on_axis_normal() {
    let v = v3(ONE, -ONE, ONE / 2);
    let n = v3(0, ONE, 0);
    let r = v.reflect(n);
    assert_eq!((r.x.raw, r.y.raw, r.z.raw), (ONE, ONE, ONE / 2));
    assert_eq!(dot(r, n).raw, -dot(v, n).raw);
    assert_eq!(r.length_squared().raw, v.length_squared().raw);
}

#[test]
fn cross_of_axes() {
    let x = v3(ONE, 0, 0);
    let y = v3(0, ONE, 0);
    let c = cross(x, y);
    assert_eq!((c.x.raw, c.y.raw, c.z.raw), (0, 0, ONE));
}

#[test]
fn schlick_at_cos_one_is_r0() {
    // ratio 3: r0 = ((1-3)/(1+3))^2 = 0.25 exactly
    let r = Dielectric::reflectance(fx(ONE), Fx::from_int(3));
    assert_eq!(r.raw, ONE / 4);
}

#[test]
fn schlick_monotone_in_cosine() {
    let ratio = fx(ONE / 2);
    let r_full = Dielectric::reflectance(fx(ONE), ratio).raw;
    let r_mid = Dielectric::reflectance(fx(ONE / 2), ratio).raw;
    let r_low = Dielectric::reflectance(fx(ONE / 4), ratio).raw;
    let r_zero = Dielectric::reflectance(fx(0), ratio).raw;
    assert!(r_full <= r_mid && r_mid <= r_low && r_low <= r_zero);
    assert!(r_zero <= ONE);
}

fn lambertian_gray() -> Material {
    Material::Lambertian(Lambertian::new(gray()))
}

#[test]
fn sphere_miss_on_negative_discriminant() {
    let s = Sphere::new(v3(0, 10 * ONE, -5 * ONE), fx(ONE), lambertian_gray());
    let ray = Ray::new(Vec3::origin(), v3(0, 0, -ONE));
    assert!(s.hit(&ray, fx(66), infinity()).is_none());
}

#[test]
fn sphere_miss_when_roots_outside_interval() {
    let s = Sphere::new(v3(0, 0, -5 * ONE), fx(ONE), lambertian_gray());
    let ray = Ray::new(Vec3::origin(), v3(0, 0, -ONE));
    // both roots (4 and 6) lie beyond t_max = 1
    assert!(s.hit(&ray, fx(66), Fx::from_int(1)).is_none());
    // and before t_min = 10
    assert!(s.hit(&ray, Fx::from_int(10), Fx::from_int(12)).is_none());
}

#[test]
fn sphere_hit_reports_near_root_and_front_face() {
    let s = Sphere::new(v3(0, 0, -5 * ONE), fx(ONE), lambertian_gray());
    let ray = Ray::new(Vec3::origin(), v3(0, 0, -ONE));
    let rec = s.hit(&ray, fx(66), infinity()).expect("hit");
    assert_eq!(rec.t.raw, 4 * ONE);
    assert!(rec.front_face);
    assert_eq!((rec.point.x.raw, rec.point.y.raw, rec.point.z.raw), (0, 0, -4 * ONE));
    assert_eq!((rec.normal.x.raw, rec.normal.y.raw, rec.normal.z.raw), (0, 0, ONE));
}

#[test]
fn scene_reports_minimum_distance_hit() {
    let far = Sphere::new(v3(0, 0, -5 * ONE), fx(ONE), lambertian_gray());
    let near_mat = Material::Metal(Metal::new(gray(), fx(0)));
    let near = Sphere::new(v3(0, 0, -3 * ONE), fx(ONE), near_mat);
    let mut world = HittableList::new();
    world.add(far);
    world.add(near);
    let ray = Ray::new(Vec3::origin(), v3(0, 0, -ONE));
    let rec = world.hit(&ray, fx(66), infinity()).expect("hit");
    assert_eq!(rec.t.raw, 2 * ONE);
    assert_eq!(rec.material, near_mat);
    // agrees with the minimum over the individual tests
    let t_far = far.hit(&ray, fx(66), infinity()).expect("far hit").t.raw;
    let t_near = near.hit(&ray, fx(66), infinity()).expect("near hit").t.raw;
    assert_eq!(rec.t.raw, t_far.min(t_near));
}

#[test]
fn empty_scene_reports_no_hit() {
    let world = HittableList::new();
    let ray = Ray::new(Vec3::origin(), v3(0, 0, -ONE));
    assert!(world.hit(&ray, fx(66), infinity()).is_none());
}

#[test]
fn ray_color_at_depth_zero_is_black() {
    let mut world = HittableList::new();
    world.add(Sphere::new(v3(0, 0, -5 * ONE), fx(ONE), lambertian_gray()));
    let mut rng = rng_from_seed(3);
    let ray = Ray::new(Vec3::origin(), v3(0, 0, -ONE));
    let c = Camera::ray_color(&ray, &world, 0, &mut rng);
    assert_eq!((c.x.raw, c.y.raw, c.z.raw), (0, 0, 0));
}

#[test]
fn background_gradient_endpoints() {
    let world = HittableList::new();
    let mut rng = rng_from_seed(3);
    let up = Ray::new(Vec3::origin(), v3(0, ONE, 0));
    let c = Camera::ray_color(&up, &world, 5, &mut rng);
    assert_eq!((c.x.raw, c.y.raw, c.z.raw), (ONE / 2, 45875, ONE));
    let down = Ray::new(Vec3::origin(), v3(0, -ONE, 0));
    let w = Camera::ray_color(&down, &world, 5, &mut rng);
    assert_eq!((w.x.raw, w.y.raw, w.z.raw), (ONE, ONE, ONE));
}

fn surface_rec(normal: Vec3, front_face: bool, material: Material) -> HitRecord {
    HitRecord { point: Vec3::origin(), normal, t: Fx::from_int(1), front_face, material }
}

#[test]
fn metal_absorbs_reflection_into_surface() {
    let m = Metal::new(gray(), fx(0));
    let rec = surface_rec(v3(0, 0, ONE), true, Material::Metal(m));
    // incoming along the normal: the mirror reflection points into the surface
    let ray = Ray::new(v3(0, 0, ONE), v3(0, 0, ONE));
    assert!(m.scatter_with(Vec3::origin(), &ray, &rec).is_none());
}

#[test]
fn metal_reflects_away_from_surface() {
    let m = Metal::new(gray(), fx(0));
    let rec = surface_rec(v3(0, 0, ONE), true, Material::Metal(m));
    let ray = Ray::new(v3(0, 0, ONE), v3(0, 0, -ONE));
    let (att, sc) = m.scatter_with(Vec3::origin(), &ray, &rec).expect("scatter");
    assert_eq!(att, gray());
    assert_eq!((sc.direction.x.raw, sc.direction.y.raw, sc.direction.z.raw), (0, 0, ONE));
    assert_eq!(sc.origin, rec.point);
}

#[test]
fn metal_fuzz_is_clamped_at_construction() {
    assert_eq!(Metal::new(gray(), Fx::from_int(3)).fuzz.raw, ONE);
    assert_eq!(Metal::new(gray(), Fx::from_int(-1)).fuzz.raw, 0);
    assert_eq!(Metal::new(gray(), fx(ONE / 2)).fuzz.raw, ONE / 2);
}

#[test]
fn lambertian_scatters_normal_plus_unit() {
    let l = Lambertian::new(gray());
    let rec = surface_rec(v3(0, ONE, 0), true, Material::Lambertian(l));
    let (att, sc) = l.scatter_with(v3(0, 0, ONE), &rec);
    assert_eq!(att, gray());
    assert_eq!((sc.direction.x.raw, sc.direction.y.raw, sc.direction.z.raw), (0, ONE, ONE));
}

#[test]
fn lambertian_degenerate_direction_falls_back_to_normal() {
    let l = Lambertian::new(gray());
    let rec = surface_rec(v3(0, ONE, 0), true, Material::Lambertian(l));
    let (_, sc) = l.scatter_with(v3(0, -ONE, 0), &rec);
    assert_eq!((sc.direction.x.raw, sc.direction.y.raw, sc.direction.z.raw), (0, ONE, 0));
}

#[test]
fn dielectric_refracts_straight_through() {
    let d = Dielectric::new(fx(98304)); // index 1.5
    let rec = surface_rec(v3(0, 0, ONE), true, Material::Dielectric(d));
    let ray = Ray::new(v3(0, 0, ONE), v3(0, 0, -ONE));
    // a coin of one keeps the Schlick toss from forcing a reflection
    let (att, sc) = d.scatter_with(fx(ONE), &ray, &rec).expect("scatter");
    assert_eq!((att.x.raw, att.y.raw, att.z.raw), (ONE, ONE, ONE));
    assert_eq!((sc.direction.x.raw, sc.direction.y.raw, sc.direction.z.raw), (0, 0, -ONE));
}

#[test]
fn dielectric_degenerate_direction_scatters_along_normal() {
    let d = Dielectric::new(fx(98304)); // index 1.5
    let rec = surface_rec(v3(0, ONE, 0), true, Material::Dielectric(d));
    // a sub-quantum incoming direction normalizes to zero; the Schlick toss
    // at cosine zero always reflects, and the reflected zero vector falls
    // back to the oriented normal instead of being absorbed
    let ray = Ray::new(v3(0, ONE, 0), v3(1, 0, 0));
    let (att, sc) = d.scatter_with(fx(0), &ray, &rec).expect("scatter");
    assert_eq!((att.x.raw, att.y.raw, att.z.raw), (ONE, ONE, ONE));
    assert_eq!((sc.direction.x.raw, sc.direction.y.raw, sc.direction.z.raw), (0, ONE, 0));
}

#[test]
fn hemisphere_core_keeps_or_flips() {
    let n = v3(0, 0, ONE);
    let kept = Vec3::on_hemisphere_with(v3(0, 0, ONE), n);
    assert_eq!((kept.x.raw, kept.y.raw, kept.z.raw), (0, 0, ONE));
    let flipped = Vec3::on_hemisphere_with(v3(ONE, 0, -ONE), n);
    assert_eq!((flipped.x.raw, flipped.y.raw, flipped.z.raw), (-ONE, 0, ONE));
}

#[test]
fn dielectric_total_internal_reflection() {
    let d = Dielectric::new(fx(98304)); // index 1.5, exiting the medium
    let rec = surface_rec(v3(0, ONE, 0), false, Material::Dielectric(d));
    // grazing incidence: sin ~ 0.8, so 1.5 * sin > 1 forces a reflection
    let ray = Ray::new(v3(0, ONE, 0), v3(52429, -39322, 0));
    let (_, sc) = d.scatter_with(fx(ONE), &ray, &rec).expect("scatter");
    // the vertical component flips sign; the horizontal keeps its direction
    assert!(sc.direction.y.raw > 30000, "y {}", sc.direction.y.raw);
    assert!(sc.direction.x.raw > 40000, "x {}", sc.direction.x.raw);
}

#[test]
fn format_color_quantizes_with_gamma() {
    let c = v3(ONE / 4, ONE, 0);
    assert_eq!(c.format_color(1), (128, 255, 0));
}

#[test]
fn format_color_averages_over_samples() {
    // 4 samples summing to 1.0 average to 0.25; sqrt gives 0.5
    let c = v3(ONE, 0, 4 * ONE);
    assert_eq!(c.format_color(4), (128, 0, 255));
}

fn default_camera(width: u64, samples: u64, depth: u64) -> Camera {
    Camera::new(
        Fx::from_int(16).div(Fx::from_int(9)),
        width,
        samples,
        depth,
        fx(ONE), // 90 degree vertical field of view
        Vec3::origin(),
        v3(0, 0, -ONE),
        v3(0, ONE, 0),
        fx(0),
        fx(ONE),
    )
    .expect("camera")
}

#[test]
fn camera_derives_exact_viewport() {
    let camera = default_camera(400, 1, 1);
    let h = camera.horizontal;
    assert_eq!((h.x.raw, h.y.raw, h.z.raw), (233016, 0, 0));
    let v = camera.vertical;
    assert_eq!((v.x.raw, v.y.raw, v.z.raw), (0, -131072, 0));
    let ulc = camera.upper_left_corner;
    assert_eq!((ulc.x.raw, ulc.y.raw, ulc.z.raw), (-116508, ONE, -ONE));
    assert_eq!(camera.lens_radius.raw, 0);
}

#[test]
fn corner_ray_is_deterministic_given_draws() {
    let camera = default_camera(400, 1, 1);
    let ray = camera.get_ray_with(fx(0), fx(0), Vec3::origin(), 0, 0);
    assert_eq!((ray.origin.x.raw, ray.origin.y.raw, ray.origin.z.raw), (0, 0, 0));
    let d = ray.direction;
    assert_eq!((d.x.raw, d.y.raw, d.z.raw), (-116508, ONE, -ONE));
}

#[test]
fn camera_rejects_invalid_dimensions() {
    let r = Camera::new(
        Fx::from_int(16).div(Fx::from_int(9)),
        1,
        1,
        1,
        fx(ONE),
        Vec3::origin(),
        v3(0, 0, -ONE),
        v3(0, ONE, 0),
        fx(0),
        fx(ONE),
    );
    assert_eq!(r.err(), Some(ConfigError::InvalidDimensions));
    // an extreme aspect ratio drives the derived height below two rows
    let r2 = Camera::new(
        Fx::from_int(100),
        100,
        1,
        1,
        fx(ONE),
        Vec3::origin(),
        v3(0, 0, -ONE),
        v3(0, ONE, 0),
        fx(0),
        fx(ONE),
    );
    assert_eq!(r2.err(), Some(ConfigError::InvalidDimensions));
}

#[test]
fn camera_rejects_degenerate_view() {
    let r = Camera::new(
        Fx::from_int(16).div(Fx::from_int(9)),
        64,
        1,
        1,
        fx(ONE),
        v3(ONE, ONE, ONE),
        v3(ONE, ONE, ONE), // look_from == look_at
        v3(0, ONE, 0),
        fx(0),
        fx(ONE),
    );
    assert_eq!(r.err(), Some(ConfigError::DegenerateView));
}

fn two_sphere_scene() -> HittableList {
    let mut world = HittableList::new();
    world.add(Sphere::new(v3(0, 0, -ONE), fx(ONE / 2), lambertian_gray()));
    world.add(Sphere::new(v3(0, -6553600 - ONE / 2, -ONE), Fx::from_int(100), lambertian_gray()));
    world
}

#[test]
fn render_produces_full_grid() {
    let camera = default_camera(400, 1, 1);
    assert_eq!(camera.image_width, 400);
    assert_eq!(camera.image_height, 225);
    let world = two_sphere_scene();
    let mut rng = rng_from_seed(7);
    let image = camera.render(&world, &mut rng);
    assert_eq!(image.width, 400);
    assert_eq!(image.height, 225);
    assert_eq!(image.pixels.len(), 400 * 225);
    // the grid shows both sphere (dark, depth-exhausted) and sky pixels
    assert!(image.pixels.iter().any(|p| *p == (0, 0, 0)));
    assert!(image.pixels.iter().any(|p| p.2 > 200));
}

#[test]
fn render_is_deterministic_under_one_seed() {
    let camera = default_camera(64, 2, 3);
    let world = two_sphere_scene();
    let mut rng1 = rng_from_seed(42);
    let img1 = camera.render(&world, &mut rng1);
    let mut rng2 = rng_from_seed(42);
    let img2 = camera.render(&world, &mut rng2);
    assert_eq!(img1.pixels, img2.pixels);
    let mut rng3 = rng_from_seed(43);
    let img3 = camera.render(&world, &mut rng3);
    assert_eq!(img3.pixels.len(), img1.pixels.len());
}

#[test]
fn render_at_depth_zero_is_all_black() {
    let camera = default_camera(64, 1, 0);
    let world = two_sphere_scene();
    let mut rng = rng_from_seed(5);
    let image = camera.render(&world, &mut rng);
    assert!(image.pixels.iter().all(|p| *p == (0, 0, 0)));
}

#[test]
fn range_draws_stay_strictly_below_max() {
    let mut rng = rng_from_seed(23);
    let min = fx(-ONE);
    let max = fx(ONE);
    for _ in 0..200 {
        let d = raytracer::common::random_double_range(&mut rng, min, max);
        assert!(min.raw <= d.raw && d.raw < max.raw);
    }
    let same = raytracer::common::random_double_range(&mut rng, fx(7), fx(7));
    assert_eq!(same.raw, 7);
}

#[test]
fn random_draws_stay_in_unit_interval() {
    let mut rng = rng_from_seed(11);
    for _ in 0..200 {
        let d = random_double(&mut rng);
        assert!(0 <= d.raw && d.raw < ONE);
    }
}

#[test]
fn random_unit_vectors_have_near_unit_length() {
    let mut rng = rng_from_seed(13);
    for _ in 0..50 {
        let u = Vec3::random_unit_vector(&mut rng);
        let ls = u.length_squared().raw;
        assert!(ls >= 65472 && ls <= 65600, "length_squared {}", ls);
    }
}

#[test]
fn normalize_of_quarter_unit_or_more_is_near_unit() {
    for v in [v3(ONE, 2 * ONE, 3 * ONE), v3(-ONE / 2, ONE / 3, 0), v3(700 * ONE, -1, 5)] {
        let ls = v.normalize().length_squared().raw;
        assert!(ls >= 65472 && ls <= 65600, "length_squared {}", ls);
    }
}

#[test]
fn random_hemisphere_aligns_with_normal() {
    let mut rng = rng_from_seed(17);
    let n = v3(0, ONE, 0);
    for _ in 0..50 {
        let u = Vec3::random_on_hemisphere(&mut rng, n);
        assert!(dot(u, n).raw >= 0);
    }
}

#[test]
fn random_disk_points_stay_in_disk_plane() {
    let mut rng = rng_from_seed(19);
    for _ in 0..50 {
        let p = Vec3::random_in_unit_disk(&mut rng);
        assert_eq!(p.z.raw, 0);
        assert!(p.length_squared().raw < ONE);
    }
}
