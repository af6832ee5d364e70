//! The intersection routines, the integrator, the encoder, and whole renders.

use raytrace::camera::Camera;
use raytrace::color::write_color;
use raytrace::fixed::UNIT;
use raytrace::hittable::{HitRecord, Hittable, HittableList, EPS, MAX_T};
use raytrace::ray::Ray;
use raytrace::render::{ray_color, render, render_pixel, render_row};
use raytrace::sphere::Sphere;
use raytrace::util::{clamp, Rng};
use raytrace::vec3::Vec3;

fn unit_scene() -> HittableList {
    let mut world = HittableList::new();
    world.add(Hittable::Sphere(Sphere::new(Vec3::new(0, 0, -UNIT), UNIT / 2)));
    world
}

#[test]
fn test_sphere_hit_head_on() {
    let sphere = Sphere::new(Vec3::new(0, 0, -UNIT), UNIT / 2);
    let ray = Ray::new(Vec3::new(0, 0, 0), Vec3::new(0, 0, -UNIT));
    let mut rec = HitRecord::new();
    let hit = sphere.hit(&ray, 0, MAX_T, &mut rec);
    assert!(hit);
    assert_eq!(rec.t, 500_000);
    assert_eq!(rec.point.x(), 0);
    assert_eq!(rec.point.y(), 0);
    assert_eq!(rec.point.z(), -500_000);
    assert_eq!(rec.normal.x(), 0);
    assert_eq!(rec.normal.y(), 0);
    assert_eq!(rec.normal.z(), UNIT);
    assert!(rec.front_face);
}

#[test]
fn test_sphere_miss() {
    let sphere = Sphere::new(Vec3::new(0, 0, -UNIT), UNIT / 2);
    let ray = Ray::new(Vec3::new(0, 0, 0), Vec3::new(0, 0, UNIT));
    let mut rec = HitRecord::new();
    assert!(!sphere.hit(&ray, 0, MAX_T, &mut rec));
}

#[test]
fn test_list_hit_returns_closest() {
    let ray = Ray::new(Vec3::new(0, 0, 0), Vec3::new(0, 0, -UNIT));

    let mut world = HittableList::new();
    world.add(Hittable::Sphere(Sphere::new(Vec3::new(0, 0, -UNIT), UNIT / 2)));
    world.add(Hittable::Sphere(Sphere::new(Vec3::new(0, 0, -3 * UNIT), UNIT / 2)));
    let mut rec = HitRecord::new();
    assert!(world.hit(&ray, EPS, MAX_T, &mut rec));
    assert_eq!(rec.t, 500_000);

    // The same two spheres in the opposite order still yield the closer hit.
    let mut reversed = HittableList::new();
    reversed.add(Hittable::Sphere(Sphere::new(Vec3::new(0, 0, -3 * UNIT), UNIT / 2)));
    reversed.add(Hittable::Sphere(Sphere::new(Vec3::new(0, 0, -UNIT), UNIT / 2)));
    let mut rec2 = HitRecord::new();
    assert!(reversed.hit(&ray, EPS, MAX_T, &mut rec2));
    assert_eq!(rec2.t, 500_000);
}

#[test]
fn test_overlapping_spheres_closest_wins() {
    // Two overlapping spheres; the ray enters the nearer surface first.
    let ray = Ray::new(Vec3::new(0, 0, 0), Vec3::new(0, 0, -UNIT));
    let mut world = HittableList::new();
    world.add(Hittable::Sphere(Sphere::new(Vec3::new(0, 0, -2 * UNIT), UNIT)));
    world.add(Hittable::Sphere(Sphere::new(Vec3::new(0, 0, -2 * UNIT - UNIT / 2), UNIT)));
    let mut rec = HitRecord::new();
    assert!(world.hit(&ray, EPS, MAX_T, &mut rec));
    assert_eq!(rec.t, UNIT);
}

#[test]
fn test_ray_color_depth_zero() {
    let world = unit_scene();
    let ray = Ray::new(Vec3::new(0, 0, 0), Vec3::new(0, 0, -UNIT));
    let mut rng = Rng::new(7);
    let c = ray_color(&ray, &world, 0, &mut rng);
    assert_eq!(c.x(), 0);
    assert_eq!(c.y(), 0);
    assert_eq!(c.z(), 0);
}

#[test]
fn test_sky_straight_up() {
    let world = HittableList::new();
    let ray = Ray::new(Vec3::new(0, 0, 0), Vec3::new(0, 2 * UNIT, 0));
    let mut rng = Rng::new(7);
    let c = ray_color(&ray, &world, 5, &mut rng);
    assert_eq!(c.x(), 500_000);
    assert_eq!(c.y(), 700_000);
    assert_eq!(c.z(), 1_000_000);
}

#[test]
fn test_sky_straight_down() {
    let world = HittableList::new();
    let ray = Ray::new(Vec3::new(0, 0, 0), Vec3::new(0, -2 * UNIT, 0));
    let mut rng = Rng::new(7);
    let c = ray_color(&ray, &world, 5, &mut rng);
    assert_eq!(c.x(), 1_000_000);
    assert_eq!(c.y(), 1_000_000);
    assert_eq!(c.z(), 1_000_000);
}

#[test]
fn test_camera_ray_values() {
    // The 16:9 aspect ratio at fixed point.
    let aspect: i64 = 1280 * UNIT / 720;
    let cam = Camera::new(aspect);
    let r = cam.get_ray(UNIT, UNIT);
    assert_eq!(r.origin().x(), 0);
    assert_eq!(r.origin().y(), 0);
    assert_eq!(r.origin().z(), 0);
    assert_eq!(r.direction().x(), 1_777_777);
    assert_eq!(r.direction().y(), 1_000_000);
    assert_eq!(r.direction().z(), -1_000_000);
}

#[test]
fn test_ray_at() {
    let r = Ray::new(Vec3::new(UNIT, 2 * UNIT, 3 * UNIT), Vec3::new(UNIT, 0, -UNIT));
    let p = r.at(2 * UNIT);
    assert_eq!(p.x(), 3 * UNIT);
    assert_eq!(p.y(), 2 * UNIT);
    assert_eq!(p.z(), UNIT);
}

#[test]
fn test_write_color_values() {
    // One sample: 0.25 gamma-corrects to 0.5, so the channel quantizes to 128.
    let rgb = write_color(Vec3::new(250_000, UNIT, 0), 1);
    assert_eq!(rgb.0, 128);
    assert_eq!(rgb.1, 255);
    assert_eq!(rgb.2, 0);
    // Averaging over four samples undoes a four-fold accumulation.
    let rgb2 = write_color(Vec3::new(1_000_000, 0, 4_000_000), 4);
    assert_eq!(rgb2.0, 128);
    assert_eq!(rgb2.1, 0);
    assert_eq!(rgb2.2, 255);
    // Values beyond the ceiling clamp rather than overflowing the channel.
    let rgb3 = write_color(Vec3::new(50 * UNIT, -UNIT, 999_000), 1);
    assert_eq!(rgb3.0, 255);
    assert_eq!(rgb3.1, 0);
    assert_eq!(rgb3.2, 255);
}

#[test]
fn test_clamp_edges() {
    assert_eq!(clamp(-5, 0, 10), 0);
    assert_eq!(clamp(15, 0, 10), 10);
    assert_eq!(clamp(7, 0, 10), 7);
    assert_eq!(clamp(0, 0, 10), 0);
    assert_eq!(clamp(10, 0, 10), 10);
}

#[test]
fn test_rng_deterministic() {
    let mut a = Rng::for_pixel(42, 3, 5);
    let mut b = Rng::for_pixel(42, 3, 5);
    for _ in 0..32 {
        assert_eq!(a.next_unit(), b.next_unit());
    }
    // A different pixel seeds a different stream somewhere in the prefix.
    let mut c = Rng::for_pixel(42, 5, 3);
    let mut d = Rng::for_pixel(42, 3, 5);
    let mut differs = false;
    for _ in 0..32 {
        if c.next_unit() != d.next_unit() {
            differs = true;
        }
    }
    assert!(differs);
}

#[test]
fn test_random_range_bounds() {
    let mut rng = Rng::new(99);
    for _ in 0..100 {
        let v = Vec3::random_range(&mut rng, -UNIT, UNIT);
        assert!(-UNIT <= v.x() && v.x() < UNIT);
        assert!(-UNIT <= v.y() && v.y() < UNIT);
        assert!(-UNIT <= v.z() && v.z() < UNIT);
    }
}

#[test]
fn test_random_in_unit_sphere_bounds() {
    let mut rng = Rng::new(123);
    for _ in 0..50 {
        let v = Vec3::random_in_unit_sphere(&mut rng);
        let q = v.length_squared();
        assert!(1 <= q && q < UNIT);
    }
}

#[test]
fn test_render_deterministic() {
    // Re-running the full render with the same seed is bit-identical.
    let world = unit_scene();
    let cam = Camera::new(1280 * UNIT / 720);
    let a = render(&world, &cam, 4, 3, 2, 3, 42);
    let b = render(&world, &cam, 4, 3, 2, 3, 42);
    assert_eq!(a.len(), 12);
    assert_eq!(b.len(), 12);
    for k in 0..a.len() {
        assert_eq!(a[k].x(), b[k].x());
        assert_eq!(a[k].y(), b[k].y());
        assert_eq!(a[k].z(), b[k].z());
    }
}

#[test]
fn test_render_matches_striped_rows() {
    // Assembling the image from rows rendered in a striped order, as a
    // worker pool would, reproduces the sequential render exactly.
    let world = unit_scene();
    let cam = Camera::new(1280 * UNIT / 720);
    let width: usize = 4;
    let height: usize = 5;
    let whole = render(&world, &cam, width, height, 2, 3, 7);
    let mut striped: Vec<Option<Vec<Vec3>>> = vec![None, None, None, None, None];
    for offset in 0..2usize {
        let mut j = offset;
        while j < height {
            striped[j] = Some(render_row(&world, &cam, j, width, height, 2, 3, 7));
            j += 2;
        }
    }
    for j in 0..height {
        let row = striped[j].as_ref().unwrap();
        assert_eq!(row.len(), width);
        for i in 0..width {
            let whole_px = whole[j * width + i];
            assert_eq!(row[i].x(), whole_px.x());
            assert_eq!(row[i].y(), whole_px.y());
            assert_eq!(row[i].z(), whole_px.z());
        }
    }
}

#[test]
fn test_render_pixel_accumulates_within_range() {
    let world = unit_scene();
    let cam = Camera::new(1280 * UNIT / 720);
    let samples: usize = 8;
    let c = render_pixel(&world, &cam, 1, 1, 4, 3, samples, 5, 11);
    let ceiling = (samples as i64) * UNIT;
    assert!(0 <= c.x() && c.x() <= ceiling);
    assert!(0 <= c.y() && c.y() <= ceiling);
    assert!(0 <= c.z() && c.z() <= ceiling);
}
