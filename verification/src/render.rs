//! The recursive Monte Carlo integrator and the pixel-sampling loop.

use vstd::prelude::*;
use crate::fixed::{UNIT, HALF_UNIT, tdiv, fits_i64, fx_mul, lemma_tdiv_shrinks, lemma_tdiv_mono,
    lemma_tdiv_exact, lemma_mul_bounds_both};
use crate::vec3::{Vec3, lsq_spec, unit_comp_spec, unit_sample_vec_spec, lemma_lsq_nonneg,
    lemma_len_lower};
use crate::ray::Ray;
use crate::hittable::{HittableList, HitRecord, Hittable, list_wf, list_hit_spec, ray_in_bounds,
    MAX_COORD, MAX_T, EPS};
use crate::camera::{Camera, camera_wf, camera_ray_spec};
use crate::color::Color;
use crate::util::{Rng, unit_sample_spec};

verus! {

/// The blue the sky fades to overhead.
pub const SKY_BLUE_R: i64 = 500_000;

/// The green channel of the overhead sky.
pub const SKY_BLUE_G: i64 = 700_000;

/// The interpolation weight of the sky gradient for a ray: half of one plus
/// the normalized direction's upward component, clamped into `[0, UNIT]`.
pub open spec fn sky_t_spec(r: Ray) -> int {
    let uy = unit_comp_spec(r.direction.y as int, r.direction);
    let t = tdiv(HALF_UNIT as int * (uy + UNIT), UNIT as int);
    if t < 0 {
        0
    } else if t > UNIT {
        UNIT as int
    } else {
        t
    }
}

/// The sky gradient: white at the horizon blended toward blue overhead,
/// exactly as the fixed-point blend computes it.
pub open spec fn sky_color_spec(r: Ray) -> Vec3 {
    let t = sky_t_spec(r);
    Vec3 {
        x: (tdiv((UNIT as int) * (UNIT - t), UNIT as int)
            + tdiv((SKY_BLUE_R as int) * t, UNIT as int)) as i64,
        y: (tdiv((UNIT as int) * (UNIT - t), UNIT as int)
            + tdiv((SKY_BLUE_G as int) * t, UNIT as int)) as i64,
        z: (tdiv((UNIT as int) * (UNIT - t), UNIT as int)
            + tdiv((UNIT as int) * t, UNIT as int)) as i64,
    }
}

/// Whether every channel of a color lies in `[0, UNIT]`, the range the
/// integrator returns: sky channels blend two terms summing to at most one
/// unit, and each bounce halves the result.
pub open spec fn color_in_range(c: Vec3) -> bool {
    &&& 0 <= c.x <= UNIT
    &&& 0 <= c.y <= UNIT
    &&& 0 <= c.z <= UNIT
}

/// The color the integrator returns and the sampler state it leaves behind,
/// as a function of the ray, the scene, the bounce budget and the starting
/// state. Mirrors `ray_color` exactly: spent budget yields black and consumes
/// nothing; a miss yields the sky and consumes nothing; a hit draws one
/// scatter direction and recurses on the bounced ray with the halved result,
/// except that a bounce leaving the supported coordinate range, or with a
/// nearly cancelled direction, is absorbed as black.
pub open spec fn ray_color_spec(r: Ray, objs: Seq<Hittable>, depth: int, s: u64) -> (Vec3, u64)
    decreases depth,
{
    if depth <= 0 {
        (Vec3 { x: 0i64, y: 0i64, z: 0i64 }, s)
    } else {
        match list_hit_spec(objs, r, EPS as int, MAX_T as int) {
            Some(h) => {
                let scat = unit_sample_vec_spec(s).0;
                let s1 = unit_sample_vec_spec(s).1;
                let dir = Vec3 {
                    x: (h.normal.x + scat.x) as i64,
                    y: (h.normal.y + scat.y) as i64,
                    z: (h.normal.z + scat.z) as i64,
                };
                if !(-MAX_COORD <= h.point.x <= MAX_COORD) || !(-MAX_COORD <= h.point.y
                    <= MAX_COORD) || !(-MAX_COORD <= h.point.z <= MAX_COORD) {
                    (Vec3 { x: 0i64, y: 0i64, z: 0i64 }, s1)
                } else if lsq_spec(dir) < 1 {
                    (Vec3 { x: 0i64, y: 0i64, z: 0i64 }, s1)
                } else {
                    let inner = ray_color_spec(Ray { origin: h.point, direction: dir }, objs,
                        depth - 1, s1);
                    (Vec3 {
                        x: tdiv(inner.0.x * HALF_UNIT, UNIT as int) as i64,
                        y: tdiv(inner.0.y * HALF_UNIT, UNIT as int) as i64,
                        z: tdiv(inner.0.z * HALF_UNIT, UNIT as int) as i64,
                    }, inner.1)
                }
            },
            None => (sky_color_spec(r), s),
        }
    }
}

/// The jittered normalized horizontal coordinate of pixel column `i`.
pub open spec fn jitter_u_spec(i: int, width: int, xi: int) -> int {
    (i * UNIT + xi) / (width - 1)
}

/// The jittered normalized vertical coordinate of pixel row `j`: row zero is
/// the top scanline, mapped near the top of the viewport.
pub open spec fn jitter_v_spec(j: int, height: int, xi: int) -> int {
    ((height - j) * UNIT + xi) / (height - 1)
}

/// The accumulated color and sampler state after the first `n` samples of
/// the pixel at `(i, j)`: each sample draws the two jitter offsets, casts the
/// camera ray, and adds the integrator's color.
pub open spec fn pixel_from_spec(objs: Seq<Hittable>, cam: Camera, i: int, j: int, width: int,
    height: int, max_depth: int, s: u64, n: nat) -> (Vec3, u64)
    decreases n,
{
    if n == 0 {
        (Vec3 { x: 0i64, y: 0i64, z: 0i64 }, s)
    } else {
        let prev = pixel_from_spec(objs, cam, i, j, width, height, max_depth, s, (n - 1) as nat);
        let su = crate::util::next_state_spec(prev.1);
        let u = jitter_u_spec(i, width, unit_sample_spec(su));
        let sv = crate::util::next_state_spec(su);
        let v = jitter_v_spec(j, height, unit_sample_spec(sv));
        let rc = ray_color_spec(camera_ray_spec(cam, u, v), objs, max_depth, sv);
        (Vec3 {
            x: (prev.0.x + rc.0.x) as i64,
            y: (prev.0.y + rc.0.y) as i64,
            z: (prev.0.z + rc.0.z) as i64,
        }, rc.1)
    }
}

/// The accumulated color of the pixel at `(i, j)`, fixed by the scene, the
/// camera, the image dimensions, the sample count, the bounce budget and the
/// top-level seed alone — whichever worker renders it.
pub open spec fn pixel_value_spec(objs: Seq<Hittable>, cam: Camera, i: int, j: int, width: int,
    height: int, samples: int, max_depth: int, seed: u64) -> Vec3 {
    pixel_from_spec(objs, cam, i, j, width, height, max_depth,
        crate::util::pixel_seed_spec(seed, i as u64, j as u64), samples as nat).0
}

/// The radiance arriving along a ray: black once the bounce budget is spent;
/// on a hit, half the radiance of a diffusely scattered bounce; on a miss,
/// the sky gradient.
pub fn ray_color(r: &Ray, world: &HittableList, depth: i32, rng: &mut Rng) -> (c: Color)
    requires
        list_wf(*world),
        ray_in_bounds(*r),
        lsq_spec(r.direction) >= 1,
    ensures
        c == ray_color_spec(*r, world.objects@, depth as int, old(rng).state).0,
        final(rng).state == ray_color_spec(*r, world.objects@, depth as int, old(rng).state).1,
        color_in_range(c),
        depth <= 0 ==> c == (Vec3 { x: 0i64, y: 0i64, z: 0i64 })
            && final(rng).state == old(rng).state,
        depth > 0 && list_hit_spec(world.objects@, *r, EPS as int, MAX_T as int) is None
            ==> c == sky_color_spec(*r) && final(rng).state == old(rng).state,
    decreases depth,
{
    if depth <= 0 {
        return Vec3::new(0, 0, 0);
    }
    let mut rec = HitRecord::new();
    if world.hit(r, EPS, MAX_T, &mut rec) {
        let scatter = Vec3::random_unit_vector(rng);
        let direction = rec.normal.add(scatter);
        proof {
            let h = list_hit_spec(world.objects@, *r, EPS as int, MAX_T as int).unwrap();
            assert(rec == h);
            assert(scatter == unit_sample_vec_spec(old(rng).state).0);
        }
        // A bounce that leaves the supported coordinate range, or whose
        // direction nearly cancels, carries no recoverable light.
        if rec.point.x() < -MAX_COORD || rec.point.x() > MAX_COORD
            || rec.point.y() < -MAX_COORD || rec.point.y() > MAX_COORD
            || rec.point.z() < -MAX_COORD || rec.point.z() > MAX_COORD {
            return Vec3::new(0, 0, 0);
        }
        proof {
            lemma_bounce_lsq_fits(direction);
        }
        let q = direction.length_squared();
        if q < 1 {
            return Vec3::new(0, 0, 0);
        }
        let bounced = Ray::new(rec.point, direction);
        let inner = ray_color(&bounced, world, depth - 1, rng);
        proof {
            lemma_half_scale_range(inner.x as int);
            lemma_half_scale_range(inner.y as int);
            lemma_half_scale_range(inner.z as int);
        }
        return inner.mul(HALF_UNIT);
    }
    sky(r)
}

/// The sky gradient for a ray that missed everything.
fn sky(r: &Ray) -> (c: Color)
    requires
        ray_in_bounds(*r),
        lsq_spec(r.direction) >= 1,
    ensures
        c == sky_color_spec(*r),
        color_in_range(c),
    {
    proof {
        lemma_dir_lsq_fits(*r);
        lemma_len_lower(r.direction);
        let l = crate::vec3::len_spec(r.direction);
        lemma_mul_bounds_both(r.direction.x as int, UNIT as int, 40_000_000, 1_000_000);
        lemma_mul_bounds_both(r.direction.y as int, UNIT as int, 40_000_000, 1_000_000);
        lemma_mul_bounds_both(r.direction.z as int, UNIT as int, 40_000_000, 1_000_000);
        lemma_tdiv_shrinks(r.direction.x as int * UNIT, l);
        lemma_tdiv_shrinks(r.direction.y as int * UNIT, l);
        lemma_tdiv_shrinks(r.direction.z as int * UNIT, l);
    }
    let unit = r.direction().unit_vector();
    proof {
        lemma_mul_bounds_both(HALF_UNIT as int, unit.y as int + UNIT,
            500_000, 50_000_000_000_000);
        lemma_tdiv_mono(HALF_UNIT as int * (unit.y as int + UNIT),
            25_000_000_000_000int * 1_000_000int, UNIT as int);
        lemma_tdiv_mono(-(25_000_000_000_000int * 1_000_000int),
            HALF_UNIT as int * (unit.y as int + UNIT), UNIT as int);
        lemma_tdiv_exact(25_000_000_000_000int, UNIT as int);
        lemma_tdiv_exact(-25_000_000_000_000int, UNIT as int);
    }
    let t: i64 = crate::util::clamp(fx_mul(HALF_UNIT, unit.y() + UNIT), 0, UNIT);
    let white = Vec3::new(UNIT, UNIT, UNIT);
    let blue = Vec3::new(SKY_BLUE_R, SKY_BLUE_G, UNIT);
    proof {
        lemma_blend_range(t as int);
    }
    white.mul(UNIT - t).add(blue.mul(t))
}

/// A ray looking straight up sees exactly the overhead blue, and one looking
/// straight down sees exactly white.
pub proof fn lemma_sky_vertical(r: Ray)
    requires
        r.direction.x == 0,
        r.direction.z == 0,
        lsq_spec(r.direction) >= 1,
    ensures
        r.direction.y >= 1 ==> sky_color_spec(r) == (Vec3 {
            x: SKY_BLUE_R,
            y: SKY_BLUE_G,
            z: UNIT,
        }),
        r.direction.y <= -1 ==> sky_color_spec(r) == (Vec3 { x: UNIT, y: UNIT, z: UNIT }),
{
    let u = UNIT as int;
    let k = r.direction.y as int;
    let q = lsq_spec(r.direction);
    let l = crate::vec3::len_spec(r.direction);
    lemma_len_lower(r.direction);
    crate::fixed::lemma_sqrt_floor_bounds((q * u) as nat);
    lemma_tdiv_exact(0, u);
    assert(q == tdiv(k * k, u));
    // The length never exceeds the magnitude of the only nonzero component.
    assert(tdiv(k * k, u) * u <= k * k) by {
        lemma_tdiv_shrinks(k * k, u);
        assert(k * k >= 0) by (nonlinear_arith);
        vstd::arithmetic::div_mod::lemma_fundamental_div_mod(k * k, u);
        vstd::arithmetic::div_mod::lemma_mod_bound(k * k, u);
    }
    let m = if k >= 0 { k } else { -k };
    assert(m * m == k * k) by (nonlinear_arith)
        requires m == k || m == -k;
    assert(l <= m) by {
        if l > m {
            assert(l * l > m * m) by (nonlinear_arith)
                requires l > m, m >= 0;
        }
    }
    assert(m >= 1000) by {
        if m < 1000 {
            assert(m * m < 1_000_000) by (nonlinear_arith)
                requires 0 <= m < 1000;
            assert(tdiv(k * k, u) == 0) by {
                vstd::arithmetic::div_mod::lemma_basic_div(k * k, u);
            }
        }
    }
    let uy = unit_comp_spec(k, r.direction);
    assert(m * u >= l * u) by (nonlinear_arith)
        requires m >= l, u > 0;
    lemma_tdiv_mono(l * u, m * u, l);
    lemma_tdiv_exact(u, l);
    assert(l * u == u * l) by (nonlinear_arith);
    assert(tdiv(m * u, l) >= u);
    if k >= 1 {
        assert(uy >= u);
        let t0 = tdiv(HALF_UNIT as int * (uy + u), u);
        assert(HALF_UNIT as int * (uy + u) >= HALF_UNIT as int * (2 * u)) by (nonlinear_arith)
            requires uy >= u, u == 1_000_000;
        assert(HALF_UNIT as int * (2 * u) == u * u) by (nonlinear_arith)
            requires u == 1_000_000;
        assert(u * u == 1_000_000int * 1_000_000int) by (nonlinear_arith)
            requires u == 1_000_000;
        lemma_tdiv_exact(1_000_000int, u);
        lemma_tdiv_mono(u * u, HALF_UNIT as int * (uy + u), u);
        assert(t0 >= u);
        assert(sky_t_spec(r) == u);
        lemma_blend_values(u);
    }
    if k <= -1 {
        assert(k * u == -(m * u)) by (nonlinear_arith)
            requires m == -k;
        assert(uy == -tdiv(m * u, l));
        assert(uy <= -u);
        let t0 = tdiv(HALF_UNIT as int * (uy + u), u);
        assert(HALF_UNIT as int * (uy + u) <= 0) by (nonlinear_arith)
            requires uy + u <= 0;
        lemma_tdiv_mono(HALF_UNIT as int * (uy + u), 0, u);
        assert(t0 <= 0);
        assert(sky_t_spec(r) == 0);
        lemma_blend_values(0);
    }
}

/// The blended sky channels at a given clamped weight, written out.
proof fn lemma_blend_values(t: int)
    requires
        t == 0 || t == UNIT,
    ensures
        tdiv((UNIT as int) * (UNIT - t), UNIT as int) == UNIT - t,
        tdiv((SKY_BLUE_R as int) * t, UNIT as int) == if t == 0 { 0int } else {
            SKY_BLUE_R as int
        },
        tdiv((SKY_BLUE_G as int) * t, UNIT as int) == if t == 0 { 0int } else {
            SKY_BLUE_G as int
        },
        tdiv((UNIT as int) * t, UNIT as int) == t,
{
    let u = UNIT as int;
    lemma_tdiv_exact(0, u);
    lemma_tdiv_exact(u, u);
    lemma_tdiv_exact(SKY_BLUE_R as int, u);
    lemma_tdiv_exact(SKY_BLUE_G as int, u);
    assert(u * (u - 0) == u * u) by (nonlinear_arith);
    assert(u * u == u * u) by (nonlinear_arith);
    if t == 0 {
        assert((SKY_BLUE_R as int) * 0 == 0) by (nonlinear_arith);
        assert((SKY_BLUE_G as int) * 0 == 0) by (nonlinear_arith);
        assert(u * 0 == 0) by (nonlinear_arith);
    } else {
        assert(u * (u - t) == 0) by (nonlinear_arith)
            requires t == u;
        assert((SKY_BLUE_R as int) * u == (SKY_BLUE_R as int) * u) by (nonlinear_arith);
        assert((SKY_BLUE_G as int) * u == (SKY_BLUE_G as int) * u) by (nonlinear_arith);
    }
}

/// Whether every channel of an accumulated color lies in
/// `[0, samples * UNIT]`.
pub open spec fn accum_in_range(c: Vec3, samples: int) -> bool {
    &&& 0 <= c.x <= samples * (UNIT as int)
    &&& 0 <= c.y <= samples * (UNIT as int)
    &&& 0 <= c.z <= samples * (UNIT as int)
}

/// Whether the image dimensions and sample count are supported.
pub open spec fn render_dims_ok(width: int, height: int, samples: int) -> bool {
    &&& 2 <= width <= 100_000
    &&& 3 <= height <= 100_000
    &&& 1 <= samples <= 10_000
}

/// The accumulated radiance of one pixel: `samples` camera rays, each
/// jittered inside the pixel, traced and summed. The sample stream is fixed
/// by `(seed, i, j)` alone, so any scheduling of pixels across workers
/// produces the same value.
pub fn render_pixel(world: &HittableList, cam: &Camera, i: usize, j: usize, width: usize,
    height: usize, samples: usize, max_depth: i32, seed: u64) -> (c: Color)
    requires
        list_wf(*world),
        camera_wf(*cam),
        render_dims_ok(width as int, height as int, samples as int),
        i < width,
        j < height,
    ensures
        c == pixel_value_spec(world.objects@, *cam, i as int, j as int, width as int,
            height as int, samples as int, max_depth as int, seed),
        accum_in_range(c, samples as int),
{
    let mut rng = Rng::for_pixel(seed, i as u64, j as u64);
    let ghost s0 = rng.state;
    let mut acc = Vec3::new(0, 0, 0);
    let mut s: usize = 0;
    while s < samples
        invariant
            list_wf(*world),
            camera_wf(*cam),
            render_dims_ok(width as int, height as int, samples as int),
            i < width,
            j < height,
            0 <= s <= samples,
            accum_in_range(acc, s as int),
            acc == pixel_from_spec(world.objects@, *cam, i as int, j as int, width as int,
                height as int, max_depth as int, s0, s as nat).0,
            rng.state == pixel_from_spec(world.objects@, *cam, i as int, j as int, width as int,
                height as int, max_depth as int, s0, s as nat).1,
        decreases samples - s,
    {
        proof {
            assert(0 <= i as int * (UNIT as int) <= 100_000int * 1_000_000int)
                by (nonlinear_arith)
                requires 0 <= i as int <= 100_000, UNIT == 1_000_000i64;
            assert(0 <= (height - j) as int * (UNIT as int) <= 100_000int * 1_000_000int)
                by (nonlinear_arith)
                requires 0 <= (height - j) as int <= 100_000, UNIT == 1_000_000i64;
        }
        let ghost prev = pixel_from_spec(world.objects@, *cam, i as int, j as int, width as int,
            height as int, max_depth as int, s0, s as nat);
        let iu: i64 = (i as i64) * UNIT + rng.next_unit();
        let u: i64 = iu / ((width as i64) - 1);
        let jv: i64 = ((height - j) as i64) * UNIT + rng.next_unit();
        let v: i64 = jv / ((height as i64) - 1);
        proof {
            lemma_pixel_u_range(i as int, width as int, iu as int);
            lemma_pixel_v_range(j as int, height as int, jv as int);
            assert(u as int == jitter_u_spec(i as int, width as int,
                unit_sample_spec(crate::util::next_state_spec(prev.1))));
            assert(v as int == jitter_v_spec(j as int, height as int,
                unit_sample_spec(rng.state)));
        }
        let r = cam.get_ray(u, v);
        let sample = ray_color(&r, world, max_depth, &mut rng);
        proof {
            assert((s as int + 1) * (UNIT as int) == s as int * (UNIT as int)
                + (UNIT as int)) by (nonlinear_arith);
            assert(samples as int * (UNIT as int) <= 10_000int * 1_000_000int)
                by (nonlinear_arith)
                requires samples as int <= 10_000;
            assert(pixel_from_spec(world.objects@, *cam, i as int, j as int, width as int,
                height as int, max_depth as int, s0, (s + 1) as nat).0 == (Vec3 {
                x: (prev.0.x + sample.x) as i64,
                y: (prev.0.y + sample.y) as i64,
                z: (prev.0.z + sample.z) as i64,
            }));
        }
        acc = acc.add(sample);
        s = s + 1;
    }
    proof {
        assert(samples as int * (UNIT as int) >= 0) by (nonlinear_arith)
            requires samples as int >= 1;
    }
    acc
}

/// The jittered horizontal pixel coordinate maps into `[0, 2 * UNIT]`.
proof fn lemma_pixel_u_range(i: int, width: int, iu: int)
    requires
        2 <= width <= 100_000,
        0 <= i < width,
        i * (UNIT as int) <= iu < i * (UNIT as int) + UNIT,
    ensures
        0 <= iu / (width - 1) <= 2 * (UNIT as int),
{
    let w = width - 1;
    assert(iu < (w + 1) * (UNIT as int)) by (nonlinear_arith)
        requires iu < i * (UNIT as int) + UNIT, i <= w;
    assert(0 <= iu) by (nonlinear_arith)
        requires i * (UNIT as int) <= iu, 0 <= i;
    assert((w + 1) * (UNIT as int) <= w * (2 * (UNIT as int))) by (nonlinear_arith)
        requires w >= 1;
    vstd::arithmetic::div_mod::lemma_div_pos_is_pos(iu, w);
    vstd::arithmetic::div_mod::lemma_multiply_divide_le(iu, w, 2 * (UNIT as int));
}

/// The jittered vertical pixel coordinate maps into `[0, 2 * UNIT]`.
proof fn lemma_pixel_v_range(j: int, height: int, jv: int)
    requires
        3 <= height <= 100_000,
        0 <= j < height,
        (height - j) * (UNIT as int) <= jv < (height - j) * (UNIT as int) + UNIT,
    ensures
        0 <= jv / (height - 1) <= 2 * (UNIT as int),
{
    let h = height - 1;
    assert(jv < (height + 1) * (UNIT as int)) by (nonlinear_arith)
        requires jv < (height - j) * (UNIT as int) + UNIT, 0 <= j;
    assert(0 <= jv) by (nonlinear_arith)
        requires (height - j) * (UNIT as int) <= jv, j < height;
    assert((height + 1) * (UNIT as int) <= h * (2 * (UNIT as int))) by (nonlinear_arith)
        requires height >= 3, h == height - 1;
    vstd::arithmetic::div_mod::lemma_div_pos_is_pos(jv, h);
    vstd::arithmetic::div_mod::lemma_multiply_divide_le(jv, h, 2 * (UNIT as int));
}

/// One scanline of the image: the accumulated color of every pixel of row
/// `j`, left to right.
pub fn render_row(world: &HittableList, cam: &Camera, j: usize, width: usize, height: usize,
    samples: usize, max_depth: i32, seed: u64) -> (row: Vec<Color>)
    requires
        list_wf(*world),
        camera_wf(*cam),
        render_dims_ok(width as int, height as int, samples as int),
        j < height,
    ensures
        row@.len() == width,
        forall|k: int| 0 <= k < width ==> #[trigger] row@[k] == pixel_value_spec(world.objects@,
            *cam, k, j as int, width as int, height as int, samples as int, max_depth as int,
            seed),
        forall|k: int| 0 <= k < width ==> accum_in_range(#[trigger] row@[k], samples as int),
{
    let mut row: Vec<Color> = Vec::new();
    let mut i: usize = 0;
    while i < width
        invariant
            list_wf(*world),
            camera_wf(*cam),
            render_dims_ok(width as int, height as int, samples as int),
            j < height,
            0 <= i <= width,
            row@.len() == i,
            forall|k: int| 0 <= k < i ==> #[trigger] row@[k] == pixel_value_spec(world.objects@,
                *cam, k, j as int, width as int, height as int, samples as int,
                max_depth as int, seed),
            forall|k: int| 0 <= k < i ==> accum_in_range(#[trigger] row@[k], samples as int),
        decreases width - i,
    {
        let c = render_pixel(world, cam, i, j, width, height, samples, max_depth, seed);
        row.push(c);
        i = i + 1;
    }
    row
}

/// The whole framebuffer, rendered row-major from the top scanline down:
/// the pixel `(i, j)` lands at index `j * width + i`.
pub fn render(world: &HittableList, cam: &Camera, width: usize, height: usize, samples: usize,
    max_depth: i32, seed: u64) -> (frame: Vec<Color>)
    requires
        list_wf(*world),
        camera_wf(*cam),
        render_dims_ok(width as int, height as int, samples as int),
    ensures
        frame@.len() == width * height,
        forall|ii: int, jj: int| 0 <= ii < width && 0 <= jj < height
            ==> frame@[jj * (width as int) + ii] == #[trigger] pixel_value_spec(world.objects@,
                *cam, ii, jj, width as int, height as int, samples as int, max_depth as int,
                seed),
        forall|k: int| 0 <= k < frame@.len()
            ==> accum_in_range(#[trigger] frame@[k], samples as int),
{
    let mut frame: Vec<Color> = Vec::new();
    let mut j: usize = 0;
    proof {
        assert(width as int * height as int <= 100_000int * 100_000int) by (nonlinear_arith)
            requires width as int <= 100_000, height as int <= 100_000;
    }
    while j < height
        invariant
            list_wf(*world),
            camera_wf(*cam),
            render_dims_ok(width as int, height as int, samples as int),
            0 <= j <= height,
            frame@.len() == j * width,
            width as int * height as int <= 100_000int * 100_000int,
            forall|ii: int, jj: int| 0 <= ii < width && 0 <= jj < j
                ==> frame@[jj * (width as int) + ii] == #[trigger] pixel_value_spec(
                    world.objects@, *cam, ii, jj, width as int, height as int, samples as int,
                    max_depth as int, seed),
            forall|k: int| 0 <= k < frame@.len()
                ==> accum_in_range(#[trigger] frame@[k], samples as int),
        decreases height - j,
    {
        proof {
            assert((j as int + 1) * width as int == j as int * width as int + width as int)
                by (nonlinear_arith);
            assert(j as int * width as int + width as int <= width as int * height as int)
                by (nonlinear_arith)
                requires (j as int) < (height as int), (width as int) >= 0;
        }
        let mut i: usize = 0;
        while i < width
            invariant
                list_wf(*world),
                camera_wf(*cam),
                render_dims_ok(width as int, height as int, samples as int),
                j < height,
                0 <= i <= width,
                frame@.len() == j * width + i,
                j as int * width as int + width as int <= 100_000int * 100_000int,
                forall|ii: int, jj: int| 0 <= ii < width && 0 <= jj < j
                    ==> frame@[jj * (width as int) + ii] == #[trigger] pixel_value_spec(
                        world.objects@, *cam, ii, jj, width as int, height as int,
                        samples as int, max_depth as int, seed),
                forall|ii: int| 0 <= ii < i
                    ==> frame@[j * (width as int) + ii] == #[trigger] pixel_value_spec(
                        world.objects@, *cam, ii, j as int, width as int, height as int,
                        samples as int, max_depth as int, seed),
                forall|k: int| 0 <= k < frame@.len()
                    ==> accum_in_range(#[trigger] frame@[k], samples as int),
            decreases width - i,
        {
            let c = render_pixel(world, cam, i, j, width, height, samples, max_depth, seed);
            frame.push(c);
            proof {
                lemma_row_major_prefix(j as int, width as int);
            }
            i = i + 1;
        }
        j = j + 1;
        proof {
            assert(j as int * width as int == (j as int - 1) * width as int + width as int)
                by (nonlinear_arith);
            lemma_row_major_prefix(j as int, width as int);
        }
    }
    proof {
        assert(height as int * width as int == width as int * height as int)
            by (nonlinear_arith);
    }
    frame
}

/// Every cell of a row before `j` lies strictly before the start of row `j`
/// in row-major order.
proof fn lemma_row_major_prefix(j: int, width: int)
    requires
        0 <= width,
    ensures
        forall|ii: int, jj: int| 0 <= ii < width && 0 <= jj < j
            ==> 0 <= #[trigger] (jj * width + ii) && jj * width + ii < j * width,
{
    assert forall|ii: int, jj: int| 0 <= ii < width && 0 <= jj < j
        implies 0 <= #[trigger] (jj * width + ii) && jj * width + ii < j * width by {
        assert(0 <= jj * width) by (nonlinear_arith)
            requires 0 <= jj, 0 <= width;
        assert(jj * width + width <= j * width) by (nonlinear_arith)
            requires jj < j, 0 <= width;
    }
}

/// For a blend weight in `[0, UNIT]`, the white term is exactly `UNIT - t`,
/// the blue terms lie in `[0, t]`, so each blended channel lies in
/// `[UNIT - t, UNIT]`.
proof fn lemma_blend_range(t: int)
    requires
        0 <= t <= UNIT,
    ensures
        tdiv((UNIT as int) * (UNIT - t), UNIT as int) == UNIT - t,
        0 <= tdiv((SKY_BLUE_R as int) * t, UNIT as int) <= t,
        0 <= tdiv((SKY_BLUE_G as int) * t, UNIT as int) <= t,
        tdiv((UNIT as int) * t, UNIT as int) == t,
{
    let u = UNIT as int;
    assert(u * (u - t) == (u - t) * u) by (nonlinear_arith);
    lemma_tdiv_exact(u - t, u);
    assert(u * t == t * u) by (nonlinear_arith);
    lemma_tdiv_exact(t, u);
    assert(0 <= (SKY_BLUE_R as int) * t <= u * t) by (nonlinear_arith)
        requires 0 <= t, 0 <= SKY_BLUE_R as int <= u;
    assert(0 <= (SKY_BLUE_G as int) * t <= u * t) by (nonlinear_arith)
        requires 0 <= t, 0 <= SKY_BLUE_G as int <= u;
    lemma_tdiv_mono(0, (SKY_BLUE_R as int) * t, u);
    lemma_tdiv_mono((SKY_BLUE_R as int) * t, u * t, u);
    lemma_tdiv_mono(0, (SKY_BLUE_G as int) * t, u);
    lemma_tdiv_mono((SKY_BLUE_G as int) * t, u * t, u);
    lemma_tdiv_exact(0, u);
}

/// Scaling a value in `[0, 2 * UNIT]` by one half keeps it in `[0, UNIT]`.
proof fn lemma_half_scale_range(c: int)
    requires
        0 <= c <= 2 * (UNIT as int),
    ensures
        0 <= tdiv(c * (HALF_UNIT as int), UNIT as int) <= UNIT,
{
    let u = UNIT as int;
    assert(0 <= c * (HALF_UNIT as int) <= 2_000_000int * 500_000int) by (nonlinear_arith)
        requires 0 <= c <= 2_000_000;
    lemma_tdiv_mono(0, c * (HALF_UNIT as int), u);
    lemma_tdiv_mono(c * (HALF_UNIT as int), 2_000_000int * 500_000int, u);
    assert(2_000_000int * 500_000int == 1_000_000int * 1_000_000int) by (nonlinear_arith);
    lemma_tdiv_exact(1_000_000int, u);
    lemma_tdiv_exact(0, u);
}

/// A bounce direction assembled from a bounded normal and a unit sample has
/// a fixed-point squared length that fits comfortably.
proof fn lemma_bounce_lsq_fits(d: Vec3)
    requires
        -4 * (UNIT as int) <= d.x <= 4 * (UNIT as int),
        -4 * (UNIT as int) <= d.y <= 4 * (UNIT as int),
        -4 * (UNIT as int) <= d.z <= 4 * (UNIT as int),
    ensures
        fits_i64(lsq_spec(d)),
        0 <= lsq_spec(d) <= 48 * (UNIT as int),
{
    lemma_sq_bounded(d.x as int, 4_000_000);
    lemma_sq_bounded(d.y as int, 4_000_000);
    lemma_sq_bounded(d.z as int, 4_000_000);
    lemma_lsq_nonneg(d);
}

/// A direction within the camera's bounds has a fixed-point squared length
/// that fits comfortably.
proof fn lemma_dir_lsq_fits(r: Ray)
    requires
        ray_in_bounds(r),
    ensures
        fits_i64(lsq_spec(r.direction)),
        0 <= lsq_spec(r.direction),
{
    lemma_sq_bounded(r.direction.x as int, 40_000_000);
    lemma_sq_bounded(r.direction.y as int, 40_000_000);
    lemma_sq_bounded(r.direction.z as int, 40_000_000);
    lemma_lsq_nonneg(r.direction);
}

/// The truncated scaled square of a bounded value is bounded.
proof fn lemma_sq_bounded(c: int, m: int)
    requires
        -m <= c <= m,
        0 <= m <= 1_000_000_000,
    ensures
        0 <= tdiv(c * c, UNIT as int) <= tdiv(m * m, UNIT as int),
        tdiv(m * m, UNIT as int) <= 1_000_000_000_000,
{
    assert(0 <= c * c <= m * m) by (nonlinear_arith)
        requires -m <= c <= m;
    assert(m * m <= 1_000_000_000_000int * 1_000_000int) by (nonlinear_arith)
        requires 0 <= m <= 1_000_000_000;
    lemma_tdiv_mono(0, c * c, UNIT as int);
    lemma_tdiv_mono(c * c, m * m, UNIT as int);
    lemma_tdiv_mono(m * m, 1_000_000_000_000int * 1_000_000int, UNIT as int);
    lemma_tdiv_exact(1_000_000_000_000int, UNIT as int);
    lemma_tdiv_exact(0, UNIT as int);
}

} // verus!
