//! Spheres, and the exact fixed-point solution of the ray-sphere quadratic.
//!
//! For a ray `O + t D` and a sphere `(C, rad)`, the real-valued quadratic
//! `a t^2 + b t + c = 0` has `a = D.D`, `b = 2 (O-C).D`, `c = (O-C).(O-C) - rad^2`.
//! Written over raw scaled integers these coefficients are exact — no
//! truncation — and only the square root and the final division round.

use vstd::prelude::*;
use crate::fixed::{UNIT, tdiv, fits_i64, sqrt_floor, isqrt, lemma_mul_bounds_both,
    lemma_tdiv_shrinks, lemma_tdiv_mono};
use crate::vec3::{Vec3, Point3, dot_spec};
use crate::ray::{Ray, at_comp_spec};
use crate::hittable::{HitRecord, MAX_COORD, MAX_DIR, MAX_T, MAX_POINT, coord_ok,
    ray_in_bounds, trange_ok, hit_record_bounded};

verus! {

/// A sphere: a center and a radius.
#[derive(Clone, Copy, PartialEq, Eq, Structural)]
pub struct Sphere {
    /// The center of the sphere.
    pub center: Point3,
    /// The radius, a positive fixed-point scalar.
    pub radius: i64,
}

/// Whether a sphere lies in the supported ranges: the center within the
/// coordinate box, the radius positive and no larger than a coordinate.
pub open spec fn sphere_wf(s: Sphere) -> bool {
    &&& coord_ok(s.center.x as int)
    &&& coord_ok(s.center.y as int)
    &&& coord_ok(s.center.z as int)
    &&& 1 <= s.radius <= MAX_COORD
}

/// The quadratic's leading coefficient: the raw dot product of the direction
/// with itself (scaled by `UNIT^2`).
pub open spec fn quad_a(s: Sphere, r: Ray) -> int {
    r.direction.x * r.direction.x + r.direction.y * r.direction.y
        + r.direction.z * r.direction.z
}

/// The quadratic's linear coefficient: twice the raw dot product of the
/// center-to-origin offset with the direction.
pub open spec fn quad_b(s: Sphere, r: Ray) -> int {
    2 * ((r.origin.x - s.center.x) * r.direction.x + (r.origin.y - s.center.y) * r.direction.y
        + (r.origin.z - s.center.z) * r.direction.z)
}

/// The quadratic's constant coefficient: the offset's raw squared length
/// less the squared radius.
pub open spec fn quad_c(s: Sphere, r: Ray) -> int {
    (r.origin.x - s.center.x) * (r.origin.x - s.center.x)
        + (r.origin.y - s.center.y) * (r.origin.y - s.center.y)
        + (r.origin.z - s.center.z) * (r.origin.z - s.center.z)
        - s.radius * s.radius
}

/// The discriminant of the quadratic.
pub open spec fn disc_spec(s: Sphere, r: Ray) -> int {
    quad_b(s, r) * quad_b(s, r) - 4 * quad_a(s, r) * quad_c(s, r)
}

/// The rounded-down square root of the discriminant.
pub open spec fn sqrt_disc_spec(s: Sphere, r: Ray) -> int {
    sqrt_floor(disc_spec(s, r) as nat) as int
}

/// The smaller root of the quadratic, as a truncated fixed-point parameter.
pub open spec fn root1_spec(s: Sphere, r: Ray) -> int {
    tdiv((-quad_b(s, r) - sqrt_disc_spec(s, r)) * UNIT, 2 * quad_a(s, r))
}

/// The larger root of the quadratic, as a truncated fixed-point parameter.
pub open spec fn root2_spec(s: Sphere, r: Ray) -> int {
    tdiv((-quad_b(s, r) + sqrt_disc_spec(s, r)) * UNIT, 2 * quad_a(s, r))
}

/// The root the hit test accepts: the smaller root when it lies strictly
/// inside the window, else the larger.
pub open spec fn chosen_root_spec(s: Sphere, r: Ray, t_min: int, t_max: int) -> int {
    if t_min < root1_spec(s, r) < t_max {
        root1_spec(s, r)
    } else {
        root2_spec(s, r)
    }
}

/// One component of the outward normal at the point `p` of the sphere's
/// surface: the offset from the center, divided by the radius.
pub open spec fn outward_comp_spec(p: i64, c: i64, radius: i64) -> int {
    tdiv((p - c) * UNIT, radius as int)
}

/// The record a hit at parameter `root` produces. The guard below fires
/// exactly when some component of the computed outward normal — the
/// truncated `(point - center) * UNIT / radius` — leaves two units in
/// magnitude, that is, when the computed point strays more than twice the
/// radius from the center along some axis. For a root of the quadratic the
/// true point lies within one radius per axis, so only root and evaluation
/// truncation can push a component past two units, and then only for radii
/// near the one-raw-unit minimum; such a numerically degenerate hit is
/// reported as a miss, because an unbounded normal could not be fed to the
/// integrator without risking overflow. A bound proving the guard
/// unreachable for larger radii would need a root-approximation-error
/// argument that is not attempted here.
pub open spec fn record_at_spec(s: Sphere, r: Ray, root: int) -> Option<HitRecord> {
    let px = at_comp_spec(r.origin.x as int, r.direction.x as int, root) as i64;
    let py = at_comp_spec(r.origin.y as int, r.direction.y as int, root) as i64;
    let pz = at_comp_spec(r.origin.z as int, r.direction.z as int, root) as i64;
    let owx = outward_comp_spec(px, s.center.x, s.radius);
    let owy = outward_comp_spec(py, s.center.y, s.radius);
    let owz = outward_comp_spec(pz, s.center.z, s.radius);
    if -2 * (UNIT as int) <= owx <= 2 * (UNIT as int)
        && -2 * (UNIT as int) <= owy <= 2 * (UNIT as int)
        && -2 * (UNIT as int) <= owz <= 2 * (UNIT as int) {
        let ow = Vec3 { x: owx as i64, y: owy as i64, z: owz as i64 };
        let ff = dot_spec(r.direction, ow) < 0;
        Some(HitRecord {
            point: Vec3 { x: px, y: py, z: pz },
            normal: if ff {
                ow
            } else {
                Vec3 { x: (-owx) as i64, y: (-owy) as i64, z: (-owz) as i64 }
            },
            t: root as i64,
            front_face: ff,
        })
    } else {
        None
    }
}

/// What the sphere's hit test returns: a miss when the direction is null,
/// the discriminant negative, or no root lies strictly inside the window;
/// else the record at the accepted root.
pub open spec fn sphere_hit_spec(s: Sphere, r: Ray, t_min: int, t_max: int) -> Option<HitRecord> {
    if quad_a(s, r) == 0 {
        None
    } else if disc_spec(s, r) < 0 {
        None
    } else {
        let root = chosen_root_spec(s, r, t_min, t_max);
        if t_min < root < t_max {
            record_at_spec(s, r, root)
        } else {
            None
        }
    }
}

impl Sphere {
    /// The sphere with the given center and radius.
    pub fn new(center: Point3, radius: i64) -> (s: Sphere)
        ensures
            s.center == center,
            s.radius == radius,
    {
        Sphere { center, radius }
    }

    /// Tests the ray against the sphere within `(t_min, t_max)`; on success
    /// fills `rec` with the closest intersection, its normal oriented against
    /// the ray.
    #[verifier::rlimit(100)]
    pub fn hit(&self, r: &Ray, t_min: i64, t_max: i64, rec: &mut HitRecord) -> (is_hit: bool)
        requires
            sphere_wf(*self),
            ray_in_bounds(*r),
            trange_ok(t_min as int, t_max as int),
        ensures
            match sphere_hit_spec(*self, *r, t_min as int, t_max as int) {
                Some(h) => is_hit && *final(rec) == h && t_min < h.t < t_max
                    && hit_record_bounded(h),
                None => !is_hit && *final(rec) == *old(rec),
            },
    {
        let qx: i128 = (r.origin.x as i128) - (self.center.x as i128);
        let qy: i128 = (r.origin.y as i128) - (self.center.y as i128);
        let qz: i128 = (r.origin.z as i128) - (self.center.z as i128);
        let dx: i128 = r.direction.x as i128;
        let dy: i128 = r.direction.y as i128;
        let dz: i128 = r.direction.z as i128;
        proof {
            lemma_mul_bounds_both(dx as int, dx as int, MAX_DIR as int, MAX_DIR as int);
            lemma_mul_bounds_both(dy as int, dy as int, MAX_DIR as int, MAX_DIR as int);
            lemma_mul_bounds_both(dz as int, dz as int, MAX_DIR as int, MAX_DIR as int);
            lemma_mul_bounds_both(qx as int, dx as int, 2 * MAX_COORD as int, MAX_DIR as int);
            lemma_mul_bounds_both(qy as int, dy as int, 2 * MAX_COORD as int, MAX_DIR as int);
            lemma_mul_bounds_both(qz as int, dz as int, 2 * MAX_COORD as int, MAX_DIR as int);
            lemma_mul_bounds_both(qx as int, qx as int, 2 * MAX_COORD as int,
                2 * MAX_COORD as int);
            lemma_mul_bounds_both(qy as int, qy as int, 2 * MAX_COORD as int,
                2 * MAX_COORD as int);
            lemma_mul_bounds_both(qz as int, qz as int, 2 * MAX_COORD as int,
                2 * MAX_COORD as int);
            lemma_mul_bounds_both(self.radius as int, self.radius as int, MAX_COORD as int,
                MAX_COORD as int);
        }
        let a: i128 = dx * dx + dy * dy + dz * dz;
        let b: i128 = 2 * (qx * dx + qy * dy + qz * dz);
        let c: i128 = qx * qx + qy * qy + qz * qz
            - (self.radius as i128) * (self.radius as i128);
        // A null direction meets nothing; the check also keeps the divisions
        // below away from zero.
        if a == 0 {
            return false;
        }
        proof {
            assert(qx as int * qx as int >= 0) by (nonlinear_arith);
            assert(qy as int * qy as int >= 0) by (nonlinear_arith);
            assert(qz as int * qz as int >= 0) by (nonlinear_arith);
            assert(self.radius as int * self.radius as int >= 0) by (nonlinear_arith);
            lemma_mul_bounds_both(b as int, b as int, 2_000_000_000_000_000_000,
                2_000_000_000_000_000_000);
            lemma_mul_bounds_both(a as int, c as int, 5_000_000_000_000_000,
                200_000_000_000_000_000_000);
        }
        let disc: i128 = b * b - 4 * (a * c);
        proof {
            assert(a as int == quad_a(*self, *r));
            assert(b as int == quad_b(*self, *r));
            assert(c as int == quad_c(*self, *r));
            assert(4 * (a as int * c as int) == 4 * quad_a(*self, *r) * quad_c(*self, *r))
                by (nonlinear_arith)
                requires a as int == quad_a(*self, *r), c as int == quad_c(*self, *r);
            assert(disc as int == disc_spec(*self, *r));
        }
        if disc < 0 {
            return false;
        }
        let sd_raw: u64 = isqrt(disc as u128);
        let sd: i128 = sd_raw as i128;
        proof {
            assert(3_000_000_000_000_000_000int * 3_000_000_000_000_000_000int >= disc as int)
                by (nonlinear_arith)
                requires disc as int <= 8_000_000_000_000_000_000_000_000_000_000_000_000int;
            crate::fixed::lemma_sqrt_floor_le(disc as nat, 3_000_000_000_000_000_000nat);
            lemma_mul_bounds_both(-(b as int) - sd as int, UNIT as int,
                5_000_000_000_000_000_000, 1_000_000);
            lemma_mul_bounds_both(-(b as int) + sd as int, UNIT as int,
                5_000_000_000_000_000_000, 1_000_000);
        }
        let num1: i128 = (-b - sd) * (UNIT as i128);
        let denom: i128 = 2 * a;
        proof {
            assert(quad_a(*self, *r) > 0) by {
                assert(a as int == quad_a(*self, *r));
                lemma_quad_a_nonneg(*self, *r);
            }
        }
        let mut root: i128 = crate::fixed::tdiv_i128(num1, denom);
        proof {
            assert(root as int == root1_spec(*self, *r));
        }
        if root <= (t_min as i128) || root >= (t_max as i128) {
            let num2: i128 = (-b + sd) * (UNIT as i128);
            root = crate::fixed::tdiv_i128(num2, denom);
            proof {
                assert(root as int == root2_spec(*self, *r));
            }
        }
        if (t_min as i128) < root && root < (t_max as i128) {
            let root64: i64 = root as i64;
            proof {
                lemma_at_fits(*r, root64);
            }
            let p = r.at(root64);
            proof {
                lemma_mul_bounds_both(p.x as int - self.center.x as int, UNIT as int,
                    200_000_000_000, 1_000_000);
                lemma_mul_bounds_both(p.y as int - self.center.y as int, UNIT as int,
                    200_000_000_000, 1_000_000);
                lemma_mul_bounds_both(p.z as int - self.center.z as int, UNIT as int,
                    200_000_000_000, 1_000_000);
            }
            let owx_w: i128 = crate::fixed::tdiv_i128(
                ((p.x as i128) - (self.center.x as i128)) * (UNIT as i128),
                self.radius as i128);
            let owy_w: i128 = crate::fixed::tdiv_i128(
                ((p.y as i128) - (self.center.y as i128)) * (UNIT as i128),
                self.radius as i128);
            let owz_w: i128 = crate::fixed::tdiv_i128(
                ((p.z as i128) - (self.center.z as i128)) * (UNIT as i128),
                self.radius as i128);
            let two_units: i128 = 2 * (UNIT as i128);
            if owx_w < -two_units || owx_w > two_units || owy_w < -two_units
                || owy_w > two_units || owz_w < -two_units || owz_w > two_units {
                // A numerically degenerate hit: the computed point strayed too
                // far from the surface for a sane normal. Report a miss.
                return false;
            }
            let ow = Vec3 { x: owx_w as i64, y: owy_w as i64, z: owz_w as i64 };
            rec.t = root64;
            rec.point = p;
            proof {
                lemma_mul_bounds_both(r.direction.x as int, ow.x as int, MAX_DIR as int,
                    2int * 1_000_000int);
                lemma_mul_bounds_both(r.direction.y as int, ow.y as int, MAX_DIR as int,
                    2int * 1_000_000int);
                lemma_mul_bounds_both(r.direction.z as int, ow.z as int, MAX_DIR as int,
                    2int * 1_000_000int);
                lemma_tdiv_shrinks(r.direction.x as int * ow.x as int, UNIT as int);
                lemma_tdiv_shrinks(r.direction.y as int * ow.y as int, UNIT as int);
                lemma_tdiv_shrinks(r.direction.z as int * ow.z as int, UNIT as int);
            }
            rec.set_face_normal(r, ow);
            proof {
                crate::hittable::lemma_bounded_normal_lsq(rec.normal);
            }
            true
        } else {
            false
        }
    }
}

/// A reported hit's parameter lies strictly inside the queried window.
pub proof fn lemma_sphere_hit_window(s: Sphere, r: Ray, t_min: int, t_max: int)
    requires
        -MAX_T <= t_min <= MAX_T,
        -MAX_T <= t_max <= MAX_T,
    ensures
        sphere_hit_spec(s, r, t_min, t_max) matches Some(h)
            ==> t_min < h.t < t_max && h.t == chosen_root_spec(s, r, t_min, t_max),
{
    if sphere_hit_spec(s, r, t_min, t_max) is Some {
        let root = chosen_root_spec(s, r, t_min, t_max);
        assert(t_min < root < t_max);
    }
}

/// Widening the window's upper bound never loses a hit: a hit found under
/// the tighter bound is exactly the hit under the wider one, and a miss
/// under the tighter bound means any hit under the wider one lies at or
/// beyond the tighter bound.
pub proof fn lemma_sphere_hit_tighten(s: Sphere, r: Ray, t_min: int, t1: int, t2: int)
    requires
        t1 <= t2,
        -MAX_T <= t_min <= MAX_T,
        -MAX_T <= t1 <= MAX_T,
        -MAX_T <= t2 <= MAX_T,
    ensures
        sphere_hit_spec(s, r, t_min, t1) is Some
            ==> sphere_hit_spec(s, r, t_min, t2) == sphere_hit_spec(s, r, t_min, t1),
        sphere_hit_spec(s, r, t_min, t1) is None
            ==> (sphere_hit_spec(s, r, t_min, t2) matches Some(h) ==> h.t >= t1),
{
    if quad_a(s, r) != 0 && disc_spec(s, r) >= 0 {
        let a = quad_a(s, r);
        let b = quad_b(s, r);
        let sd = sqrt_disc_spec(s, r);
        let r1 = root1_spec(s, r);
        let r2 = root2_spec(s, r);
        lemma_quad_a_nonneg(s, r);
        assert(sd >= 0);
        assert((-b - sd) * UNIT <= (-b + sd) * UNIT) by (nonlinear_arith)
            requires sd >= 0, UNIT == 1_000_000i64;
        lemma_tdiv_mono((-b - sd) * UNIT, (-b + sd) * UNIT, 2 * a);
        assert(r1 <= r2);
        let c1 = chosen_root_spec(s, r, t_min, t1);
        let c2 = chosen_root_spec(s, r, t_min, t2);
        if sphere_hit_spec(s, r, t_min, t1) is Some {
            assert(t_min < c1 < t1);
            if t_min < r1 < t1 {
                assert(c2 == r1);
            } else {
                assert(c1 == r2);
                assert(r1 <= t_min || r1 >= t1);
                if r1 >= t1 {
                    assert(r2 >= t1);
                    assert(false);
                }
                assert(c2 == r2);
            }
            assert(c2 == c1);
        } else if sphere_hit_spec(s, r, t_min, t2) is Some {
            assert(t_min < c2 < t2);
            if t_min < c1 < t1 {
                // The tighter query reached the same root, so its miss came
                // from the record guard; the wider query picks that root too
                // and the guard answers the same way.
                if t_min < r1 < t1 {
                    assert(c2 == r1);
                } else {
                    assert(c1 == r2);
                    if r1 >= t1 {
                        assert(r2 >= t1);
                        assert(false);
                    }
                    assert(c2 == r2);
                }
                assert(record_at_spec(s, r, c2) is None);
                assert(false);
            } else {
                if c2 == r1 {
                    assert(!(t_min < r1 < t1));
                    assert(r1 >= t1);
                } else {
                    assert(c2 == r2);
                    assert(!(t_min < r1 < t2));
                    assert(c1 == r2);
                    assert(r2 <= t_min || r2 >= t1);
                    assert(r2 >= t1);
                }
            }
        }
    }
}

/// The leading coefficient is a sum of squares, so it is nonnegative.
proof fn lemma_quad_a_nonneg(s: Sphere, r: Ray)
    ensures
        quad_a(s, r) >= 0,
{
    assert(r.direction.x * r.direction.x >= 0) by (nonlinear_arith);
    assert(r.direction.y * r.direction.y >= 0) by (nonlinear_arith);
    assert(r.direction.z * r.direction.z >= 0) by (nonlinear_arith);
}

/// Evaluating the ray at a parameter within the supported window keeps every
/// component inside `MAX_POINT` and all the intermediate products in range.
proof fn lemma_at_fits(r: Ray, t: i64)
    requires
        ray_in_bounds(r),
        -MAX_T <= t <= MAX_T,
    ensures
        fits_i64(tdiv(t * r.direction.x, UNIT as int)),
        fits_i64(tdiv(t * r.direction.y, UNIT as int)),
        fits_i64(tdiv(t * r.direction.z, UNIT as int)),
        -MAX_POINT <= at_comp_spec(r.origin.x as int, r.direction.x as int, t as int) <= MAX_POINT,
        -MAX_POINT <= at_comp_spec(r.origin.y as int, r.direction.y as int, t as int) <= MAX_POINT,
        -MAX_POINT <= at_comp_spec(r.origin.z as int, r.direction.z as int, t as int) <= MAX_POINT,
{
    lemma_at_comp_fits(r.origin.x as int, r.direction.x as int, t as int);
    lemma_at_comp_fits(r.origin.y as int, r.direction.y as int, t as int);
    lemma_at_comp_fits(r.origin.z as int, r.direction.z as int, t as int);
}

/// The one-component version of the bound above.
proof fn lemma_at_comp_fits(o: int, d: int, t: int)
    requires
        -MAX_COORD <= o <= MAX_COORD,
        -MAX_DIR <= d <= MAX_DIR,
        -MAX_T <= t <= MAX_T,
    ensures
        fits_i64(tdiv(t * d, UNIT as int)),
        -160_000_000_000 <= tdiv(t * d, UNIT as int) <= 160_000_000_000,
        -MAX_POINT <= at_comp_spec(o, d, t) <= MAX_POINT,
{
    lemma_mul_bounds_both(t, d, MAX_T as int, MAX_DIR as int);
    lemma_tdiv_mono(t * d, (MAX_T as int) * (MAX_DIR as int), UNIT as int);
    lemma_tdiv_mono(-((MAX_T as int) * (MAX_DIR as int)), t * d, UNIT as int);
    crate::fixed::lemma_tdiv_exact(160_000_000_000, UNIT as int);
    crate::fixed::lemma_tdiv_exact(-160_000_000_000, UNIT as int);
    assert((MAX_T as int) * (MAX_DIR as int) == 160_000_000_000int * 1_000_000int)
        by (nonlinear_arith);
}

} // verus!
