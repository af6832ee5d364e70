//! The camera: maps normalized image-plane coordinates to world-space rays.

use vstd::prelude::*;
use crate::fixed::{UNIT, tdiv, fits_i64, fx_mul, fx_div, lemma_tdiv_shrinks, lemma_tdiv_mono,
    lemma_tdiv_exact, lemma_mul_bounds_both};
use crate::vec3::{Vec3, Point3, lsq_spec};
use crate::ray::Ray;
use crate::hittable::{MAX_DIR, ray_in_bounds};

verus! {

/// The half-height of the viewport, two units tall by design.
pub const VIEWPORT_HEIGHT: i64 = 2_000_000;

/// The distance from the eye to the image plane.
pub const FOCAL_LENGTH: i64 = 1_000_000;

/// A camera at the world origin, looking along the negative third axis.
pub struct Camera {
    /// The eye point, the world origin.
    pub origin: Point3,
    /// The viewport's horizontal extent.
    pub horizontal: Vec3,
    /// The viewport's vertical extent.
    pub vertical: Vec3,
    /// The world-space position of the viewport's lower-left corner.
    pub lower_left_corner: Point3,
}

/// The shape every constructed camera has: origin at zero, axis-aligned
/// viewport vectors within bounds, and the corner derived from them.
pub open spec fn camera_wf(c: Camera) -> bool {
    &&& c.origin.x == 0 && c.origin.y == 0 && c.origin.z == 0
    &&& 0 <= c.horizontal.x <= 16 * (UNIT as int)
    &&& c.horizontal.y == 0 && c.horizontal.z == 0
    &&& c.vertical.x == 0 && c.vertical.y == VIEWPORT_HEIGHT && c.vertical.z == 0
    &&& -8 * (UNIT as int) <= c.lower_left_corner.x <= 0
    &&& c.lower_left_corner.y == -(VIEWPORT_HEIGHT as int) / 2
    &&& c.lower_left_corner.z == -FOCAL_LENGTH
}

/// The ray the camera casts through normalized viewport coordinates
/// `(u, v)`, componentwise.
pub open spec fn camera_ray_spec(c: Camera, u: int, v: int) -> Ray {
    Ray {
        origin: c.origin,
        direction: Vec3 {
            x: (c.lower_left_corner.x + tdiv(c.horizontal.x * u, UNIT as int)) as i64,
            y: (c.lower_left_corner.y + tdiv(c.vertical.y * v, UNIT as int)) as i64,
            z: c.lower_left_corner.z,
        },
    }
}

impl Camera {
    /// The camera for the given aspect ratio: a viewport two units tall and
    /// `aspect_ratio * 2` units wide, one focal length in front of the eye.
    pub fn new(aspect_ratio: i64) -> (c: Camera)
        requires
            0 <= aspect_ratio <= 8 * (UNIT as int),
        ensures
            camera_wf(c),
            c.horizontal.x == tdiv(aspect_ratio * VIEWPORT_HEIGHT, UNIT as int),
            c.lower_left_corner.x == -tdiv(c.horizontal.x as int * UNIT, 2 * (UNIT as int)),
    {
        let viewport_width: i64 = fx_mul(aspect_ratio, VIEWPORT_HEIGHT);
        proof {
            lemma_mul_bounds_both(aspect_ratio as int, VIEWPORT_HEIGHT as int,
                8 * (UNIT as int), VIEWPORT_HEIGHT as int);
            lemma_tdiv_shrinks(aspect_ratio as int * VIEWPORT_HEIGHT as int, UNIT as int);
            lemma_tdiv_mono(aspect_ratio as int * VIEWPORT_HEIGHT as int,
                16_000_000int * 1_000_000int, UNIT as int);
            lemma_tdiv_exact(16_000_000int, UNIT as int);
            lemma_tdiv_mono(0, aspect_ratio as int * VIEWPORT_HEIGHT as int, UNIT as int);
        }
        let origin = Vec3::new(0, 0, 0);
        let horizontal = Vec3::new(viewport_width, 0, 0);
        let vertical = Vec3::new(0, VIEWPORT_HEIGHT, 0);
        let half_h: i64 = fx_div(viewport_width, 2 * UNIT);
        let half_v: i64 = fx_div(VIEWPORT_HEIGHT, 2 * UNIT);
        proof {
            lemma_mul_bounds_both(viewport_width as int, UNIT as int, 16 * (UNIT as int),
                UNIT as int);
            lemma_tdiv_shrinks(viewport_width as int * UNIT, 2 * (UNIT as int));
            lemma_tdiv_mono(0, viewport_width as int * UNIT, 2 * (UNIT as int));
            assert(VIEWPORT_HEIGHT as int * UNIT == 1_000_000int * (2 * (UNIT as int)))
                by (nonlinear_arith);
            lemma_tdiv_exact(1_000_000int, 2 * (UNIT as int));
            lemma_tdiv_mono(viewport_width as int * UNIT, 16_000_000int * (UNIT as int),
                2 * (UNIT as int));
            assert(16_000_000int * (UNIT as int) == 8_000_000int * (2 * (UNIT as int)))
                by (nonlinear_arith);
            lemma_tdiv_exact(8_000_000int, 2 * (UNIT as int));
        }
        let lower_left_corner = Vec3::new(-half_h, -half_v, -FOCAL_LENGTH);
        Camera { origin, horizontal, vertical, lower_left_corner }
    }

    /// The ray through the viewport at normalized coordinates `(u, v)`:
    /// `u` runs left to right and `v` bottom to top, both near `[0, 1]`.
    pub fn get_ray(&self, u: i64, v: i64) -> (r: Ray)
        requires
            camera_wf(*self),
            0 <= u <= 2 * (UNIT as int),
            0 <= v <= 2 * (UNIT as int),
        ensures
            r == camera_ray_spec(*self, u as int, v as int),
            r.origin == self.origin,
            r.direction.x == self.lower_left_corner.x + tdiv(self.horizontal.x as int * u,
                UNIT as int),
            r.direction.y == self.lower_left_corner.y + tdiv(self.vertical.y as int * v,
                UNIT as int),
            r.direction.z == -FOCAL_LENGTH,
            ray_in_bounds(r),
            lsq_spec(r.direction) >= 1,
    {
        proof {
            lemma_mul_bounds_both(self.horizontal.x as int, u as int, 16 * (UNIT as int),
                2 * (UNIT as int));
            lemma_tdiv_shrinks(self.horizontal.x as int * u, UNIT as int);
            lemma_tdiv_mono(0, self.horizontal.x as int * u, UNIT as int);
            lemma_tdiv_mono(self.horizontal.x as int * u, 32_000_000int * 1_000_000int,
                UNIT as int);
            lemma_tdiv_exact(32_000_000int, UNIT as int);
            assert(16 * (UNIT as int) * (2 * (UNIT as int)) == 32_000_000int * 1_000_000int)
                by (nonlinear_arith);
            lemma_mul_bounds_both(self.vertical.y as int, v as int, VIEWPORT_HEIGHT as int,
                2 * (UNIT as int));
            lemma_tdiv_shrinks(self.vertical.y as int * v, UNIT as int);
            lemma_tdiv_mono(0, self.vertical.y as int * v, UNIT as int);
            lemma_tdiv_mono(self.vertical.y as int * v, 4_000_000int * 1_000_000int,
                UNIT as int);
            lemma_tdiv_exact(4_000_000int, UNIT as int);
            assert(VIEWPORT_HEIGHT as int * (2 * (UNIT as int)) == 4_000_000int * 1_000_000int)
                by (nonlinear_arith);
        }
        let du: i64 = fx_mul(self.horizontal.x, u);
        let dv: i64 = fx_mul(self.vertical.y, v);
        let direction = Vec3::new(
            self.lower_left_corner.x + du,
            self.lower_left_corner.y + dv,
            self.lower_left_corner.z,
        );
        proof {
            lemma_dir_z_gives_lsq(direction);
        }
        Ray { origin: self.origin, direction }
    }
}

/// A direction whose third component is a whole negative focal length has a
/// positive fixed-point squared length.
proof fn lemma_dir_z_gives_lsq(d: Vec3)
    requires
        d.z == -FOCAL_LENGTH,
    ensures
        lsq_spec(d) >= 1,
{
    assert(d.x as int * d.x as int >= 0) by (nonlinear_arith);
    assert(d.y as int * d.y as int >= 0) by (nonlinear_arith);
    lemma_tdiv_mono(0, d.x as int * d.x as int, UNIT as int);
    lemma_tdiv_mono(0, d.y as int * d.y as int, UNIT as int);
    assert(d.z as int * d.z as int == 1_000_000int * 1_000_000int) by (nonlinear_arith)
        requires d.z as int == -1_000_000;
    lemma_tdiv_exact(1_000_000int, UNIT as int);
    lemma_tdiv_exact(0, UNIT as int);
}

} // verus!
