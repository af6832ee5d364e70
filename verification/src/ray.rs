//! Rays: an origin and a direction, with parametric point evaluation.

use vstd::prelude::*;
use crate::fixed::{UNIT, tdiv, fits_i64, fx_mul};
use crate::vec3::{Vec3, Point3};

verus! {

/// A ray through space: all points `origin + t * direction`.
#[derive(Clone, Copy, PartialEq, Eq, Structural)]
pub struct Ray {
    /// Where the ray starts.
    pub origin: Point3,
    /// Which way it points; not necessarily unit length.
    pub direction: Vec3,
}

/// One component of the point at parameter `t` along the ray.
pub open spec fn at_comp_spec(o: int, d: int, t: int) -> int {
    o + tdiv(t * d, UNIT as int)
}

impl Ray {
    /// The ray from `origin` along `direction`.
    pub fn new(origin: Point3, direction: Vec3) -> (r: Ray)
        ensures
            r.origin == origin,
            r.direction == direction,
    {
        Ray { origin, direction }
    }

    /// Where the ray starts.
    pub fn origin(&self) -> (o: Point3)
        ensures
            o == self.origin,
    {
        self.origin
    }

    /// Which way the ray points.
    pub fn direction(&self) -> (d: Vec3)
        ensures
            d == self.direction,
    {
        self.direction
    }

    /// The point at parameter `t` along the ray, each component truncated.
    pub fn at(&self, t: i64) -> (p: Point3)
        requires
            fits_i64(at_comp_spec(self.origin.x as int, self.direction.x as int, t as int)),
            fits_i64(at_comp_spec(self.origin.y as int, self.direction.y as int, t as int)),
            fits_i64(at_comp_spec(self.origin.z as int, self.direction.z as int, t as int)),
            fits_i64(tdiv(t * self.direction.x, UNIT as int)),
            fits_i64(tdiv(t * self.direction.y, UNIT as int)),
            fits_i64(tdiv(t * self.direction.z, UNIT as int)),
        ensures
            p.x == at_comp_spec(self.origin.x as int, self.direction.x as int, t as int),
            p.y == at_comp_spec(self.origin.y as int, self.direction.y as int, t as int),
            p.z == at_comp_spec(self.origin.z as int, self.direction.z as int, t as int),
    {
        Vec3 {
            x: self.origin.x + fx_mul(t, self.direction.x),
            y: self.origin.y + fx_mul(t, self.direction.y),
            z: self.origin.z + fx_mul(t, self.direction.z),
        }
    }
}

} // verus!
