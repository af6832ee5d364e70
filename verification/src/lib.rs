//! A small Monte Carlo path tracer over exact fixed-point arithmetic.
//!
//! Every scalar is an `i64` holding a real value scaled by `fixed::UNIT`,
//! so each arithmetic step has an exact integer specification and the whole
//! rendering pipeline — vectors, rays, sphere intersection, the recursive
//! integrator and the sampling loop — is verified against it.

pub mod fixed;
pub mod util;
pub mod vec3;
pub mod ray;
pub mod hittable;
pub mod sphere;
pub mod camera;
pub mod color;
pub mod render;
