//! A Monte Carlo path tracer over fixed-point arithmetic.
//!
//! Every scalar is a signed 64-bit count of `1/FS` world units, so all
//! geometry and radiance computations are exact integer arithmetic with
//! explicit floor rounding, and every operation carries a contract.

pub mod fixed;
pub mod vec3;
pub mod ray;
pub mod material;
pub mod hittable;
pub mod sphere;
pub mod rng;
pub mod camera;
pub mod tracer;
pub mod laws;

pub use fixed::FS;
