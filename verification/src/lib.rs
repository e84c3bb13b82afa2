//! A Monte Carlo path tracer over fixed-point arithmetic.
//!
//! Every scalar in the renderer is a signed 64-bit fixed-point number with
//! `SCALE` (2^16) steps per unit, so geometry, materials and the integrator
//! are exact integer computations with verified contracts.  Conversions from
//! floating point, trigonometry, and file I/O live outside this crate.

pub mod fixed;
pub mod vec3;
pub mod ray;
pub mod aabb;
pub mod rng;
pub mod perlin;
pub mod texture;
pub mod hittable;
pub mod material;
pub mod camera;
pub mod scene;
