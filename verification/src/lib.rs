//! A stochastic path tracer over fixed-point arithmetic.
//!
//! Geometry, colors and camera parameters are carried as scaled integers
//! (`fx::Fx`), so every arithmetic step has an exact contract; the random
//! draws that drive sampling come from an explicitly seeded generator.

pub mod camera;
pub mod common;
pub mod fx;
pub mod hittable;
pub mod material;
pub mod ray;
pub mod vec3;

