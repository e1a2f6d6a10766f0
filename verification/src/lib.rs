//! A minimal ray tracer over fixed-point coordinates.
//!
//! Every coordinate is an `i64` counting millionths of a world unit
//! (`fixed::SCALE`).  All geometry — vector algebra, ray/sphere
//! intersection, the nearest-hit scan over a scene, and the camera's
//! viewport construction and per-pixel shading — is carried out in exact
//! integer arithmetic, with division rounded toward zero and square roots
//! rounded down, and each function's contract states the result of that
//! arithmetic exactly.

pub mod fixed;
pub mod vec3;
pub mod interval;
pub mod ray;
pub mod hittable;
pub mod sphere;
pub mod color;
pub mod camera;
