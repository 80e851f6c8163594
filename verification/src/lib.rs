//! A Monte-Carlo path tracer over spheres, verified with Verus.
//!
//! All geometry and radiance arithmetic is carried out in signed
//! fixed-point: an `i64` holds a real number scaled by `SCALE`
//! (one world unit is `SCALE`). Contracts are stated over exact
//! integer arithmetic, including the truncating divisions the
//! executable code performs.

pub mod camera;
pub mod fixed;
pub mod hittable;
pub mod laws;
pub mod material;
pub mod ray;
pub mod tracer;
pub mod vec3;

use vstd::prelude::*;

verus! {

} // verus!
