//! Verified core of a Monte Carlo path tracer.
//!
//! Floating-point geometry (vectors, spheres, boxes, materials) lives with the
//! application; this library holds the integer logic that decides how the
//! bounding-volume hierarchy is shaped and searched, and how a light path ends.
use vstd::prelude::*;

pub mod bounds;
pub mod bvh;
pub mod integrator;
pub mod nearest;
mod random;

verus! {

} // verus!
