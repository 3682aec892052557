//! A flocking ("boids") simulation on a wraparound plane, in fixed-point
//! integer arithmetic so that every tick is exact and reproducible.
//!
//! Lengths are counted in millionths of a pixel (see [`geometry::UNIT`]).
use vstd::prelude::*;

pub mod geometry;
pub mod heading;
pub mod agent;
pub mod pool;

verus! {

} // verus!
