//! A voxel-world projectile core: fixed-point geometry, a ray-marching
//! spatial query engine that reports ordered, deduplicated block and actor
//! hits, and the projectile lifecycle rules that consume those hits.
//!
//! Positions are integers in milliblocks: one block is `MILLI` units wide.
use vstd::prelude::*;

pub mod events;
pub mod geometry;
pub mod projectile;
pub mod ray;
pub mod world;

verus! {

/// Milliblock scale: one world block is this many coordinate units wide.
pub const MILLI: i64 = 1000;

/// Distance in milliblocks between two consecutive ray samples.
pub const STEP: i64 = 10;

/// Largest coordinate magnitude a ray may reach, in milliblocks.
pub const MAX_COORD: i64 = 1_000_000_000;

/// Largest length of a single ray, in milliblocks.
pub const MAX_RAY_LENGTH: i64 = 10_000_000;

} // verus!
