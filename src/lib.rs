//! Event-driven simulation of elastic circular bodies in a rectangular arena.
//!
//! All quantities are exact integers: positions and radii in length units,
//! velocities in length units per tick, times in ticks. Collision times are
//! found in closed form and rounded down to the tick grid, so that bodies are
//! never advanced past a contact.
pub mod ball;
pub mod elastic;
pub mod geometry;
pub mod math;
pub mod plane;
pub mod vector_math;
pub mod world;

use vstd::prelude::*;

verus! {

/// Length units in one unit of display distance.
pub const LENGTH_SCALE: i64 = 10_000_000;

/// Ticks in one second of simulated time.
pub const TICKS_PER_SECOND: i64 = 1_000_000;

} // verus!
