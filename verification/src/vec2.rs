//! Two-dimensional points and velocities on an integer grid.
//!
//! Positions and velocities are kept as signed 64-bit fixed-point
//! coordinates, so that the simulation tick is exact and deterministic.
//! A consumer that renders with floating point converts at its own edge.

use vstd::prelude::*;

verus! {

/// A 2D vector with integer coordinates.
#[derive(Clone, Copy, Debug, PartialEq, Eq, Structural)]
pub struct Vec2 {
    pub x: i64,
    pub y: i64,
}

impl Vec2 {
    /// The origin; new players start here with no motion.
    pub fn zero() -> (v: Vec2)
        ensures
            v.x == 0,
            v.y == 0,
    {
        Vec2 { x: 0, y: 0 }
    }
}

} // verus!
