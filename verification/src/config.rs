//! The fixed parameters of a simulation: the arena, the ranges from which
//! bodies are drawn, and the time step.

use crate::units::{LENGTH_UNIT, POSITION_LIMIT, RADIUS_LIMIT, VELOCITY_LIMIT};
use vstd::prelude::*;

verus! {

/// The parameters of a simulation, in the stored units of the library: the
/// arena in units of position (4096 to the unit of length), the radii in
/// whole units of length, the velocities in units of velocity (2^40 to the
/// unit of length per second), the time step in nanoseconds.
#[derive(Clone, Copy, Debug, PartialEq, Eq, Structural)]
pub struct Config {
    /// Lower bound of the arena on both axes.
    pub margin: i64,
    /// Extent of the arena along x.
    pub width: i64,
    /// Extent of the arena along y.
    pub height: i64,
    /// Smallest radius drawn for a new body.
    pub radius_min: i64,
    /// Largest radius drawn for a new body.
    pub radius_max: i64,
    /// Smallest velocity component drawn for a new body.
    pub velocity_min: i64,
    /// Largest velocity component drawn for a new body.
    pub velocity_max: i64,
    /// Length of one tick, in nanoseconds.
    pub frame_time: u64,
    /// Number of bodies placed when a world is populated.
    pub ball_count: usize,
    /// How often a placement is tried anew before the arena counts as too small.
    pub placement_attempts: u32,
}

impl Config {
    /// Upper bound of the arena along x.
    pub open spec fn right(self) -> int {
        self.margin + self.width
    }

    /// Upper bound of the arena along y.
    pub open spec fn bottom(self) -> int {
        self.margin + self.height
    }

    /// The arena lies in the range of positions, the largest body fits into
    /// it, the ranges are not empty and time advances.
    pub open spec fn wf(self) -> bool {
        &&& -POSITION_LIMIT <= self.margin
        &&& 0 < self.width
        &&& 0 < self.height
        &&& self.margin + self.width <= POSITION_LIMIT
        &&& self.margin + self.height <= POSITION_LIMIT
        &&& 1 <= self.radius_min <= self.radius_max <= RADIUS_LIMIT
        &&& 2 * self.radius_max * LENGTH_UNIT <= self.width
        &&& 2 * self.radius_max * LENGTH_UNIT <= self.height
        &&& -VELOCITY_LIMIT <= self.velocity_min <= self.velocity_max <= VELOCITY_LIMIT
        &&& 0 < self.frame_time
    }

    /// Tells whether the parameters are well formed.
    pub fn is_valid(&self) -> (b: bool)
        ensures
            b == self.wf(),
    {
        let arena = -POSITION_LIMIT <= self.margin && self.margin <= POSITION_LIMIT && 0
            < self.width && self.width <= 2 * POSITION_LIMIT && 0 < self.height && self.height <= 2
            * POSITION_LIMIT && self.margin + self.width <= POSITION_LIMIT && self.margin
            + self.height <= POSITION_LIMIT;
        let radii = 1 <= self.radius_min && self.radius_min <= self.radius_max && self.radius_max
            <= RADIUS_LIMIT;
        let velocities = -VELOCITY_LIMIT <= self.velocity_min && self.velocity_min
            <= self.velocity_max && self.velocity_max <= VELOCITY_LIMIT;
        arena && radii && velocities && 2 * self.radius_max * LENGTH_UNIT <= self.width && 2
            * self.radius_max * LENGTH_UNIT <= self.height && 0 < self.frame_time
    }
}

} // verus!
