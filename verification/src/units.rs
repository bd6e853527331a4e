//! The fixed-point formats of the simulation. The resolution is part of the
//! library, not a choice of the caller: it is so fine that one rounding moves
//! a position by less than a thousandth of a unit of length, and the momentum
//! and the energy of a colliding pair by less than a ten-thousandth of their
//! units.
//!
//! | quantity | stored as | one stored unit |
//! |---|---|---|
//! | position, arena bounds | `i64`, magnitude up to `POSITION_LIMIT` | 1/4096 unit of length |
//! | velocity | `i64`, magnitude up to `VELOCITY_LIMIT` | 2^-40 unit of length per second |
//! | radius | `i64` from 1 to `RADIUS_LIMIT` | one unit of length |
//! | mass | the square of the radius | one unit of area |
//! | time | `u64` | one nanosecond |

use vstd::prelude::*;

verus! {

/// Stored units of position in one unit of length.
pub const LENGTH_UNIT: i64 = 4096;

/// Largest magnitude of a stored position component: 16384 units of length.
pub const POSITION_LIMIT: i64 = 67_108_864;

/// Stored units of velocity in one unit of length per second.
pub const SPEED_UNIT: i64 = 1_099_511_627_776;

/// Largest magnitude of a stored velocity component: 1024 units of length
/// per second.
pub const VELOCITY_LIMIT: i64 = 1_125_899_906_842_624;

/// Largest magnitude of a velocity component with which a body can enter a
/// collision so that no velocity is confined when it leaves: 64 units of
/// length per second, a sixteenth of `VELOCITY_LIMIT`.
pub const FREE_SPEED_LIMIT: i64 = 70_368_744_177_664;

/// Largest radius of a body, in units of length.
pub const RADIUS_LIMIT: i64 = 64;

/// Largest mass of a body: the square of the largest radius.
pub const MASS_LIMIT: i64 = 4096;

/// Nanoseconds in a second.
pub const NANOS_PER_SECOND: u64 = 1_000_000_000;

/// What a product of a stored velocity and a time in nanoseconds is divided
/// by to give stored units of position: `NANOS_PER_SECOND * SPEED_UNIT /
/// LENGTH_UNIT`.
pub const STEP_DIVISOR: i64 = 268_435_456_000_000_000;

/// Largest magnitude of a component on which the vector operations are exact.
pub const EXACT_LIMIT: i64 = 0x2000_0000_0000_0000;

} // verus!
