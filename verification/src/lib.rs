//! Fixed-step simulation of circular bodies in a bounded arena, in fixed-point
//! arithmetic: wall reflection, sweep-and-prune broad phase, exact circle
//! overlap test and elastic collision response, with every rule stated and
//! proved.

pub mod units;
pub mod arith;
pub mod vector;
pub mod resolver;
pub mod conservation;
pub mod config;
pub mod random;
pub mod ball;
pub mod sweep;
pub mod world;
pub mod completeness;
pub mod clock;
pub mod energy;
