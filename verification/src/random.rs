//! The source of randomness from which new bodies are drawn.

use macroquad::rand::RandGenerator;
use vstd::prelude::*;

verus! {

/// The generator `RandGenerator`, carried through as it is: nothing is
/// known of its state.
#[verifier::external_type_specification]
#[verifier::external_body]
pub struct ExRandGenerator(RandGenerator);

/// Largest magnitude of a bound of a draw: up to here a double holds every
/// integer exactly.
pub const DRAW_LIMIT: i64 = 4_503_599_627_370_496;

/// A pseudo-random integer between `low` and `high`, both included, from
/// `RandGenerator::gen_range` at `i64`. That function takes the generator's
/// next 32 bits as a fraction of one, computes `low + (high - low) * fraction`
/// in doubles and cuts the result to an integer; with bounds that doubles hold
/// exactly every step stays between the bounds. Which value comes depends on
/// the generator's state, of which nothing is claimed.
#[verifier::external_body]
pub(crate) fn draw_between(rng: &RandGenerator, low: i64, high: i64) -> (r: i64)
    requires
        -DRAW_LIMIT <= low <= high <= DRAW_LIMIT,
    ensures
        low <= r <= high,
{
    rng.gen_range(low, high)
}

} // verus!
