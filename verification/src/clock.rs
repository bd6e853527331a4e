//! The fixed time step: real time is gathered and spent in whole ticks.

use vstd::arithmetic::div_mod::{lemma_fundamental_div_mod, lemma_fundamental_div_mod_converse};
use vstd::prelude::*;

verus! {

/// Number of whole steps that fit into `pending`.
pub open spec fn ticks_due(pending: int, step: int) -> int
    recommends
        step > 0,
{
    pending / step
}

/// Real time that has passed and was not yet spent on ticks, in nanoseconds.
#[derive(Clone, Copy, Debug, PartialEq, Eq, Structural)]
pub struct Accumulator {
    pub pending: u64,
}

impl Accumulator {
    /// An accumulator that holds no time.
    pub fn new() -> (acc: Accumulator)
        ensures
            acc.pending == 0,
    {
        Accumulator { pending: 0 }
    }

    /// Adds the time that has passed since the last call. The sum stops at
    /// the largest value that the accumulator holds.
    pub fn accumulate(&mut self, elapsed: u64)
        ensures
            final(self).pending == if old(self).pending + elapsed > u64::MAX {
                u64::MAX as int
            } else {
                old(self).pending + elapsed
            },
    {
        self.pending = if elapsed > u64::MAX - self.pending {
            u64::MAX
        } else {
            self.pending + elapsed
        };
    }

    /// Spends one step if that much time is pending, and tells whether a
    /// tick is due.
    pub fn take_tick(&mut self, step: u64) -> (due: bool)
        ensures
            due == (old(self).pending >= step),
            due ==> final(self).pending == old(self).pending - step,
            !due ==> final(self).pending == old(self).pending,
            step > 0 ==> ticks_due(final(self).pending as int, step as int) == ticks_due(
                old(self).pending as int,
                step as int,
            ) - if due {
                1int
            } else {
                0int
            },
    {
        if self.pending >= step {
            proof {
                if step > 0 {
                    let p = self.pending as int;
                    let s = step as int;
                    lemma_fundamental_div_mod(p, s);
                    let q = p / s;
                    let r = p % s;
                    assert(s * (q - 1) == s * q - s) by (nonlinear_arith);
                    assert((q - 1) * s == s * (q - 1)) by (nonlinear_arith);
                    lemma_fundamental_div_mod_converse(p - s, s, q - 1, r);
                }
            }
            self.pending = self.pending - step;
            true
        } else {
            false
        }
    }

    /// Spends every whole step that is pending and returns their number;
    /// what is left is less than a step.
    pub fn drain(&mut self, step: u64) -> (ticks: u64)
        requires
            step > 0,
        ensures
            ticks == ticks_due(old(self).pending as int, step as int),
            final(self).pending == old(self).pending % step,
            final(self).pending < step,
    {
        let ticks = self.pending / step;
        self.pending = self.pending % step;
        ticks
    }
}

} // verus!
