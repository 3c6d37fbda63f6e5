//! Randomness for the engines.
//!
//! Every random draw the engines make goes through [`Lcg`], a small
//! deterministic generator whose behaviour is fully specified, so that search
//! outcomes are a function of the seed. Fresh seeds come from the `rand`
//! crate's process-wide generator.

use vstd::prelude::*;

verus! {

/// Relies on rand::random: a draw from the process-wide generator. Nothing
/// can be promised of a random value, so no `ensures` is given.
pub assume_specification<T>[ rand::random::<T> ]() -> (r: T)
    where
        rand::distr::StandardUniform: rand::distr::Distribution<T>,
;

pub const LCG_MUL: u64 = 6364136223846793005;

pub const LCG_INC: u64 = 1442695040888963407;

/// The successor of an [`Lcg`] state: a linear congruential step modulo 2^64.
pub open spec fn lcg_next(s: u64) -> u64 {
    (((s * LCG_MUL + LCG_INC) as int) % 0x10000000000000000) as u64
}

/// The index in `0 .. n` drawn from state `s`.
pub open spec fn lcg_pick(s: u64, n: usize) -> usize {
    (((lcg_next(s) >> 33) as usize) % n) as usize
}

/// A deterministic, fully specified random source: a 64-bit linear
/// congruential generator. Seeding it makes every engine decision that draws
/// from it a function of the seed.
pub struct Lcg {
    pub state: u64,
}

impl Lcg {
    pub fn new(seed: u64) -> (r: Lcg)
        ensures
            r.state == seed,
    {
        Lcg { state: seed }
    }

    /// Draws a uniform-ish index below `n` and advances the state.
    pub fn pick(&mut self, n: usize) -> (r: usize)
        requires
            n > 0,
        ensures
            final(self).state == lcg_next(old(self).state),
            r == lcg_pick(old(self).state, n),
            r < n,
    {
        let wide: u128 = (self.state as u128) * (LCG_MUL as u128) + (LCG_INC as u128);
        let next: u64 = (wide % 0x10000000000000000u128) as u64;
        proof {
            assert(wide == (self.state as int) * (LCG_MUL as int) + (LCG_INC as int));
            assert(next == lcg_next(self.state));
        }
        self.state = next;
        ((next >> 33) as usize) % n
    }
}

} // verus!
