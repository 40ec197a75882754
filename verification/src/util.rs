//! A small linear congruential generator: the source of the random builder's
//! draws, reproducible from its seed.

use vstd::prelude::*;

verus! {

/// The multiplier of the generator.
pub const LCG_MULTIPLIER: u64 = 6364136223846793005;

/// The increment of the generator.
pub const LCG_INCREMENT: u64 = 1442695040888963407;

/// The seed of a generator made without one.
pub const LCG_DEFAULT_SEED: u64 = 0x2545_F491_4F6C_DD1D;

/// The state that follows `state`: `state` times the multiplier plus the
/// increment, in 64 bits.
pub open spec fn lcg_step(state: u64) -> u64 {
    state.wrapping_mul(LCG_MULTIPLIER).wrapping_add(LCG_INCREMENT)
}

/// The number below `bound` that a generator in state `state` draws next: the
/// upper half of the state that follows, reduced by `bound`.
pub open spec fn lcg_draw(state: u64, bound: u64) -> u64 {
    (lcg_step(state) / 0x1_0000_0000) % bound
}

/// A linear congruential generator over 64 bits.
pub struct Lcg {
    state: u64,
}

impl View for Lcg {
    type V = u64;

    closed spec fn view(&self) -> u64 {
        self.state
    }
}

impl Lcg {
    /// A generator with the default seed.
    pub fn new() -> (rng: Self)
        ensures
            rng@ == LCG_DEFAULT_SEED,
    {
        Lcg { state: LCG_DEFAULT_SEED }
    }

    /// A generator that starts from `seed`.
    pub fn from_seed(seed: u64) -> (rng: Self)
        ensures
            rng@ == seed,
    {
        Lcg { state: seed }
    }

    /// Draws a number below `bound` and moves the generator on by one step.
    pub fn generate_range(&mut self, bound: u64) -> (value: u64)
        requires
            bound > 0,
        ensures
            final(self)@ == lcg_step(old(self)@),
            value == lcg_draw(old(self)@, bound),
            value < bound,
    {
        self.state = self.state.wrapping_mul(LCG_MULTIPLIER).wrapping_add(LCG_INCREMENT);
        (self.state / 0x1_0000_0000) % bound
    }
}

} // verus!
