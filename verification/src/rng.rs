//! A small deterministic pseudo-random number generator.
//!
//! The playout policy draws its moves from an explicitly passed generator, so
//! a search run is reproducible from its seed.

use vstd::prelude::*;

verus! {

/// The default state a zero seed is replaced with: the generator must never
/// hold state zero, which is a fixed point of the step function.
pub const SEED_FALLBACK: u64 = 0x9E3779B97F4A7C15;

/// One xorshift step.
pub open spec fn spec_step(s: u64) -> u64 {
    let a = s ^ (s << 13);
    let b = a ^ (a >> 7);
    b ^ (b << 17)
}

/// A xorshift generator with 64 bits of state.
pub struct XorShift {
    pub state: u64,
}

impl XorShift {
    /// Creates a generator from a seed; a zero seed falls back to a fixed
    /// nonzero state.
    pub fn new(seed: u64) -> (r: XorShift)
        ensures
            r.state == if seed == 0 {
                SEED_FALLBACK
            } else {
                seed
            },
    {
        if seed == 0 {
            XorShift { state: SEED_FALLBACK }
        } else {
            XorShift { state: seed }
        }
    }

    /// Advances the state and returns it as the next draw.
    pub fn next(&mut self) -> (r: u64)
        ensures
            final(self).state == spec_step(old(self).state),
            r == final(self).state,
    {
        let s = self.state;
        let a = s ^ (s << 13u64);
        let b = a ^ (a >> 7u64);
        let c = b ^ (b << 17u64);
        self.state = c;
        c
    }
}

} // verus!
