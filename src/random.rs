//! Deterministic linear-congruential generator (L'Ecuyer's parameters).

use vstd::prelude::*;

verus! {

/// Modulus: `2^32 - 5`.
pub const M: u64 = 0xFFFF_FFFB;

/// Multiplier.
pub const A: u64 = 1588635695;

/// Increment.
pub const C: u64 = 12345;

/// The state that follows `s`.
pub open spec fn lcg_next(s: u32) -> u32 {
    ((A * s + C) % (M as int)) as u32
}

/// A reproducible pseudo-random source.
pub struct UniformRng {
    state: u32,
}

impl UniformRng {
    /// Current state of the generator.
    pub closed spec fn state(&self) -> u32 {
        self.state
    }

    /// A generator whose state is `seed`.
    pub fn from_seed(seed: u32) -> (r: UniformRng)
        ensures
            r.state() == seed,
    {
        UniformRng { state: seed }
    }

    /// Advances the state and returns it.
    pub fn gen(&mut self) -> (r: u32)
        ensures
            final(self).state() == lcg_next(old(self).state()),
            r == final(self).state(),
    {
        let next = (A * (self.state as u64) + C) % M;
        self.state = next as u32;
        self.state
    }

    /// Advances the state and returns `min + state mod (max - min + 1)`, a
    /// value of `min..=max`.
    pub fn gen_range(&mut self, min: u32, max: u32) -> (r: u32)
        requires
            min <= max,
        ensures
            final(self).state() == lcg_next(old(self).state()),
            r == min + (lcg_next(old(self).state()) as int) % (max - min + 1),
            min <= r <= max,
    {
        let span: u64 = (max - min) as u64 + 1;
        let g = self.gen() as u64;
        let k = g % span;
        (k as u32) + min
    }
}

} // verus!
