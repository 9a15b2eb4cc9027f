//! A small seedable xorshift generator.
//!
//! The layout engine needs a coin flip to pick the split axis when a
//! rectangle is exactly square, and the scanner draws node colors.  The
//! generator is injected by the caller and fully modeled, so every function
//! that consumes randomness can state exactly how its result follows from
//! the generator's state, and tests can seed it for determinism.

use vstd::prelude::*;

verus! {

/// Replacement seed used when a zero seed is supplied (xorshift sticks at
/// zero forever).
pub const SEED_FALLBACK: u64 = 0x9e3779b97f4a7c15;

#[derive(Clone, Copy, PartialEq, Eq, Structural, Debug)]
pub struct SplitRng {
    pub state: u64,
}

/// One xorshift step.
pub open spec fn rng_step(s: u64) -> u64 {
    let a = s ^ (s << 13);
    let b = a ^ (a >> 7);
    b ^ (b << 17)
}

impl SplitRng {
    pub fn new(seed: u64) -> (r: SplitRng)
        ensures
            r.state == if seed == 0 {
                SEED_FALLBACK
            } else {
                seed
            },
    {
        if seed == 0 {
            SplitRng { state: SEED_FALLBACK }
        } else {
            SplitRng { state: seed }
        }
    }

    /// Advances the state and returns it.
    pub fn next(&mut self) -> (r: u64)
        ensures
            final(self).state == rng_step(old(self).state),
            r == final(self).state,
    {
        let mut s: u64 = self.state;
        s = s ^ (s << 13);
        s = s ^ (s >> 7);
        s = s ^ (s << 17);
        self.state = s;
        s
    }

    /// A value below `n`.
    pub fn next_below(&mut self, n: u64) -> (r: u64)
        requires
            n > 0,
        ensures
            final(self).state == rng_step(old(self).state),
            r == rng_step(old(self).state) % n,
            r < n,
    {
        let v: u64 = self.next();
        v % n
    }
}

} // verus!
