//! A small deterministic pseudo-random generator for bomb placement.
//!
//! Gameplay randomness is not a correctness concern: generation is
//! deterministic for a fixed seed and nothing is claimed about the values
//! drawn beyond the range they are reduced into.

use vstd::prelude::*;

verus! {

/// A linear congruential generator. The multiplier and increment are the
/// classic 64-bit constants; the high bits of the state are used as output.
pub struct GameRng {
    state: u64,
}

impl GameRng {
    /// Creates a generator from a seed. Equal seeds yield equal draws.
    pub fn new(seed: u64) -> GameRng {
        GameRng { state: seed }
    }

    /// Draws the next raw 64-bit value.
    fn next_u64(&mut self) -> u64 {
        self.state = self.state.wrapping_mul(6364136223846793005).wrapping_add(1442695040888963407);
        self.state >> 33
    }

    /// Draws a value below `bound`.
    pub fn next_below(&mut self, bound: usize) -> (r: usize)
        requires
            bound >= 1,
        ensures
            r < bound,
    {
        let v = self.next_u64();
        (v % (bound as u64)) as usize
    }
}

} // verus!
