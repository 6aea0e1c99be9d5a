use vstd::prelude::*;

verus! {

/// A small deterministic pseudo-random generator (the SplitMix64 step
/// function). The generator is an explicit value handed to the puzzle
/// generator and the scrambler, so both are reproducible under a fixed
/// seed; callers that want fresh puzzles on every run seed it from any
/// varying source.
pub struct Rng {
    pub state: u64,
}

/// The state advance of one SplitMix64 step.
pub open spec fn spec_next_state(s: u64) -> u64 {
    vstd::wrapping::u64_specs::wrapping_add(s, 0x9E3779B97F4A7C15)
}

/// The output mix of one SplitMix64 step, applied to the advanced state.
pub open spec fn spec_mix(s: u64) -> u64 {
    let a = vstd::wrapping::u64_specs::wrapping_mul(s ^ (s >> 30), 0xBF58476D1CE4E5B9);
    let b = vstd::wrapping::u64_specs::wrapping_mul(a ^ (a >> 27), 0x94D049BB133111EB);
    b ^ (b >> 31)
}

impl Rng {
    /// A generator starting from the given seed.
    pub fn new(seed: u64) -> (r: Rng)
        ensures
            r.state == seed,
    {
        Rng { state: seed }
    }

    /// Draws the next 64-bit value and advances the state. The result is
    /// a pure function of the state before the call.
    pub fn next_u64(&mut self) -> (r: u64)
        ensures
            final(self).state == spec_next_state(old(self).state),
            r == spec_mix(spec_next_state(old(self).state)),
    {
        self.state = self.state.wrapping_add(0x9E3779B97F4A7C15);
        let z = self.state;
        let a = (z ^ (z >> 30)).wrapping_mul(0xBF58476D1CE4E5B9);
        let b = (a ^ (a >> 27)).wrapping_mul(0x94D049BB133111EB);
        b ^ (b >> 31)
    }

    /// Draws a value below `bound`: the next 64-bit value reduced modulo
    /// `bound`. Like `next_u64`, the result is a pure function of the
    /// state before the call.
    pub fn next_below(&mut self, bound: usize) -> (r: usize)
        requires
            bound >= 1,
        ensures
            r < bound,
            final(self).state == spec_next_state(old(self).state),
            r == spec_mix(spec_next_state(old(self).state)) as int % (bound as int),
    {
        let x = self.next_u64();
        let m = x % (bound as u64);
        m as usize
    }
}

} // verus!
