use vstd::prelude::*;

verus! {

/// The golden-ratio increment that advances a SplitMix64 generator.
pub const GOLDEN_GAMMA: u64 = 0x9e3779b97f4a7c15;

/// The generator's state after one more draw.
pub open spec fn advanced(state: u64) -> u64 {
    ((state + GOLDEN_GAMMA) % 0x1_0000_0000_0000_0000) as u64
}

/// The SplitMix64 output function applied to an already advanced state.
pub open spec fn mixed(z: u64) -> u64 {
    let a = (((z ^ (z >> 30u64)) * 0xbf58476d1ce4e5b9u64) % 0x1_0000_0000_0000_0000) as u64;
    let b = (((a ^ (a >> 27u64)) * 0x94d049bb133111ebu64) % 0x1_0000_0000_0000_0000) as u64;
    b ^ (b >> 31u64)
}

/// A SplitMix64 pseudo-random generator: one 64-bit word of state.
pub struct SplitMix64 {
    pub state: u64,
}

impl SplitMix64 {
    /// A generator seeded with `seed`.
    pub fn new(seed: u64) -> (rng: Self)
        ensures
            rng.state == seed,
    {
        SplitMix64 { state: seed }
    }

    /// Advances the generator and returns the next 64-bit output.
    pub fn next_raw(&mut self) -> (value: u64)
        ensures
            final(self).state == advanced(old(self).state),
            value == mixed(final(self).state),
    {
        self.state = self.state.wrapping_add(GOLDEN_GAMMA);
        let mut value = self.state;
        value = (value ^ (value >> 30)).wrapping_mul(0xbf58476d1ce4e5b9);
        value = (value ^ (value >> 27)).wrapping_mul(0x94d049bb133111eb);
        value = value ^ (value >> 31);
        value
    }
}

} // verus!
