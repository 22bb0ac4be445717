use vstd::prelude::*;

verus! {

/// Seed of the noise generator of a fresh emitter.
pub const NOISE_SEED: u32 = 12345;

/// The next state of the noise generator: one step of the linear congruential
/// recurrence `s * 1103515245 + 12345`, kept to its low 31 bits.
pub open spec fn spec_next_noise_state(state: u32) -> u32 {
    ((state as int * 1103515245 + 12345) % 0x8000_0000) as u32
}

/// Integer state of the white-noise oscillator.
pub struct NoiseGenerator {
    state: u32,
}

impl NoiseGenerator {
    pub closed spec fn state(&self) -> u32 {
        self.state
    }

    /// A generator in its initial state.
    pub fn new() -> (g: Self)
        ensures
            g.state() == NOISE_SEED,
    {
        NoiseGenerator { state: NOISE_SEED }
    }

    /// Advances the generator and returns the new state, a value in `0..=0x7FFF_FFFF`.
    pub fn next_state(&mut self) -> (r: u32)
        ensures
            r == spec_next_noise_state(old(self).state()),
            final(self).state() == r,
            r <= 0x7FFF_FFFF,
    {
        let old_state = self.state;
        let m = old_state.wrapping_mul(1103515245);
        let s = m.wrapping_add(12345);
        let r = s & 0x7FFF_FFFF;
        assert(s & 0x7FFF_FFFF == s % 0x8000_0000) by (bit_vector);
        proof {
            let x = old_state as int * 1103515245;
            assert(m as int == x % 0x1_0000_0000);
            assert(s as int == (m as int + 12345) % 0x1_0000_0000);
            vstd::arithmetic::div_mod::lemma_add_mod_noop(x, 12345, 0x1_0000_0000);
            assert(12345int % 0x1_0000_0000 == 12345);
            assert(s as int == (x + 12345) % 0x1_0000_0000);
            vstd::arithmetic::div_mod::lemma_mod_mod(x + 12345, 0x8000_0000, 2);
            assert(0x8000_0000int * 2 == 0x1_0000_0000);
        }
        self.state = r;
        r
    }
}

} // verus!
