//! The seeded generator behind the ants' random choices.
use vstd::prelude::*;
use vstd::arithmetic::div_mod::{lemma_add_mod_noop, lemma_mod_self_0, lemma_small_mod};

verus! {

/// Multiplier of the linear congruential step.
pub const LCG_MULTIPLIER: u64 = 6364136223846793005u64;

/// Increment of the linear congruential step.
pub const LCG_INCREMENT: u64 = 1442695040888963407u64;

/// The state that follows `s`: `(LCG_MULTIPLIER * s + LCG_INCREMENT) mod 2^64`.
pub open spec fn lcg_step(s: u64) -> u64 {
    ((LCG_MULTIPLIER as int * s as int + LCG_INCREMENT as int) % 0x1_0000_0000_0000_0000int) as u64
}

/// The 53 random bits that a state yields: its top 53 bits.
pub open spec fn output_bits(s: u64) -> u64 {
    s >> 11u64
}

/// A deterministic pseudo-random generator: a 64-bit linear congruential
/// generator. Two generators made from the same seed yield the same values.
pub struct SimpleRng {
    state: u64,
}

impl View for SimpleRng {
    type V = u64;

    /// The generator's state.
    closed spec fn view(&self) -> u64 {
        self.state
    }
}

impl SimpleRng {
    /// A generator whose state is `seed`.
    pub fn new(seed: u64) -> (r: Self)
        ensures
            r@ == seed,
    {
        SimpleRng { state: seed }
    }

    /// Advances the state by one step and returns its top 53 bits, a value
    /// below `2^53` that `gen_f64` scales into `[0, 1)`.
    pub fn next_bits(&mut self) -> (r: u64)
        ensures
            final(self)@ == lcg_step(old(self)@),
            r == output_bits(final(self)@),
            r < 0x20_0000_0000_0000u64,
            final(self)@ as int == (LCG_MULTIPLIER as int * old(self)@ as int + LCG_INCREMENT as int) % 0x1_0000_0000_0000_0000int,
            r == final(self)@ >> 11u64,
    {
        let s = self.state;
        let product = s.wrapping_mul(LCG_MULTIPLIER);
        let next = product.wrapping_add(LCG_INCREMENT);
        proof {
            let m: int = 0x1_0000_0000_0000_0000int;
            let a: int = LCG_MULTIPLIER as int * s as int;
            let c: int = LCG_INCREMENT as int;
            assert(product as int == a % m) by {
                assert(s as nat * LCG_MULTIPLIER as nat == LCG_MULTIPLIER as int * s as int) by (nonlinear_arith);
            }
            lemma_add_mod_noop(a, c, m);
            lemma_small_mod(c as nat, m as nat);
            if product as int + c > u64::MAX as int {
                lemma_small_mod((product as int + c - m) as nat, m as nat);
                lemma_mod_self_0(m);
                lemma_add_mod_noop(product as int + c - m, m, m);
                lemma_small_mod(0, m as nat);
            } else {
                lemma_small_mod((product as int + c) as nat, m as nat);
            }
            assert(next == lcg_step(s));
        }
        self.state = next;
        let r = next >> 11u64;
        assert(r < 0x20_0000_0000_0000u64) by (bit_vector)
            requires r == next >> 11u64;
        r
    }
}

} // verus!
