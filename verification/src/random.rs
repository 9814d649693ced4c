//! Reproducible random numbers: a ChaCha stream, read word by word.

use vstd::arithmetic::power2::{lemma_pow2_adds, lemma_pow2_pos, lemma_pow2_unfold, pow2};
use vstd::prelude::*;

use crate::double::{lemma_exact, magnitude, nearest_double, round_any, single_magnitude};

verus! {

/// The word at `position` of the ChaCha8 stream that the number `seed` seeds.
pub uninterp spec fn chacha_word(seed: u64, position: u64) -> u32;

/// Wraps `rand_chacha::ChaCha8Rng`, seeded with `SeedableRng::seed_from_u64`, moved with
/// `set_word_pos` and read with `RngCore::next_u32`. The contract claims that the word depends on
/// the seed and the position alone; which word it is is left to the name [`chacha_word`].
#[verifier::external_body]
fn word_at(seed: u64, position: u64) -> (word: u32)
    ensures
        word == chacha_word(seed, position),
{
    let mut rng = <rand_chacha::ChaCha8Rng as rand::SeedableRng>::seed_from_u64(seed);
    rng.set_word_pos(position as u128);
    rand::RngCore::next_u32(&mut rng)
}

/// Two words of a stream as one number, the first of them the lower half.
pub open spec fn chacha_pair(seed: u64, position: u64) -> u64 {
    (chacha_word(seed, position) + 0x1_0000_0000 * chacha_word(
        seed,
        (position + 1) as u64,
    )) as u64
}

/// The double in the unit interval that 64 random bits give: the first 53 of them, behind the
/// point.
pub open spec fn unit_double(pair: u64) -> u64 {
    nearest_double((pair / 0x800) as nat * pow2(1021))
}

/// A ChaCha stream and how many of its words were read.
#[derive(Debug, Clone, Copy)]
pub struct Stream {
    pub seed: u64,
    pub position: u64,
}

impl Stream {
    /// The stream once `n` more words were read.
    pub open spec fn after(self, n: int) -> Stream {
        Stream { seed: self.seed, position: (self.position + n) as u64 }
    }

    /// Whether there are `n` more words.
    pub open spec fn has(self, n: int) -> bool {
        self.position + n <= u64::MAX
    }

    /// The next 64 bits.
    pub open spec fn pair(self) -> u64 {
        chacha_pair(self.seed, self.position)
    }

    /// The stream that `seed` seeds, at its start.
    pub fn new(seed: u64) -> (stream: Self)
        ensures
            stream == (Stream { seed, position: 0 }),
    {
        Stream { seed, position: 0 }
    }

    /// Reads the next 32 bits.
    pub fn next_word(&mut self) -> (word: u32)
        requires
            old(self).has(1),
        ensures
            word == chacha_word(old(self).seed, old(self).position),
            *final(self) == old(self).after(1),
    {
        let word: u32 = word_at(self.seed, self.position);
        self.position = self.position + 1;
        word
    }

    /// Reads the next 64 bits.
    pub fn next_pair(&mut self) -> (pair: u64)
        requires
            old(self).has(2),
        ensures
            pair == old(self).pair(),
            *final(self) == old(self).after(2),
    {
        let low: u32 = self.next_word();
        let high: u32 = self.next_word();
        low as u64 + 0x1_0000_0000 * high as u64
    }

    /// Reads a double from the unit interval: 53 bits behind the point. Gives its bit pattern.
    pub fn next_double(&mut self) -> (bits: u64)
        requires
            old(self).has(2),
        ensures
            bits == unit_double(old(self).pair()),
            *final(self) == old(self).after(2),
    {
        let value: u64 = self.next_pair() / 0x800;
        round_any(value as u128, 1021)
    }

    /// Reads a single from the unit interval: 24 bits behind the point. Gives its bit pattern.
    pub fn next_single(&mut self) -> (bits: u32)
        requires
            old(self).has(1),
        ensures
            bits < 0x3f80_0000,
            single_magnitude(bits) == (chacha_word(old(self).seed, old(self).position) / 0x100)
                * pow2(125),
            *final(self) == old(self).after(1),
    {
        let value: u32 = self.next_word() / 0x100;
        if value == 0 {
            assert(0 * pow2(125) == 0);
            return 0;
        }
        let mut significand: u32 = value;
        let mut exponent: u32 = 125;
        proof {
            vstd::arithmetic::power2::lemma2_to64();
        }
        while significand < 0x80_0000
            invariant
                0 < significand < 0x100_0000,
                exponent <= 125,
                significand * pow2(exponent as nat) == value * pow2(125),
                pow2((125 - exponent) as nat) <= significand,
            decreases 0x100_0000 - significand,
        {
            proof {
                if exponent == 0 {
                    lemma_pow2_adds(60, 65);
                    lemma_pow2_adds(30, 30);
                    vstd::arithmetic::power2::lemma2_to64();
                    lemma_pow2_pos(65);
                    assert(pow2(125) >= pow2(60)) by (nonlinear_arith)
                        requires
                            pow2(125) == pow2(60) * pow2(65),
                            pow2(65) >= 1,
                            pow2(60) >= 0,
                    ;
                    vstd::arithmetic::power2::lemma2_to64_rest();
                }
                lemma_pow2_unfold(exponent as nat);
                lemma_pow2_unfold((126 - exponent) as nat);
                let half = pow2((exponent - 1) as nat);
                assert((2 * significand) * half == significand * (2 * half)) by (nonlinear_arith);
            }
            significand = significand * 2;
            exponent = exponent - 1;
        }
        let bits: u32 = (exponent + 1) * 0x80_0000 + (significand - 0x80_0000);
        assert(bits % 0x8000_0000 == bits);
        assert(bits / 0x80_0000 == exponent + 1);
        assert(bits % 0x80_0000 == significand - 0x80_0000);
        bits
    }
}

/// A random double is the first 53 bits behind the point, exactly, and is less than one.
pub proof fn unit_doubles_are_exact(pair: u64)
    ensures
        magnitude(unit_double(pair)) == (pair / 0x800) as nat * pow2(1021),
        unit_double(pair) < 0x3ff0_0000_0000_0000,
{
    lemma_exact((pair / 0x800) as nat, 1021);
}

/// Draws go on where the last one ended: no word is used twice, and none is left out.
pub proof fn draws_follow_each_other(stream: Stream, a: int, b: int)
    requires
        0 <= a,
        0 <= b,
        stream.has(a + b),
    ensures
        stream.after(a).position - stream.position == a,
        stream.after(a).after(b) == stream.after(a + b),
        stream.after(a).seed == stream.seed,
        stream.after(a).has(b),
        stream.has(2) ==> stream.pair() == chacha_word(stream.seed, stream.position) + 0x1_0000_0000
            * chacha_word(stream.seed, stream.after(1).position),
{
}

} // verus!
