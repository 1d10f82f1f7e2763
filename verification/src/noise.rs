//! Integer noise: the hash behind the noise oscillator and the analog drift, and its seeds.

use vstd::prelude::*;

verus! {

/// What a seed goes up by from one sample to the next.
pub const SEED_STEP: u32 = 0x9E37_79B9;

/// What sets the left channel's drift seed apart.
pub const LEFT_DRIFT_SALT: u32 = 0xA5A5_5A5A;

/// What sets the right channel's drift seed apart.
pub const RIGHT_DRIFT_SALT: u32 = 0x5A5A_A5A5;

/// What sets the noise oscillator's seed apart.
pub const NOISE_SALT: u32 = 0x1234_5678;

/// A 32-bit finalizer of alternating shifts and odd multiplications.
pub open spec fn scrambled(x: u32) -> u32 {
    let a = x ^ (x >> 16);
    let b = a.wrapping_mul(0x7feb_352d);
    let c = b ^ (b >> 15);
    let d = c.wrapping_mul(0x846c_a68b);
    d ^ (d >> 16)
}

/// Scrambles `x` so that inputs that differ in one bit give outputs that look unrelated. Spread
/// over -1 to 1, it is the noise sample.
pub fn scramble(x: u32) -> (h: u32)
    ensures
        h == scrambled(x),
{
    let a: u32 = x ^ (x >> 16);
    let b: u32 = a.wrapping_mul(0x7feb_352d);
    let c: u32 = b ^ (b >> 15);
    let d: u32 = c.wrapping_mul(0x846c_a68b);
    d ^ (d >> 16)
}

/// The seed of the next sample.
pub fn next_seed(seed: u32) -> (next: u32)
    ensures
        next == seed.wrapping_add(SEED_STEP),
{
    seed.wrapping_add(SEED_STEP)
}

/// The drift seeds of a voice's two channels, from the bits of its frequency.
pub fn drift_seeds(freq_bits: u32) -> (seeds: (u32, u32))
    ensures
        seeds == (freq_bits ^ LEFT_DRIFT_SALT, freq_bits ^ RIGHT_DRIFT_SALT),
        seeds.0 != seeds.1,
{
    assert(freq_bits ^ 0xA5A5_5A5Au32 != freq_bits ^ 0x5A5A_A5A5u32) by (bit_vector);
    (freq_bits ^ LEFT_DRIFT_SALT, freq_bits ^ RIGHT_DRIFT_SALT)
}

/// The noise oscillator's seed, from the bits of the voice's frequency.
pub fn noise_seed(freq_bits: u32) -> (seed: u32)
    ensures
        seed == freq_bits ^ NOISE_SALT,
{
    freq_bits ^ NOISE_SALT
}

/// Undoes the scrambling: the same shifts, with the multiplications by the inverses of its two odd
/// factors, in reverse.
pub open spec fn unscrambled(h: u32) -> u32 {
    let d = h ^ (h >> 16);
    let c = d.wrapping_mul(0x4302_1123);
    let b = c ^ (c >> 15) ^ (c >> 30);
    let a = b.wrapping_mul(0x1d69_e2a5);
    a ^ (a >> 16)
}

proof fn lemma_factors_cancel(x: u32, factor: u32, inverse: u32)
    requires
        (factor * inverse) % 0x1_0000_0000 == 1,
    ensures
        x.wrapping_mul(factor).wrapping_mul(inverse) == x,
{
    let m = 0x1_0000_0000int;
    let y = x.wrapping_mul(factor);
    assert(y as int == (x * factor) % m);
    assert(y.wrapping_mul(inverse) as int == (y * inverse) % m);
    vstd::arithmetic::div_mod::lemma_mul_mod_noop_left(x * factor, inverse as int, m);
    assert((x * factor) * inverse == x * (factor * inverse)) by (nonlinear_arith);
    vstd::arithmetic::div_mod::lemma_mul_mod_noop_right(x as int, factor * inverse, m);
    assert(x * 1 == x);
    vstd::arithmetic::div_mod::lemma_small_mod(x as nat, m as nat);
}

/// Scrambling loses nothing: every value can be told from its scrambled one, so no two seeds give the
/// same noise.
pub proof fn law_scrambling_can_be_undone(x: u32)
    ensures
        unscrambled(scrambled(x)) == x,
{
    let a = x ^ (x >> 16);
    let b = a.wrapping_mul(0x7feb_352d);
    let c = b ^ (b >> 15);
    let d = c.wrapping_mul(0x846c_a68b);
    let h = d ^ (d >> 16);
    assert((d ^ (d >> 16)) ^ ((d ^ (d >> 16)) >> 16) == d) by (bit_vector);
    assert((0x846c_a68bu32 * 0x4302_1123u32) % 0x1_0000_0000 == 1) by (nonlinear_arith);
    lemma_factors_cancel(c, 0x846c_a68b, 0x4302_1123);
    assert((b ^ (b >> 15)) ^ ((b ^ (b >> 15)) >> 15) ^ ((b ^ (b >> 15)) >> 30) == b)
        by (bit_vector);
    assert((0x7feb_352du32 * 0x1d69_e2a5u32) % 0x1_0000_0000 == 1) by (nonlinear_arith);
    lemma_factors_cancel(a, 0x7feb_352d, 0x1d69_e2a5);
    assert((x ^ (x >> 16)) ^ ((x ^ (x >> 16)) >> 16) == x) by (bit_vector);
}

} // verus!
