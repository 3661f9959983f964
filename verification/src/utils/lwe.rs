//! Parameters of the learning-with-errors scheme, whose modulus is 2^32, and its ternary noise.
use crate::outside::{os_random_word, par_map};
use vstd::arithmetic::power2::{lemma2_to64, lemma_pow2_pos, lemma_pow2_strictly_increases, pow2};
use vstd::bits::lemma_u32_shl_is_mul;
use vstd::prelude::*;

verus! {

/// One of the words that stand for 0, 1 and -1 modulo 2^32.
pub open spec fn is_ternary(x: u32) -> bool {
    x == 0 || x == 1 || x == u32::MAX
}

/// A vector of ternary values.
pub open spec fn all_ternary(v: Seq<u32>) -> bool {
    forall|i: int| 0 <= i < v.len() ==> is_ternary(#[trigger] v[i])
}

/// The integer that a ternary word stands for.
pub open spec fn ternary_value(x: u32) -> int {
    if x == u32::MAX {
        -1
    } else {
        x as int
    }
}

/// The number of words that are mapped to each ternary value.
pub const TERNARY_INTERVAL_SIZE: u32 = 0x5555_5555;

/// The ternary value of a uniform word: three intervals of equal size stand for 0, 1 and -1, and
/// the word that is left over stands for none.
pub open spec fn ternary_of(word: u32) -> Option<u32> {
    if word < TERNARY_INTERVAL_SIZE {
        Some(0)
    } else if word < 2 * TERNARY_INTERVAL_SIZE {
        Some(1)
    } else if word < 3 * TERNARY_INTERVAL_SIZE {
        Some(u32::MAX)
    } else {
        None
    }
}

/// The factor by which plaintext values are scaled: 2^32 divided by the number of plaintext values.
pub open spec fn rounding_factor(plaintext_bits: int) -> int {
    pow2((32 - plaintext_bits) as nat) as int
}

/// The number of plaintext values.
pub open spec fn plaintext_size(plaintext_bits: int) -> int {
    pow2(plaintext_bits as nat) as int
}

/// The power of two lies in the range of `u32`.
proof fn lemma_pow2_fits(k: nat)
    requires
        k <= 31,
    ensures
        0 < pow2(k) <= 0x8000_0000,
{
    lemma2_to64();
    lemma_pow2_pos(k);
    if k < 31 {
        lemma_pow2_strictly_increases(k, 31);
    }
}

/// The factor by which plaintext values are scaled.
pub fn get_rounding_factor(plaintext_bits: usize) -> (factor: u32)
    requires
        1 <= plaintext_bits <= 32,
    ensures
        factor == rounding_factor(plaintext_bits as int),
        factor > 0,
{
    let shift: u32 = 32 - (plaintext_bits as u32);
    proof {
        lemma_pow2_fits(shift as nat);
        lemma_u32_shl_is_mul(1u32, shift);
    }
    1u32 << shift
}

/// Half of the rounding factor.
pub fn get_rounding_floor(plaintext_bits: usize) -> (floor: u32)
    requires
        1 <= plaintext_bits <= 32,
    ensures
        floor == rounding_factor(plaintext_bits as int) / 2,
{
    get_rounding_factor(plaintext_bits) / 2
}

/// The number of plaintext values.
pub fn get_plaintext_size(plaintext_bits: usize) -> (size: u32)
    requires
        plaintext_bits <= 31,
    ensures
        size == plaintext_size(plaintext_bits as int),
        size > 0,
{
    let shift: u32 = plaintext_bits as u32;
    proof {
        lemma_pow2_fits(shift as nat);
        lemma_u32_shl_is_mul(1u32, shift);
    }
    1u32 << shift
}

/// Maps a uniform word to a ternary value, or rejects it.
pub fn ternary_from_word(word: u32) -> (value: Option<u32>)
    ensures
        value == ternary_of(word),
        value matches Some(x) ==> is_ternary(x),
{
    if word < TERNARY_INTERVAL_SIZE {
        Some(0)
    } else if word < 2 * TERNARY_INTERVAL_SIZE {
        Some(1)
    } else if word < 3 * TERNARY_INTERVAL_SIZE {
        Some(u32::MAX)
    } else {
        None
    }
}

/// Draws words until one stands for a ternary value, and settles for 0 if that takes 2^64 - 1 words.
/// Nothing is said of how often each value comes: that is a matter of chance.
pub fn random_ternary() -> (value: u32)
    ensures
        is_ternary(value),
{
    let mut draws: u64 = 0;
    while draws < u64::MAX
        decreases u64::MAX - draws,
    {
        if let Some(value) = ternary_from_word(os_random_word()) {
            return value;
        }
        draws = draws + 1;
    }
    0
}

/// A vector of ternary values that are drawn one by one.
pub fn random_ternary_vector(width: usize) -> (v: Vec<u32>)
    ensures
        v@.len() == width,
        all_ternary(v@),
{
    let draw = |i: usize| -> (value: u32)
        ensures
            is_ternary(value),
        { random_ternary() };
    par_map(width, draw)
}

} // verus!
