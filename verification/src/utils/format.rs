//! Bits, bytes and base64 text.
use crate::errors::PirError;
use crate::outside::{base64_bytes, base64_encode, base64_text};
use vstd::arithmetic::div_mod::{
    lemma_basic_div, lemma_div_denominator, lemma_div_pos_is_pos, lemma_fundamental_div_mod,
    lemma_mod_bound,
};
use vstd::arithmetic::power2::{
    lemma2_to64, lemma_pow2_pos, lemma_pow2_strictly_increases, lemma_pow2_unfold, pow2,
};
use vstd::bits::lemma_u32_shr_is_div;
use vstd::prelude::*;

verus! {

/// Bit `j` of a non-negative integer, the least significant bit first.
pub open spec fn bit(x: int, j: int) -> bool {
    (x / (pow2(j as nat) as int)) % 2 == 1
}

/// The integer whose bits are given, the least significant first.
pub open spec fn bits_value(bits: Seq<bool>) -> nat
    decreases bits.len(),
{
    if bits.len() == 0 {
        0
    } else {
        (if bits[0] {
            1nat
        } else {
            0nat
        }) + 2 * bits_value(bits.drop_first())
    }
}

/// The bits of a byte string, the least significant bit of each byte first.
pub open spec fn bits_of_bytes(bytes: Seq<u8>) -> Seq<bool> {
    Seq::new(8 * bytes.len(), |k: int| bit(bytes[k / 8] as int, k % 8))
}

/// The part of a bit string that fills place `i` when it is cut into places of `size` bits.
pub open spec fn bit_chunk(bits: Seq<bool>, i: int, size: int) -> Seq<bool> {
    if (i + 1) * size < bits.len() {
        bits.subrange(i * size, (i + 1) * size)
    } else {
        bits.subrange(i * size, bits.len() as int)
    }
}

/// A bit string as bytes, the last one filled up with zeros.
pub open spec fn bytes_of_bits(bits: Seq<bool>) -> Seq<u8> {
    Seq::new(((bits.len() + 7) / 8) as nat, |i: int| bits_value(bit_chunk(bits, i, 8)) as u8)
}

/// The first `total` bits of a row whose entries hold `entry_bits` bits each.
pub open spec fn row_bits(row: Seq<u32>, entry_bits: int, total: int) -> Seq<bool> {
    Seq::new(
        (if total < row.len() * entry_bits {
            total
        } else {
            row.len() * entry_bits
        }) as nat,
        |k: int| bit(row[k / entry_bits] as int, k % entry_bits),
    )
}

/// The bytes that a row of entries stands for.
pub open spec fn row_bytes(row: Seq<u32>, entry_bits: int, total: int) -> Seq<u8> {
    bytes_of_bits(row_bits(row, entry_bits, total))
}

/// `n` bits stand for an integer below 2^n.
pub proof fn lemma_bits_value_bound(bits: Seq<bool>)
    ensures
        bits_value(bits) < pow2(bits.len()),
    decreases bits.len(),
{
    if bits.len() == 0 {
        lemma2_to64();
    } else {
        lemma_bits_value_bound(bits.drop_first());
        lemma_pow2_unfold(bits.len());
    }
}

/// Dividing by two drops the lowest bit.
proof fn lemma_bit_of_half(x: int, j: int)
    requires
        0 <= x,
        0 < j,
    ensures
        bit(x, j) == bit(x / 2, j - 1),
{
    lemma_pow2_unfold(j as nat);
    lemma_pow2_pos((j - 1) as nat);
    lemma_div_denominator(x, 2, pow2((j - 1) as nat) as int);
}

/// The lowest bit is the parity.
proof fn lemma_lowest_bit(x: int)
    ensures
        bit(x, 0) == (x % 2 == 1),
{
    lemma2_to64();
    assert(x / 1 == x);
}

/// The bits of the integer that a bit string stands for are those of the bit string.
pub proof fn lemma_bit_of_value(bits: Seq<bool>, j: int)
    requires
        0 <= j,
    ensures
        bit(bits_value(bits) as int, j) == (j < bits.len() && bits[j]),
    decreases bits.len(),
{
    let x = bits_value(bits) as int;
    if bits.len() == 0 {
        lemma_pow2_pos(j as nat);
        lemma_basic_div(0, pow2(j as nat) as int);
    } else if j == 0 {
        lemma_lowest_bit(x);
    } else {
        lemma_bit_of_half(x, j);
        assert(x / 2 == bits_value(bits.drop_first()));
        lemma_bit_of_value(bits.drop_first(), j - 1);
    }
}

/// The lowest bits of an integer stand for its remainder.
pub proof fn lemma_value_of_bits(x: int, bits: Seq<bool>)
    requires
        0 <= x < pow2(bits.len()),
        forall|j: int| 0 <= j < bits.len() ==> #[trigger] bits[j] == bit(x, j),
    ensures
        bits_value(bits) == x,
    decreases bits.len(),
{
    lemma2_to64();
    if bits.len() > 0 {
        lemma_pow2_unfold(bits.len());
        let rest = bits.drop_first();
        assert forall|j: int| 0 <= j < rest.len() implies #[trigger] rest[j] == bit(x / 2, j) by {
            lemma_bit_of_half(x, j + 1);
            assert(bits[j + 1] == bit(x, j + 1));
        }
        lemma_value_of_bits(x / 2, rest);
        assert(bits[0] == bit(x, 0));
        lemma_lowest_bit(x);
    }
}

/// Packing the bits of bytes gives the bytes back.
pub proof fn lemma_bytes_round_trip(bytes: Seq<u8>)
    ensures
        bytes_of_bits(bits_of_bytes(bytes)) == bytes,
{
    let bits = bits_of_bytes(bytes);
    assert forall|i: int| 0 <= i < bytes.len() implies bytes_of_bits(bits)[i] == bytes[i] by {
        lemma2_to64();
        let chunk = bit_chunk(bits, i, 8);
        assert(chunk.len() == 8);
        assert forall|j: int| 0 <= j < 8 implies #[trigger] chunk[j] == bit(bytes[i] as int, j) by {
            assert((8 * i + j) / 8 == i && (8 * i + j) % 8 == j);
            assert(bits[8 * i + j] == bit(bytes[i] as int, j));
        }
        lemma_value_of_bits(bytes[i] as int, chunk);
    }
    assert(bytes_of_bits(bits) =~= bytes);
}

/// Reads one bit of a word.
fn word_bit(x: u32, j: usize) -> (b: bool)
    ensures
        b == bit(x as int, j as int),
{
    if j < 32 {
        let shifted: u32 = x >> (j as u32);
        proof {
            lemma_u32_shr_is_div(x, j as u32);
            assert((shifted & 1 == 1) == (shifted % 2 == 1)) by (bit_vector);
        }
        shifted & 1 == 1
    } else {
        proof {
            lemma2_to64();
            if j > 32 {
                lemma_pow2_strictly_increases(32, j as nat);
            }
            lemma_basic_div(x as int, pow2(j as nat) as int);
        }
        false
    }
}

/// The bits of a byte string, the least significant bit of each byte first.
pub fn bytes_to_bits_le(bytes: &[u8]) -> (bits: Vec<bool>)
    requires
        8 * bytes@.len() <= usize::MAX,
    ensures
        bits@ == bits_of_bytes(bytes@),
{
    let count: usize = 8 * bytes.len();
    let mut bits: Vec<bool> = Vec::with_capacity(count);
    for k in 0..count
        invariant
            count == 8 * bytes@.len(),
            bits@ == bits_of_bytes(bytes@).take(k as int),
    {
        let b: bool = word_bit(bytes[k / 8] as u32, k % 8);
        assert(bits_of_bytes(bytes@).take(k + 1) =~= bits_of_bytes(bytes@).take(k as int).push(b));
        bits.push(b);
    }
    assert(bits_of_bytes(bytes@).take(count as int) =~= bits_of_bytes(bytes@));
    bits
}

/// The number whose bits are given, the least significant first; at most 32 bits fit.
pub fn bits_to_u32_le(bits: &[bool]) -> (res: Result<u32, PirError>)
    ensures
        res == if bits@.len() <= 32 {
            Ok::<u32, PirError>(bits_value(bits@) as u32)
        } else {
            Err::<u32, PirError>(PirError::UnexpectedInputSize)
        },
        bits@.len() <= 32 ==> bits_value(bits@) <= u32::MAX,
{
    if bits.len() > 32 {
        return Err(PirError::UnexpectedInputSize);
    }
    let n: usize = bits.len();
    let mut acc: u32 = 0;
    let mut left: usize = n;
    while left > 0
        invariant
            left <= n <= 32,
            n == bits@.len(),
            acc == bits_value(bits@.subrange(left as int, n as int)),
        decreases left,
    {
        let ghost tail = bits@.subrange(left - 1, n as int);
        proof {
            assert(tail.drop_first() =~= bits@.subrange(left as int, n as int));
            lemma_bits_value_bound(tail);
            lemma2_to64();
            if tail.len() < 32 {
                lemma_pow2_strictly_increases(tail.len(), 32);
            }
        }
        left = left - 1;
        acc = 2 * acc + (if bits[left] {
            1u32
        } else {
            0u32
        });
    }
    assert(bits@.subrange(0, n as int) =~= bits@);
    Ok(acc)
}

/// A bit string as bytes, the last one filled up with zeros.
pub fn bits_to_bytes_le(bits: &[bool]) -> (bytes: Vec<u8>)
    ensures
        bytes@ == bytes_of_bits(bits@),
{
    let count: usize = bits.len() / 8 + (if bits.len() % 8 == 0 {
        0usize
    } else {
        1usize
    });
    let mut bytes: Vec<u8> = Vec::with_capacity(count);
    for i in 0..count
        invariant
            count == (bits@.len() + 7) / 8,
            bits@.len() <= usize::MAX,
            bytes@ == bytes_of_bits(bits@).take(i as int),
    {
        let start: usize = 8 * i;
        let end: usize = if bits.len() - start > 8 {
            start + 8
        } else {
            bits.len()
        };
        let mut acc: u8 = 0;
        let mut left: usize = end;
        let ghost chunk = bit_chunk(bits@, i as int, 8);
        assert(chunk =~= bits@.subrange(start as int, end as int));
        while left > start
            invariant
                start <= left <= end <= bits@.len(),
                end - start <= 8,
                acc == bits_value(bits@.subrange(left as int, end as int)),
            decreases left,
        {
            let ghost tail = bits@.subrange(left - 1, end as int);
            proof {
                assert(tail.drop_first() =~= bits@.subrange(left as int, end as int));
                lemma_bits_value_bound(tail);
                lemma2_to64();
                if tail.len() < 8 {
                    lemma_pow2_strictly_increases(tail.len(), 8);
                }
            }
            left = left - 1;
            acc = 2 * acc + (if bits[left] {
                1u8
            } else {
                0u8
            });
        }
        assert(bytes_of_bits(bits@).take(i + 1) =~= bytes_of_bits(bits@).take(i as int).push(acc));
        bytes.push(acc);
    }
    assert(bytes_of_bits(bits@).take(count as int) =~= bytes_of_bits(bits@));
    bytes
}

/// The bytes that a row stands for: its entries hold `entry_bit_len` bits each, and the bits past
/// `total_bit_len` are dropped.
pub fn bytes_from_u32_slice(v: &[u32], entry_bit_len: usize, total_bit_len: usize) -> (bytes: Vec<
    u8,
>)
    requires
        entry_bit_len > 0,
    ensures
        bytes@ == row_bytes(v@, entry_bit_len as int, total_bit_len as int),
{
    let len: usize = v.len();
    assert(0 <= len * entry_bit_len <= 0xffff_ffff_ffff_ffff * 0xffff_ffff_ffff_ffff)
        by (nonlinear_arith)
        requires
            0 <= len <= 0xffff_ffff_ffff_ffff,
            0 <= entry_bit_len <= 0xffff_ffff_ffff_ffff,
    ;
    let held: u128 = (len as u128) * (entry_bit_len as u128);
    let count: usize = if (total_bit_len as u128) < held {
        total_bit_len
    } else {
        held as usize
    };
    let ghost expected = row_bits(v@, entry_bit_len as int, total_bit_len as int);
    let mut bits: Vec<bool> = Vec::with_capacity(count);
    for k in 0..count
        invariant
            entry_bit_len > 0,
            count <= v@.len() * entry_bit_len,
            expected == row_bits(v@, entry_bit_len as int, total_bit_len as int),
            count == expected.len(),
            bits@ == expected.take(k as int),
    {
        proof {
            lemma_div_strictly_below(k as int, v@.len() as int, entry_bit_len as int);
        }
        let b: bool = word_bit(v[k / entry_bit_len], k % entry_bit_len);
        assert(expected.take(k + 1) =~= expected.take(k as int).push(b));
        bits.push(b);
    }
    assert(expected.take(count as int) =~= expected);
    bits_to_bytes_le(&bits)
}

/// A position below `n * d` lies in one of the first `n` places of size `d`.
pub proof fn lemma_div_strictly_below(k: int, n: int, d: int)
    requires
        0 <= k < n * d,
        0 < d,
    ensures
        0 <= k / d < n,
        0 <= k % d < d,
        k == (k / d) * d + k % d,
{
    lemma_fundamental_div_mod(k, d);
    lemma_mod_bound(k, d);
    assert(d * (k / d) == (k / d) * d) by (nonlinear_arith);
    lemma_div_pos_is_pos(k, d);
    assert(k / d < n) by (nonlinear_arith)
        requires
            k < n * d,
            0 < d,
            (k / d) * d <= k,
    ;
}

/// The base64 text of the bytes that a row stands for.
pub fn base64_from_u32_slice(v: &[u32], entry_bit_len: usize, total_bit_len: usize) -> (text:
    String)
    requires
        entry_bit_len > 0,
    ensures
        text@ == base64_text(row_bytes(v@, entry_bit_len as int, total_bit_len as int)),
        base64_bytes(text@) == Some(row_bytes(v@, entry_bit_len as int, total_bit_len as int)),
{
    let bytes = bytes_from_u32_slice(v, entry_bit_len, total_bit_len);
    assert(8 * bytes@.len() <= total_bit_len + 7);
    base64_encode(&bytes)
}

} // verus!
