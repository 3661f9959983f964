//! Vectors and matrices of `u32` modulo 2^32.
use crate::arith::{
    dot, lemma_accumulate, lemma_flat_index, products, sum, wrap,
};
use crate::errors::PirError;
use crate::outside::{chacha_bytes, chacha_stream};
use vstd::prelude::*;

verus! {

/// Word number `k` of a byte string, the least significant byte first.
pub open spec fn le_word(bytes: Seq<u8>, k: int) -> u32 {
    (bytes[4 * k] + 0x100 * bytes[4 * k + 1] + 0x1_0000 * bytes[4 * k + 2] + 0x100_0000 * bytes[4
        * k + 3]) as u32
}

/// Entry `r` of column `i` of the public matrix that a seed stands for: `m` columns of `dim` words
/// each, taken from the key stream one after the other.
pub open spec fn lwe_entry(seed: Seq<u8>, dim: nat, m: nat, i: int, r: int) -> u32 {
    le_word(chacha_stream(seed, 4 * (dim * m)), i * dim + r)
}

/// Column `i` of the public matrix.
pub open spec fn lwe_column(seed: Seq<u8>, dim: nat, m: nat, i: int) -> Seq<u32> {
    Seq::new(dim, |r: int| lwe_entry(seed, dim, m, i, r))
}

/// Row `r` of the public matrix.
pub open spec fn lwe_row(seed: Seq<u8>, dim: nat, m: nat, r: int) -> Seq<u32> {
    Seq::new(m, |i: int| lwe_entry(seed, dim, m, i, r))
}

/// The rows of a matrix one after the other.
pub open spec fn flat(rows: Seq<Vec<u32>>) -> Seq<u32>
    decreases rows.len(),
{
    if rows.len() == 0 {
        Seq::empty()
    } else {
        flat(rows.drop_last()) + rows.last()@
    }
}

/// Where all rows have the same width, an entry stands at `row * width + column`.
pub proof fn lemma_flat_entry(rows: Seq<Vec<u32>>, width: int, i: int, c: int)
    requires
        forall|k: int| 0 <= k < rows.len() ==> (#[trigger] rows[k])@.len() == width,
    ensures
        flat(rows).len() == rows.len() * width,
        0 <= i < rows.len() && 0 <= c < width ==> flat(rows)[i * width + c] == rows[i]@[c],
    decreases rows.len(),
{
    if rows.len() == 0 {
        assert(0 * width == 0) by (nonlinear_arith);
    } else {
        let n = rows.len() as int;
        lemma_flat_entry(rows.drop_last(), width, i, c);
        assert(n * width == (n - 1) * width + width) by (nonlinear_arith);
        if 0 <= i < n && 0 <= c < width {
            lemma_flat_index(i, c, n, width);
            if i < n - 1 {
                lemma_flat_index(i, c, n - 1, width);
            }
        }
    }
}

/// The inner product of two vectors modulo 2^32.
pub fn vec_mult_u32_u32(row: &[u32], col: &[u32]) -> (res: Result<u32, PirError>)
    ensures
        res == if row@.len() == col@.len() {
            Ok::<u32, PirError>(wrap(dot(row@, col@)))
        } else {
            Err::<u32, PirError>(PirError::UnexpectedInputSize)
        },
{
    if row.len() != col.len() {
        return Err(PirError::UnexpectedInputSize);
    }
    let mut acc: u32 = 0;
    for i in 0..row.len()
        invariant
            row@.len() == col@.len(),
            acc == wrap(sum(products(row@, col@), 0, i as int)),
    {
        proof {
            lemma_accumulate(sum(products(row@, col@), 0, i as int), row@[i as int], col@[i as int]);
        }
        acc = acc.wrapping_add(row[i].wrapping_mul(col[i]));
    }
    Ok(acc)
}

/// The transpose of a matrix whose rows have the same length.
pub fn swap_matrix_fmt(matrix: &[Vec<u32>]) -> (swapped: Vec<Vec<u32>>)
    requires
        forall|i: int|
            0 <= i < matrix@.len() ==> (#[trigger] matrix@[i])@.len() == matrix@[0]@.len(),
    ensures
        swapped@.len() == if matrix@.len() == 0 {
            0
        } else {
            matrix@[0]@.len()
        },
        forall|r: int|
            0 <= r < swapped@.len() ==> (#[trigger] swapped@[r])@ == Seq::new(
                matrix@.len(),
                |i: int| matrix@[i]@[r],
            ),
{
    let height: usize = matrix.len();
    let width: usize = if height == 0 {
        0
    } else {
        matrix[0].len()
    };
    let mut swapped: Vec<Vec<u32>> = Vec::with_capacity(width);
    for r in 0..width
        invariant
            height == matrix@.len(),
            height > 0 ==> width == matrix@[0]@.len(),
            height == 0 ==> width == 0,
            forall|i: int|
                0 <= i < matrix@.len() ==> (#[trigger] matrix@[i])@.len() == matrix@[0]@.len(),
            swapped@.len() == r,
            forall|k: int|
                0 <= k < r ==> (#[trigger] swapped@[k])@ == Seq::new(
                    matrix@.len(),
                    |i: int| matrix@[i]@[k],
                ),
    {
        let mut row: Vec<u32> = Vec::with_capacity(height);
        for i in 0..height
            invariant
                height == matrix@.len(),
                r < width,
                height > 0 ==> width == matrix@[0]@.len(),
                forall|i: int|
                    0 <= i < matrix@.len() ==> (#[trigger] matrix@[i])@.len() == matrix@[0]@.len(),
                row@.len() == i,
                forall|k: int| 0 <= k < i ==> row@[k] == matrix@[k]@[r as int],
        {
            row.push(matrix[i][r]);
        }
        assert(row@ =~= Seq::new(matrix@.len(), |i: int| matrix@[i]@[r as int]));
        swapped.push(row);
    }
    swapped
}

/// The rows of a matrix one after the other.
pub fn flatten_matrix_row_major(rows: &[Vec<u32>]) -> (entries: Vec<u32>)
    ensures
        entries@ == flat(rows@),
{
    let mut entries: Vec<u32> = Vec::new();
    for i in 0..rows.len()
        invariant
            entries@ == flat(rows@.take(i as int)),
    {
        let ghost before = entries@;
        let row: &Vec<u32> = &rows[i];
        for c in 0..row.len()
            invariant
                row@.len() == row.len(),
                entries@ == before + row@.take(c as int),
        {
            entries.push(row[c]);
            assert(row@.take(c + 1) =~= row@.take(c as int).push(row@[c as int]));
        }
        assert(row@.take(row@.len() as int) =~= row@);
        assert(rows@.take(i + 1).drop_last() =~= rows@.take(i as int));
    }
    assert(rows@.take(rows@.len() as int) =~= rows@);
    entries
}

/// The public matrix of a seed, as `width` columns of `lwe_dim` words.
pub fn generate_lwe_matrix_from_seed(seed: [u8; 32], lwe_dim: usize, width: usize) -> (columns: Vec<
    Vec<u32>,
>)
    requires
        4 * (lwe_dim * width) <= usize::MAX,
    ensures
        columns@.len() == width,
        forall|i: int|
            0 <= i < width ==> (#[trigger] columns@[i])@ == lwe_column(
                seed@,
                lwe_dim as nat,
                width as nat,
                i,
            ),
{
    let bytes = chacha_bytes(seed, 4 * (lwe_dim * width));
    let mut columns: Vec<Vec<u32>> = Vec::with_capacity(width);
    for i in 0..width
        invariant
            4 * (lwe_dim * width) <= usize::MAX,
            bytes@ == chacha_stream(seed@, (4 * (lwe_dim * width)) as nat),
            bytes@.len() == 4 * (lwe_dim * width),
            columns@.len() == i,
            forall|k: int|
                0 <= k < i ==> (#[trigger] columns@[k])@ == lwe_column(
                    seed@,
                    lwe_dim as nat,
                    width as nat,
                    k,
                ),
    {
        let mut column: Vec<u32> = Vec::with_capacity(lwe_dim);
        for r in 0..lwe_dim
            invariant
                i < width,
                4 * (lwe_dim * width) <= usize::MAX,
                bytes@ == chacha_stream(seed@, (4 * (lwe_dim * width)) as nat),
                bytes@.len() == 4 * (lwe_dim * width),
                column@.len() == r,
                forall|k: int|
                    0 <= k < r ==> column@[k] == lwe_entry(
                        seed@,
                        lwe_dim as nat,
                        width as nat,
                        i as int,
                        k,
                    ),
        {
            proof {
                lemma_flat_index(i as int, r as int, width as int, lwe_dim as int);
                vstd::arithmetic::mul::lemma_mul_is_commutative(lwe_dim as int, width as int);
            }
            let at: usize = 4 * (i * lwe_dim + r);
            let word: u32 = bytes[at] as u32 + 0x100 * (bytes[at + 1] as u32) + 0x1_0000 * (bytes[at
                + 2] as u32) + 0x100_0000 * (bytes[at + 3] as u32);
            column.push(word);
        }
        assert(column@ =~= lwe_column(seed@, lwe_dim as nat, width as nat, i as int));
        columns.push(column);
    }
    columns
}

} // verus!
