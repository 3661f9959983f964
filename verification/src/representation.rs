//! What the values of the library stand for, in plain arithmetic. The statements here use the fields
//! of the types, the names of what other crates return, and the few notions that are defined first.
use crate::api::{
    masks_from, masks_sampled, response_bytes, sizes_fit, QueryParams, Response, Shard,
};
use crate::arith::{dot, lemma_flat_index, lemma_sum_ext, products, sum, wrap};
use crate::batch::{
    batch_answer, batch_answer_bytes, batch_bytes, interleaved_words, BatchedQueryParams,
};
use crate::db::{lane, Database};
use crate::elements::{
    acceptable, element_outcome, element_row, entries_fit, fails_with, lemma_matrix_width,
    matrix_width, reaches, text_reaches, texts,
};
use crate::errors::PirError;
use crate::laws::{
    centered, exchange, factor_and_size_split_the_modulus, lemma_chunk, lemma_fitting_row_spans,
    noise_tolerated, response_gives_the_element, response_gives_the_row,
    rhs_is_matrix_times_database, rounding_removes_tolerated_noise,
};
use crate::outside::{base64_bytes, base64_text, chacha_stream, le_byte, length_prefix, word_bytes};
use crate::params::{params_rhs, BaseParams, CommonParams};
use crate::utils::format::{
    bit_chunk, bits_of_bytes, bits_value, bytes_of_bits, lemma_bit_of_value,
    lemma_bits_value_bound, lemma_div_strictly_below, row_bits, row_bytes,
};
use crate::utils::lwe::{
    all_ternary, is_ternary, plaintext_size, rounding_factor, ternary_of, ternary_value,
};
use crate::utils::matrices::{flat, le_word, lwe_column, lwe_row};
use vstd::arithmetic::div_mod::{
    lemma_div_denominator, lemma_fundamental_div_mod, lemma_fundamental_div_mod_converse,
    lemma_mod_bound, lemma_mod_breakdown, lemma_small_mod,
};
use vstd::arithmetic::power2::{
    lemma2_to64, lemma_pow2_adds, lemma_pow2_pos, lemma_pow2_strictly_increases, lemma_pow2_unfold,
    pow2,
};
use vstd::prelude::*;

verus! {

/// Digit `k` of a number in base two, the lowest first.
pub open spec fn binary_digit(x: int, k: int) -> int {
    (x / (pow2(k as nat) as int)) % 2
}

/// The number that `count` bytes from position `at` on stand for, the lowest byte first.
pub open spec fn little_endian(bytes: Seq<u8>, at: int, count: nat) -> int
    decreases count,
{
    if count == 0 {
        0
    } else {
        bytes[at] + 0x100 * little_endian(bytes, at + 1, (count - 1) as nat)
    }
}

/// Two numbers differ by a multiple of 2^32.
pub open spec fn congruent(a: int, b: int) -> bool {
    (a - b) % 0x1_0000_0000 == 0
}

/// Every `step`-th word from position `start` on.
pub open spec fn strided(words: Seq<u32>, start: int, step: int, count: nat) -> Seq<u32> {
    Seq::new(count, |k: int| words[start + k * step])
}

/// A word is congruent to a number, or to its neighbour above or below.
pub open spec fn off_by_at_most_one(word: u32, x: int) -> bool {
    congruent(word as int, x) || congruent(word as int, x + 1) || congruent(word as int, x - 1)
}

/// The word that represents a number modulo 2^32 differs from it by a multiple of 2^32.
pub proof fn words_represent_numbers(x: int)
    ensures
        congruent(wrap(x) as int, x),
        forall|w: u32| congruent(w as int, x) ==> w == #[trigger] wrap(x),
{
}

/// An inner product starts at zero and grows by the product of what is appended.
pub proof fn inner_products_grow_by_products(a: Seq<u32>, b: Seq<u32>, x: u32, y: u32)
    requires
        a.len() == b.len(),
    ensures
        dot(Seq::empty(), Seq::empty()) == 0,
        dot(a.push(x), b.push(y)) == dot(a, b) + x * y,
{
    let n = a.len() as int;
    let f = products(a, b);
    let g = products(a.push(x), b.push(y));
    assert forall|k: int| 0 <= k < n implies #[trigger] f(k) == g(k) by {
        assert(a.push(x)[k] == a[k] && b.push(y)[k] == b[k]);
    }
    lemma_sum_ext(f, g, 0, n);
    assert(sum(g, 0, n + 1) == sum(g, 0, n) + g(n));
}

/// The scaling factor and the number of plaintext values are the powers of two that multiply to the
/// modulus.
pub proof fn scaling_is_by_powers_of_two(plaintext_bits: int)
    requires
        0 <= plaintext_bits <= 32,
    ensures
        plaintext_size(plaintext_bits) == pow2(plaintext_bits as nat),
        rounding_factor(plaintext_bits) * pow2(plaintext_bits as nat) == 0x1_0000_0000,
{
    factor_and_size_split_the_modulus(plaintext_bits);
}

/// Uniform words stand for 0, 1 and -1 in three intervals of equal size, and one word is left over.
pub proof fn ternary_intervals_have_equal_size(word: u32)
    ensures
        ternary_of(word) == match word / 0x5555_5555u32 {
            0 => Some(0u32),
            1 => Some(1u32),
            2 => Some(0xffff_ffffu32),
            _ => None::<u32>,
        },
        ternary_of(word) is None <==> word == 0xffff_ffff,
        is_ternary(word) <==> word == 0 || word == 1 || word == 0xffff_ffff,
        is_ternary(word) ==> congruent(word as int, ternary_value(word)) && -1 <= ternary_value(
            word,
        ) <= 1,
{
}

/// Ternary vectors hold zeros, ones and minus ones only.
pub proof fn ternary_vectors_hold_three_values(v: Seq<u32>)
    ensures
        all_ternary(v) <==> forall|i: int|
            0 <= i < v.len() ==> #[trigger] v[i] == 0 || v[i] == 1 || v[i] == 0xffff_ffff,
{
    if forall|i: int| 0 <= i < v.len() ==> #[trigger] v[i] == 0 || v[i] == 1 || v[i] == 0xffff_ffff {
        assert forall|i: int| 0 <= i < v.len() implies is_ternary(#[trigger] v[i]) by {}
    }
    if all_ternary(v) {
        assert forall|i: int| 0 <= i < v.len() implies #[trigger] v[i] == 0 || v[i] == 1 || v[i]
            == 0xffff_ffff by {
            assert(is_ternary(v[i]));
        }
    }
}

/// Matrices are well formed where their entries are as many as rows times columns.
pub proof fn full_matrices_are_well_formed(db: &Database, cp: &CommonParams)
    ensures
        db.wf() <==> db.entries@.len() == db.m * db.width,
        cp.wf() <==> cp.matrix@.len() == cp.m * cp.dim,
{
}

/// Bytes that are the digits of a number in base 256 stand for its remainder.
proof fn lemma_little_endian(bytes: Seq<u8>, at: int, count: nat, x: int)
    requires
        0 <= x,
        forall|k: int| at <= k < at + count ==> #[trigger] bytes[k] == le_byte(x, k - at),
    ensures
        little_endian(bytes, at, count) == x % (pow2(8 * count) as int),
    decreases count,
{
    lemma2_to64();
    if count > 0 {
        let rest = (count - 1) as nat;
        let y = x / 0x100;
        assert forall|k: int| at + 1 <= k < at + 1 + rest implies #[trigger] bytes[k] == le_byte(
            y,
            k - (at + 1),
        ) by {
            let j = (k - (at + 1)) as nat;
            lemma_pow2_pos(8 * j);
            lemma_pow2_adds(8, 8 * j);
            lemma_div_denominator(x, 0x100, pow2(8 * j) as int);
            assert((8 * (k - at)) as nat == 8 + 8 * j);
        }
        lemma_little_endian(bytes, at + 1, rest, y);
        lemma_pow2_pos(8 * rest);
        lemma_pow2_adds(8, 8 * rest);
        assert(8 + 8 * rest == 8 * count);
        lemma_mod_breakdown(x, 0x100, pow2(8 * rest) as int);
        assert(bytes[at] == le_byte(x, 0));
        assert(le_byte(x, 0) == x % 0x100) by {
            assert(pow2(0) == 1 && x / 1 == x);
        }
    } else {
        assert(x % 1 == 0);
    }
}

/// A counted list of words in bytes: the count, then each word.
proof fn lemma_counted_words(count: int, words: Seq<u32>)
    requires
        0 <= count <= u64::MAX,
    ensures
        (length_prefix(count) + word_bytes(words)).len() == 8 + 4 * words.len(),
        little_endian(length_prefix(count) + word_bytes(words), 0, 8) == count,
        forall|k: int|
            0 <= k < words.len() ==> #[trigger] little_endian(
                length_prefix(count) + word_bytes(words),
                8 + 4 * k,
                4,
            ) == words[k],
{
    let bytes = length_prefix(count) + word_bytes(words);
    lemma2_to64();
    vstd::arithmetic::power2::lemma2_to64_rest();
    lemma_little_endian(bytes, 0, 8, count);
    lemma_small_mod(count as nat, pow2(64));
    assert forall|k: int| 0 <= k < words.len() implies #[trigger] little_endian(
        bytes,
        8 + 4 * k,
        4,
    ) == words[k] by {
        let x = words[k] as int;
        assert forall|b: int| 8 + 4 * k <= b < 8 + 4 * k + 4 implies #[trigger] bytes[b] == le_byte(
            x,
            b - (8 + 4 * k),
        ) by {
            assert((b - 8) / 4 == k && (b - 8) % 4 == b - 8 - 4 * k);
        }
        lemma_little_endian(bytes, 8 + 4 * k, 4, x);
        lemma_small_mod(x as nat, pow2(32));
    }
}

/// A response is its number of words in eight bytes, then each word in four bytes, all with the
/// lowest byte first: whoever reads the count finds as many words behind it as it says.
pub proof fn response_counts_its_words(words: Seq<u32>)
    requires
        words.len() <= u64::MAX,
    ensures
        little_endian(response_bytes(words), 0, 8) == words.len(),
        response_bytes(words).len() == 8 + 4 * little_endian(response_bytes(words), 0, 8),
        forall|k: int|
            0 <= k < words.len() ==> #[trigger] little_endian(response_bytes(words), 8 + 4 * k, 4)
                == words[k],
{
    lemma_counted_words(words.len() as int, words);
}

/// Interleaved responses are their number of rows in eight bytes, then the words of each row in
/// four bytes each, all with the lowest byte first.
pub proof fn batch_counts_its_rows<const N: usize>(rows: Seq<[u32; N]>, i: int, j: int)
    requires
        rows.len() <= u64::MAX,
    ensures
        little_endian(batch_bytes(rows), 0, 8) == rows.len(),
        batch_bytes(rows).len() == 8 + 4 * (rows.len() * N),
        0 <= i < rows.len() && 0 <= j < N ==> little_endian(
            batch_bytes(rows),
            8 + 4 * (i * N + j),
            4,
        ) == rows[i]@[j],
{
    let words = interleaved_words(rows);
    assert(0 <= rows.len() * N) by (nonlinear_arith);
    lemma_counted_words(rows.len() as int, words);
    if 0 <= i < rows.len() && 0 <= j < N {
        lemma_flat_index(i, j, rows.len() as int, N as int);
        assert(little_endian(batch_bytes(rows), 8 + 4 * (i * N + j), 4) == words[i * N + j]);
    }
}

/// The bytes of a batch hold what the bytes of the response to each query alone hold: the same count
/// of columns, and in each column the same word.
pub proof fn batch_repeats_the_single_responses<const N: usize>(
    db: &Database,
    q: Seq<[u32; N]>,
    j: int,
    c: int,
)
    requires
        0 <= j < N,
        0 <= c < db.width,
    ensures
        batch_answer_bytes(db, q).len() == 8 + 4 * (db.width * N),
        little_endian(batch_answer_bytes(db, q), 0, 8) == db.width,
        little_endian(batch_answer_bytes(db, q), 0, 8) == little_endian(
            response_bytes(db.answer(lane(q, j))),
            0,
            8,
        ),
        little_endian(batch_answer_bytes(db, q), 8 + 4 * (c * N + j), 4) == little_endian(
            response_bytes(db.answer(lane(q, j))),
            8 + 4 * c,
            4,
        ),
{
    let words = batch_answer(db, q);
    let alone = db.answer(lane(q, j));
    assert(0 <= db.width * N) by (nonlinear_arith);
    lemma_counted_words(db.width as int, words);
    lemma_counted_words(alone.len() as int, alone);
    lemma_flat_index(c, j, db.width as int, N as int);
    assert(little_endian(batch_answer_bytes(db, q), 8 + 4 * (c * N + j), 4) == words[c * N + j]);
    assert(little_endian(response_bytes(alone), 8 + 4 * c, 4) == alone[c]);
}

/// The public matrix is the whole key stream of the seed, read as words with the lowest byte first:
/// as many columns as the database has rows, one after the other, and no word of the stream is used
/// twice.
pub proof fn public_matrix_is_the_key_stream(bp: &BaseParams, cp: &CommonParams)
    requires
        cp.derived_from(bp),
    ensures
        cp.m == bp.m,
        cp.dim == bp.dim,
        cp.matrix@.len() == bp.dim * bp.m,
        forall|k: int|
            0 <= k < bp.dim * bp.m ==> #[trigger] cp.matrix@[k] == little_endian(
                chacha_stream(bp.public_seed@, (4 * (bp.dim * bp.m)) as nat),
                4 * k,
                4,
            ),
{
    let dim = bp.dim as int;
    let m = bp.m as int;
    let stream = chacha_stream(bp.public_seed@, (4 * (bp.dim * bp.m)) as nat);
    assert(m * dim == dim * m) by (nonlinear_arith);
    assert forall|k: int| 0 <= k < dim * m implies #[trigger] cp.matrix@[k] == little_endian(
        stream,
        4 * k,
        4,
    ) by {
        assert(dim > 0) by (nonlinear_arith)
            requires
                0 <= k < dim * m,
                0 <= dim,
                0 <= m,
        ;
        lemma_div_strictly_below(k, m, dim);
        let i = k / dim;
        let r = k % dim;
        lemma_flat_index(i, r, m, dim);
        public_columns_are_the_key_stream(bp.public_seed@, bp.dim as nat, bp.m as nat, i, r);
        assert(cp.column(i)[r] == cp.matrix@[k]);
    }
}

/// Entry `r` of column `i` of the public matrix is word `i * dim + r` of the key stream.
pub proof fn public_columns_are_the_key_stream(seed: Seq<u8>, dim: nat, m: nat, i: int, r: int)
    requires
        0 <= i < m,
        0 <= r < dim,
    ensures
        lwe_column(seed, dim, m, i).len() == dim,
        lwe_row(seed, dim, m, r).len() == m,
        lwe_column(seed, dim, m, i)[r] == little_endian(
            chacha_stream(seed, 4 * (dim * m)),
            4 * (i * dim + r),
            4,
        ),
        lwe_row(seed, dim, m, r)[i] == little_endian(
            chacha_stream(seed, 4 * (dim * m)),
            4 * (i * dim + r),
            4,
        ),
{
    reveal_with_fuel(little_endian, 5);
    let stream = chacha_stream(seed, 4 * (dim * m));
    let k = i * dim + r;
    assert(le_word(stream, k) == stream[4 * k] + 0x100 * stream[4 * k + 1] + 0x1_0000 * stream[4 * k
        + 2] + 0x100_0000 * stream[4 * k + 3]);
}

/// The matrix of a database is stored row after row.
pub proof fn entries_stand_row_after_row(db: &Database, i: int, c: int)
    requires
        0 <= i < db.m,
        0 <= c < db.width,
    ensures
        db.row(i).len() == db.width,
        db.column(c).len() == db.m,
        db.entry(i, c) == db.entries@[i * db.width + c],
        db.row(i)[c] == db.entries@[i * db.width + c],
        db.column(c)[i] == db.entries@[i * db.width + c],
        db.column(c) == strided(db.entries@, c, db.width as int, db.m as nat),
{
    assert(db.column(c) =~= strided(db.entries@, c, db.width as int, db.m as nat)) by {
        assert forall|k: int| 0 <= k < db.m implies db.column(c)[k] == strided(
            db.entries@,
            c,
            db.width as int,
            db.m as nat,
        )[k] by {
            assert(k * db.width + c == c + k * db.width);
        }
    }
}

/// The answer to a query has one word for each column of the database: the inner product of the
/// query and the column, modulo 2^32.
pub proof fn answer_is_the_product(db: &Database, q: Seq<u32>)
    ensures
        db.answer(q).len() == db.width,
        forall|c: int|
            0 <= c < db.width ==> congruent(
                #[trigger] db.answer(q)[c] as int,
                dot(q, strided(db.entries@, c, db.width as int, db.m as nat)),
            ),
{
    assert forall|c: int| 0 <= c < db.width implies congruent(
        #[trigger] db.answer(q)[c] as int,
        dot(q, strided(db.entries@, c, db.width as int, db.m as nat)),
    ) by {
        assert(db.column(c) =~= strided(db.entries@, c, db.width as int, db.m as nat));
        words_represent_numbers(dot(q, db.column(c)));
    }
}

/// The published parameters repeat the sizes of the database, and publish the product of the public
/// matrix and the database: for each column of the database, one after the other, the inner product
/// of each row of the public matrix and the column, modulo 2^32.
pub proof fn published_product_is_of_matrix_and_database(
    db: &Database,
    bp: &BaseParams,
    cp: &CommonParams,
    dim: int,
    c: int,
    r: int,
)
    requires
        bp.is_for(db, dim),
        cp.derived_from(bp),
    ensures
        bp.dim == dim,
        bp.m == db.m,
        bp.elem_size == db.elem_size,
        bp.plaintext_bits == db.plaintext_bits,
        bp.rhs@.len() == db.width * dim,
        0 <= c < db.width && 0 <= r < dim ==> congruent(
            bp.rhs@[c * dim + r] as int,
            dot(
                strided(cp.matrix@, r, dim, db.m as nat),
                strided(db.entries@, c, db.width as int, db.m as nat),
            ),
        ),
{
    assert(0 <= db.width * dim) by (nonlinear_arith)
        requires
            0 <= dim,
            0 <= db.width,
    ;
    if 0 <= c < db.width && 0 <= r < dim {
        rhs_is_matrix_times_database(db, bp, c, r);
        lemma_flat_index(c, r, db.width as int, dim);
        lemma_flat_index(c, 0, db.width as int, dim);
        let row = lwe_row(bp.public_seed@, bp.dim as nat, bp.m as nat, r);
        let matrix_row = strided(cp.matrix@, r, dim, db.m as nat);
        assert forall|i: int| 0 <= i < db.m implies row[i] == matrix_row[i] by {
            lemma_flat_index(i, r, db.m as int, dim);
            lemma_flat_index(i, 0, db.m as int, dim);
            assert(cp.column(i) == lwe_column(bp.public_seed@, bp.dim as nat, bp.m as nat, i));
            assert(cp.column(i)[r] == cp.matrix@[i * dim + r]);
        }
        assert(row =~= matrix_row);
        assert(db.column(c) =~= strided(db.entries@, c, db.width as int, db.m as nat));
        words_represent_numbers(dot(row, db.column(c)));
    }
}

/// What is published for a seed, at position `c * dim + r`, is the inner product of every `dim`-th
/// word of the key stream, from word `r` on, and column `c` of the database, modulo 2^32.
pub proof fn published_product_is_of_the_key_stream(
    db: &Database,
    seed: Seq<u8>,
    dim: nat,
    row: Seq<u32>,
    c: int,
    r: int,
)
    requires
        0 <= c < db.width,
        0 <= r < dim,
        row.len() == db.m,
        forall|i: int|
            0 <= i < db.m ==> #[trigger] row[i] == little_endian(
                chacha_stream(seed, (4 * (dim * db.m)) as nat),
                4 * (i * dim + r),
                4,
            ),
    ensures
        params_rhs(db, seed, dim).len() == db.width * dim,
        congruent(
            params_rhs(db, seed, dim)[c * dim + r] as int,
            dot(row, strided(db.entries@, c, db.width as int, db.m as nat)),
        ),
{
    lemma_flat_index(c, r, db.width as int, dim as int);
    let expected = lwe_row(seed, dim, db.m as nat, r);
    assert forall|i: int| 0 <= i < db.m implies row[i] == expected[i] by {
        public_columns_are_the_key_stream(seed, dim, db.m as nat, i, r);
    }
    assert(row =~= expected);
    answer_is_the_product(db, row);
    assert(params_rhs(db, seed, dim)[c * dim + r] == db.answer(row)[c]);
}

/// The masks of a query are the product of the secret vector and the public matrix, plus the errors,
/// modulo 2^32.
pub proof fn masks_are_products_plus_errors(
    cp: &CommonParams,
    s: Seq<u32>,
    e: Seq<u32>,
    i: int,
)
    requires
        cp.wf(),
        0 <= i < cp.m,
    ensures
        cp.masked(s, e).len() == cp.m,
        congruent(
            cp.masked(s, e)[i] as int,
            dot(s, strided(cp.matrix@, i * cp.dim, 1, cp.dim as nat)) + e[i],
        ),
{
    lemma_matrix_column(cp, i);
    words_represent_numbers(dot(s, cp.column(i)) + e[i]);
}

/// A column of the public matrix stands in one piece.
proof fn lemma_matrix_column(cp: &CommonParams, i: int)
    requires
        cp.wf(),
        0 <= i < cp.m,
    ensures
        cp.column(i) == strided(cp.matrix@, i * cp.dim, 1, cp.dim as nat),
{
    assert(0 <= i * cp.dim && i * cp.dim + cp.dim <= cp.m * cp.dim) by (nonlinear_arith)
        requires
            0 <= i < cp.m,
            0 <= cp.dim,
    ;
    assert(cp.column(i) =~= strided(cp.matrix@, i * cp.dim, 1, cp.dim as nat));
}

/// Masks with errors that are drawn differ from the product of the secret vector and the public
/// matrix by at most one in each place, modulo 2^32.
pub proof fn drawn_errors_are_small(cp: &CommonParams, s: Seq<u32>, b: Seq<u32>)
    requires
        cp.wf(),
        cp.is_masked(s, b),
    ensures
        b.len() == cp.m,
        forall|i: int|
            0 <= i < cp.m ==> off_by_at_most_one(
                #[trigger] b[i],
                dot(s, strided(cp.matrix@, i * cp.dim, 1, cp.dim as nat)),
            ),
{
    let e = choose|e: Seq<u32>|
        e.len() == cp.m && all_ternary(e) && b == #[trigger] cp.masked(s, e);
    assert forall|i: int| 0 <= i < cp.m implies off_by_at_most_one(
        #[trigger] b[i],
        dot(s, strided(cp.matrix@, i * cp.dim, 1, cp.dim as nat)),
    ) by {
        masks_are_products_plus_errors(cp, s, e, i);
        assert(is_ternary(e[i]));
    }
}

/// The masks that a response comes with are the product of the secret vector and the published
/// product, modulo 2^32.
pub proof fn response_masks_are_products(bp: &BaseParams, s: Seq<u32>, c: int)
    requires
        bp.dim > 0,
        0 <= c < bp.rhs@.len() as int / bp.dim as int,
    ensures
        bp.right_product(s).len() == bp.rhs@.len() as int / bp.dim as int,
        congruent(
            bp.right_product(s)[c] as int,
            dot(s, strided(bp.rhs@, c * bp.dim, 1, bp.dim as nat)),
        ),
{
    let dim = bp.dim as int;
    let n = bp.rhs@.len() as int;
    lemma_fundamental_div_mod(n, dim);
    lemma_mod_bound(n, dim);
    assert(dim * (n / dim) == (n / dim) * dim) by (nonlinear_arith);
    lemma_flat_index(c, 0, n / dim, dim);
    assert(bp.rhs_column(c) =~= strided(bp.rhs@, c * bp.dim, 1, bp.dim as nat));
    words_represent_numbers(dot(s, bp.rhs_column(c)));
}

/// One secret vector of zeros, ones and minus ones explains both kinds of masks.
pub open spec fn explains(
    s: Seq<u32>,
    lhs: Seq<u32>,
    rhs: Seq<u32>,
    cp: &CommonParams,
    bp: &BaseParams,
) -> bool {
    &&& s.len() == bp.dim
    &&& forall|r: int|
        0 <= r < s.len() ==> #[trigger] s[r] == 0 || s[r] == 1 || s[r] == 0xffff_ffff
    &&& lhs.len() == cp.m
    &&& rhs.len() == bp.rhs@.len() as int / bp.dim as int
    &&& forall|i: int|
        0 <= i < lhs.len() ==> off_by_at_most_one(
            #[trigger] lhs[i],
            dot(s, strided(cp.matrix@, i * cp.dim, 1, cp.dim as nat)),
        )
    &&& forall|c: int|
        0 <= c < rhs.len() ==> congruent(
            #[trigger] rhs[c] as int,
            dot(s, strided(bp.rhs@, c * bp.dim, 1, bp.dim as nat)),
        )
}

/// The masks of sampled query parameters, single or extracted from a batch, come from one secret
/// vector of zeros, ones and minus ones and from errors of at most one.
pub proof fn sampled_masks_are_explained_by_a_small_secret(
    lhs: Seq<u32>,
    rhs: Seq<u32>,
    cp: &CommonParams,
    bp: &BaseParams,
)
    requires
        cp.wf(),
        bp.dim > 0,
        masks_sampled(lhs, rhs, cp, bp),
    ensures
        exists|s: Seq<u32>| #[trigger] explains(s, lhs, rhs, cp, bp),
{
    let (s, e) = choose|s: Seq<u32>, e: Seq<u32>|
        s.len() == bp.dim && e.len() == cp.m && all_ternary(s) && all_ternary(e)
            && #[trigger] masks_from(lhs, rhs, cp, bp, s, e);
    assert(cp.is_masked(s, lhs)) by {
        assert(lhs == cp.masked(s, e));
    }
    drawn_errors_are_small(cp, s, lhs);
    assert forall|r: int| 0 <= r < s.len() implies #[trigger] s[r] == 0 || s[r] == 1 || s[r]
        == 0xffff_ffff by {
        assert(is_ternary(s[r]));
    }
    assert(rhs.len() == bp.rhs@.len() as int / bp.dim as int) by {
        lemma_fundamental_div_mod(bp.rhs@.len() as int, bp.dim as int);
        vstd::arithmetic::div_mod::lemma_div_pos_is_pos(bp.rhs@.len() as int, bp.dim as int);
    }
    assert forall|c: int| 0 <= c < rhs.len() implies congruent(
        #[trigger] rhs[c] as int,
        dot(s, strided(bp.rhs@, c * bp.dim, 1, bp.dim as nat)),
    ) by {
        response_masks_are_products(bp, s, c);
    }
    assert(explains(s, lhs, rhs, cp, bp));
}

/// A query is the masks with the scaling factor added in the place of the row. It is refused where
/// the parameters were used, and it fails where the sum does not fit in a word. In each case the
/// parameters are used up and otherwise stay as they are.
pub proof fn query_differs_from_the_masks_in_one_place(qp: QueryParams, row_index: int)
    requires
        0 <= row_index < qp.lhs@.len(),
        1 <= qp.plaintext_bits <= 32,
    ensures
        match qp.query_outcome(row_index) {
            Ok(q) => {
                &&& !qp.used
                &&& q.len() == qp.lhs@.len()
                &&& q[row_index] - qp.lhs@[row_index] == pow2((32 - qp.plaintext_bits) as nat)
                &&& forall|k: int|
                    0 <= k < q.len() && k != row_index ==> #[trigger] q[k] == qp.lhs@[k]
            },
            Err(e) => if qp.used {
                e == PirError::QueryParamsReused
            } else {
                e == PirError::OverflownAdd && qp.lhs@[row_index] + pow2(
                    (32 - qp.plaintext_bits) as nat,
                ) >= 0x1_0000_0000
            },
        },
        qp.spent().used,
        qp.spent().lhs == qp.lhs,
        qp.spent().rhs == qp.rhs,
        qp.spent().elem_size == qp.elem_size,
        qp.spent().plaintext_bits == qp.plaintext_bits,
{
}

/// A response can be parsed where it and the masks have a value for each entry of an element. The
/// parsed row has that many values, each below 2^p, and each, scaled, is the closest to the response
/// without the masks: it lies less than half a scaling factor above it or at most that much below.
pub proof fn parsed_row_is_closest_to_the_response(response: Response, qp: QueryParams)
    ensures
        response.parses_with(&qp) <==> 1 <= qp.plaintext_bits <= 31 && qp.elem_size
            <= response.0@.len() * qp.plaintext_bits && qp.elem_size <= qp.rhs@.len()
            * qp.plaintext_bits,
        response.parses_with(&qp) ==> qp.elem_size <= response.row(&qp).len() * qp.plaintext_bits
            < qp.elem_size + qp.plaintext_bits,
        response.parses_with(&qp) ==> forall|c: int|
            0 <= c < response.row(&qp).len() ==> {
                &&& (#[trigger] response.row(&qp)[c]) < pow2(qp.plaintext_bits as nat)
                &&& -pow2((31 - qp.plaintext_bits) as nat) < centered(
                    response.0@[c] - qp.rhs@[c] - pow2((32 - qp.plaintext_bits) as nat)
                        * response.row(&qp)[c],
                ) <= pow2((31 - qp.plaintext_bits) as nat)
            },
{
    let p = qp.plaintext_bits as int;
    let es = qp.elem_size as int;
    if 1 <= p <= 31 {
        let w = matrix_width(es, p);
        lemma_matrix_width(es, p);
        lemma_width_at_most(es, p, response.0@.len() as int);
        lemma_width_at_most(es, p, qp.rhs@.len() as int);
        assert((w - 1) * p == w * p - p) by (nonlinear_arith);
        let row = response.row(&qp);
        factor_and_size_split_the_modulus(p);
        lemma_pow2_unfold((32 - p) as nat);
        assert(w == 0 ==> w * p == 0) by (nonlinear_arith);
        if response.parses_with(&qp) {
            assert forall|c: int| 0 <= c < row.len() implies {
                &&& (#[trigger] row[c]) < pow2(p as nat)
                &&& -pow2((31 - p) as nat) < centered(
                    response.0@[c] - qp.rhs@[c] - pow2((32 - p) as nat) * row[c],
                ) <= pow2((31 - p) as nat)
            } by {
                let d = response.0@[c] - qp.rhs@[c];
                let f = rounding_factor(p);
                lemma_rounded_below(wrap(d), p);
                let x = row[c] as int;
                let n = d - f * x;
                assert(f * x + n == d);
                rounding_removes_tolerated_noise(x, n, p);
            }
        }
    }
}

/// A rounded value is a plaintext value.
proof fn lemma_rounded_below(u: u32, plaintext_bits: int)
    requires
        1 <= plaintext_bits <= 31,
    ensures
        crate::api::rounded(u, plaintext_bits) < plaintext_size(plaintext_bits),
{
    let f = rounding_factor(plaintext_bits);
    let size = plaintext_size(plaintext_bits);
    factor_and_size_split_the_modulus(plaintext_bits);
    let v = u as int / f + (if u as int % f > f / 2 {
        1int
    } else {
        0int
    });
    lemma_mod_bound(v, size);
    lemma2_to64();
    lemma_pow2_strictly_increases(plaintext_bits as nat, 32);
}

/// The entries of an element fit in a number of places exactly where their bits do.
proof fn lemma_width_at_most(elem_size: int, plaintext_bits: int, n: int)
    requires
        0 <= elem_size,
        0 < plaintext_bits,
        0 <= n,
    ensures
        matrix_width(elem_size, plaintext_bits) <= n <==> elem_size <= n * plaintext_bits,
{
    let w = matrix_width(elem_size, plaintext_bits);
    lemma_matrix_width(elem_size, plaintext_bits);
    if w <= n {
        assert(w * plaintext_bits <= n * plaintext_bits) by (nonlinear_arith)
            requires
                w <= n,
                0 < plaintext_bits,
        ;
    } else {
        assert(n * plaintext_bits <= (w - 1) * plaintext_bits) by (nonlinear_arith)
            requires
                n <= w - 1,
                0 < plaintext_bits,
        ;
        if elem_size == 0 {
            assert(w == 0);
        }
    }
}

/// The interleaved vectors of a lane.
pub proof fn lanes_are_taken_by_position<const N: usize>(rows: Seq<[u32; N]>, j: int)
    ensures
        lane(rows, j).len() == rows.len(),
        forall|i: int| 0 <= i < rows.len() ==> #[trigger] lane(rows, j)[i] == rows[i]@[j],
{
}

/// Query parameters that are extracted from a batch have in each place the value of their lane, the
/// element size and the plaintext bits of the batch, and are unused. The batch keeps all but the
/// mark of the lane.
pub proof fn extracted_parameters_repeat_the_batch<const N: usize>(
    before: BatchedQueryParams<N>,
    after: BatchedQueryParams<N>,
    index: int,
    qp: QueryParams,
)
    requires
        0 <= index < N,
        before.holds(index, qp),
        after.is_without(before, index),
    ensures
        qp.lhs@.len() == before.lhs@.len(),
        qp.rhs@.len() == before.rhs@.len(),
        forall|i: int|
            0 <= i < qp.lhs@.len() ==> #[trigger] qp.lhs@[i] == before.lhs@[i]@[index],
        forall|c: int|
            0 <= c < qp.rhs@.len() ==> #[trigger] qp.rhs@[c] == before.rhs@[c]@[index],
        qp.elem_size == before.elem_size,
        qp.plaintext_bits == before.plaintext_bits,
        !qp.used,
        after.lhs == before.lhs,
        after.rhs == before.rhs,
        after.elem_size == before.elem_size,
        after.plaintext_bits == before.plaintext_bits,
        forall|j: int|
            0 <= j < N ==> #[trigger] after.used@[j] == (j == index || before.used@[j]),
{
}

/// A client that extracts a lane from a batch of parameters for a shard, asks for a row with it and
/// parses the response gets the row exactly where the noise is tolerated, and then the element
/// itself where that has the stated size.
pub proof fn extracted_lane_gives_the_element<const N: usize>(
    shard: &Shard,
    elements: Seq<Seq<char>>,
    cp: &CommonParams,
    batch: BatchedQueryParams<N>,
    s: Seq<[u32; N]>,
    e: Seq<[u32; N]>,
    index: int,
    qp: QueryParams,
    row_index: int,
    q: Seq<u32>,
    response: Response,
)
    requires
        acceptable(
            elements,
            shard.db.m as int,
            shard.db.elem_size as int,
            shard.db.plaintext_bits as int,
        ),
        shard.serves(
            elements,
            shard.base_params.dim as int,
            shard.db.m as int,
            shard.db.elem_size as int,
            shard.db.plaintext_bits as int,
        ),
        shard.base_params.dim > 0,
        1 <= shard.db.plaintext_bits <= 31,
        cp.derived_from(&shard.base_params),
        s.len() == shard.base_params.dim,
        e.len() == shard.db.m,
        0 <= index < N,
        all_ternary(lane(e, index)),
        masks_from(
            lane(batch.lhs@, index),
            lane(batch.rhs@, index),
            cp,
            &shard.base_params,
            lane(s, index),
            lane(e, index),
        ),
        batch.elem_size == shard.base_params.elem_size,
        batch.plaintext_bits == shard.base_params.plaintext_bits,
        batch.holds(index, qp),
        0 <= row_index < shard.db.m,
        qp.query_outcome(row_index) == Ok::<Seq<u32>, PirError>(q),
        response.0@ == shard.db.answer(q),
    ensures
        qp.elem_size == shard.db.elem_size,
        qp.plaintext_bits == shard.db.plaintext_bits,
        response.parses_with(&qp.spent()),
        response.row(&qp.spent()) == shard.db.row(row_index) <==> noise_tolerated(
            shard,
            lane(e, index),
        ),
        forall|bytes: Seq<u8>|
            noise_tolerated(shard, lane(e, index)) && elements[row_index] == #[trigger] base64_text(
                bytes,
            ) && base64_bytes(elements[row_index]) == Some(bytes) && 8 * bytes.len()
                == shard.db.elem_size ==> base64_text(
                row_bytes(
                    response.row(&qp.spent()),
                    shard.db.plaintext_bits as int,
                    shard.db.elem_size as int,
                ),
            ) == elements[row_index],
{
    let single_s = lane(s, index);
    let single_e = lane(e, index);
    assert(exchange(shard, cp, qp, single_s, single_e, row_index, q, response));
    response_gives_the_row(shard, elements, cp, qp, single_s, single_e, row_index, q, response);
    if noise_tolerated(shard, single_e) {
        response_gives_the_element(
            shard,
            elements,
            cp,
            qp,
            single_s,
            single_e,
            row_index,
            q,
            response,
        );
    }
}

/// A bit, as a binary digit.
pub open spec fn digit_of(b: bool) -> int {
    if b {
        1
    } else {
        0
    }
}

/// The bits of bytes are the binary digits of each byte, the lowest first.
pub proof fn bits_of_bytes_are_their_digits(bytes: Seq<u8>)
    ensures
        bits_of_bytes(bytes).len() == 8 * bytes.len(),
        forall|k: int|
            0 <= k < 8 * bytes.len() ==> digit_of(#[trigger] bits_of_bytes(bytes)[k])
                == binary_digit(bytes[k / 8] as int, k % 8),
{
}

/// The value of bits is the number below 2^n whose binary digits they are.
pub proof fn bits_are_the_digits_of_their_value(bits: Seq<bool>)
    ensures
        bits_value(bits) < pow2(bits.len()),
        forall|j: int|
            0 <= j < bits.len() ==> digit_of(#[trigger] bits[j]) == binary_digit(
                bits_value(bits) as int,
                j,
            ),
{
    lemma_bits_value_bound(bits);
    assert forall|j: int| 0 <= j < bits.len() implies digit_of(#[trigger] bits[j]) == binary_digit(
        bits_value(bits) as int,
        j,
    ) by {
        lemma_bit_of_value(bits, j);
    }
}

/// Bits are packed into as few bytes as hold them; the digits of the bytes are the bits, and zeros
/// behind them.
pub proof fn packed_bytes_have_the_bits_as_digits(bits: Seq<bool>)
    ensures
        bits.len() <= 8 * bytes_of_bits(bits).len() < bits.len() + 8,
        forall|k: int|
            0 <= k < 8 * bytes_of_bits(bits).len() ==> #[trigger] binary_digit(
                bytes_of_bits(bits)[k / 8] as int,
                k % 8,
            ) == digit_of(k < bits.len() && bits[k]),
{
    let bytes = bytes_of_bits(bits);
    assert forall|k: int| 0 <= k < 8 * bytes.len() implies #[trigger] binary_digit(
        bytes[k / 8] as int,
        k % 8,
    ) == digit_of(k < bits.len() && bits[k]) by {
        let i = k / 8;
        let j = k % 8;
        let chunk = bit_chunk(bits, i, 8);
        assert(chunk.len() <= 8);
        lemma_bits_value_bound(chunk);
        lemma2_to64();
        if chunk.len() < 8 {
            lemma_pow2_strictly_increases(chunk.len(), 8);
        }
        assert(bytes[i] == bits_value(chunk));
        lemma_bit_of_value(chunk, j);
        assert(j < chunk.len() <==> k < bits.len());
        if j < chunk.len() {
            assert(chunk[j] == bits[8 * i + j]);
        }
    }
}

/// The bytes of a row hold the lowest `entry_bits` digits of each entry, one entry after the other,
/// up to `total` digits, and zeros behind them.
pub proof fn row_bytes_hold_the_digits_of_the_entries(row: Seq<u32>, entry_bits: int, total: int)
    requires
        0 < entry_bits,
        0 <= total,
    ensures
        total <= row.len() * entry_bits ==> total <= 8 * row_bytes(row, entry_bits, total).len()
            < total + 8,
        total > row.len() * entry_bits ==> row.len() * entry_bits <= 8 * row_bytes(
            row,
            entry_bits,
            total,
        ).len() < row.len() * entry_bits + 8,
        forall|k: int|
            0 <= k < 8 * row_bytes(row, entry_bits, total).len() ==> #[trigger] binary_digit(
                row_bytes(row, entry_bits, total)[k / 8] as int,
                k % 8,
            ) == if k < total && k < row.len() * entry_bits {
                binary_digit(row[k / entry_bits] as int, k % entry_bits)
            } else {
                0
            },
{
    let bits = row_bits(row, entry_bits, total);
    assert(0 <= row.len() * entry_bits) by (nonlinear_arith)
        requires
            0 < entry_bits,
    ;
    packed_bytes_have_the_bits_as_digits(bits);
}

/// A row of an element has as many entries as its size needs. The entries are numbers below 2^p
/// whose digits, one entry after the other, are the digits of the bytes, and zeros behind them.
pub proof fn element_row_holds_the_digits_of_the_bytes(
    bytes: Seq<u8>,
    elem_size: int,
    plaintext_bits: int,
)
    requires
        0 <= elem_size,
        0 < plaintext_bits,
        reaches(bytes, elem_size, plaintext_bits),
        entries_fit(bytes, elem_size, plaintext_bits),
    ensures
        elem_size <= element_row(bytes, elem_size, plaintext_bits).len() * plaintext_bits
            < elem_size + plaintext_bits,
        forall|c: int|
            0 <= c < element_row(bytes, elem_size, plaintext_bits).len() ==> (
            #[trigger] element_row(bytes, elem_size, plaintext_bits)[c]) < pow2(
                plaintext_bits as nat,
            ),
        forall|k: int|
            0 <= k < element_row(bytes, elem_size, plaintext_bits).len() * plaintext_bits
                ==> #[trigger] binary_digit(
                element_row(bytes, elem_size, plaintext_bits)[k / plaintext_bits] as int,
                k % plaintext_bits,
            ) == if k < 8 * bytes.len() {
                binary_digit(bytes[k / 8] as int, k % 8)
            } else {
                0
            },
{
    let w = matrix_width(elem_size, plaintext_bits);
    let row = element_row(bytes, elem_size, plaintext_bits);
    lemma_matrix_width(elem_size, plaintext_bits);
    assert((w - 1) * plaintext_bits == w * plaintext_bits - plaintext_bits) by (nonlinear_arith);
    assert(w == 0 ==> w * plaintext_bits == 0) by (nonlinear_arith);
    if w > 0 {
        lemma_fitting_row_spans(bytes, elem_size, plaintext_bits);
    }
    assert forall|c: int| 0 <= c < w implies (#[trigger] row[c]) < pow2(plaintext_bits as nat)
        && row[c] == bits_value(bit_chunk(bits_of_bytes(bytes), c, plaintext_bits)) by {
        let chunk = bit_chunk(bits_of_bytes(bytes), c, plaintext_bits);
        assert(chunk.len() <= 32);
        lemma_chunk(bytes, elem_size, plaintext_bits, c);
        lemma_bits_value_bound(chunk);
        lemma2_to64();
        if chunk.len() < 32 {
            lemma_pow2_strictly_increases(chunk.len(), 32);
        }
        if chunk.len() < plaintext_bits {
            lemma_pow2_strictly_increases(chunk.len(), plaintext_bits as nat);
        }
    }
    assert forall|k: int| 0 <= k < w * plaintext_bits implies #[trigger] binary_digit(
        row[k / plaintext_bits] as int,
        k % plaintext_bits,
    ) == if k < 8 * bytes.len() {
        binary_digit(bytes[k / 8] as int, k % 8)
    } else {
        0
    } by {
        lemma_div_strictly_below(k, w, plaintext_bits);
        let c = k / plaintext_bits;
        let j = k % plaintext_bits;
        let chunk = bit_chunk(bits_of_bytes(bytes), c, plaintext_bits);
        lemma_chunk(bytes, elem_size, plaintext_bits, c);
        assert(row[c] == bits_value(chunk));
        lemma_bit_of_value(chunk, j);
        assert(j < chunk.len() <==> k < 8 * bytes.len());
        if j < chunk.len() {
            assert(chunk[j] == bits_of_bytes(bytes)[c * plaintext_bits + j]);
        }
    }
}

/// Bytes reach exactly where their bits can be counted, and they end no earlier than the last entry
/// starts or are too many for a word already in the first entry.
pub open spec fn long_enough(bytes: Seq<u8>, elem_size: int, plaintext_bits: int) -> bool {
    &&& 8 * bytes.len() <= usize::MAX
    &&& {
        ||| elem_size == 0
        ||| ((elem_size - 1) / plaintext_bits) * plaintext_bits <= 8 * bytes.len()
        ||| plaintext_bits > 32 && 8 * bytes.len() > 32
    }
}

/// Bytes reach exactly where they are long enough.
proof fn lemma_reaches(bytes: Seq<u8>, elem_size: int, plaintext_bits: int)
    requires
        0 <= elem_size,
        0 < plaintext_bits,
    ensures
        reaches(bytes, elem_size, plaintext_bits) <==> long_enough(
            bytes,
            elem_size,
            plaintext_bits,
        ),
{
    let w = matrix_width(elem_size, plaintext_bits);
    lemma_matrix_width(elem_size, plaintext_bits);
    assert((w - 1) * plaintext_bits == w * plaintext_bits - plaintext_bits) by (nonlinear_arith);
    if elem_size == 0 {
        assert(w * plaintext_bits == 0) by (nonlinear_arith)
            requires
                w == 0,
        ;
    } else {
        lemma_fundamental_div_mod_converse(
            elem_size - 1,
            plaintext_bits,
            w - 1,
            elem_size - 1 - (w - 1) * plaintext_bits,
        );
    }
}

/// Whether a database can be attempted depends on nothing but this: entries hold at least one bit,
/// the elements are as many as stated, and those that are base64 text are long enough.
pub proof fn long_enough_elements_are_acceptable(
    elements: Seq<Seq<char>>,
    m: int,
    elem_size: int,
    plaintext_bits: int,
)
    requires
        0 <= elem_size,
        0 <= plaintext_bits,
    ensures
        acceptable(elements, m, elem_size, plaintext_bits) <==> {
            &&& 1 <= plaintext_bits
            &&& m <= elements.len()
            &&& forall|i: int|
                0 <= i < m && base64_bytes(#[trigger] elements[i]) is Some ==> long_enough(
                    base64_bytes(elements[i])->Some_0,
                    elem_size,
                    plaintext_bits,
                )
        },
{
    if 1 <= plaintext_bits && m <= elements.len() {
        assert forall|i: int| 0 <= i < m implies text_reaches(
            #[trigger] elements[i],
            elem_size,
            plaintext_bits,
        ) == (base64_bytes(elements[i]) is Some ==> long_enough(
            base64_bytes(elements[i])->Some_0,
            elem_size,
            plaintext_bits,
        )) by {
            if base64_bytes(elements[i]) is Some {
                lemma_reaches(base64_bytes(elements[i])->Some_0, elem_size, plaintext_bits);
            }
        }
        if acceptable(elements, m, elem_size, plaintext_bits) {
            assert forall|i: int|
                0 <= i < m && base64_bytes(#[trigger] elements[i]) is Some implies long_enough(
                base64_bytes(elements[i])->Some_0,
                elem_size,
                plaintext_bits,
            ) by {
                assert(text_reaches(elements[i], elem_size, plaintext_bits));
            }
        }
    }
}

/// The entries of an element fit in words unless one of them holds more than 32 bits, which takes
/// entries and an element of more than 32 bits.
proof fn lemma_entries_fit(bytes: Seq<u8>, elem_size: int, plaintext_bits: int)
    requires
        0 <= elem_size,
        0 < plaintext_bits,
        reaches(bytes, elem_size, plaintext_bits),
    ensures
        entries_fit(bytes, elem_size, plaintext_bits) <==> !(elem_size > 0 && plaintext_bits > 32
            && 8 * bytes.len() > 32),
{
    let w = matrix_width(elem_size, plaintext_bits);
    let bits = bits_of_bytes(bytes);
    lemma_matrix_width(elem_size, plaintext_bits);
    assert(w <= 0 ==> w * plaintext_bits <= 0) by (nonlinear_arith)
        requires
            0 < plaintext_bits,
    ;
    if elem_size > 0 && plaintext_bits > 32 && 8 * bytes.len() > 32 {
        let first = bit_chunk(bits, 0, plaintext_bits);
        assert(0 * plaintext_bits == 0 && (0 + 1) * plaintext_bits == plaintext_bits)
            by (nonlinear_arith);
        assert(first.len() > 32);
        assert(w > 0);
    } else {
        assert forall|i: int| 0 <= i < w implies (#[trigger] bit_chunk(
            bits,
            i,
            plaintext_bits,
        )).len() <= 32 by {
            lemma_chunk(bytes, elem_size, plaintext_bits, i);
        }
    }
}

/// An element has a row unless it is no base64 text, or entries and element both hold more than 32
/// bits. Nothing else makes it fail, whatever its size is.
pub proof fn element_fails_for_two_reasons_only(
    text: Seq<char>,
    elem_size: int,
    plaintext_bits: int,
)
    requires
        0 <= elem_size,
        0 < plaintext_bits,
        base64_bytes(text) matches Some(bytes) ==> long_enough(bytes, elem_size, plaintext_bits),
    ensures
        match element_outcome(text, elem_size, plaintext_bits) {
            Ok(_) => base64_bytes(text) matches Some(bytes) && (elem_size == 0 || plaintext_bits
                <= 32 || 8 * bytes.len() <= 32),
            Err(e) => match base64_bytes(text) {
                None => e == PirError::InvalidBase64,
                Some(bytes) => e == PirError::UnexpectedInputSize && elem_size > 0
                    && plaintext_bits > 32 && 8 * bytes.len() > 32,
            },
        },
{
    if base64_bytes(text) is Some {
        let bytes = base64_bytes(text)->Some_0;
        lemma_reaches(bytes, elem_size, plaintext_bits);
        lemma_entries_fit(bytes, elem_size, plaintext_bits);
    }
}

/// A database of base64 texts that are long enough is made, whatever the size of the elements and
/// their number are, as long as an entry holds at most 32 bits: there is no error to report.
pub proof fn base64_elements_make_a_database(
    elements: Seq<Seq<char>>,
    m: int,
    elem_size: int,
    plaintext_bits: int,
)
    requires
        0 <= elem_size,
        1 <= plaintext_bits <= 32,
        m <= elements.len(),
        forall|i: int|
            0 <= i < m ==> base64_bytes(#[trigger] elements[i]) is Some && long_enough(
                base64_bytes(elements[i])->Some_0,
                elem_size,
                plaintext_bits,
            ),
    ensures
        acceptable(elements, m, elem_size, plaintext_bits),
        forall|e: PirError| !#[trigger] fails_with(elements, m, elem_size, plaintext_bits, e),
{
    long_enough_elements_are_acceptable(elements, m, elem_size, plaintext_bits);
    assert forall|e: PirError| !#[trigger] fails_with(
        elements,
        m,
        elem_size,
        plaintext_bits,
        e,
    ) by {
        if fails_with(elements, m, elem_size, plaintext_bits, e) {
            let i = choose|i: int|
                0 <= i < m && element_outcome(#[trigger] elements[i], elem_size, plaintext_bits)
                    == Err::<Seq<u32>, PirError>(e) && forall|k: int|
                    0 <= k < i ==> element_outcome(
                        #[trigger] elements[k],
                        elem_size,
                        plaintext_bits,
                    ) is Ok;
            element_fails_for_two_reasons_only(elements[i], elem_size, plaintext_bits);
        }
    }
}

/// Element `i` is what a failure is about: it is no base64 text, or its entries are too large, and
/// the error says which; and all elements before it are base64 text.
pub open spec fn is_to_blame(
    elements: Seq<Seq<char>>,
    elem_size: int,
    plaintext_bits: int,
    error: PirError,
    i: int,
) -> bool {
    &&& match base64_bytes(elements[i]) {
        None => error == PirError::InvalidBase64,
        Some(bytes) => error == PirError::UnexpectedInputSize && elem_size > 0 && plaintext_bits
            > 32 && 8 * bytes.len() > 32,
    }
    &&& forall|k: int| 0 <= k < i ==> base64_bytes(#[trigger] elements[k]) is Some
}

/// Where no database is made, one of its elements is to blame.
pub proof fn failure_has_an_element_to_blame(
    elements: Seq<Seq<char>>,
    m: int,
    elem_size: int,
    plaintext_bits: int,
    error: PirError,
)
    requires
        0 <= elem_size,
        acceptable(elements, m, elem_size, plaintext_bits),
        fails_with(elements, m, elem_size, plaintext_bits, error),
    ensures
        exists|i: int|
            0 <= i < m && #[trigger] is_to_blame(elements, elem_size, plaintext_bits, error, i),
{
    long_enough_elements_are_acceptable(elements, m, elem_size, plaintext_bits);
    let i = choose|i: int|
        0 <= i < m && element_outcome(#[trigger] elements[i], elem_size, plaintext_bits) == Err::<
            Seq<u32>,
            PirError,
        >(error) && forall|k: int|
            0 <= k < i ==> element_outcome(#[trigger] elements[k], elem_size, plaintext_bits) is Ok;
    element_fails_for_two_reasons_only(elements[i], elem_size, plaintext_bits);
    assert forall|k: int| 0 <= k < i implies base64_bytes(#[trigger] elements[k]) is Some by {
        assert(element_outcome(elements[k], elem_size, plaintext_bits) is Ok);
    }
    assert(is_to_blame(elements, elem_size, plaintext_bits, error, i));
}

/// A database has the stated sizes, as many entries in a row as an element needs, and holds every
/// element: row by row, its entries are numbers below 2^p whose digits are those of the element, and
/// zeros behind them.
pub proof fn database_holds_the_digits_of_its_elements(
    db: &Database,
    elements: Seq<Seq<char>>,
    m: int,
    elem_size: int,
    plaintext_bits: int,
    i: int,
)
    requires
        0 <= elem_size,
        acceptable(elements, m, elem_size, plaintext_bits),
        db.holds(elements, m, elem_size, plaintext_bits),
        0 <= i < m,
    ensures
        db.m == m,
        db.elem_size == elem_size,
        db.plaintext_bits == plaintext_bits,
        db.entries@.len() == m * db.width,
        elem_size <= db.width * plaintext_bits < elem_size + plaintext_bits,
        base64_bytes(elements[i]) is Some,
        forall|c: int|
            0 <= c < db.width ==> (#[trigger] db.entries@[i * db.width + c]) < pow2(
                plaintext_bits as nat,
            ),
        forall|k: int|
            0 <= k < db.width * plaintext_bits ==> #[trigger] binary_digit(
                db.entries@[i * db.width + k / plaintext_bits] as int,
                k % plaintext_bits,
            ) == if k < 8 * base64_bytes(elements[i])->Some_0.len() {
                binary_digit(base64_bytes(elements[i])->Some_0[k / 8] as int, k % 8)
            } else {
                0
            },
{
    assert(text_reaches(elements[i], elem_size, plaintext_bits));
    assert(element_outcome(elements[i], elem_size, plaintext_bits) == Ok::<Seq<u32>, PirError>(
        db.row(i),
    ));
    let bytes = base64_bytes(elements[i])->Some_0;
    let row = element_row(bytes, elem_size, plaintext_bits);
    element_row_holds_the_digits_of_the_bytes(bytes, elem_size, plaintext_bits);
    lemma_matrix_width(elem_size, plaintext_bits);
    assert forall|c: int| 0 <= c < db.width implies (#[trigger] db.entries@[i * db.width + c])
        < pow2(plaintext_bits as nat) by {
        assert(db.row(i)[c] == row[c]);
    }
    assert forall|k: int| 0 <= k < db.width * plaintext_bits implies #[trigger] binary_digit(
        db.entries@[i * db.width + k / plaintext_bits] as int,
        k % plaintext_bits,
    ) == if k < 8 * bytes.len() {
        binary_digit(bytes[k / 8] as int, k % 8)
    } else {
        0
    } by {
        lemma_div_strictly_below(k, db.width as int, plaintext_bits);
        assert(db.row(i)[k / plaintext_bits] == row[k / plaintext_bits]);
        assert(binary_digit(row[k / plaintext_bits] as int, k % plaintext_bits) == if k < 8
            * bytes.len() {
            binary_digit(bytes[k / 8] as int, k % 8)
        } else {
            0
        });
    }
}

/// A database without elements has no entries.
pub proof fn database_of_no_elements_is_empty(
    db: &Database,
    elements: Seq<Seq<char>>,
    elem_size: int,
    plaintext_bits: int,
)
    requires
        db.holds(elements, 0, elem_size, plaintext_bits),
    ensures
        db.m == 0,
        db.width == 0,
        db.entries@.len() == 0,
        db.elem_size == elem_size,
        db.plaintext_bits == plaintext_bits,
{
    assert(0 * db.width == 0) by (nonlinear_arith);
}

/// The bytes have the digits of the element, up to its size, and zeros behind them.
pub open spec fn has_digits_of(out: Seq<u8>, bytes: Seq<u8>, elem_size: int) -> bool {
    &&& elem_size <= 8 * out.len() < elem_size + 8
    &&& forall|k: int|
        0 <= k < 8 * out.len() ==> #[trigger] binary_digit(out[k / 8] as int, k % 8) == if k
            < elem_size && k < 8 * bytes.len() {
            binary_digit(bytes[k / 8] as int, k % 8)
        } else {
            0
        }
}

/// The text of an entry of the database is the base64 text of the bytes that have the digits of the
/// element, up to its size.
pub proof fn entry_text_has_the_digits_of_the_element(
    db: &Database,
    elements: Seq<Seq<char>>,
    m: int,
    elem_size: int,
    plaintext_bits: int,
    i: int,
)
    requires
        0 <= elem_size,
        acceptable(elements, m, elem_size, plaintext_bits),
        db.holds(elements, m, elem_size, plaintext_bits),
        0 <= i < m,
    ensures
        exists|out: Seq<u8>|
            db.entry_text(i) == base64_text(out) && #[trigger] has_digits_of(
                out,
                base64_bytes(elements[i])->Some_0,
                elem_size,
            ),
{
    database_holds_the_digits_of_its_elements(db, elements, m, elem_size, plaintext_bits, i);
    let bytes = base64_bytes(elements[i])->Some_0;
    let row = db.row(i);
    let out = row_bytes(row, plaintext_bits, elem_size);
    row_bytes_hold_the_digits_of_the_entries(row, plaintext_bits, elem_size);
    assert forall|k: int| 0 <= k < 8 * out.len() implies #[trigger] binary_digit(
        out[k / 8] as int,
        k % 8,
    ) == if k < elem_size && k < 8 * bytes.len() {
        binary_digit(bytes[k / 8] as int, k % 8)
    } else {
        0
    } by {
        if k < elem_size {
            lemma_div_strictly_below(k, db.width as int, plaintext_bits);
            let c = k / plaintext_bits;
            assert(row[c] == db.entries@[i * db.width + c]);
            assert(binary_digit(
                db.entries@[i * db.width + k / plaintext_bits] as int,
                k % plaintext_bits,
            ) == if k < 8 * bytes.len() {
                binary_digit(bytes[k / 8] as int, k % 8)
            } else {
                0
            });
        }
    }
    assert(has_digits_of(out, bytes, elem_size));
}

/// The sizes of a shard fit exactly where the bytes of the public matrix and, if there are elements,
/// the words of the published product can be counted in `usize`; the width is the least number of
/// entries that hold an element.
pub proof fn countable_sizes_fit(
    lwe_dim: int,
    m: int,
    elem_size: int,
    plaintext_bits: int,
    width: int,
)
    requires
        0 <= elem_size,
        0 < plaintext_bits,
        elem_size <= width * plaintext_bits < elem_size + plaintext_bits,
    ensures
        sizes_fit(lwe_dim, m, elem_size, plaintext_bits) <==> 4 * lwe_dim * m <= usize::MAX && (m
            <= 0 || width * lwe_dim <= usize::MAX),
        matrix_width(elem_size, plaintext_bits) == width,
{
    lemma_matrix_width(elem_size, plaintext_bits);
    assert(0 <= width) by (nonlinear_arith)
        requires
            0 <= width * plaintext_bits,
            0 < plaintext_bits,
    ;
    lemma_width_at_most(elem_size, plaintext_bits, width);
    if width > 0 {
        lemma_width_at_most(elem_size, plaintext_bits, width - 1);
        assert((width - 1) * plaintext_bits == width * plaintext_bits - plaintext_bits)
            by (nonlinear_arith);
    }
    assert(4 * (lwe_dim * m) == 4 * lwe_dim * m) by (nonlinear_arith);
}

/// The shard that serves elements holds them in its database, and publishes the parameters of that
/// database for the stated dimension.
pub proof fn serving_shard_is_of_its_elements(
    shard: &Shard,
    elements: Seq<Seq<char>>,
    lwe_dim: int,
    m: int,
    elem_size: int,
    plaintext_bits: int,
)
    requires
        shard.serves(elements, lwe_dim, m, elem_size, plaintext_bits),
    ensures
        shard.db.holds(elements, m, elem_size, plaintext_bits),
        shard.base_params.is_for(&shard.db, lwe_dim),
        shard.base_params.dim == lwe_dim,
        shard.base_params.m == m,
        shard.base_params.elem_size == elem_size,
        shard.base_params.plaintext_bits == plaintext_bits,
        shard.wf(),
{
}

/// The texts of strings are theirs, one by one.
pub proof fn texts_are_those_of_the_strings(strings: Seq<String>)
    ensures
        texts(strings).len() == strings.len(),
        forall|i: int| 0 <= i < strings.len() ==> #[trigger] texts(strings)[i] == strings[i]@,
{
}

/// Rows that are written one after the other start empty and grow by each row.
pub proof fn flat_rows_grow_by_rows(rows: Seq<Vec<u32>>, row: Vec<u32>)
    ensures
        flat(Seq::empty()) == Seq::<u32>::empty(),
        flat(rows.push(row)) == flat(rows) + row@,
{
    assert(rows.push(row).drop_last() =~= rows);
}

} // verus!
