//! What holds of the scheme as a whole.
use crate::api::{
    masks_from, masks_sampled, response_bytes, rounded, QueryParams, Response, Shard,
};
use crate::arith::{
    column_sums, dot, lemma_flat_index, lemma_sum_bound, lemma_sum_congruent, lemma_sum_ext,
    lemma_sum_factor, lemma_sum_plus, lemma_sum_single, lemma_sum_swap, lemma_wrap_plus,
    lemma_wrap_times, products, row_sums, sum, wrap,
};
use crate::batch::{batch_answer, batch_answer_bytes, BatchedQueryParams};
use crate::db::{lane, Database};
use crate::elements::{
    acceptable, element_outcome, element_row, entries_fit, lemma_matrix_width, matrix_width,
    reaches, spans, text_reaches,
};
use crate::errors::PirError;
use crate::outside::{base64_bytes, base64_text, le_byte, length_prefix, word_bytes};
use crate::params::{BaseParams, CommonParams};
use crate::utils::format::{
    bit_chunk, bits_of_bytes, bits_value, bytes_of_bits, lemma_bit_of_value,
    lemma_bits_value_bound, lemma_bytes_round_trip, lemma_div_strictly_below, row_bits, row_bytes,
};
use crate::utils::lwe::{
    all_ternary, is_ternary, plaintext_size, rounding_factor, ternary_value,
};
use crate::utils::matrices::{le_word, lwe_column, lwe_row};
use vstd::arithmetic::div_mod::{
    lemma_fundamental_div_mod, lemma_fundamental_div_mod_converse, lemma_mod_bound,
};
use vstd::arithmetic::power2::{
    lemma2_to64, lemma_pow2_adds, lemma_pow2_pos, lemma_pow2_strictly_increases, lemma_pow2_unfold,
    pow2,
};
use vstd::prelude::*;

verus! {

/// The representative closest to zero of an integer modulo 2^32.
pub open spec fn centered(x: int) -> int {
    let r = x % 0x1_0000_0000;
    if r > 0x8000_0000 {
        r - 0x1_0000_0000
    } else {
        r
    }
}

/// What the errors of a query add to column `c` of the response.
pub open spec fn noise(db: &Database, e: Seq<u32>, c: int) -> int {
    sum(noise_terms(db, e, c), 0, db.m as int)
}

/// What the error of each row adds to column `c` of the response.
pub open spec fn noise_terms(db: &Database, e: Seq<u32>, c: int) -> spec_fn(int) -> int {
    |k: int| ternary_value(e[k]) * db.entry(k, c)
}

/// Rounding takes the noise away: modulo 2^32 it lies at most half a rounding factor above zero and
/// less than that below.
pub open spec fn tolerated(n: int, plaintext_bits: int) -> bool {
    let half = rounding_factor(plaintext_bits) / 2;
    -half < centered(n) <= half
}

/// The rounding factor and the number of plaintext values divide the modulus between them.
pub proof fn factor_and_size_split_the_modulus(plaintext_bits: int)
    requires
        0 <= plaintext_bits <= 32,
    ensures
        rounding_factor(plaintext_bits) * plaintext_size(plaintext_bits) == 0x1_0000_0000,
        rounding_factor(plaintext_bits) > 0,
        plaintext_size(plaintext_bits) > 0,
        plaintext_bits <= 31 ==> rounding_factor(plaintext_bits) == 2 * (rounding_factor(
            plaintext_bits,
        ) / 2),
{
    lemma_pow2_adds((32 - plaintext_bits) as nat, plaintext_bits as nat);
    lemma_pow2_pos((32 - plaintext_bits) as nat);
    lemma_pow2_pos(plaintext_bits as nat);
    lemma2_to64();
    if plaintext_bits <= 31 {
        lemma_pow2_unfold((32 - plaintext_bits) as nat);
    }
}

/// A scaled value with noise is rounded to the value exactly where the noise is tolerated.
pub proof fn rounding_removes_tolerated_noise(x: int, n: int, plaintext_bits: int)
    requires
        1 <= plaintext_bits <= 31,
        0 <= x < plaintext_size(plaintext_bits),
    ensures
        rounded(wrap(rounding_factor(plaintext_bits) * x + n), plaintext_bits) == x <==> tolerated(
            n,
            plaintext_bits,
        ),
{
    let f = rounding_factor(plaintext_bits);
    let size = plaintext_size(plaintext_bits);
    let modulus = 0x1_0000_0000int;
    factor_and_size_split_the_modulus(plaintext_bits);
    let half = f / 2;
    let u = wrap(f * x + n) as int;
    let q = u / f;
    let r = u % f;
    let c = centered(n);
    lemma_fundamental_div_mod(u, f);
    lemma_mod_bound(u, f);
    assert(0 <= f * x <= modulus - f) by (nonlinear_arith)
        requires
            0 <= x < size,
            f * size == modulus,
            0 < f,
    ;
    let k = if f * x + c < 0 {
        1int
    } else if f * x + c < modulus {
        0int
    } else {
        -1int
    };
    assert(u == f * x + c + k * modulus);
    assert(0 <= q < size) by (nonlinear_arith)
        requires
            0 <= u < modulus,
            u == f * q + r,
            0 <= r < f,
            f * size == modulus,
    ;
    let d = q - x - k * size;
    assert(f * d == f * q - f * x - k * modulus) by (nonlinear_arith)
        requires
            d == q - x - k * size,
            f * size == modulus,
    ;
    assert(c == f * d + r);
    assert(d >= 1 ==> f * d >= f) by (nonlinear_arith)
        requires
            f > 0,
    ;
    assert(d <= -2 ==> f * d <= -2 * f) by (nonlinear_arith)
        requires
            f > 0,
    ;
    assert(f * 0 == 0 && f * -1 == -f) by (nonlinear_arith);
    let met = (d == 0 && r <= half) || (d == -1 && r > half);
    assert(tolerated(n, plaintext_bits) <==> met);
    let v = q + (if r > half {
        1int
    } else {
        0int
    });
    if v == size {
        lemma_fundamental_div_mod_converse(v, size, 1, 0);
    } else {
        lemma_fundamental_div_mod_converse(v, size, 0, v);
    }
    let value = if v == size {
        0int
    } else {
        v
    };
    assert(value < size <= modulus) by (nonlinear_arith)
        requires
            value < size,
            f * size == modulus,
            f >= 1,
            size > 0,
    ;
    assert(rounded(wrap(f * x + n), plaintext_bits) == value);
    assert(-1 * size == -size && 0 * size == 0 && 1 * size == size) by (nonlinear_arith);
    assert(f * (q + 1) == f * q + f) by (nonlinear_arith);
    if value == x {
        if r > half && v == size {
            assert(f * (q + 1) == modulus);
        }
        assert(met);
    }
}

/// The right-hand side of the parameters is the product of the public matrix and the database: one
/// column for each column of the database, and in it the inner product of each row of the public
/// matrix and that column, modulo 2^32.
pub proof fn rhs_is_matrix_times_database(db: &Database, bp: &BaseParams, c: int, r: int)
    requires
        bp.is_for(db, bp.dim as int),
        0 <= c < db.width,
        0 <= r < bp.dim,
    ensures
        bp.rhs_width() == db.width,
        bp.rhs_column(c).len() == bp.dim,
        bp.rhs_column(c)[r] == wrap(
            dot(lwe_row(bp.public_seed@, bp.dim as nat, bp.m as nat, r), db.column(c)),
        ),
{
    let dim = bp.dim as int;
    lemma_rhs_width(db, bp);
    lemma_flat_index(c, r, db.width as int, dim);
    lemma_flat_index(c, 0, db.width as int, dim);
}

/// The right-hand side has one column for each column of the database.
proof fn lemma_rhs_width(db: &Database, bp: &BaseParams)
    requires
        bp.is_for(db, bp.dim as int),
        bp.dim > 0,
    ensures
        bp.rhs_width() == db.width,
{
    let dim = bp.dim as int;
    assert(0 <= db.width * dim) by (nonlinear_arith)
        requires
            0 <= db.width,
            0 < dim,
    ;
    lemma_fundamental_div_mod_converse(db.width * dim, dim, db.width as int, 0);
}

/// The secret vector times each column of the public matrix, times the database.
spec fn masked_terms(db: &Database, cp: &CommonParams, s: Seq<u32>, c: int) -> spec_fn(
    int,
) -> int {
    |k: int| dot(s, cp.column(k)) * db.entry(k, c)
}

/// Multiplying the secret vector by the public matrix and then by the database is the same, modulo
/// 2^32, as multiplying it by their product.
proof fn lemma_products_commute(
    db: &Database,
    bp: &BaseParams,
    cp: &CommonParams,
    s: Seq<u32>,
    c: int,
)
    requires
        bp.is_for(db, bp.dim as int),
        cp.derived_from(bp),
        s.len() == bp.dim,
        0 <= c < db.width,
    ensures
        wrap(sum(masked_terms(db, cp, s, c), 0, db.m as int)) == wrap(dot(s, bp.rhs_column(c))),
{
    let m = db.m as int;
    let dim = bp.dim as int;
    let col = db.column(c);
    let terms = |k: int, r: int| s[r] * cp.column(k)[r] * db.entry(k, c);
    let by_row = row_sums(terms, dim);
    let by_column = column_sums(terms, m);
    assert forall|k: int| 0 <= k < m implies #[trigger] masked_terms(db, cp, s, c)(k) == by_row(k) by {
        let f = products(s, cp.column(k));
        let h = |r: int| terms(k, r);
        assert forall|r: int| 0 <= r < dim implies #[trigger] h(r) == db.entry(k, c) * f(r) by {
            assert(s[r] * cp.column(k)[r] * db.entry(k, c) == db.entry(k, c) * (s[r] * cp.column(
                k,
            )[r])) by (nonlinear_arith);
        }
        lemma_sum_factor(db.entry(k, c) as int, f, h, 0, dim);
        assert(dot(s, cp.column(k)) * db.entry(k, c) == db.entry(k, c) * sum(f, 0, dim))
            by (nonlinear_arith)
            requires
                dot(s, cp.column(k)) == sum(f, 0, dim),
        ;
    }
    lemma_sum_ext(masked_terms(db, cp, s, c), by_row, 0, m);
    lemma_sum_swap(terms, m, dim);
    let rhs = products(s, bp.rhs_column(c));
    assert forall|r: int| 0 <= r < dim implies wrap(#[trigger] by_column(r)) == wrap(rhs(r)) by {
        let row = lwe_row(bp.public_seed@, bp.dim as nat, bp.m as nat, r);
        let f = products(row, col);
        let h = |k: int| terms(k, r);
        assert forall|k: int| 0 <= k < m implies #[trigger] h(k) == s[r] * f(k) by {
            assert(cp.column(k) == lwe_column(bp.public_seed@, bp.dim as nat, bp.m as nat, k));
            assert(cp.column(k)[r] == row[k]);
            assert(s[r] * row[k] * db.entry(k, c) == s[r] * (row[k] * db.entry(k, c)))
                by (nonlinear_arith);
        }
        lemma_sum_factor(s[r] as int, f, h, 0, m);
        rhs_is_matrix_times_database(db, bp, c, r);
        lemma_wrap_times(s[r] as int, dot(row, col));
    }
    lemma_sum_congruent(by_column, rhs, 0, dim);
}

/// The answer to a query, before it is reduced modulo 2^32, is the mask of the response, plus the
/// scaled entry of the row, plus the noise.
proof fn lemma_query_product(
    db: &Database,
    bp: &BaseParams,
    cp: &CommonParams,
    qp: QueryParams,
    s: Seq<u32>,
    e: Seq<u32>,
    row_index: int,
    q: Seq<u32>,
    c: int,
)
    requires
        bp.is_for(db, bp.dim as int),
        cp.derived_from(bp),
        s.len() == bp.dim,
        e.len() == db.m,
        all_ternary(e),
        qp.lhs@ == cp.masked(s, e),
        0 <= row_index < db.m,
        qp.query_outcome(row_index) == Ok::<Seq<u32>, PirError>(q),
        0 <= c < db.width,
    ensures
        q.len() == db.m,
        wrap(dot(q, db.column(c))) == wrap(
            dot(s, bp.rhs_column(c)) + (rounding_factor(qp.plaintext_bits as int) * db.entry(
                row_index,
                c,
            ) + noise(db, e, c)),
        ),
{
    let m = db.m as int;
    let factor = rounding_factor(qp.plaintext_bits as int);
    lemma_pow2_pos((32 - qp.plaintext_bits) as nat);
    let f = products(q, db.column(c));
    let masks = masked_terms(db, cp, s, c);
    let errors = noise_terms(db, e, c);
    let indicator = |k: int|
        if k == row_index {
            factor * db.entry(k, c)
        } else {
            0int
        };
    let signal = |k: int| indicator(k) + errors(k);
    let total = |k: int| masks(k) + signal(k);
    assert forall|k: int| 0 <= k < m implies wrap(#[trigger] f(k)) == wrap(total(k)) by {
        let base = dot(s, cp.column(k));
        let t = ternary_value(e[k]);
        let own = if k == row_index {
            factor
        } else {
            0int
        };
        let d = db.entry(k, c) as int;
        assert(is_ternary(e[k]));
        assert(qp.lhs@[k] == wrap(base + e[k]));
        assert(wrap(base + e[k]) == wrap(base + t));
        lemma_wrap_plus(base + t, own);
        assert(q[k] == wrap(base + t + own));
        lemma_wrap_times(base + t + own, d);
        assert((base + t + own) * d == base * d + t * d + own * d) by (nonlinear_arith);
        assert(0 * d == 0) by (nonlinear_arith);
    }
    lemma_sum_congruent(f, total, 0, m);
    lemma_sum_plus(masks, signal, total, 0, m);
    lemma_sum_plus(indicator, errors, signal, 0, m);
    lemma_sum_single(indicator, row_index, 0, m);
    lemma_products_commute(db, bp, cp, s, c);
    let rest = factor * db.entry(row_index, c) + noise(db, e, c);
    lemma_wrap_plus(sum(masks, 0, m), rest);
    lemma_wrap_plus(dot(s, bp.rhs_column(c)), rest);
}

/// The bits of an element that an entry holds are no more than the entry has room for, and they are
/// bits of the element.
pub(crate) proof fn lemma_chunk(bytes: Seq<u8>, elem_size: int, plaintext_bits: int, c: int)
    requires
        0 <= elem_size,
        0 < plaintext_bits,
        spans(bytes, elem_size, plaintext_bits),
        0 <= c < matrix_width(elem_size, plaintext_bits),
    ensures
        0 <= c * plaintext_bits <= 8 * bytes.len(),
        bit_chunk(bits_of_bytes(bytes), c, plaintext_bits).len() <= plaintext_bits,
        bit_chunk(bits_of_bytes(bytes), c, plaintext_bits).len() == if 8 * bytes.len() - c
            * plaintext_bits < plaintext_bits {
            8 * bytes.len() - c * plaintext_bits
        } else {
            plaintext_bits as int
        },
        forall|j: int|
            0 <= j < bit_chunk(bits_of_bytes(bytes), c, plaintext_bits).len()
                ==> #[trigger] bit_chunk(bits_of_bytes(bytes), c, plaintext_bits)[j]
                == bits_of_bytes(bytes)[c * plaintext_bits + j],
{
    let w = matrix_width(elem_size, plaintext_bits);
    assert(c * plaintext_bits <= (w - 1) * plaintext_bits) by (nonlinear_arith)
        requires
            c <= w - 1,
            0 < plaintext_bits,
    ;
    assert(0 <= c * plaintext_bits) by (nonlinear_arith)
        requires
            0 <= c,
            0 < plaintext_bits,
    ;
    assert((c + 1) * plaintext_bits == c * plaintext_bits + plaintext_bits) by (nonlinear_arith);
}

/// Where the entries of a row fit, the bytes were enough for them.
pub(crate) proof fn lemma_fitting_row_spans(bytes: Seq<u8>, elem_size: int, plaintext_bits: int)
    requires
        0 < plaintext_bits,
        reaches(bytes, elem_size, plaintext_bits),
        entries_fit(bytes, elem_size, plaintext_bits),
        0 < matrix_width(elem_size, plaintext_bits),
    ensures
        spans(bytes, elem_size, plaintext_bits),
{
    let first = bit_chunk(bits_of_bytes(bytes), 0, plaintext_bits);
    assert(first.len() <= 32);
    assert(0 * plaintext_bits == 0 && (0 + 1) * plaintext_bits == plaintext_bits)
        by (nonlinear_arith);
}

/// The entries of a database are plaintext values.
pub proof fn entries_are_plaintexts(
    db: &Database,
    elements: Seq<Seq<char>>,
    m: int,
    elem_size: int,
    plaintext_bits: int,
    i: int,
    c: int,
)
    requires
        0 <= elem_size,
        plaintext_bits <= 32,
        acceptable(elements, m, elem_size, plaintext_bits),
        db.holds(elements, m, elem_size, plaintext_bits),
        0 <= i < db.m,
        0 <= c < db.width,
    ensures
        db.entry(i, c) < plaintext_size(plaintext_bits),
{
    assert(text_reaches(elements[i], elem_size, plaintext_bits));
    assert(element_outcome(elements[i], elem_size, plaintext_bits) == Ok::<Seq<u32>, PirError>(
        db.row(i),
    ));
    let bytes = base64_bytes(elements[i])->Some_0;
    let chunk = bit_chunk(bits_of_bytes(bytes), c, plaintext_bits);
    lemma_chunk(bytes, elem_size, plaintext_bits, c);
    lemma_bits_value_bound(chunk);
    if chunk.len() < plaintext_bits {
        lemma_pow2_strictly_increases(chunk.len(), plaintext_bits as nat);
    }
    lemma2_to64();
    if plaintext_bits < 32 {
        lemma_pow2_strictly_increases(plaintext_bits as nat, 32);
    }
    assert(db.row(i)[c] == element_row(bytes, elem_size, plaintext_bits)[c]);
}

/// The bits of an element, cut off or filled up with zeros to a given length.
pub open spec fn fitted_bits(bytes: Seq<u8>, total: int) -> Seq<bool> {
    Seq::new(total as nat, |k: int| k < 8 * bytes.len() && bits_of_bytes(bytes)[k])
}

/// An entry of the database stands for the bits of the element that it was made of: the first
/// `elem_size` of them, filled up with zeros where there are fewer.
pub proof fn entry_keeps_element_bits(
    db: &Database,
    elements: Seq<Seq<char>>,
    m: int,
    elem_size: int,
    plaintext_bits: int,
    i: int,
    bytes: Seq<u8>,
)
    requires
        0 <= elem_size,
        acceptable(elements, m, elem_size, plaintext_bits),
        db.holds(elements, m, elem_size, plaintext_bits),
        0 <= i < m,
        base64_bytes(elements[i]) == Some(bytes),
    ensures
        row_bits(db.row(i), plaintext_bits, elem_size) == fitted_bits(bytes, elem_size),
        db.entry_text(i) == base64_text(bytes_of_bits(fitted_bits(bytes, elem_size))),
{
    assert(text_reaches(elements[i], elem_size, plaintext_bits));
    assert(element_outcome(elements[i], elem_size, plaintext_bits) == Ok::<Seq<u32>, PirError>(
        db.row(i),
    ));
    let row = db.row(i);
    let width = matrix_width(elem_size, plaintext_bits);
    lemma_matrix_width(elem_size, plaintext_bits);
    assert forall|k: int| 0 <= k < elem_size implies #[trigger] row_bits(
        row,
        plaintext_bits,
        elem_size,
    )[k] == fitted_bits(bytes, elem_size)[k] by {
        lemma_div_strictly_below(k, width, plaintext_bits);
        let c = k / plaintext_bits;
        let j = k % plaintext_bits;
        let chunk = bit_chunk(bits_of_bytes(bytes), c, plaintext_bits);
        lemma_fitting_row_spans(bytes, elem_size, plaintext_bits);
        lemma_chunk(bytes, elem_size, plaintext_bits, c);
        lemma_bits_value_bound(chunk);
        lemma2_to64();
        if chunk.len() < 32 {
            lemma_pow2_strictly_increases(chunk.len(), 32);
        }
        assert(row[c] == element_row(bytes, elem_size, plaintext_bits)[c]);
        assert(row[c] == bits_value(chunk));
        lemma_bit_of_value(chunk, j);
        assert(j < chunk.len() ==> chunk[j] == bits_of_bytes(bytes)[c * plaintext_bits + j]);
    }
    assert(row_bits(row, plaintext_bits, elem_size) =~= fitted_bits(bytes, elem_size));
}

/// Where an element has the stated size, its entry in the database is the text that it was given
/// as.
pub proof fn entry_is_the_element(
    db: &Database,
    elements: Seq<Seq<char>>,
    m: int,
    elem_size: int,
    plaintext_bits: int,
    i: int,
    bytes: Seq<u8>,
)
    requires
        acceptable(elements, m, elem_size, plaintext_bits),
        db.holds(elements, m, elem_size, plaintext_bits),
        0 <= i < m,
        elements[i] == base64_text(bytes),
        base64_bytes(elements[i]) == Some(bytes),
        8 * bytes.len() == elem_size,
    ensures
        row_bytes(db.row(i), plaintext_bits, elem_size) == bytes,
        db.entry_text(i) == elements[i],
{
    entry_keeps_element_bits(db, elements, m, elem_size, plaintext_bits, i, bytes);
    assert(fitted_bits(bytes, elem_size) =~= bits_of_bytes(bytes));
    lemma_bytes_round_trip(bytes);
}

/// A client makes query parameters of a secret vector and ternary errors, asks for a row, and the
/// server answers.
pub open spec fn exchange(
    shard: &Shard,
    cp: &CommonParams,
    qp: QueryParams,
    s: Seq<u32>,
    e: Seq<u32>,
    row_index: int,
    q: Seq<u32>,
    response: Response,
) -> bool {
    &&& cp.derived_from(&shard.base_params)
    &&& s.len() == shard.base_params.dim
    &&& e.len() == shard.db.m
    &&& all_ternary(e)
    &&& masks_from(qp.lhs@, qp.rhs@, cp, &shard.base_params, s, e)
    &&& qp.elem_size == shard.base_params.elem_size
    &&& qp.plaintext_bits == shard.base_params.plaintext_bits
    &&& 0 <= row_index < shard.db.m
    &&& qp.query_outcome(row_index) == Ok::<Seq<u32>, PirError>(q)
    &&& response.0@ == shard.db.answer(q)
}

/// The noise of an exchange is tolerated in every column.
pub open spec fn noise_tolerated(shard: &Shard, e: Seq<u32>) -> bool {
    forall|c: int|
        0 <= c < shard.db.width ==> tolerated(
            #[trigger] noise(&shard.db, e, c),
            shard.db.plaintext_bits as int,
        )
}

/// The response to a query parses, and it gives each entry of the row that was asked for exactly
/// where the noise in its column is tolerated.
pub proof fn response_gives_the_row(
    shard: &Shard,
    elements: Seq<Seq<char>>,
    cp: &CommonParams,
    qp: QueryParams,
    s: Seq<u32>,
    e: Seq<u32>,
    row_index: int,
    q: Seq<u32>,
    response: Response,
)
    requires
        acceptable(
            elements,
            shard.db.m as int,
            shard.db.elem_size as int,
            shard.db.plaintext_bits as int,
        ),
        shard.serves(
            elements,
            shard.base_params.dim as int,
            shard.db.m as int,
            shard.db.elem_size as int,
            shard.db.plaintext_bits as int,
        ),
        shard.base_params.dim > 0,
        1 <= shard.db.plaintext_bits <= 31,
        exchange(shard, cp, qp, s, e, row_index, q, response),
    ensures
        response.parses_with(&qp.spent()),
        forall|c: int|
            0 <= c < shard.db.width ==> (#[trigger] response.row(&qp.spent())[c] == shard.db.entry(
                row_index,
                c,
            ) <==> tolerated(noise(&shard.db, e, c), shard.db.plaintext_bits as int)),
        response.row(&qp.spent()) == shard.db.row(row_index) <==> noise_tolerated(shard, e),
{
    let db = &shard.db;
    let bp = &shard.base_params;
    let p = db.plaintext_bits as int;
    let es = db.elem_size as int;
    let row = response.row(&qp.spent());
    lemma_rhs_width(db, bp);
    lemma_matrix_width(es, p);
    assert forall|c: int| 0 <= c < db.width implies (#[trigger] row[c] == db.entry(row_index, c)
        <==> tolerated(noise(db, e, c), p)) by {
        let x = db.entry(row_index, c) as int;
        let n = noise(db, e, c);
        let mask = dot(s, bp.rhs_column(c));
        let rest = rounding_factor(p) * x + n;
        entries_are_plaintexts(db, elements, db.m as int, es, p, row_index, c);
        lemma_query_product(db, bp, cp, qp, s, e, row_index, q, c);
        lemma_wrap_plus(mask + rest, mask);
        assert(mask + rest - mask == rest);
        assert(response.0@[c] == wrap(mask + rest));
        assert(qp.rhs@[c] == wrap(mask));
        assert(wrap(response.0@[c] - qp.rhs@[c]) == wrap(rest));
        rounding_removes_tolerated_noise(x, n, p);
    }
    if noise_tolerated(shard, e) {
        assert(row =~= db.row(row_index));
    }
    if row == db.row(row_index) {
        assert forall|c: int| 0 <= c < db.width implies tolerated(#[trigger] noise(db, e, c), p) by {
            assert(row[c] == db.row(row_index)[c]);
        }
    }
}

/// Where the noise is tolerated, what the client parses as base64 is the entry of the database; and
/// it is the element itself, where that has the stated size.
pub proof fn response_gives_the_element(
    shard: &Shard,
    elements: Seq<Seq<char>>,
    cp: &CommonParams,
    qp: QueryParams,
    s: Seq<u32>,
    e: Seq<u32>,
    row_index: int,
    q: Seq<u32>,
    response: Response,
)
    requires
        acceptable(
            elements,
            shard.db.m as int,
            shard.db.elem_size as int,
            shard.db.plaintext_bits as int,
        ),
        shard.serves(
            elements,
            shard.base_params.dim as int,
            shard.db.m as int,
            shard.db.elem_size as int,
            shard.db.plaintext_bits as int,
        ),
        shard.base_params.dim > 0,
        1 <= shard.db.plaintext_bits <= 31,
        exchange(shard, cp, qp, s, e, row_index, q, response),
        noise_tolerated(shard, e),
    ensures
        base64_text(
            row_bytes(
                response.row(&qp.spent()),
                qp.plaintext_bits as int,
                qp.elem_size as int,
            ),
        ) == shard.db.entry_text(row_index),
        forall|bytes: Seq<u8>|
            elements[row_index] == #[trigger] base64_text(bytes) && base64_bytes(
                elements[row_index],
            ) == Some(bytes) && 8 * bytes.len() == shard.db.elem_size ==> base64_text(
                row_bytes(
                    response.row(&qp.spent()),
                    qp.plaintext_bits as int,
                    qp.elem_size as int,
                ),
            ) == elements[row_index],
{
    let db = &shard.db;
    response_gives_the_row(shard, elements, cp, qp, s, e, row_index, q, response);
    assert forall|bytes: Seq<u8>|
        elements[row_index] == #[trigger] base64_text(bytes) && base64_bytes(elements[row_index])
            == Some(bytes) && 8 * bytes.len() == db.elem_size implies db.entry_text(row_index)
        == elements[row_index] by {
        entry_is_the_element(
            db,
            elements,
            db.m as int,
            db.elem_size as int,
            db.plaintext_bits as int,
            row_index,
            bytes,
        );
    }
}

/// Where the number of rows times the largest plaintext value is less than half a rounding factor,
/// all noise is tolerated, whatever the ternary errors are.
pub proof fn small_databases_tolerate_all_noise(
    shard: &Shard,
    elements: Seq<Seq<char>>,
    e: Seq<u32>,
)
    requires
        acceptable(
            elements,
            shard.db.m as int,
            shard.db.elem_size as int,
            shard.db.plaintext_bits as int,
        ),
        shard.db.holds(
            elements,
            shard.db.m as int,
            shard.db.elem_size as int,
            shard.db.plaintext_bits as int,
        ),
        1 <= shard.db.plaintext_bits <= 31,
        e.len() == shard.db.m,
        all_ternary(e),
        shard.db.m * (plaintext_size(shard.db.plaintext_bits as int) - 1) < rounding_factor(
            shard.db.plaintext_bits as int,
        ) / 2,
    ensures
        noise_tolerated(shard, e),
{
    let db = &shard.db;
    let m = db.m as int;
    let p = db.plaintext_bits as int;
    let largest = plaintext_size(p) - 1;
    factor_and_size_split_the_modulus(p);
    lemma2_to64();
    if p > 1 {
        lemma_pow2_strictly_increases((32 - p) as nat, 31);
    }
    assert forall|c: int| 0 <= c < db.width implies tolerated(#[trigger] noise(db, e, c), p) by {
        let f = noise_terms(db, e, c);
        assert forall|k: int| 0 <= k < m implies -largest <= #[trigger] f(k) <= largest by {
            entries_are_plaintexts(db, elements, m, db.elem_size as int, p, k, c);
            assert(is_ternary(e[k]));
            let d = db.entry(k, c) as int;
            assert(0 * d == 0 && 1 * d == d && -1 * d == -d) by (nonlinear_arith);
        }
        lemma_sum_bound(f, largest, 0, m);
    }
}

/// Where the number of rows times the largest plaintext value is less than half a rounding factor,
/// every response gives the row that was asked for.
pub proof fn small_databases_always_give_the_row(
    shard: &Shard,
    elements: Seq<Seq<char>>,
    cp: &CommonParams,
    qp: QueryParams,
    s: Seq<u32>,
    e: Seq<u32>,
    row_index: int,
    q: Seq<u32>,
    response: Response,
)
    requires
        acceptable(
            elements,
            shard.db.m as int,
            shard.db.elem_size as int,
            shard.db.plaintext_bits as int,
        ),
        shard.serves(
            elements,
            shard.base_params.dim as int,
            shard.db.m as int,
            shard.db.elem_size as int,
            shard.db.plaintext_bits as int,
        ),
        shard.base_params.dim > 0,
        1 <= shard.db.plaintext_bits <= 31,
        exchange(shard, cp, qp, s, e, row_index, q, response),
        shard.db.m * (plaintext_size(shard.db.plaintext_bits as int) - 1) < rounding_factor(
            shard.db.plaintext_bits as int,
        ) / 2,
    ensures
        response.row(&qp.spent()) == shard.db.row(row_index),
{
    small_databases_tolerate_all_noise(shard, elements, e);
    response_gives_the_row(shard, elements, cp, qp, s, e, row_index, q, response);
}

/// The public matrix is determined by the parameters: whoever derives it gets the same.
pub proof fn derived_matrix_is_unique(bp: &BaseParams, one: &CommonParams, other: &CommonParams)
    requires
        one.derived_from(bp),
        other.derived_from(bp),
    ensures
        one.matrix@ == other.matrix@,
{
    let dim = bp.dim as int;
    assert forall|k: int| 0 <= k < bp.m * dim implies one.matrix@[k] == other.matrix@[k] by {
        assert(dim > 0) by (nonlinear_arith)
            requires
                0 <= k < bp.m * dim,
                0 <= bp.m,
        ;
        lemma_div_strictly_below(k, bp.m as int, dim);
        let i = k / dim;
        let r = k % dim;
        lemma_flat_index(i, r, bp.m as int, dim);
        assert(one.column(i) == other.column(i));
        assert(one.column(i)[r] == one.matrix@[k]);
        assert(other.column(i)[r] == other.matrix@[k]);
    }
    assert(one.matrix@ =~= other.matrix@);
}

/// Query parameters are good for one attempt: after it every query is refused, and the parameters
/// stay as they are.
pub proof fn spent_parameters_are_refused(qp: QueryParams, row_index: int)
    ensures
        qp.spent().query_outcome(row_index) == Err::<Seq<u32>, PirError>(
            PirError::QueryParamsReused,
        ),
        qp.spent().spent() == qp.spent(),
        qp.spent().lhs == qp.lhs,
        qp.spent().rhs == qp.rhs,
{
}

/// Extracting a lane uses up that lane alone: a second request for it meets a used lane, and the
/// other lanes can be extracted as before.
pub proof fn extraction_uses_up_one_lane<const N: usize>(
    before: BatchedQueryParams<N>,
    after: BatchedQueryParams<N>,
    index: int,
)
    requires
        0 <= index < N,
        after.is_without(before, index),
    ensures
        after.used@[index],
        forall|j: int| 0 <= j < N && j != index ==> after.used@[j] == #[trigger] before.used@[j],
        forall|j: int, qp: QueryParams| #[trigger] after.holds(j, qp) == before.holds(j, qp),
{
}

/// Query parameters that are extracted from a sampled batch are sampled as those for a single query
/// are.
pub proof fn extracted_parameters_are_sampled<const N: usize>(
    batch: BatchedQueryParams<N>,
    cp: &CommonParams,
    bp: &BaseParams,
    index: int,
    qp: QueryParams,
)
    requires
        0 <= index < N,
        forall|j: int|
            0 <= j < N ==> masks_sampled(
                #[trigger] lane(batch.lhs@, j),
                lane(batch.rhs@, j),
                cp,
                bp,
            ),
        batch.holds(index, qp),
    ensures
        masks_sampled(qp.lhs@, qp.rhs@, cp, bp),
{
    assert(masks_sampled(lane(batch.lhs@, index), lane(batch.rhs@, index), cp, bp));
}

/// Four bytes of a word give the word back.
proof fn lemma_word_from_bytes(x: u32)
    ensures
        le_byte(x as int, 0) + 0x100 * le_byte(x as int, 1) + 0x1_0000 * le_byte(x as int, 2)
            + 0x100_0000 * le_byte(x as int, 3) == x,
{
    lemma2_to64();
    let y = x as int;
    assert(le_byte(y, 0) == y % 0x100) by {
        assert(pow2(0) == 1 && y / 1 == y);
    }
    assert(le_byte(y, 1) == (y / 0x100) % 0x100) by {
        assert(pow2(8) == 0x100);
    }
    assert(le_byte(y, 2) == (y / 0x1_0000) % 0x100) by {
        assert(pow2(16) == 0x1_0000);
    }
    assert(le_byte(y, 3) == (y / 0x100_0000) % 0x100) by {
        assert(pow2(24) == 0x100_0000);
    }
}

/// The words behind eight other bytes can be read back.
proof fn lemma_words_read_back(prefix: Seq<u8>, words: Seq<u32>, k: int)
    requires
        prefix.len() == 8,
        0 <= k < words.len(),
    ensures
        le_word((prefix + word_bytes(words)).skip(8), k) == words[k],
{
    assert((prefix + word_bytes(words)).skip(8) =~= word_bytes(words));
    assert((4 * k) / 4 == k && (4 * k) % 4 == 0);
    assert((4 * k + 1) / 4 == k && (4 * k + 1) % 4 == 1);
    assert((4 * k + 2) / 4 == k && (4 * k + 2) % 4 == 2);
    assert((4 * k + 3) / 4 == k && (4 * k + 3) % 4 == 3);
    lemma_word_from_bytes(words[k]);
}

/// A batch gives each query the answer that it would get alone, and the client can read it from the
/// bytes of the batch.
pub proof fn batch_answers_each_query<const N: usize>(
    db: &Database,
    q: Seq<[u32; N]>,
    j: int,
    c: int,
)
    requires
        0 <= j < N,
        0 <= c < db.width,
    ensures
        0 <= c * N + j < batch_answer(db, q).len(),
        batch_answer(db, q)[c * N + j] == db.answer(lane(q, j))[c],
        le_word(batch_answer_bytes(db, q).skip(8), c * N + j) == db.answer(lane(q, j))[c],
{
    lemma_flat_index(c, j, db.width as int, N as int);
    lemma_words_read_back(length_prefix(db.width as int), batch_answer(db, q), c * N + j);
}

/// The words of a response can be read back from its bytes, behind the eight bytes that count them;
/// so different responses have different bytes.
pub proof fn response_bytes_read_back(words: Seq<u32>)
    ensures
        response_bytes(words).len() == 8 + 4 * words.len(),
        forall|k: int|
            0 <= k < words.len() ==> #[trigger] le_word(response_bytes(words).skip(8), k)
                == words[k],
        forall|other: Seq<u32>|
            response_bytes(words) == #[trigger] response_bytes(other) ==> words == other,
{
    assert forall|v: Seq<u32>, k: int| 0 <= k < v.len() implies #[trigger] le_word(
        response_bytes(v).skip(8),
        k,
    ) == v[k] by {
        lemma_words_read_back(length_prefix(v.len() as int), v, k);
    }
    assert forall|other: Seq<u32>| response_bytes(words) == #[trigger] response_bytes(
        other,
    ) implies words == other by {
        assert(response_bytes(words).len() == 8 + 4 * words.len());
        assert(response_bytes(other).len() == 8 + 4 * other.len());
        assert forall|k: int| 0 <= k < words.len() implies words[k] == other[k] by {
            assert(le_word(response_bytes(words).skip(8), k) == words[k]);
            assert(le_word(response_bytes(other).skip(8), k) == other[k]);
        }
        assert(words =~= other);
    }
}

/// The server's answer is linear: the answer to the sum of two queries, modulo 2^32, is the sum of
/// their answers.
pub proof fn answers_add_up(db: &Database, a: Seq<u32>, b: Seq<u32>, c: int)
    requires
        a.len() == db.m,
        b.len() == db.m,
        0 <= c < db.width,
    ensures
        db.answer(Seq::new(db.m as nat, |k: int| wrap(a[k] + b[k])))[c] == wrap(
            db.answer(a)[c] + db.answer(b)[c],
        ),
{
    let m = db.m as int;
    let col = db.column(c);
    let both = Seq::new(db.m as nat, |k: int| wrap(a[k] + b[k]));
    let fa = products(a, col);
    let fb = products(b, col);
    let total = |k: int| fa(k) + fb(k);
    assert forall|k: int| 0 <= k < m implies wrap(#[trigger] products(both, col)(k)) == wrap(
        total(k),
    ) by {
        lemma_wrap_times(a[k] + b[k], col[k] as int);
        assert((a[k] + b[k]) * col[k] == a[k] * col[k] + b[k] * col[k]) by (nonlinear_arith);
    }
    lemma_sum_congruent(products(both, col), total, 0, m);
    lemma_sum_plus(fa, fb, total, 0, m);
    lemma_wrap_plus(sum(fa, 0, m), sum(fb, 0, m));
}

/// The answer to the unit vector of a row is that row.
pub proof fn answer_to_unit_vector_is_the_row(db: &Database, i: int)
    requires
        0 <= i < db.m,
    ensures
        db.answer(
            Seq::new(
                db.m as nat,
                |k: int|
                    if k == i {
                        1u32
                    } else {
                        0u32
                    },
            ),
        ) == db.row(i),
{
    let unit = Seq::new(
        db.m as nat,
        |k: int|
            if k == i {
                1u32
            } else {
                0u32
            },
    );
    assert forall|c: int| 0 <= c < db.width implies db.answer(unit)[c] == db.row(i)[c] by {
        let f = products(unit, db.column(c));
        assert forall|k: int| 0 <= k < db.m && k != i implies #[trigger] f(k) == 0 by {
            let d = db.entry(k, c);
            assert(0 * d == 0) by (nonlinear_arith);
        }
        lemma_sum_single(f, i, 0, db.m as int);
        let d = db.entry(i, c);
        assert(1 * d == d) by (nonlinear_arith);
    }
    assert(db.answer(unit) =~= db.row(i));
}

} // verus!
