//! Finite sums over the integers and arithmetic modulo 2^32.
use vstd::arithmetic::div_mod::lemma_mul_mod_noop;
use vstd::prelude::*;

verus! {

/// The representative in `u32` of an integer modulo 2^32.
pub open spec fn wrap(x: int) -> u32 {
    (x % 0x1_0000_0000) as u32
}

/// `f(lo) + f(lo + 1) + ... + f(hi - 1)`, and 0 when the range is empty.
pub open spec fn sum(f: spec_fn(int) -> int, lo: int, hi: int) -> int
    decreases hi - lo,
{
    if hi <= lo {
        0
    } else {
        sum(f, lo, hi - 1) + f(hi - 1)
    }
}

/// The componentwise products of two vectors.
pub open spec fn products(a: Seq<u32>, b: Seq<u32>) -> spec_fn(int) -> int {
    |k: int| a[k] * b[k]
}

/// The inner product of two vectors of the same length, over the integers.
pub open spec fn dot(a: Seq<u32>, b: Seq<u32>) -> int {
    sum(products(a, b), 0, a.len() as int)
}

/// Sums of pointwise equal functions are equal.
pub proof fn lemma_sum_ext(f: spec_fn(int) -> int, g: spec_fn(int) -> int, lo: int, hi: int)
    requires
        forall|k: int| lo <= k < hi ==> #[trigger] f(k) == g(k),
    ensures
        sum(f, lo, hi) == sum(g, lo, hi),
    decreases hi - lo,
{
    if lo < hi {
        lemma_sum_ext(f, g, lo, hi - 1);
        assert(f(hi - 1) == g(hi - 1));
    }
}

/// A range can be summed in two parts.
pub proof fn lemma_sum_split(f: spec_fn(int) -> int, lo: int, mid: int, hi: int)
    requires
        lo <= mid <= hi,
    ensures
        sum(f, lo, hi) == sum(f, lo, mid) + sum(f, mid, hi),
    decreases hi - mid,
{
    if mid < hi {
        lemma_sum_split(f, lo, mid, hi - 1);
    }
}

/// The sum of a pointwise sum.
pub proof fn lemma_sum_plus(
    f: spec_fn(int) -> int,
    g: spec_fn(int) -> int,
    h: spec_fn(int) -> int,
    lo: int,
    hi: int,
)
    requires
        forall|k: int| lo <= k < hi ==> #[trigger] h(k) == f(k) + g(k),
    ensures
        sum(h, lo, hi) == sum(f, lo, hi) + sum(g, lo, hi),
    decreases hi - lo,
{
    if lo < hi {
        lemma_sum_plus(f, g, h, lo, hi - 1);
        assert(h(hi - 1) == f(hi - 1) + g(hi - 1));
    }
}

/// A common factor can be taken out of a sum.
pub proof fn lemma_sum_factor(
    c: int,
    f: spec_fn(int) -> int,
    h: spec_fn(int) -> int,
    lo: int,
    hi: int,
)
    requires
        forall|k: int| lo <= k < hi ==> #[trigger] h(k) == c * f(k),
    ensures
        sum(h, lo, hi) == c * sum(f, lo, hi),
    decreases hi - lo,
{
    if lo < hi {
        lemma_sum_factor(c, f, h, lo, hi - 1);
        assert(h(hi - 1) == c * f(hi - 1));
        assert(c * (sum(f, lo, hi - 1) + f(hi - 1)) == c * sum(f, lo, hi - 1) + c * f(hi - 1))
            by (nonlinear_arith);
    } else {
        assert(c * 0 == 0) by (nonlinear_arith);
    }
}

/// A sum with at most one term that is not zero is that term.
pub proof fn lemma_sum_single(f: spec_fn(int) -> int, i: int, lo: int, hi: int)
    requires
        lo <= hi,
        forall|k: int| lo <= k < hi && k != i ==> #[trigger] f(k) == 0,
    ensures
        sum(f, lo, hi) == if lo <= i < hi {
            f(i)
        } else {
            0
        },
    decreases hi - lo,
{
    if lo < hi {
        lemma_sum_single(f, i, lo, hi - 1);
        assert(hi - 1 != i ==> f(hi - 1) == 0);
    }
}

/// The inner sums of a double sum, by row.
pub open spec fn row_sums(
    f: spec_fn(int, int) -> int,
    columns: int,
) -> spec_fn(int) -> int {
    |i: int| sum(|j: int| f(i, j), 0, columns)
}

/// The inner sums of a double sum, by column.
pub open spec fn column_sums(
    f: spec_fn(int, int) -> int,
    rows: int,
) -> spec_fn(int) -> int {
    |j: int| sum(|i: int| f(i, j), 0, rows)
}

/// A double sum does not depend on the order of summation.
pub proof fn lemma_sum_swap(f: spec_fn(int, int) -> int, rows: int, columns: int)
    requires
        0 <= rows,
        0 <= columns,
    ensures
        sum(row_sums(f, columns), 0, rows) == sum(column_sums(f, rows), 0, columns),
    decreases rows,
{
    if rows == 0 {
        assert forall|j: int| 0 <= j < columns implies #[trigger] column_sums(f, rows)(j)
            == 0 * (|j: int| 0int)(j) by {
            assert(sum(|i: int| f(i, j), 0, rows) == 0);
        }
        lemma_sum_factor(0, |j: int| 0int, column_sums(f, rows), 0, columns);
    } else {
        lemma_sum_swap(f, rows - 1, columns);
        let last = |j: int| f(rows - 1, j);
        assert forall|j: int| 0 <= j < columns implies #[trigger] column_sums(f, rows)(j)
            == column_sums(f, rows - 1)(j) + last(j) by {
            let g = |i: int| f(i, j);
            assert(sum(g, 0, rows) == sum(g, 0, rows - 1) + g(rows - 1));
        }
        lemma_sum_plus(column_sums(f, rows - 1), last, column_sums(f, rows), 0, columns);
        assert(row_sums(f, columns)(rows - 1) == sum(last, 0, columns));
    }
}

/// Sums of pointwise congruent functions are congruent.
pub proof fn lemma_sum_congruent(f: spec_fn(int) -> int, g: spec_fn(int) -> int, lo: int, hi: int)
    requires
        forall|k: int| lo <= k < hi ==> wrap(#[trigger] f(k)) == wrap(g(k)),
    ensures
        wrap(sum(f, lo, hi)) == wrap(sum(g, lo, hi)),
    decreases hi - lo,
{
    if lo < hi {
        lemma_sum_congruent(f, g, lo, hi - 1);
        assert(wrap(f(hi - 1)) == wrap(g(hi - 1)));
        lemma_wrap_plus(sum(f, lo, hi - 1), f(hi - 1));
        lemma_wrap_plus(sum(g, lo, hi - 1), g(hi - 1));
    }
}

/// A sum of bounded terms is bounded.
pub proof fn lemma_sum_bound(f: spec_fn(int) -> int, bound: int, lo: int, hi: int)
    requires
        lo <= hi,
        forall|k: int| lo <= k < hi ==> -bound <= #[trigger] f(k) <= bound,
    ensures
        -((hi - lo) * bound) <= sum(f, lo, hi) <= (hi - lo) * bound,
    decreases hi - lo,
{
    if lo < hi {
        lemma_sum_bound(f, bound, lo, hi - 1);
        assert(-bound <= f(hi - 1) <= bound);
        assert((hi - lo) * bound == (hi - 1 - lo) * bound + bound) by (nonlinear_arith);
    } else {
        assert((hi - lo) * bound == 0) by (nonlinear_arith)
            requires
                hi == lo,
        ;
    }
}

/// Representatives can be taken before adding.
pub proof fn lemma_wrap_plus(x: int, y: int)
    ensures
        wrap(x + y) == wrap(wrap(x) + wrap(y)),
        wrap(x + y) == wrap(wrap(x) + y),
        wrap(x - y) == wrap(wrap(x) - wrap(y)),
{
}

/// Representatives can be taken before multiplying.
pub proof fn lemma_wrap_times(x: int, y: int)
    ensures
        wrap(x * y) == wrap(wrap(x) * wrap(y)),
        wrap(x * y) == wrap(x * wrap(y)),
        wrap(x * y) == wrap(wrap(x) * y),
{
    lemma_mul_mod_noop(x, y, 0x1_0000_0000);
    lemma_mul_mod_noop(x, wrap(y) as int, 0x1_0000_0000);
    lemma_mul_mod_noop(wrap(x) as int, y, 0x1_0000_0000);
}

/// One step of a wrapping inner product.
pub proof fn lemma_accumulate(x: int, a: u32, b: u32)
    ensures
        wrap(x).wrapping_add(a.wrapping_mul(b)) == wrap(x + a * b),
{
    assert(a as nat * b as nat == a * b);
    lemma_wrap_plus(x, a * b);
}

/// Wrapping addition of representatives.
pub proof fn lemma_wrapping_add(x: int, y: int)
    ensures
        wrap(x).wrapping_add(wrap(y)) == wrap(x + y),
{
}

/// Wrapping subtraction is subtraction modulo 2^32.
pub proof fn lemma_wrapping_sub(a: u32, b: u32)
    ensures
        a.wrapping_sub(b) == wrap(a - b),
{
}

/// The position of an entry of a flat matrix lies within it.
pub proof fn lemma_flat_index(i: int, c: int, rows: int, width: int)
    requires
        0 <= i < rows,
        0 <= c < width,
    ensures
        0 <= i * width <= i * width + c < rows * width,
        i * width + width <= rows * width,
        (i * width + c) / width == i,
        (i * width + c) % width == c,
{
    assert(i * width + width <= rows * width) by (nonlinear_arith)
        requires
            0 <= i < rows,
            0 <= width,
    ;
    assert(0 <= i * width) by (nonlinear_arith)
        requires
            0 <= i,
            0 <= width,
    ;
    vstd::arithmetic::div_mod::lemma_fundamental_div_mod_converse(i * width + c, width, i, c);
}

} // verus!
