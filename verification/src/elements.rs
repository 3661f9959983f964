//! Database elements: base64 text, the bytes it stands for, and the row of entries that holds them.
use crate::db::Database;
use crate::errors::PirError;
use crate::outside::{base64_bytes, base64_decode, json_parse_strings, json_strings, par_map};
use crate::utils::format::{
    bit_chunk, bits_of_bytes, bits_to_u32_le, bits_value, bytes_to_bits_le,
};
use vstd::prelude::*;

verus! {

/// The texts of a list of strings.
pub open spec fn texts(strings: Seq<String>) -> Seq<Seq<char>> {
    strings.map_values(|s: String| s@)
}

/// The number of entries that hold an element: its size divided by the bits of an entry, rounded up.
pub open spec fn matrix_width(element_size: int, plaintext_bits: int) -> int {
    (element_size + plaintext_bits - 1) / plaintext_bits
}

/// The entries of a row are enough for the element, and one less would not be.
pub proof fn lemma_matrix_width(element_size: int, plaintext_bits: int)
    requires
        0 <= element_size,
        0 < plaintext_bits,
    ensures
        0 <= matrix_width(element_size, plaintext_bits),
        element_size <= matrix_width(element_size, plaintext_bits) * plaintext_bits,
        element_size > 0 ==> (matrix_width(element_size, plaintext_bits) - 1) * plaintext_bits
            < element_size,
        element_size == 0 ==> matrix_width(element_size, plaintext_bits) == 0,
{
    let x = element_size + plaintext_bits - 1;
    let w = matrix_width(element_size, plaintext_bits);
    vstd::arithmetic::div_mod::lemma_fundamental_div_mod(x, plaintext_bits);
    vstd::arithmetic::div_mod::lemma_mod_bound(x, plaintext_bits);
    vstd::arithmetic::div_mod::lemma_div_pos_is_pos(x, plaintext_bits);
    assert(plaintext_bits * w == w * plaintext_bits) by (nonlinear_arith);
    assert((w - 1) * plaintext_bits == w * plaintext_bits - plaintext_bits) by (nonlinear_arith);
    if element_size == 0 {
        vstd::arithmetic::div_mod::lemma_basic_div(x, plaintext_bits);
    }
}

/// The bytes of an element are enough for every entry of a row to start within them (the last one
/// may start right behind them).
pub open spec fn spans(bytes: Seq<u8>, elem_size: int, plaintext_bits: int) -> bool {
    (matrix_width(elem_size, plaintext_bits) - 1) * plaintext_bits <= 8 * bytes.len()
}

/// A row can be made of the bytes of an element, or it is plain that there is none: the bytes are
/// enough, or the first entry is too large already. Their bits can be counted.
pub open spec fn reaches(bytes: Seq<u8>, elem_size: int, plaintext_bits: int) -> bool {
    &&& spans(bytes, elem_size, plaintext_bits) || (plaintext_bits > 32 && 8 * bytes.len() > 32)
    &&& 8 * bytes.len() <= usize::MAX
}

/// Every entry of the row of an element fits in 32 bits.
pub open spec fn entries_fit(bytes: Seq<u8>, elem_size: int, plaintext_bits: int) -> bool {
    forall|i: int|
        0 <= i < matrix_width(elem_size, plaintext_bits) ==> (#[trigger] bit_chunk(
            bits_of_bytes(bytes),
            i,
            plaintext_bits,
        )).len() <= 32
}

/// The row of an element: its bits, cut into entries of `plaintext_bits` bits.
pub open spec fn element_row(bytes: Seq<u8>, elem_size: int, plaintext_bits: int) -> Seq<u32> {
    Seq::new(
        matrix_width(elem_size, plaintext_bits) as nat,
        |i: int| bits_value(bit_chunk(bits_of_bytes(bytes), i, plaintext_bits)) as u32,
    )
}

/// The row of an element that is given as base64 text, or why there is none.
pub open spec fn element_outcome(text: Seq<char>, elem_size: int, plaintext_bits: int) -> Result<
    Seq<u32>,
    PirError,
> {
    match base64_bytes(text) {
        None => Err(PirError::InvalidBase64),
        Some(bytes) => if entries_fit(bytes, elem_size, plaintext_bits) {
            Ok(element_row(bytes, elem_size, plaintext_bits))
        } else {
            Err(PirError::UnexpectedInputSize)
        },
    }
}

/// An element that is base64 text stands for bytes that reach.
pub open spec fn text_reaches(text: Seq<char>, elem_size: int, plaintext_bits: int) -> bool {
    base64_bytes(text) matches Some(bytes) ==> reaches(bytes, elem_size, plaintext_bits)
}

/// Those of the first `m` elements that are base64 text stand for bytes that reach.
pub open spec fn all_reach(
    elements: Seq<Seq<char>>,
    m: int,
    elem_size: int,
    plaintext_bits: int,
) -> bool {
    forall|i: int|
        0 <= i < m ==> text_reaches(#[trigger] elements[i], elem_size, plaintext_bits)
}

/// What a list of elements must meet for an attempt to make a database of its first `m`: there are
/// that many, and those that are base64 text stand for bytes that reach.
pub open spec fn acceptable(
    elements: Seq<Seq<char>>,
    m: int,
    elem_size: int,
    plaintext_bits: int,
) -> bool {
    &&& plaintext_bits > 0
    &&& m <= elements.len()
    &&& all_reach(elements, m, elem_size, plaintext_bits)
}

/// The first of the elements that has no row is the reason for the failure.
pub open spec fn fails_with(
    elements: Seq<Seq<char>>,
    m: int,
    elem_size: int,
    plaintext_bits: int,
    error: PirError,
) -> bool {
    exists|i: int|
        0 <= i < m && element_outcome(#[trigger] elements[i], elem_size, plaintext_bits) == Err::<
            Seq<u32>,
            PirError,
        >(error) && forall|k: int|
            0 <= k < i ==> element_outcome(#[trigger] elements[k], elem_size, plaintext_bits) is Ok
}

/// The row of an element that is given as bytes.
pub fn row_from_bytes(bytes: &[u8], elem_size: usize, plaintext_bits: usize) -> (res: Result<
    Vec<u32>,
    PirError,
>)
    requires
        plaintext_bits > 0,
        reaches(bytes@, elem_size as int, plaintext_bits as int),
    ensures
        match res {
            Ok(row) => entries_fit(bytes@, elem_size as int, plaintext_bits as int) && row@
                == element_row(bytes@, elem_size as int, plaintext_bits as int),
            Err(e) => !entries_fit(bytes@, elem_size as int, plaintext_bits as int) && e
                == PirError::UnexpectedInputSize,
        },
{
    let row_width: usize = Database::get_matrix_width(elem_size, plaintext_bits);
    let bits = bytes_to_bits_le(bytes);
    let ghost expected = element_row(bytes@, elem_size as int, plaintext_bits as int);
    let mut row: Vec<u32> = Vec::with_capacity(row_width);
    for i in 0..row_width
        invariant
            plaintext_bits > 0,
            row_width == matrix_width(elem_size as int, plaintext_bits as int),
            reaches(bytes@, elem_size as int, plaintext_bits as int),
            i > 0 ==> spans(bytes@, elem_size as int, plaintext_bits as int),
            bits@ == bits_of_bytes(bytes@),
            expected == element_row(bytes@, elem_size as int, plaintext_bits as int),
            row@ == expected.take(i as int),
            forall|k: int|
                0 <= k < i ==> (#[trigger] bit_chunk(bits@, k, plaintext_bits as int)).len() <= 32,
    {
        let ghost chunk = bit_chunk(bits@, i as int, plaintext_bits as int);
        proof {
            assert(i * plaintext_bits <= (row_width - 1) * plaintext_bits) by (nonlinear_arith)
                requires
                    0 <= i <= row_width - 1,
                    plaintext_bits > 0,
            ;
            assert(i == 0 ==> i * plaintext_bits == 0) by (nonlinear_arith);
            assert(0 <= i * plaintext_bits) by (nonlinear_arith)
                requires
                    0 <= i,
                    plaintext_bits > 0,
            ;
            assert((i + 1) * plaintext_bits == i * plaintext_bits + plaintext_bits)
                by (nonlinear_arith);
            assert(bits@.len() == bits.len());
        }
        let start: usize = i * plaintext_bits;
        let end: usize = if plaintext_bits < bits.len() - start {
            start + plaintext_bits
        } else {
            bits.len()
        };
        assert(bits@.subrange(start as int, end as int) =~= chunk);
        match bits_to_u32_le(vstd::slice::slice_subrange(bits.as_slice(), start, end)) {
            Ok(value) => {
                assert(expected.take(i + 1) =~= expected.take(i as int).push(value));
                row.push(value);
            },
            Err(e) => {
                return Err(e);
            },
        }
    }
    assert(expected.take(row_width as int) =~= expected);
    Ok(row)
}

/// The row of an element that is given as base64 text.
pub(crate) fn row_from_text(text: &String, elem_size: usize, plaintext_bits: usize) -> (res: Result<
    Vec<u32>,
    PirError,
>)
    requires
        plaintext_bits > 0,
        text_reaches(text@, elem_size as int, plaintext_bits as int),
    ensures
        match res {
            Ok(row) => element_outcome(text@, elem_size as int, plaintext_bits as int) == Ok::<
                Seq<u32>,
                PirError,
            >(row@),
            Err(e) => element_outcome(text@, elem_size as int, plaintext_bits as int) == Err::<
                Seq<u32>,
                PirError,
            >(e),
        },
{
    match base64_decode(text.as_str()) {
        Ok(bytes) => row_from_bytes(&bytes, elem_size, plaintext_bits),
        Err(_) => Err(PirError::InvalidBase64),
    }
}

/// Outcome `i` is the first that is an error.
spec fn first_error(outcomes: Seq<Result<Vec<u32>, PirError>>, i: int, error: PirError) -> bool {
    &&& 0 <= i < outcomes.len()
    &&& outcomes[i] == Err::<Vec<u32>, PirError>(error)
    &&& forall|k: int| 0 <= k < i ==> (#[trigger] outcomes[k]) is Ok
}

/// All the rows, or the first error.
fn collect_rows(outcomes: Vec<Result<Vec<u32>, PirError>>) -> (res: Result<
    Vec<Vec<u32>>,
    PirError,
>)
    ensures
        match res {
            Ok(rows) => rows@.len() == outcomes@.len() && forall|i: int|
                0 <= i < rows@.len() ==> outcomes@[i] == Ok::<Vec<u32>, PirError>(
                    #[trigger] rows@[i],
                ),
            Err(e) => exists|i: int| #[trigger] first_error(outcomes@, i, e),
        },
{
    let mut rows: Vec<Vec<u32>> = Vec::with_capacity(outcomes.len());
    for outcome in it: outcomes
        invariant
            it.seq() == outcomes@,
            rows@.len() == it.index(),
            forall|i: int|
                0 <= i < it.index() ==> outcomes@[i] == Ok::<Vec<u32>, PirError>(
                    #[trigger] rows@[i],
                ),
    {
        match outcome {
            Ok(row) => {
                rows.push(row);
            },
            Err(e) => {
                assert forall|k: int| 0 <= k < it.index() implies (#[trigger] outcomes@[k]) is Ok by {
                    assert(outcomes@[k] == Ok::<Vec<u32>, PirError>(rows@[k]));
                }
                assert(first_error(outcomes@, it.index() as int, e));
                return Err(e);
            },
        }
    }
    Ok(rows)
}

/// The rows of the first `m` elements, or the error of the first of them that has no row.
pub(crate) fn construct_rows(
    elements: &[String],
    m: usize,
    elem_size: usize,
    plaintext_bits: usize,
) -> (res: Result<Vec<Vec<u32>>, PirError>)
    requires
        acceptable(texts(elements@), m as int, elem_size as int, plaintext_bits as int),
    ensures
        match res {
            Ok(rows) => rows@.len() == m && forall|i: int|
                0 <= i < m ==> element_outcome(
                    texts(elements@)[i],
                    elem_size as int,
                    plaintext_bits as int,
                ) == Ok::<Seq<u32>, PirError>((#[trigger] rows@[i])@),
            Err(e) => fails_with(
                texts(elements@),
                m as int,
                elem_size as int,
                plaintext_bits as int,
                e,
            ),
        },
{
    let ghost all = texts(elements@);
    let ghost es = elem_size as int;
    let ghost p = plaintext_bits as int;
    let make_row = |i: usize| -> (res: Result<Vec<u32>, PirError>)
        requires
            plaintext_bits > 0,
            i < elements@.len(),
            text_reaches(elements@[i as int]@, elem_size as int, plaintext_bits as int),
        ensures
            match res {
                Ok(row) => element_outcome(
                    elements@[i as int]@,
                    elem_size as int,
                    plaintext_bits as int,
                ) == Ok::<Seq<u32>, PirError>(row@),
                Err(e) => element_outcome(
                    elements@[i as int]@,
                    elem_size as int,
                    plaintext_bits as int,
                ) == Err::<Seq<u32>, PirError>(e),
            },
        { row_from_text(&elements[i], elem_size, plaintext_bits) };
    proof {
        assert forall|i: usize| i < m implies call_requires(make_row, (i,)) by {
            assert(all[i as int] == elements@[i as int]@);
        }
    }
    let outcomes = par_map(m, make_row);
    let res = collect_rows(outcomes);
    let ghost outcome = res;
    proof {
        assert forall|i: int| 0 <= i < m implies match #[trigger] outcomes@[i] {
            Ok(row) => element_outcome(all[i], es, p) == Ok::<Seq<u32>, PirError>(row@),
            Err(e) => element_outcome(all[i], es, p) == Err::<Seq<u32>, PirError>(e),
        } by {
            assert(all[i] == elements@[i]@);
        }
        match outcome {
            Ok(rows) => {
                assert forall|i: int| 0 <= i < m implies element_outcome(all[i], es, p) == Ok::<
                    Seq<u32>,
                    PirError,
                >((#[trigger] rows@[i])@) by {
                    assert(outcomes@[i] == Ok::<Vec<u32>, PirError>(rows@[i]));
                }
            },
            Err(e) => {
                let i = choose|i: int| first_error(outcomes@, i, e);
                assert(outcomes@[i] is Err);
                assert forall|k: int| 0 <= k < i implies element_outcome(
                    #[trigger] all[k],
                    es,
                    p,
                ) is Ok by {
                    assert(outcomes@[k] is Ok);
                }
                assert(element_outcome(all[i], es, p) == Err::<Seq<u32>, PirError>(e));
            },
        }
    }
    res
}

/// Whether a database can be made of the first `m` elements of a list.
pub fn elements_acceptable(
    elements: &[String],
    m: usize,
    elem_size: usize,
    plaintext_bits: usize,
) -> (res: bool)
    ensures
        res == acceptable(texts(elements@), m as int, elem_size as int, plaintext_bits as int),
{
    if plaintext_bits == 0 || m > elements.len() {
        return false;
    }
    let ghost all = texts(elements@);
    let row_width: usize = Database::get_matrix_width(elem_size, plaintext_bits);
    proof {
        lemma_matrix_width(elem_size as int, plaintext_bits as int);
        assert((row_width - 1) * plaintext_bits == row_width * plaintext_bits - plaintext_bits)
            by (nonlinear_arith);
        assert(row_width == 0 ==> row_width * plaintext_bits == 0) by (nonlinear_arith);
    }
    let last_start: usize = if row_width == 0 {
        0
    } else {
        (row_width - 1) * plaintext_bits
    };
    for i in 0..m
        invariant
            m <= elements@.len(),
            all == texts(elements@),
            last_start == if row_width == 0 {
                0
            } else {
                (row_width - 1) * plaintext_bits
            },
            plaintext_bits > 0,
            row_width == matrix_width(elem_size as int, plaintext_bits as int),
            row_width == 0 ==> (row_width - 1) * plaintext_bits < 0,
            forall|k: int|
                0 <= k < i ==> text_reaches(
                    #[trigger] all[k],
                    elem_size as int,
                    plaintext_bits as int,
                ),
    {
        if let Ok(bytes) = base64_decode(elements[i].as_str()) {
            if bytes.len() > usize::MAX / 8 || (8 * bytes.len() < last_start && (plaintext_bits <= 32
                || 8 * bytes.len() <= 32)) {
                assert(!text_reaches(all[i as int], elem_size as int, plaintext_bits as int));
                return false;
            }
        }
        assert(text_reaches(all[i as int], elem_size as int, plaintext_bits as int));
    }
    true
}

/// Reads a JSON list of strings.
pub fn parse_elements(text: &str) -> (res: Result<Vec<String>, PirError>)
    ensures
        match res {
            Ok(elements) => json_strings(text@) == Some(texts(elements@)),
            Err(e) => json_strings(text@) is None && e == PirError::InvalidJson,
        },
{
    match json_parse_strings(text) {
        Ok(elements) => Ok(elements),
        Err(_) => Err(PirError::InvalidJson),
    }
}

} // verus!
