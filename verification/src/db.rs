//! The database matrix and its products with queries.
use crate::arith::{
    dot, lemma_accumulate, lemma_flat_index, lemma_sum_split, lemma_wrapping_add, products, sum,
    wrap,
};
use crate::elements::{
    acceptable, construct_rows, element_outcome, elements_acceptable, fails_with,
    lemma_matrix_width, matrix_width, parse_elements, texts,
};
use crate::errors::PirError;
use crate::outside::{base64_text, json_strings, par_map};
use crate::utils::format::{base64_from_u32_slice, row_bytes};
use crate::utils::matrices::{flatten_matrix_row_major, lemma_flat_entry};
use vstd::prelude::*;

verus! {

/// The number of rows that one parallel task takes.
pub const ROW_CHUNK_SIZE: usize = 1024;

/// Lane `j` of interleaved vectors.
pub open spec fn lane<const N: usize>(rows: Seq<[u32; N]>, j: int) -> Seq<u32> {
    Seq::new(rows.len(), |i: int| rows[i]@[j])
}

/// The end of the chunk of rows that starts at `lo`.
pub open spec fn chunk_end(lo: int, m: int) -> int {
    if m - lo > ROW_CHUNK_SIZE {
        lo + ROW_CHUNK_SIZE
    } else {
        m
    }
}

/// The database: a matrix with one row for each element, stored row after row.
#[derive(Clone, Debug)]
pub struct Database {
    /// The entries of the matrix, row after row.
    pub entries: Vec<u32>,
    /// The number of rows, which is the number of elements.
    pub m: usize,
    /// The number of entries in a row.
    pub width: usize,
    /// The size of an element in bits.
    pub elem_size: usize,
    /// The number of bits of an element that an entry holds.
    pub plaintext_bits: usize,
}

impl Database {
    /// The entries fill the matrix.
    pub open spec fn wf(&self) -> bool {
        self.entries@.len() == self.m * self.width
    }

    /// The entry in row `i` and column `c`.
    pub open spec fn entry(&self, i: int, c: int) -> u32 {
        self.entries@[i * self.width + c]
    }

    /// Column `c` of the matrix.
    pub open spec fn column(&self, c: int) -> Seq<u32> {
        Seq::new(self.m as nat, |i: int| self.entry(i, c))
    }

    /// Row `i` of the matrix.
    pub open spec fn row(&self, i: int) -> Seq<u32> {
        Seq::new(self.width as nat, |c: int| self.entry(i, c))
    }

    /// The answer to a query: the product of the query vector and the matrix, modulo 2^32.
    pub open spec fn answer(&self, q: Seq<u32>) -> Seq<u32> {
        Seq::new(self.width as nat, |c: int| wrap(dot(q, self.column(c))))
    }

    /// What the rows from `lo` to `hi` contribute to column `c` of the answer.
    pub open spec fn partial(&self, q: Seq<u32>, lo: int, hi: int, c: int) -> u32 {
        wrap(sum(products(q, self.column(c)), lo, hi))
    }

    /// The contributions of the rows from `lo` to `hi` to an answer.
    pub open spec fn partials(&self, q: Seq<u32>, lo: int, hi: int) -> Seq<u32> {
        Seq::new(self.width as nat, |c: int| self.partial(q, lo, hi, c))
    }

    /// Each lane of `acc` holds the contributions of the rows from `lo` to `hi`.
    pub open spec fn holds_partials<const N: usize>(
        &self,
        acc: Seq<[u32; N]>,
        q: Seq<[u32; N]>,
        lo: int,
        hi: int,
    ) -> bool {
        &&& acc.len() == self.width
        &&& forall|c: int, j: int|
            0 <= c < self.width && 0 <= j < N ==> #[trigger] acc[c]@[j] == self.partial(
                lane(q, j),
                lo,
                hi,
                c,
            )
    }

    /// The width of the matrix: the number of entries that hold an element.
    pub fn get_matrix_width(element_size: usize, plaintext_bits: usize) -> (width: usize)
        requires
            plaintext_bits > 0,
        ensures
            width == matrix_width(element_size as int, plaintext_bits as int),
            width <= element_size,
    {
        let mut quo: usize = element_size / plaintext_bits;
        proof {
            let es = element_size as int;
            let p = plaintext_bits as int;
            let r = es % p;
            vstd::arithmetic::div_mod::lemma_fundamental_div_mod(es, p);
            vstd::arithmetic::div_mod::lemma_mod_bound(es, p);
            assert(p * (quo as int) == (quo as int) * p) by (nonlinear_arith);
            assert((quo as int) <= (quo as int) * p) by (nonlinear_arith)
                requires
                    quo >= 0,
                    p >= 1,
            ;
            if r == 0 {
                vstd::arithmetic::div_mod::lemma_fundamental_div_mod_converse(
                    es + p - 1,
                    p,
                    quo as int,
                    p - 1,
                );
            } else {
                assert((quo as int + 1) * p == (quo as int) * p + p) by (nonlinear_arith);
                vstd::arithmetic::div_mod::lemma_fundamental_div_mod_converse(
                    es + p - 1,
                    p,
                    quo as int + 1,
                    r - 1,
                );
            }
        }
        if element_size % plaintext_bits != 0 {
            quo = quo + 1;
        }
        quo
    }

    /// The width of the matrix.
    pub fn get_matrix_width_self(&self) -> (width: usize)
        ensures
            width == self.width,
    {
        self.width
    }

    /// The number of rows of the matrix.
    pub fn get_matrix_height(&self) -> (height: usize)
        ensures
            height == self.m,
    {
        self.m
    }

    /// The size of an element in bits.
    pub fn get_elem_size(&self) -> (elem_size: usize)
        ensures
            elem_size == self.elem_size,
    {
        self.elem_size
    }

    /// The number of bits of an element that an entry holds.
    pub fn get_plaintext_bits(&self) -> (plaintext_bits: usize)
        ensures
            plaintext_bits == self.plaintext_bits,
    {
        self.plaintext_bits
    }

    /// The database that is made of the first `m` elements of a list.
    pub open spec fn holds(
        &self,
        elements: Seq<Seq<char>>,
        m: int,
        elem_size: int,
        plaintext_bits: int,
    ) -> bool {
        &&& self.wf()
        &&& self.m == m
        &&& self.elem_size == elem_size
        &&& self.plaintext_bits == plaintext_bits
        &&& self.width == if m == 0 {
            0
        } else {
            matrix_width(elem_size, plaintext_bits)
        }
        &&& forall|i: int|
            0 <= i < m ==> element_outcome(elements[i], elem_size, plaintext_bits) == Ok::<
                Seq<u32>,
                PirError,
            >(#[trigger] self.row(i))
    }

    /// Makes a database of the first `m` elements of a list of base64 texts. It fails where one of
    /// them is no base64 text, or where an entry does not fit in 32 bits.
    pub fn new(elements: &[String], m: usize, elem_size: usize, plaintext_bits: usize) -> (res:
        Result<Self, PirError>)
        requires
            acceptable(texts(elements@), m as int, elem_size as int, plaintext_bits as int),
        ensures
            match res {
                Ok(db) => db.holds(
                    texts(elements@),
                    m as int,
                    elem_size as int,
                    plaintext_bits as int,
                ),
                Err(e) => fails_with(
                    texts(elements@),
                    m as int,
                    elem_size as int,
                    plaintext_bits as int,
                    e,
                ),
            },
    {
        match construct_rows(elements, m, elem_size, plaintext_bits) {
            Err(e) => Err(e),
            Ok(rows) => {
                let width: usize = if rows.len() == 0 {
                    0
                } else {
                    rows[0].len()
                };
                let db = Database {
                    entries: flatten_matrix_row_major(&rows),
                    m,
                    width,
                    elem_size,
                    plaintext_bits,
                };
                proof {
                    lemma_matrix_width(elem_size as int, plaintext_bits as int);
                    lemma_flat_entry(rows@, width as int, 0, 0);
                    assert forall|i: int| 0 <= i < m implies rows@[i]@ == #[trigger] db.row(i) by {
                        assert forall|c: int| 0 <= c < width implies db.row(i)[c] == rows@[i]@[c] by {
                            lemma_flat_entry(rows@, width as int, i, c);
                        }
                        assert(rows@[i]@ =~= db.row(i));
                    }
                }
                Ok(db)
            },
        }
    }

    /// Makes a database as `new` does, and returns `None` where the elements are not acceptable.
    pub fn try_new(elements: &[String], m: usize, elem_size: usize, plaintext_bits: usize) -> (res:
        Option<Result<Self, PirError>>)
        ensures
            res is Some <==> acceptable(
                texts(elements@),
                m as int,
                elem_size as int,
                plaintext_bits as int,
            ),
            res matches Some(outcome) ==> match outcome {
                Ok(db) => db.holds(
                    texts(elements@),
                    m as int,
                    elem_size as int,
                    plaintext_bits as int,
                ),
                Err(e) => fails_with(
                    texts(elements@),
                    m as int,
                    elem_size as int,
                    plaintext_bits as int,
                    e,
                ),
            },
    {
        if elements_acceptable(elements, m, elem_size, plaintext_bits) {
            Some(Database::new(elements, m, elem_size, plaintext_bits))
        } else {
            None
        }
    }

    /// Makes a database of the first `m` elements of a JSON list of base64 texts, and returns `None`
    /// where the elements are not acceptable.
    pub fn try_from_json(text: &str, m: usize, elem_size: usize, plaintext_bits: usize) -> (res:
        Option<Result<Self, PirError>>)
        ensures
            match json_strings(text@) {
                None => res == Some(Err::<Self, PirError>(PirError::InvalidJson)),
                Some(elements) => {
                    &&& res is Some <==> acceptable(
                        elements,
                        m as int,
                        elem_size as int,
                        plaintext_bits as int,
                    )
                    &&& res matches Some(outcome) ==> match outcome {
                        Ok(db) => db.holds(
                            elements,
                            m as int,
                            elem_size as int,
                            plaintext_bits as int,
                        ),
                        Err(e) => fails_with(
                            elements,
                            m as int,
                            elem_size as int,
                            plaintext_bits as int,
                            e,
                        ),
                    }
                },
            },
    {
        match parse_elements(text) {
            Err(e) => Some(Err(e)),
            Ok(elements) => Database::try_new(&elements, m, elem_size, plaintext_bits),
        }
    }

    /// The product of a vector and one column of the matrix, modulo 2^32.
    pub fn vec_mult(&self, row: &[u32], col_idx: usize) -> (res: u32)
        requires
            self.wf(),
            row@.len() >= self.m,
            self.m > 0 ==> col_idx < self.width,
        ensures
            res == wrap(dot(row@.take(self.m as int), self.column(col_idx as int))),
    {
        let ghost vector = row@.take(self.m as int);
        let ghost f = products(vector, self.column(col_idx as int));
        let mut acc: u32 = 0;
        for i in 0..self.m
            invariant
                self.wf(),
                row@.len() >= self.m,
                self.m > 0 ==> col_idx < self.width,
                vector == row@.take(self.m as int),
                f == products(vector, self.column(col_idx as int)),
                acc == wrap(sum(f, 0, i as int)),
        {
            proof {
                lemma_flat_index(i as int, col_idx as int, self.m as int, self.width as int);
                assert(self.entries@.len() == self.entries.len());
                lemma_accumulate(
                    sum(f, 0, i as int),
                    row@[i as int],
                    self.entry(i as int, col_idx as int),
                );
            }
            acc = acc.wrapping_add(row[i].wrapping_mul(self.entries[i * self.width + col_idx]));
        }
        acc
    }

    /// The columns of the matrix.
    pub fn columns(&self) -> (columns: Vec<Vec<u32>>)
        requires
            self.wf(),
        ensures
            columns@.len() == self.width,
            forall|c: int| 0 <= c < self.width ==> (#[trigger] columns@[c])@ == self.column(c),
    {
        let mut columns: Vec<Vec<u32>> = Vec::with_capacity(self.width);
        for col in 0..self.width
            invariant
                self.wf(),
                columns@.len() == col,
                forall|c: int| 0 <= c < col ==> (#[trigger] columns@[c])@ == self.column(c),
        {
            let mut column: Vec<u32> = Vec::with_capacity(self.m);
            for row in 0..self.m
                invariant
                    self.wf(),
                    col < self.width,
                    column@.len() == row,
                    forall|i: int| 0 <= i < row ==> column@[i] == self.entry(i, col as int),
            {
                proof {
                    lemma_flat_index(row as int, col as int, self.m as int, self.width as int);
                    assert(self.entries@.len() == self.entries.len());
                }
                column.push(self.entries[row * self.width + col]);
            }
            assert(column@ =~= self.column(col as int));
            columns.push(column);
        }
        columns
    }

    /// Row `i` of the matrix.
    pub fn get_row(&self, i: usize) -> (row: Vec<u32>)
        requires
            self.wf(),
            i < self.m || self.width == 0,
        ensures
            row@ == self.row(i as int),
    {
        let mut row: Vec<u32> = Vec::with_capacity(self.width);
        for col in 0..self.width
            invariant
                self.wf(),
                i < self.m || self.width == 0,
                row@ == self.row(i as int).take(col as int),
        {
            proof {
                lemma_flat_index(i as int, col as int, self.m as int, self.width as int);
                assert(self.entries@.len() == self.entries.len());
                assert(self.row(i as int).take(col + 1) =~= self.row(i as int).take(
                    col as int,
                ).push(self.entry(i as int, col as int)));
            }
            row.push(self.entries[i * self.width + col]);
        }
        assert(self.row(i as int).take(self.width as int) =~= self.row(i as int));
        row
    }

    /// The base64 text of entry `i` of the database.
    pub open spec fn entry_text(&self, i: int) -> Seq<char> {
        base64_text(row_bytes(self.row(i), self.plaintext_bits as int, self.elem_size as int))
    }

    /// Entry `i` of the database as base64 text.
    pub fn get_db_entry(&self, i: usize) -> (text: String)
        requires
            self.wf(),
            i < self.m || self.width == 0,
            self.plaintext_bits > 0,
        ensures
            text@ == self.entry_text(i as int),
    {
        base64_from_u32_slice(&self.get_row(i), self.plaintext_bits, self.elem_size)
    }

    /// One more row in a contribution.
    proof fn lemma_partial_step(&self, q: Seq<u32>, lo: int, row: int, c: int)
        requires
            0 <= lo <= row < self.m,
            q.len() == self.m,
        ensures
            self.partial(q, lo, row + 1, c) == self.partial(q, lo, row, c).wrapping_add(
                q[row].wrapping_mul(self.entry(row, c)),
            ),
    {
        let f = products(q, self.column(c));
        lemma_accumulate(sum(f, lo, row), q[row], self.entry(row, c));
        assert(sum(f, lo, row + 1) == sum(f, lo, row) + f(row));
    }

    /// Contributions of adjacent ranges of rows add up.
    proof fn lemma_partial_join(&self, q: Seq<u32>, lo: int, mid: int, hi: int, c: int)
        requires
            0 <= lo <= mid <= hi <= self.m,
        ensures
            self.partial(q, lo, hi, c) == self.partial(q, lo, mid, c).wrapping_add(
                self.partial(q, mid, hi, c),
            ),
    {
        let f = products(q, self.column(c));
        lemma_sum_split(f, lo, mid, hi);
        lemma_wrapping_add(sum(f, lo, mid), sum(f, mid, hi));
    }

    /// Adds one row of the matrix, multiplied by a query value, to an accumulator.
    fn add_row(&self, q_val: u32, row: usize, acc: &mut Vec<u32>)
        requires
            self.wf(),
            row < self.m,
            old(acc)@.len() == self.width,
        ensures
            final(acc)@.len() == self.width,
            forall|c: int|
                0 <= c < self.width ==> #[trigger] final(acc)@[c] == old(acc)@[c].wrapping_add(
                    q_val.wrapping_mul(self.entry(row as int, c)),
                ),
    {
        let ghost before = acc@;
        for col in 0..self.width
            invariant
                self.wf(),
                row < self.m,
                acc@.len() == self.width,
                before.len() == self.width,
                forall|c: int|
                    0 <= c < col ==> #[trigger] acc@[c] == before[c].wrapping_add(
                        q_val.wrapping_mul(self.entry(row as int, c)),
                    ),
                forall|c: int| col <= c < self.width ==> acc@[c] == before[c],
        {
            proof {
                lemma_flat_index(row as int, col as int, self.m as int, self.width as int);
                assert(self.entries@.len() == self.entries.len());
            }
            let db_val: u32 = self.entries[row * self.width + col];
            acc[col] = acc[col].wrapping_add(q_val.wrapping_mul(db_val));
        }
    }

    /// The contributions of the rows from `lo` to `hi` to an answer.
    fn eval_rows(&self, q: &[u32], lo: usize, hi: usize) -> (acc: Vec<u32>)
        requires
            self.wf(),
            q@.len() == self.m,
            lo <= hi <= self.m,
        ensures
            acc@ == self.partials(q@, lo as int, hi as int),
    {
        let mut acc: Vec<u32> = vec![0u32; self.width];
        assert(acc@ =~= self.partials(q@, lo as int, lo as int));
        for row in lo..hi
            invariant
                self.wf(),
                q@.len() == self.m,
                lo <= hi <= self.m,
                acc@ == self.partials(q@, lo as int, row as int),
        {
            self.add_row(q[row], row, &mut acc);
            proof {
                assert forall|c: int| 0 <= c < self.width implies acc@[c] == self.partial(
                    q@,
                    lo as int,
                    row + 1,
                    c,
                ) by {
                    self.lemma_partial_step(q@, lo as int, row as int, c);
                }
                assert(acc@ =~= self.partials(q@, lo as int, row + 1));
            }
        }
        acc
    }

    /// The answer to a single query.
    pub fn eval_single(&self, q: &[u32]) -> (res: Vec<u32>)
        requires
            self.wf(),
            q@.len() == self.m,
        ensures
            res@ == self.answer(q@),
    {
        let chunks: usize = if self.m % ROW_CHUNK_SIZE == 0 {
            self.m / ROW_CHUNK_SIZE
        } else {
            self.m / ROW_CHUNK_SIZE + 1
        };
        let eval_chunk = |k: usize| -> (acc: Vec<u32>)
            requires
                self.wf(),
                q@.len() == self.m,
                k * ROW_CHUNK_SIZE < self.m,
            ensures
                acc@ == self.partials(
                    q@,
                    k * ROW_CHUNK_SIZE,
                    chunk_end(k * ROW_CHUNK_SIZE, self.m as int),
                ),
            {
                let lo: usize = k * ROW_CHUNK_SIZE;
                let hi: usize = if self.m - lo > ROW_CHUNK_SIZE {
                    lo + ROW_CHUNK_SIZE
                } else {
                    self.m
                };
                self.eval_rows(q, lo, hi)
            };
        let parts = par_map(chunks, eval_chunk);
        let mut res: Vec<u32> = vec![0u32; self.width];
        assert(res@ =~= self.partials(q@, 0, 0));
        let mut done: usize = 0;
        for k in 0..chunks
            invariant
                self.wf(),
                q@.len() == self.m,
                parts@.len() == chunks,
                forall|i: int|
                    0 <= i < chunks ==> (#[trigger] parts@[i])@ == self.partials(
                        q@,
                        i * ROW_CHUNK_SIZE,
                        chunk_end(i * ROW_CHUNK_SIZE, self.m as int),
                    ),
                chunks > 0 ==> (chunks - 1) * ROW_CHUNK_SIZE < self.m <= chunks * ROW_CHUNK_SIZE,
                chunks == 0 ==> self.m == 0,
                done == if k < chunks { k * ROW_CHUNK_SIZE } else { self.m as int },
                res@ == self.partials(q@, 0, done as int),
        {
            let part: &Vec<u32> = &parts[k];
            let hi: usize = if self.m - done > ROW_CHUNK_SIZE {
                done + ROW_CHUNK_SIZE
            } else {
                self.m
            };
            let ghost before = res@;
            for col in 0..self.width
                invariant
                    done <= hi <= self.m,
                    part@ == self.partials(q@, done as int, hi as int),
                    before == self.partials(q@, 0, done as int),
                    res@.len() == self.width,
                    forall|c: int|
                        0 <= c < col ==> #[trigger] res@[c] == self.partial(q@, 0, hi as int, c),
                    forall|c: int| col <= c < self.width ==> res@[c] == before[c],
            {
                proof {
                    self.lemma_partial_join(q@, 0, done as int, hi as int, col as int);
                    assert(before[col as int] == self.partial(q@, 0, done as int, col as int));
                }
                res[col] = res[col].wrapping_add(part[col]);
            }
            assert(res@ =~= self.partials(q@, 0, hi as int));
            done = hi;
        }
        assert(res@ =~= self.answer(q@));
        res
    }

    /// Adds one row of the matrix, multiplied by each query value, to the lanes of an accumulator.
    fn add_row_lanes<const N: usize>(
        &self,
        q_vec: &[u32; N],
        row: usize,
        acc: &mut Vec<[u32; N]>,
    )
        requires
            self.wf(),
            row < self.m,
            old(acc)@.len() == self.width,
        ensures
            final(acc)@.len() == self.width,
            forall|c: int, j: int|
                0 <= c < self.width && 0 <= j < N ==> #[trigger] final(acc)@[c]@[j] == old(
                    acc,
                )@[c]@[j].wrapping_add(q_vec@[j].wrapping_mul(self.entry(row as int, c))),
    {
        let ghost before = acc@;
        for col in 0..self.width
            invariant
                self.wf(),
                row < self.m,
                acc@.len() == self.width,
                before.len() == self.width,
                forall|c: int, j: int|
                    0 <= c < col && 0 <= j < N ==> #[trigger] acc@[c]@[j] == before[c]@[j]
                        .wrapping_add(q_vec@[j].wrapping_mul(self.entry(row as int, c))),
                forall|c: int| col <= c < self.width ==> acc@[c] == before[c],
        {
            proof {
                lemma_flat_index(row as int, col as int, self.m as int, self.width as int);
                assert(self.entries@.len() == self.entries.len());
            }
            let db_val: u32 = self.entries[row * self.width + col];
            let mut lanes: [u32; N] = acc[col];
            for j in 0..N
                invariant
                    forall|k: int|
                        0 <= k < j ==> #[trigger] lanes@[k] == before[col as int]@[k].wrapping_add(
                            q_vec@[k].wrapping_mul(db_val),
                        ),
                    forall|k: int| j <= k < N ==> lanes@[k] == before[col as int]@[k],
            {
                lanes[j] = lanes[j].wrapping_add(q_vec[j].wrapping_mul(db_val));
            }
            acc[col] = lanes;
        }
    }

    /// The contributions of the rows from `lo` to `hi` to the answers of interleaved queries.
    fn eval_rows_lanes<const N: usize>(&self, q: &[[u32; N]], lo: usize, hi: usize) -> (acc: Vec<
        [u32; N],
    >)
        requires
            self.wf(),
            q@.len() == self.m,
            lo <= hi <= self.m,
        ensures
            self.holds_partials(acc@, q@, lo as int, hi as int),
    {
        let mut acc: Vec<[u32; N]> = zero_lanes(self.width);
        for row in lo..hi
            invariant
                self.wf(),
                q@.len() == self.m,
                lo <= hi <= self.m,
                self.holds_partials(acc@, q@, lo as int, row as int),
        {
            let ghost before = acc@;
            self.add_row_lanes(&q[row], row, &mut acc);
            proof {
                assert forall|c: int, j: int| 0 <= c < self.width && 0 <= j < N implies
                    #[trigger] acc@[c]@[j] == self.partial(lane(q@, j), lo as int, row + 1, c) by {
                    self.lemma_partial_step(lane(q@, j), lo as int, row as int, c);
                    assert(before[c]@[j] == self.partial(lane(q@, j), lo as int, row as int, c));
                }
            }
        }
        acc
    }

    /// The answers to interleaved queries: each lane of the result is the answer to the query in
    /// that lane.
    pub fn eval_batched_n<const N: usize>(&self, q_interleaved: &[[u32; N]]) -> (res: Vec<[u32; N]>)
        requires
            self.wf(),
            q_interleaved@.len() == self.m,
        ensures
            res@.len() == self.width,
            forall|j: int|
                0 <= j < N ==> #[trigger] lane(res@, j) == self.answer(lane(q_interleaved@, j)),
    {
        let q = q_interleaved;
        let chunks: usize = if self.m % ROW_CHUNK_SIZE == 0 {
            self.m / ROW_CHUNK_SIZE
        } else {
            self.m / ROW_CHUNK_SIZE + 1
        };
        let eval_chunk = |k: usize| -> (acc: Vec<[u32; N]>)
            requires
                self.wf(),
                q@.len() == self.m,
                k * ROW_CHUNK_SIZE < self.m,
            ensures
                self.holds_partials(
                    acc@,
                    q@,
                    k * ROW_CHUNK_SIZE,
                    chunk_end(k * ROW_CHUNK_SIZE, self.m as int),
                ),
            {
                let lo: usize = k * ROW_CHUNK_SIZE;
                let hi: usize = if self.m - lo > ROW_CHUNK_SIZE {
                    lo + ROW_CHUNK_SIZE
                } else {
                    self.m
                };
                self.eval_rows_lanes(q, lo, hi)
            };
        let parts = par_map(chunks, eval_chunk);
        let mut res: Vec<[u32; N]> = zero_lanes(self.width);
        let mut done: usize = 0;
        for k in 0..chunks
            invariant
                self.wf(),
                q@.len() == self.m,
                parts@.len() == chunks,
                forall|i: int|
                    0 <= i < chunks ==> self.holds_partials(
                        (#[trigger] parts@[i])@,
                        q@,
                        i * ROW_CHUNK_SIZE,
                        chunk_end(i * ROW_CHUNK_SIZE, self.m as int),
                    ),
                chunks > 0 ==> (chunks - 1) * ROW_CHUNK_SIZE < self.m <= chunks * ROW_CHUNK_SIZE,
                chunks == 0 ==> self.m == 0,
                done == if k < chunks { k * ROW_CHUNK_SIZE } else { self.m as int },
                self.holds_partials(res@, q@, 0, done as int),
        {
            let hi: usize = if self.m - done > ROW_CHUNK_SIZE {
                done + ROW_CHUNK_SIZE
            } else {
                self.m
            };
            let ghost before = res@;
            let ghost part = parts@[k as int]@;
            add_lanes(&mut res, &parts[k]);
            proof {
                assert forall|c: int, j: int| 0 <= c < self.width && 0 <= j < N implies
                    #[trigger] res@[c]@[j] == self.partial(lane(q@, j), 0, hi as int, c) by {
                    self.lemma_partial_join(lane(q@, j), 0, done as int, hi as int, c);
                    assert(before[c]@[j] == self.partial(lane(q@, j), 0, done as int, c));
                    assert(part[c]@[j] == self.partial(lane(q@, j), done as int, hi as int, c));
                }
            }
            done = hi;
        }
        proof {
            assert forall|j: int| 0 <= j < N implies #[trigger] lane(res@, j) == self.answer(
                lane(q@, j),
            ) by {
                assert forall|c: int| 0 <= c < self.width implies lane(res@, j)[c] == self.answer(
                    lane(q@, j),
                )[c] by {
                    assert(res@[c]@[j] == self.partial(lane(q@, j), 0, self.m as int, c));
                }
                assert(lane(res@, j) =~= self.answer(lane(q@, j)));
            }
        }
        res
    }

    /// The answers to 2 interleaved queries.
    pub fn eval_batched_2(&self, q_interleaved: &[[u32; 2]]) -> (res: Vec<[u32; 2]>)
        requires
            self.wf(),
            q_interleaved@.len() == self.m,
        ensures
            res@.len() == self.width,
            forall|j: int|
                0 <= j < 2 ==> #[trigger] lane(res@, j) == self.answer(lane(q_interleaved@, j)),
    {
        self.eval_batched_n::<2>(q_interleaved)
    }

    /// The answers to 4 interleaved queries.
    pub fn eval_batched_4(&self, q_interleaved: &[[u32; 4]]) -> (res: Vec<[u32; 4]>)
        requires
            self.wf(),
            q_interleaved@.len() == self.m,
        ensures
            res@.len() == self.width,
            forall|j: int|
                0 <= j < 4 ==> #[trigger] lane(res@, j) == self.answer(lane(q_interleaved@, j)),
    {
        self.eval_batched_n::<4>(q_interleaved)
    }

    /// The answers to 8 interleaved queries.
    pub fn eval_batched_8(&self, q_interleaved: &[[u32; 8]]) -> (res: Vec<[u32; 8]>)
        requires
            self.wf(),
            q_interleaved@.len() == self.m,
        ensures
            res@.len() == self.width,
            forall|j: int|
                0 <= j < 8 ==> #[trigger] lane(res@, j) == self.answer(lane(q_interleaved@, j)),
    {
        self.eval_batched_n::<8>(q_interleaved)
    }

    /// The answers to 16 interleaved queries.
    pub fn eval_batched_16(&self, q_interleaved: &[[u32; 16]]) -> (res: Vec<[u32; 16]>)
        requires
            self.wf(),
            q_interleaved@.len() == self.m,
        ensures
            res@.len() == self.width,
            forall|j: int|
                0 <= j < 16 ==> #[trigger] lane(res@, j) == self.answer(lane(q_interleaved@, j)),
    {
        self.eval_batched_n::<16>(q_interleaved)
    }

    /// The answers to 32 interleaved queries.
    pub fn eval_batched_32(&self, q_interleaved: &[[u32; 32]]) -> (res: Vec<[u32; 32]>)
        requires
            self.wf(),
            q_interleaved@.len() == self.m,
        ensures
            res@.len() == self.width,
            forall|j: int|
                0 <= j < 32 ==> #[trigger] lane(res@, j) == self.answer(lane(q_interleaved@, j)),
    {
        self.eval_batched_n::<32>(q_interleaved)
    }

    /// The answers to 64 interleaved queries.
    pub fn eval_batched_64(&self, q_interleaved: &[[u32; 64]]) -> (res: Vec<[u32; 64]>)
        requires
            self.wf(),
            q_interleaved@.len() == self.m,
        ensures
            res@.len() == self.width,
            forall|j: int|
                0 <= j < 64 ==> #[trigger] lane(res@, j) == self.answer(lane(q_interleaved@, j)),
    {
        self.eval_batched_n::<64>(q_interleaved)
    }

    /// The answers to 128 interleaved queries.
    pub fn eval_batched_128(&self, q_interleaved: &[[u32; 128]]) -> (res: Vec<[u32; 128]>)
        requires
            self.wf(),
            q_interleaved@.len() == self.m,
        ensures
            res@.len() == self.width,
            forall|j: int|
                0 <= j < 128 ==> #[trigger] lane(res@, j) == self.answer(lane(q_interleaved@, j)),
    {
        self.eval_batched_n::<128>(q_interleaved)
    }

    /// The answers to 256 interleaved queries.
    pub fn eval_batched_256(&self, q_interleaved: &[[u32; 256]]) -> (res: Vec<[u32; 256]>)
        requires
            self.wf(),
            q_interleaved@.len() == self.m,
        ensures
            res@.len() == self.width,
            forall|j: int|
                0 <= j < 256 ==> #[trigger] lane(res@, j) == self.answer(lane(q_interleaved@, j)),
    {
        self.eval_batched_n::<256>(q_interleaved)
    }

    /// The answers to 512 interleaved queries.
    pub fn eval_batched_512(&self, q_interleaved: &[[u32; 512]]) -> (res: Vec<[u32; 512]>)
        requires
            self.wf(),
            q_interleaved@.len() == self.m,
        ensures
            res@.len() == self.width,
            forall|j: int|
                0 <= j < 512 ==> #[trigger] lane(res@, j) == self.answer(lane(q_interleaved@, j)),
    {
        self.eval_batched_n::<512>(q_interleaved)
    }

    /// The answers to 1024 interleaved queries.
    pub fn eval_batched_1024(&self, q_interleaved: &[[u32; 1024]]) -> (res: Vec<[u32; 1024]>)
        requires
            self.wf(),
            q_interleaved@.len() == self.m,
        ensures
            res@.len() == self.width,
            forall|j: int|
                0 <= j < 1024 ==> #[trigger] lane(res@, j) == self.answer(lane(q_interleaved@, j)),
    {
        self.eval_batched_n::<1024>(q_interleaved)
    }
}

/// Lanes that hold zeros.
pub(crate) fn zero_lanes<const N: usize>(width: usize) -> (acc: Vec<[u32; N]>)
    ensures
        acc@.len() == width,
        forall|c: int, j: int| 0 <= c < width && 0 <= j < N ==> #[trigger] acc@[c]@[j] == 0,
{
    let mut acc: Vec<[u32; N]> = Vec::with_capacity(width);
    for i in 0..width
        invariant
            acc@.len() == i,
            forall|c: int, j: int| 0 <= c < i && 0 <= j < N ==> #[trigger] acc@[c]@[j] == 0,
    {
        acc.push([0u32; N]);
    }
    acc
}

/// Adds the lanes of one accumulator to those of another.
fn add_lanes<const N: usize>(acc_a: &mut Vec<[u32; N]>, acc_b: &Vec<[u32; N]>)
    requires
        old(acc_a)@.len() == acc_b@.len(),
    ensures
        final(acc_a)@.len() == old(acc_a)@.len(),
        forall|c: int, j: int|
            0 <= c < acc_b@.len() && 0 <= j < N ==> #[trigger] final(acc_a)@[c]@[j] == old(
                acc_a,
            )@[c]@[j].wrapping_add(acc_b@[c]@[j]),
{
    let ghost before = acc_a@;
    for col in 0..acc_b.len()
        invariant
            acc_a@.len() == acc_b@.len(),
            before.len() == acc_b@.len(),
            forall|c: int, j: int|
                0 <= c < col && 0 <= j < N ==> #[trigger] acc_a@[c]@[j] == before[c]@[j]
                    .wrapping_add(acc_b@[c]@[j]),
            forall|c: int| col <= c < acc_b@.len() ==> acc_a@[c] == before[c],
    {
        let mut lanes: [u32; N] = acc_a[col];
        let other: &[u32; N] = &acc_b[col];
        for j in 0..N
            invariant
                forall|k: int|
                    0 <= k < j ==> #[trigger] lanes@[k] == before[col as int]@[k].wrapping_add(
                        other@[k],
                    ),
                forall|k: int| j <= k < N ==> lanes@[k] == before[col as int]@[k],
        {
            lanes[j] = lanes[j].wrapping_add(other[j]);
        }
        acc_a[col] = lanes;
    }
}

} // verus!
