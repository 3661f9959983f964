//! Servers, queries and responses.
use crate::arith::{lemma_wrapping_sub, wrap};
use crate::db::Database;
use crate::elements::{
    acceptable, elements_acceptable, fails_with, matrix_width, parse_elements, texts,
};
use crate::errors::PirError;
use crate::outside::{
    base64_text, bincode_words, json_strings, length_prefix, par_map, word_bytes,
};
pub use crate::params::{BaseParams, CommonParams};
use crate::utils::format::{base64_from_u32_slice, bytes_from_u32_slice, row_bytes};
use crate::utils::lwe::{
    all_ternary, get_plaintext_size, get_rounding_factor, get_rounding_floor, plaintext_size,
    random_ternary_vector, rounding_factor,
};
use vstd::arithmetic::div_mod::lemma_div_is_ordered_by_denominator;
use vstd::arithmetic::power2::{lemma2_to64, lemma_pow2_strictly_increases};
use vstd::prelude::*;
use vstd::std_specs::iter::IteratorSpec;

verus! {

/// The sizes of a shard can be counted in `usize`: the bytes of its public matrix, and the
/// right-hand side of its parameters.
pub open spec fn sizes_fit(lwe_dim: int, m: int, elem_size: int, plaintext_bits: int) -> bool {
    &&& 4 * (lwe_dim * m) <= usize::MAX
    &&& m > 0 ==> matrix_width(elem_size, plaintext_bits) * lwe_dim <= usize::MAX
}

/// A response as bytes: the number of words as eight bytes, then each word as four bytes, all with
/// the least significant byte first.
pub open spec fn response_bytes(words: Seq<u32>) -> Seq<u8> {
    length_prefix(words.len() as int) + word_bytes(words)
}

/// The product of two sizes lies within a limit.
fn product_at_most(a: usize, b: usize, limit: usize) -> (res: bool)
    ensures
        res == (a * b <= limit),
{
    match a.checked_mul(b) {
        Some(product) => product <= limit,
        None => false,
    }
}

/// Whether the sizes of a shard can be counted in `usize`.
pub fn shard_sizes_fit(lwe_dim: usize, m: usize, elem_size: usize, plaintext_bits: usize) -> (res:
    bool)
    requires
        plaintext_bits > 0,
    ensures
        res == sizes_fit(lwe_dim as int, m as int, elem_size as int, plaintext_bits as int),
{
    let width: usize = Database::get_matrix_width(elem_size, plaintext_bits);
    product_at_most(lwe_dim, m, usize::MAX / 4) && (m == 0 || product_at_most(
        width,
        lwe_dim,
        usize::MAX,
    ))
}

/// An instance of a database, where each row corresponds to a single element, that the server has
/// preprocessed.
#[derive(Clone, Debug)]
pub struct Shard {
    /// The database.
    pub db: Database,
    /// The parameters that clients need.
    pub base_params: BaseParams,
}

impl Shard {
    /// The parameters are those of the database.
    pub open spec fn wf(&self) -> bool {
        &&& self.db.wf()
        &&& self.base_params.is_for(&self.db, self.base_params.dim as int)
    }

    /// The shard that serves the first `m` elements of a list.
    pub open spec fn serves(
        &self,
        elements: Seq<Seq<char>>,
        lwe_dim: int,
        m: int,
        elem_size: int,
        plaintext_bits: int,
    ) -> bool {
        &&& self.db.holds(elements, m, elem_size, plaintext_bits)
        &&& self.base_params.is_for(&self.db, lwe_dim)
    }

    /// Makes a database of base64 texts that can process client queries. It fails where the database
    /// does.
    pub fn from_base64_strings(
        base64_strs: &[String],
        lwe_dim: usize,
        m: usize,
        elem_size: usize,
        plaintext_bits: usize,
    ) -> (res: Result<Self, PirError>)
        requires
            acceptable(texts(base64_strs@), m as int, elem_size as int, plaintext_bits as int),
            sizes_fit(lwe_dim as int, m as int, elem_size as int, plaintext_bits as int),
        ensures
            match res {
                Ok(shard) => shard.wf() && shard.serves(
                    texts(base64_strs@),
                    lwe_dim as int,
                    m as int,
                    elem_size as int,
                    plaintext_bits as int,
                ),
                Err(e) => fails_with(
                    texts(base64_strs@),
                    m as int,
                    elem_size as int,
                    plaintext_bits as int,
                    e,
                ),
            },
    {
        match Database::new(base64_strs, m, elem_size, plaintext_bits) {
            Err(e) => Err(e),
            Ok(db) => {
                assert(m == 0 ==> db.width * lwe_dim == 0) by (nonlinear_arith)
                    requires
                        m == 0 ==> db.width == 0,
                ;
                let base_params = BaseParams::new(&db, lwe_dim);
                Ok(Shard { db, base_params })
            },
        }
    }

    /// Makes a shard as `from_base64_strings` does, and returns `None` where the elements are not
    /// acceptable or the sizes do not fit.
    pub fn try_from_base64_strings(
        base64_strs: &[String],
        lwe_dim: usize,
        m: usize,
        elem_size: usize,
        plaintext_bits: usize,
    ) -> (res: Option<Result<Self, PirError>>)
        ensures
            res is Some <==> acceptable(
                texts(base64_strs@),
                m as int,
                elem_size as int,
                plaintext_bits as int,
            ) && sizes_fit(lwe_dim as int, m as int, elem_size as int, plaintext_bits as int),
            res matches Some(outcome) ==> match outcome {
                Ok(shard) => shard.wf() && shard.serves(
                    texts(base64_strs@),
                    lwe_dim as int,
                    m as int,
                    elem_size as int,
                    plaintext_bits as int,
                ),
                Err(e) => fails_with(
                    texts(base64_strs@),
                    m as int,
                    elem_size as int,
                    plaintext_bits as int,
                    e,
                ),
            },
    {
        if elements_acceptable(base64_strs, m, elem_size, plaintext_bits) && shard_sizes_fit(
            lwe_dim,
            m,
            elem_size,
            plaintext_bits,
        ) {
            Some(Shard::from_base64_strings(base64_strs, lwe_dim, m, elem_size, plaintext_bits))
        } else {
            None
        }
    }

    /// Makes a shard of the first `m` elements of a JSON list of base64 texts, and returns `None`
    /// where the elements are not acceptable or the sizes do not fit.
    pub fn try_from_json(
        text: &str,
        lwe_dim: usize,
        m: usize,
        elem_size: usize,
        plaintext_bits: usize,
    ) -> (res: Option<Result<Self, PirError>>)
        ensures
            match json_strings(text@) {
                None => res == Some(Err::<Self, PirError>(PirError::InvalidJson)),
                Some(elements) => {
                    &&& res is Some <==> acceptable(
                        elements,
                        m as int,
                        elem_size as int,
                        plaintext_bits as int,
                    ) && sizes_fit(
                        lwe_dim as int,
                        m as int,
                        elem_size as int,
                        plaintext_bits as int,
                    )
                    &&& res matches Some(outcome) ==> match outcome {
                        Ok(shard) => shard.wf() && shard.serves(
                            elements,
                            lwe_dim as int,
                            m as int,
                            elem_size as int,
                            plaintext_bits as int,
                        ),
                        Err(e) => fails_with(
                            elements,
                            m as int,
                            elem_size as int,
                            plaintext_bits as int,
                            e,
                        ),
                    }
                },
            },
    {
        match parse_elements(text) {
            Err(e) => Some(Err(e)),
            Ok(elements) => Shard::try_from_base64_strings(
                &elements,
                lwe_dim,
                m,
                elem_size,
                plaintext_bits,
            ),
        }
    }

    /// Produces the serialized response to a client query: `c' = b' * DB`.
    pub fn respond(&self, q: &Query) -> (res: Result<Vec<u8>, PirError>)
        requires
            self.db.wf(),
            q.0@.len() == self.db.m,
        ensures
            res is Ok,
            res->Ok_0@ == response_bytes(self.db.answer(q.0@)),
    {
        let resp = Response(self.db.eval_single(q.as_slice()));
        match bincode_words(&resp.0) {
            Ok(bytes) => Ok(bytes),
            Err(_) => Err(PirError::Serialization),
        }
    }

    /// The database.
    pub fn get_db(&self) -> (db: &Database)
        ensures
            *db == self.db,
    {
        &self.db
    }

    /// The base parameters.
    pub fn get_base_params(&self) -> (base_params: &BaseParams)
        ensures
            *base_params == self.base_params,
    {
        &self.base_params
    }

    /// The entries of the database as base64 texts, one after the other.
    pub fn into_row_iter(&self) -> (iter: std::vec::IntoIter<String>)
        requires
            self.db.wf(),
            self.db.m > 0 ==> self.db.plaintext_bits > 0,
        ensures
            iter.remaining().len() == self.db.m,
            forall|i: int|
                0 <= i < self.db.m ==> (#[trigger] iter.remaining()[i])@ == self.db.entry_text(i),
    {
        let height: usize = self.get_db().get_matrix_height();
        let mut rows: Vec<String> = Vec::with_capacity(height);
        for i in 0..height
            invariant
                self.db.wf(),
                self.db.m > 0 ==> self.db.plaintext_bits > 0,
                height == self.db.m,
                rows@.len() == i,
                forall|k: int| 0 <= k < i ==> (#[trigger] rows@[k])@ == self.db.entry_text(k),
        {
            rows.push(self.get_db().get_db_entry(i));
        }
        rows.into_iter()
    }
}

/// The masks of a query are made of a secret vector and a vector of errors.
pub open spec fn masks_from(
    lhs: Seq<u32>,
    rhs: Seq<u32>,
    cp: &CommonParams,
    bp: &BaseParams,
    s: Seq<u32>,
    e: Seq<u32>,
) -> bool {
    &&& lhs == cp.masked(s, e)
    &&& rhs == bp.right_product(s)
}

/// The masks of a query are made of some ternary secret vector and some ternary errors.
pub open spec fn masks_sampled(
    lhs: Seq<u32>,
    rhs: Seq<u32>,
    cp: &CommonParams,
    bp: &BaseParams,
) -> bool {
    exists|s: Seq<u32>, e: Seq<u32>|
        s.len() == bp.dim && e.len() == cp.m && all_ternary(s) && all_ternary(e)
            && #[trigger] masks_from(lhs, rhs, cp, bp, s, e)
}

/// What a client prepares for one query.
#[derive(Clone, Debug)]
pub struct QueryParams {
    /// The masks that hide the query.
    pub lhs: Vec<u32>,
    /// The masks that the response comes with.
    pub rhs: Vec<u32>,
    /// The size of an element in bits.
    pub elem_size: usize,
    /// The number of bits of an element that an entry holds.
    pub plaintext_bits: usize,
    /// Whether a query was made.
    pub used: bool,
}

impl QueryParams {
    /// The parameters after an attempt to make a query.
    pub open spec fn spent(self) -> Self {
        QueryParams { used: true, ..self }
    }

    /// The query for a row, or why there is none: the scaled unit vector of the row, added to the
    /// masks.
    pub open spec fn query_outcome(self, row_index: int) -> Result<Seq<u32>, PirError> {
        let factor = rounding_factor(self.plaintext_bits as int);
        if self.used {
            Err(PirError::QueryParamsReused)
        } else if self.lhs@[row_index] + factor > u32::MAX {
            Err(PirError::OverflownAdd)
        } else {
            Ok(self.lhs@.update(row_index, (self.lhs@[row_index] + factor) as u32))
        }
    }

    /// The query parameters for a given secret vector and given errors.
    pub fn from_secrets(cp: &CommonParams, bp: &BaseParams, s: &[u32], e: &[u32]) -> (qp: Self)
        requires
            cp.wf(),
            bp.dim > 0,
            s@.len() == bp.dim,
            cp.m > 0 ==> cp.dim == bp.dim,
            e@.len() == cp.m,
        ensures
            masks_from(qp.lhs@, qp.rhs@, cp, bp, s@, e@),
            qp.elem_size == bp.elem_size,
            qp.plaintext_bits == bp.plaintext_bits,
            !qp.used,
    {
        QueryParams {
            lhs: cp.mult_left_with_errors(s, e),
            rhs: bp.mult_right(s).unwrap(),
            elem_size: bp.get_elem_size(),
            plaintext_bits: bp.get_plaintext_bits(),
            used: false,
        }
    }

    /// Query parameters for a secret vector and errors that are drawn at random.
    pub fn new(cp: &CommonParams, bp: &BaseParams) -> (res: Result<Self, PirError>)
        requires
            cp.wf(),
            bp.dim > 0,
            cp.m > 0 ==> cp.dim == bp.dim,
        ensures
            res is Ok,
            masks_sampled(res->Ok_0.lhs@, res->Ok_0.rhs@, cp, bp),
            res->Ok_0.elem_size == bp.elem_size,
            res->Ok_0.plaintext_bits == bp.plaintext_bits,
            !res->Ok_0.used,
    {
        let s = random_ternary_vector(bp.get_dim());
        let qp = QueryParams {
            lhs: cp.mult_left(&s)?,
            rhs: bp.mult_right(&s)?,
            elem_size: bp.get_elem_size(),
            plaintext_bits: bp.get_plaintext_bits(),
            used: false,
        };
        proof {
            let e = choose|e: Seq<u32>|
                e.len() == cp.m && all_ternary(e) && qp.lhs@ == #[trigger] cp.masked(s@, e);
            assert(masks_from(qp.lhs@, qp.rhs@, cp, bp, s@, e));
        }
        Ok(qp)
    }

    /// Prepares a client query for a row. Query parameters serve for one attempt; the next one is
    /// refused.
    pub fn generate_query(&mut self, row_index: usize) -> (res: Result<Query, PirError>)
        requires
            !old(self).used ==> row_index < old(self).lhs@.len(),
            !old(self).used ==> 1 <= old(self).plaintext_bits <= 32,
        ensures
            *final(self) == old(self).spent(),
            match res {
                Ok(q) => old(self).query_outcome(row_index as int) == Ok::<Seq<u32>, PirError>(
                    q.0@,
                ),
                Err(e) => old(self).query_outcome(row_index as int) == Err::<Seq<u32>, PirError>(e),
            },
    {
        if self.used {
            return Err(PirError::QueryParamsReused);
        }
        self.used = true;
        let query_indicator: u32 = get_rounding_factor(self.plaintext_bits);
        let mut lhs: Vec<u32> = self.lhs.clone();
        assert(lhs@ =~= self.lhs@);
        match lhs[row_index].checked_add(query_indicator) {
            Some(value) => {
                lhs[row_index] = value;
                Ok(Query(lhs))
            },
            None => Err(PirError::OverflownAdd),
        }
    }
}

/// A client query for a row.
#[derive(Clone, Debug)]
pub struct Query(pub Vec<u32>);

impl Query {
    /// The values of the query, one for each row of the database.
    pub fn as_slice(&self) -> (values: &[u32])
        ensures
            values@ == self.0@,
    {
        self.0.as_slice()
    }
}

/// The plaintext value that an unmasked value is closest to. The values half way between two are
/// rounded down.
pub open spec fn rounded(unscaled: u32, plaintext_bits: int) -> u32 {
    let factor = rounding_factor(plaintext_bits);
    ((unscaled as int / factor + (if unscaled as int % factor > factor / 2 {
        1int
    } else {
        0int
    })) % plaintext_size(plaintext_bits)) as u32
}

/// The row that a response stands for: the masks are taken off, and the rest is rounded.
pub open spec fn decoded_row(
    response: Seq<u32>,
    rhs: Seq<u32>,
    elem_size: int,
    plaintext_bits: int,
) -> Seq<u32> {
    Seq::new(
        matrix_width(elem_size, plaintext_bits) as nat,
        |i: int| rounded(wrap(response[i] - rhs[i]), plaintext_bits),
    )
}

/// The response of a single shard.
#[derive(Clone, Debug)]
pub struct Response(pub Vec<u32>);

impl Response {
    /// The response can be parsed with the query parameters: their numbers of values and of bits
    /// are in range.
    pub open spec fn parses_with(&self, qp: &QueryParams) -> bool {
        &&& 1 <= qp.plaintext_bits <= 31
        &&& matrix_width(qp.elem_size as int, qp.plaintext_bits as int) <= self.0@.len()
        &&& matrix_width(qp.elem_size as int, qp.plaintext_bits as int) <= qp.rhs@.len()
    }

    /// The row that the response stands for.
    pub open spec fn row(&self, qp: &QueryParams) -> Seq<u32> {
        decoded_row(self.0@, qp.rhs@, qp.elem_size as int, qp.plaintext_bits as int)
    }

    /// The values of the response, one for each column of the database.
    pub fn as_slice(&self) -> (values: &[u32])
        ensures
            values@ == self.0@,
    {
        self.0.as_slice()
    }

    /// Parses the output as a row of values.
    pub fn parse_output_as_row(&self, qp: &QueryParams) -> (row: Vec<u32>)
        requires
            self.parses_with(qp),
        ensures
            row@ == self.row(qp),
    {
        let rounding_factor: u32 = get_rounding_factor(qp.plaintext_bits);
        let rounding_floor: u32 = get_rounding_floor(qp.plaintext_bits);
        let plaintext_size: u32 = get_plaintext_size(qp.plaintext_bits);
        let width: usize = Database::get_matrix_width(qp.elem_size, qp.plaintext_bits);
        proof {
            lemma2_to64();
            if qp.plaintext_bits < 31 {
                lemma_pow2_strictly_increases(1, (32 - qp.plaintext_bits) as nat);
            }
            assert(rounding_factor >= 2);
        }
        let round = |i: usize| -> (value: u32)
            requires
                i < self.0@.len(),
                i < qp.rhs@.len(),
                rounding_factor >= 2,
                plaintext_size > 0,
            ensures
                value == (wrap(self.0@[i as int] - qp.rhs@[i as int]) as int / (
                rounding_factor as int) + (if wrap(
                    self.0@[i as int] - qp.rhs@[i as int],
                ) as int % (rounding_factor as int) > rounding_floor {
                    1int
                } else {
                    0int
                })) % (plaintext_size as int),
            {
                let unscaled_res: u32 = self.0[i].wrapping_sub(qp.rhs[i]);
                let scaled_res: u32 = unscaled_res / rounding_factor;
                let scaled_rem: u32 = unscaled_res % rounding_factor;
                let mut rounded_res: u32 = scaled_res;
                proof {
                    lemma_wrapping_sub(self.0@[i as int], qp.rhs@[i as int]);
                    lemma_div_is_ordered_by_denominator(
                        unscaled_res as int,
                        2,
                        rounding_factor as int,
                    );
                }
                if scaled_rem > rounding_floor {
                    rounded_res = rounded_res + 1;
                }
                rounded_res % plaintext_size
            };
        let row = par_map(width, round);
        assert(row@ =~= self.row(qp));
        row
    }

    /// Parses the output as bytes.
    pub fn parse_output_as_bytes(&self, qp: &QueryParams) -> (bytes: Vec<u8>)
        requires
            self.parses_with(qp),
        ensures
            bytes@ == row_bytes(self.row(qp), qp.plaintext_bits as int, qp.elem_size as int),
    {
        let row = self.parse_output_as_row(qp);
        bytes_from_u32_slice(&row, qp.plaintext_bits, qp.elem_size)
    }

    /// Parses the output as base64 text.
    pub fn parse_output_as_base64(&self, qp: &QueryParams) -> (text: String)
        requires
            self.parses_with(qp),
        ensures
            text@ == base64_text(
                row_bytes(self.row(qp), qp.plaintext_bits as int, qp.elem_size as int),
            ),
    {
        let row = self.parse_output_as_row(qp);
        base64_from_u32_slice(&row, qp.plaintext_bits, qp.elem_size)
    }
}

} // verus!
