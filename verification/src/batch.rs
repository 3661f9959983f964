//! Queries that are interleaved and answered together.
use crate::api::{masks_from, masks_sampled, QueryParams, Shard};
use crate::arith::lemma_flat_index;
use crate::db::{lane, Database};
use crate::errors::PirError;
use crate::outside::{bincode_u64, bincode_words, length_prefix, word_bytes};
use crate::params::{random_ternary_lanes, BaseParams, CommonParams};
use crate::utils::format::lemma_div_strictly_below;
use crate::utils::lwe::all_ternary;
use vstd::prelude::*;
use vstd::slice::slice_subrange;

verus! {

/// The words of interleaved vectors, row after row.
pub open spec fn interleaved_words<const N: usize>(rows: Seq<[u32; N]>) -> Seq<u32> {
    Seq::new((rows.len() * N) as nat, |k: int| rows[k / (N as int)]@[k % (N as int)])
}

/// Interleaved responses as bytes: the number of rows as eight bytes, then each word as four bytes,
/// all with the least significant byte first.
pub open spec fn batch_bytes<const N: usize>(rows: Seq<[u32; N]>) -> Seq<u8> {
    length_prefix(rows.len() as int) + word_bytes(interleaved_words(rows))
}

/// The rows hold in each lane the answer to the query in the same lane.
pub open spec fn answers_lanes<const N: usize>(
    db: &Database,
    q: Seq<[u32; N]>,
    results: Seq<[u32; N]>,
) -> bool {
    &&& results.len() == db.width
    &&& forall|j: int| 0 <= j < N ==> #[trigger] lane(results, j) == db.answer(lane(q, j))
}

/// The words of the answers to interleaved queries: for each column of the database the value of
/// each answer.
pub open spec fn batch_answer<const N: usize>(db: &Database, q: Seq<[u32; N]>) -> Seq<u32> {
    Seq::new(
        (db.width * N) as nat,
        |k: int| db.answer(lane(q, k % (N as int)))[k / (N as int)],
    )
}

/// The answers to interleaved queries as bytes: the number of columns of the database as eight
/// bytes, then each word as four bytes, all with the least significant byte first.
pub open spec fn batch_answer_bytes<const N: usize>(db: &Database, q: Seq<[u32; N]>) -> Seq<u8> {
    length_prefix(db.width as int) + word_bytes(batch_answer(db, q))
}

/// Interleaving the answers gives the words of the batch.
proof fn lemma_batch_answer<const N: usize>(
    db: &Database,
    q: Seq<[u32; N]>,
    results: Seq<[u32; N]>,
)
    requires
        answers_lanes(db, q, results),
    ensures
        batch_bytes(results) == batch_answer_bytes(db, q),
{
    let words = interleaved_words(results);
    assert forall|k: int| 0 <= k < db.width * N implies #[trigger] words[k] == batch_answer(db, q)[k]
        by {
        assert(N > 0) by (nonlinear_arith)
            requires
                0 <= k < db.width * N,
                0 <= db.width,
        ;
        lemma_div_strictly_below(k, db.width as int, N as int);
        let c = k / (N as int);
        let j = k % (N as int);
        assert(lane(results, j)[c] == results[c]@[j]);
        assert(lane(results, j) == db.answer(lane(q, j)));
    }
    assert(words =~= batch_answer(db, q));
}

/// Interleaved queries: row `i` holds the value of each query for row `i` of the database.
#[derive(Clone, Debug)]
pub struct BatchedQuery<const N: usize> {
    /// The values of the queries.
    pub interleaved: Vec<[u32; N]>,
}

/// The responses to interleaved queries: row `c` holds the value of each response for column `c` of
/// the database.
#[derive(Clone, Debug)]
pub struct BatchedResponse<const N: usize> {
    /// The values of the responses.
    pub results: Vec<[u32; N]>,
}

impl<const N: usize> BatchedResponse<N> {
    /// The words of the responses, row after row.
    fn words(&self) -> (words: Vec<u32>)
        ensures
            words@ == interleaved_words(self.results@),
    {
        let ghost expected = interleaved_words(self.results@);
        let mut words: Vec<u32> = Vec::new();
        for i in 0..self.results.len()
            invariant
                expected == interleaved_words(self.results@),
                words@ == expected.take(i * N),
                i * N <= expected.len(),
        {
            let row: &[u32; N] = &self.results[i];
            proof {
                assert((i + 1) * N == i * N + N) by (nonlinear_arith);
                assert((i + 1) * N <= self.results@.len() * N) by (nonlinear_arith)
                    requires
                        i + 1 <= self.results@.len(),
                        0 <= N,
                ;
            }
            for j in 0..N
                invariant
                    i < self.results@.len(),
                    row == self.results@[i as int],
                    expected == interleaved_words(self.results@),
                    words@ == expected.take(i * N + j),
                    i * N + j <= expected.len(),
                    i * N + N <= expected.len(),
            {
                proof {
                    lemma_flat_index(i as int, j as int, self.results@.len() as int, N as int);
                    assert(expected.take(i * N + j + 1) =~= expected.take(i * N + j).push(
                        row@[j as int],
                    ));
                }
                words.push(row[j]);
            }
        }
        assert(expected.take(self.results@.len() * N) =~= expected);
        words
    }

    /// The responses as bytes.
    pub fn to_bytes(&self) -> (res: Result<Vec<u8>, PirError>)
        ensures
            res is Ok,
            res->Ok_0@ == batch_bytes(self.results@),
    {
        let words = self.words();
        match (bincode_u64(self.results.len() as u64), bincode_words(&words)) {
            (Ok(mut bytes), Ok(counted)) => {
                let body: &[u8] = slice_subrange(counted.as_slice(), 8, counted.len());
                bytes.extend_from_slice(body);
                assert(body@ =~= word_bytes(words@));
                assert(bytes@ =~= batch_bytes(self.results@));
                Ok(bytes)
            },
            _ => Err(PirError::Serialization),
        }
    }
}

impl Shard {
    /// Produces the serialized response to 2 interleaved queries.
    pub fn respond_batched_2(&self, bq: &BatchedQuery2) -> (res: Result<Vec<u8>, PirError>)
        requires
            self.db.wf(),
            bq.interleaved@.len() == self.db.m,
        ensures
            res is Ok,
            res->Ok_0@ == batch_answer_bytes(&self.db, bq.interleaved@),
    {
        let resp = BatchedResponse { results: self.db.eval_batched_2(&bq.interleaved) };
        proof {
            lemma_batch_answer(&self.db, bq.interleaved@, resp.results@);
        }
        resp.to_bytes()
    }

    /// Produces the serialized response to 4 interleaved queries.
    pub fn respond_batched_4(&self, bq: &BatchedQuery4) -> (res: Result<Vec<u8>, PirError>)
        requires
            self.db.wf(),
            bq.interleaved@.len() == self.db.m,
        ensures
            res is Ok,
            res->Ok_0@ == batch_answer_bytes(&self.db, bq.interleaved@),
    {
        let resp = BatchedResponse { results: self.db.eval_batched_4(&bq.interleaved) };
        proof {
            lemma_batch_answer(&self.db, bq.interleaved@, resp.results@);
        }
        resp.to_bytes()
    }

    /// Produces the serialized response to 8 interleaved queries.
    pub fn respond_batched_8(&self, bq: &BatchedQuery8) -> (res: Result<Vec<u8>, PirError>)
        requires
            self.db.wf(),
            bq.interleaved@.len() == self.db.m,
        ensures
            res is Ok,
            res->Ok_0@ == batch_answer_bytes(&self.db, bq.interleaved@),
    {
        let resp = BatchedResponse { results: self.db.eval_batched_8(&bq.interleaved) };
        proof {
            lemma_batch_answer(&self.db, bq.interleaved@, resp.results@);
        }
        resp.to_bytes()
    }

    /// Produces the serialized response to 16 interleaved queries.
    pub fn respond_batched_16(&self, bq: &BatchedQuery16) -> (res: Result<Vec<u8>, PirError>)
        requires
            self.db.wf(),
            bq.interleaved@.len() == self.db.m,
        ensures
            res is Ok,
            res->Ok_0@ == batch_answer_bytes(&self.db, bq.interleaved@),
    {
        let resp = BatchedResponse { results: self.db.eval_batched_16(&bq.interleaved) };
        proof {
            lemma_batch_answer(&self.db, bq.interleaved@, resp.results@);
        }
        resp.to_bytes()
    }

    /// Produces the serialized response to 32 interleaved queries.
    pub fn respond_batched_32(&self, bq: &BatchedQuery32) -> (res: Result<Vec<u8>, PirError>)
        requires
            self.db.wf(),
            bq.interleaved@.len() == self.db.m,
        ensures
            res is Ok,
            res->Ok_0@ == batch_answer_bytes(&self.db, bq.interleaved@),
    {
        let resp = BatchedResponse { results: self.db.eval_batched_32(&bq.interleaved) };
        proof {
            lemma_batch_answer(&self.db, bq.interleaved@, resp.results@);
        }
        resp.to_bytes()
    }

    /// Produces the serialized response to 64 interleaved queries.
    pub fn respond_batched_64(&self, bq: &BatchedQuery64) -> (res: Result<Vec<u8>, PirError>)
        requires
            self.db.wf(),
            bq.interleaved@.len() == self.db.m,
        ensures
            res is Ok,
            res->Ok_0@ == batch_answer_bytes(&self.db, bq.interleaved@),
    {
        let resp = BatchedResponse { results: self.db.eval_batched_64(&bq.interleaved) };
        proof {
            lemma_batch_answer(&self.db, bq.interleaved@, resp.results@);
        }
        resp.to_bytes()
    }

    /// Produces the serialized response to 128 interleaved queries.
    pub fn respond_batched_128(&self, bq: &BatchedQuery128) -> (res: Result<Vec<u8>, PirError>)
        requires
            self.db.wf(),
            bq.interleaved@.len() == self.db.m,
        ensures
            res is Ok,
            res->Ok_0@ == batch_answer_bytes(&self.db, bq.interleaved@),
    {
        let resp = BatchedResponse { results: self.db.eval_batched_128(&bq.interleaved) };
        proof {
            lemma_batch_answer(&self.db, bq.interleaved@, resp.results@);
        }
        resp.to_bytes()
    }

    /// Produces the serialized response to 256 interleaved queries.
    pub fn respond_batched_256(&self, bq: &BatchedQuery256) -> (res: Result<Vec<u8>, PirError>)
        requires
            self.db.wf(),
            bq.interleaved@.len() == self.db.m,
        ensures
            res is Ok,
            res->Ok_0@ == batch_answer_bytes(&self.db, bq.interleaved@),
    {
        let resp = BatchedResponse { results: self.db.eval_batched_256(&bq.interleaved) };
        proof {
            lemma_batch_answer(&self.db, bq.interleaved@, resp.results@);
        }
        resp.to_bytes()
    }

    /// Produces the serialized response to 512 interleaved queries.
    pub fn respond_batched_512(&self, bq: &BatchedQuery512) -> (res: Result<Vec<u8>, PirError>)
        requires
            self.db.wf(),
            bq.interleaved@.len() == self.db.m,
        ensures
            res is Ok,
            res->Ok_0@ == batch_answer_bytes(&self.db, bq.interleaved@),
    {
        let resp = BatchedResponse { results: self.db.eval_batched_512(&bq.interleaved) };
        proof {
            lemma_batch_answer(&self.db, bq.interleaved@, resp.results@);
        }
        resp.to_bytes()
    }

    /// Produces the serialized response to 1024 interleaved queries.
    pub fn respond_batched_1024(&self, bq: &BatchedQuery1024) -> (res: Result<Vec<u8>, PirError>)
        requires
            self.db.wf(),
            bq.interleaved@.len() == self.db.m,
        ensures
            res is Ok,
            res->Ok_0@ == batch_answer_bytes(&self.db, bq.interleaved@),
    {
        let resp = BatchedResponse { results: self.db.eval_batched_1024(&bq.interleaved) };
        proof {
            lemma_batch_answer(&self.db, bq.interleaved@, resp.results@);
        }
        resp.to_bytes()
    }
}

/// What a client prepares for `N` queries.
pub struct BatchedQueryParams<const N: usize> {
    /// The interleaved masks that hide the queries.
    pub lhs: Vec<[u32; N]>,
    /// The interleaved masks that the responses come with.
    pub rhs: Vec<[u32; N]>,
    /// The size of an element in bits.
    pub elem_size: usize,
    /// The number of bits of an element that an entry holds.
    pub plaintext_bits: usize,
    /// Which of the lanes were extracted.
    pub used: [bool; N],
}

impl<const N: usize> BatchedQueryParams<N> {
    /// The parameters after lane `index` was extracted.
    pub open spec fn is_without(&self, before: Self, index: int) -> bool {
        &&& self.lhs == before.lhs
        &&& self.rhs == before.rhs
        &&& self.elem_size == before.elem_size
        &&& self.plaintext_bits == before.plaintext_bits
        &&& self.used@ == before.used@.update(index, true)
    }

    /// The query parameters in lane `index`.
    pub open spec fn holds(&self, index: int, qp: QueryParams) -> bool {
        &&& qp.lhs@ == lane(self.lhs@, index)
        &&& qp.rhs@ == lane(self.rhs@, index)
        &&& qp.elem_size == self.elem_size
        &&& qp.plaintext_bits == self.plaintext_bits
        &&& !qp.used
    }

    /// The query parameters for given interleaved secret vectors and errors.
    pub fn from_secrets(
        cp: &CommonParams,
        bp: &BaseParams,
        s_interleaved: &[[u32; N]],
        e_interleaved: &[[u32; N]],
    ) -> (qps: Self)
        requires
            cp.wf(),
            bp.dim > 0,
            s_interleaved@.len() == bp.dim,
            cp.m > 0 ==> cp.dim == bp.dim,
            e_interleaved@.len() == cp.m,
        ensures
            qps.lhs@.len() == cp.m,
            qps.rhs@.len() == bp.rhs_width(),
            forall|j: int|
                0 <= j < N ==> masks_from(
                    #[trigger] lane(qps.lhs@, j),
                    lane(qps.rhs@, j),
                    cp,
                    bp,
                    lane(s_interleaved@, j),
                    lane(e_interleaved@, j),
                ),
            qps.elem_size == bp.elem_size,
            qps.plaintext_bits == bp.plaintext_bits,
            forall|j: int| 0 <= j < N ==> !#[trigger] qps.used@[j],
    {
        BatchedQueryParams {
            lhs: cp.mult_left_batched_with_errors::<N>(s_interleaved, e_interleaved),
            rhs: bp.mult_right_batched_n::<N>(s_interleaved).unwrap(),
            elem_size: bp.get_elem_size(),
            plaintext_bits: bp.get_plaintext_bits(),
            used: [false; N],
        }
    }

    /// Query parameters for secret vectors and errors that are drawn at random.
    pub fn new(cp: &CommonParams, bp: &BaseParams) -> (res: Result<Self, PirError>)
        requires
            cp.wf(),
            bp.dim > 0,
            cp.m > 0 ==> cp.dim == bp.dim,
        ensures
            res is Ok,
            res->Ok_0.lhs@.len() == cp.m,
            res->Ok_0.rhs@.len() == bp.rhs_width(),
            forall|j: int|
                0 <= j < N ==> masks_sampled(
                    #[trigger] lane(res->Ok_0.lhs@, j),
                    lane(res->Ok_0.rhs@, j),
                    cp,
                    bp,
                ),
            res->Ok_0.elem_size == bp.elem_size,
            res->Ok_0.plaintext_bits == bp.plaintext_bits,
            forall|j: int| 0 <= j < N ==> !#[trigger] res->Ok_0.used@[j],
    {
        let s_interleaved = random_ternary_lanes::<N>(bp.get_dim());
        let qps = BatchedQueryParams {
            lhs: cp.mult_left_batched_n::<N>(&s_interleaved)?,
            rhs: bp.mult_right_batched_n::<N>(&s_interleaved)?,
            elem_size: bp.get_elem_size(),
            plaintext_bits: bp.get_plaintext_bits(),
            used: [false; N],
        };
        proof {
            assert forall|j: int| 0 <= j < N implies masks_sampled(
                #[trigger] lane(qps.lhs@, j),
                lane(qps.rhs@, j),
                cp,
                bp,
            ) by {
                let s = lane(s_interleaved@, j);
                assert(cp.is_masked(s, lane(qps.lhs@, j)));
                let e = choose|e: Seq<u32>|
                    e.len() == cp.m && all_ternary(e) && lane(qps.lhs@, j) == #[trigger] cp.masked(
                        s,
                        e,
                    );
                assert(all_ternary(s));
                assert(masks_from(lane(qps.lhs@, j), lane(qps.rhs@, j), cp, bp, s, e));
            }
        }
        Ok(qps)
    }

    /// Takes the query parameters of one lane out. A lane is given out once; the next request for it
    /// is refused.
    pub fn extract_query_params(&mut self, index: usize) -> (res: Result<QueryParams, PirError>)
        requires
            index < N,
        ensures
            final(self).is_without(*old(self), index as int),
            match res {
                Ok(qp) => !old(self).used@[index as int] && old(self).holds(index as int, qp),
                Err(e) => old(self).used@[index as int] && e == PirError::QueryParamsReused,
            },
    {
        if self.used[index] {
            assert(self.used@ =~= self.used@.update(index as int, true));
            return Err(PirError::QueryParamsReused);
        }
        self.used[index] = true;
        Ok(
            QueryParams {
                lhs: take_lane(&self.lhs, index),
                rhs: take_lane(&self.rhs, index),
                elem_size: self.elem_size,
                plaintext_bits: self.plaintext_bits,
                used: false,
            },
        )
    }
}

/// One lane of interleaved vectors.
fn take_lane<const N: usize>(rows: &Vec<[u32; N]>, index: usize) -> (values: Vec<u32>)
    requires
        index < N,
    ensures
        values@ == lane(rows@, index as int),
{
    let mut values: Vec<u32> = Vec::with_capacity(rows.len());
    for i in 0..rows.len()
        invariant
            index < N,
            values@ == lane(rows@, index as int).take(i as int),
    {
        values.push(rows[i][index]);
        assert(lane(rows@, index as int).take(i + 1) =~= lane(rows@, index as int).take(
            i as int,
        ).push(rows@[i as int]@[index as int]));
    }
    assert(lane(rows@, index as int).take(rows@.len() as int) =~= lane(rows@, index as int));
    values
}

/// Query parameters for 2 queries.
pub type BatchedQueryParams2 = BatchedQueryParams<2>;

/// 2 interleaved queries.
pub type BatchedQuery2 = BatchedQuery<2>;

/// The responses to 2 interleaved queries.
pub type BatchedResponse2 = BatchedResponse<2>;

/// Query parameters for 4 queries.
pub type BatchedQueryParams4 = BatchedQueryParams<4>;

/// 4 interleaved queries.
pub type BatchedQuery4 = BatchedQuery<4>;

/// The responses to 4 interleaved queries.
pub type BatchedResponse4 = BatchedResponse<4>;

/// Query parameters for 8 queries.
pub type BatchedQueryParams8 = BatchedQueryParams<8>;

/// 8 interleaved queries.
pub type BatchedQuery8 = BatchedQuery<8>;

/// The responses to 8 interleaved queries.
pub type BatchedResponse8 = BatchedResponse<8>;

/// Query parameters for 16 queries.
pub type BatchedQueryParams16 = BatchedQueryParams<16>;

/// 16 interleaved queries.
pub type BatchedQuery16 = BatchedQuery<16>;

/// The responses to 16 interleaved queries.
pub type BatchedResponse16 = BatchedResponse<16>;

/// Query parameters for 32 queries.
pub type BatchedQueryParams32 = BatchedQueryParams<32>;

/// 32 interleaved queries.
pub type BatchedQuery32 = BatchedQuery<32>;

/// The responses to 32 interleaved queries.
pub type BatchedResponse32 = BatchedResponse<32>;

/// Query parameters for 64 queries.
pub type BatchedQueryParams64 = BatchedQueryParams<64>;

/// 64 interleaved queries.
pub type BatchedQuery64 = BatchedQuery<64>;

/// The responses to 64 interleaved queries.
pub type BatchedResponse64 = BatchedResponse<64>;

/// Query parameters for 128 queries.
pub type BatchedQueryParams128 = BatchedQueryParams<128>;

/// 128 interleaved queries.
pub type BatchedQuery128 = BatchedQuery<128>;

/// The responses to 128 interleaved queries.
pub type BatchedResponse128 = BatchedResponse<128>;

/// Query parameters for 256 queries.
pub type BatchedQueryParams256 = BatchedQueryParams<256>;

/// 256 interleaved queries.
pub type BatchedQuery256 = BatchedQuery<256>;

/// The responses to 256 interleaved queries.
pub type BatchedResponse256 = BatchedResponse<256>;

/// Query parameters for 512 queries.
pub type BatchedQueryParams512 = BatchedQueryParams<512>;

/// 512 interleaved queries.
pub type BatchedQuery512 = BatchedQuery<512>;

/// The responses to 512 interleaved queries.
pub type BatchedResponse512 = BatchedResponse<512>;

/// Query parameters for 1024 queries.
pub type BatchedQueryParams1024 = BatchedQueryParams<1024>;

/// 1024 interleaved queries.
pub type BatchedQuery1024 = BatchedQuery<1024>;

/// The responses to 1024 interleaved queries.
pub type BatchedResponse1024 = BatchedResponse<1024>;

} // verus!
