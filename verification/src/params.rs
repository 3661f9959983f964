//! The parameters that a server publishes, and the matrix that a client derives from them.
use crate::arith::{
    dot, lemma_accumulate, lemma_flat_index, lemma_wrapping_add, products, sum, wrap,
};
use crate::db::{lane, zero_lanes, Database};
use crate::errors::PirError;
use crate::outside::{os_random_seed, par_map};
use crate::utils::lwe::{all_ternary, is_ternary, random_ternary, random_ternary_vector};
use crate::utils::matrices::{
    flatten_matrix_row_major, generate_lwe_matrix_from_seed, lemma_flat_entry, lwe_column, lwe_row,
    swap_matrix_fmt, vec_mult_u32_u32,
};
use vstd::arithmetic::div_mod::{lemma_fundamental_div_mod, lemma_mod_bound};
use vstd::prelude::*;
use vstd::slice::slice_subrange;

verus! {

/// The first `m` entries of a row.
pub open spec fn row_prefix(rows: Seq<Vec<u32>>, r: int, m: nat) -> Seq<u32> {
    Seq::new(m, |i: int| rows[r]@[i])
}

/// The right-hand side of the public parameters: the product of the public matrix and the database,
/// column after column.
pub open spec fn params_rhs(db: &Database, seed: Seq<u8>, dim: nat) -> Seq<u32> {
    Seq::new(
        (db.width * dim) as nat,
        |k: int| db.answer(lwe_row(seed, dim, db.m as nat, k % (dim as int)))[k / (dim as int)],
    )
}

/// Multiplies `count` rows of `lhs`, from `row_idx` on, by the database, `N` lanes at a time, and
/// appends the products.
fn push_block<const N: usize>(
    db: &Database,
    lhs: &Vec<Vec<u32>>,
    row_idx: usize,
    count: usize,
    c_rows: &mut Vec<Vec<u32>>,
)
    requires
        db.wf(),
        count <= N,
        row_idx + count <= usize::MAX,
        db.m > 0 ==> row_idx + count <= lhs@.len(),
        forall|r: int| 0 <= r < lhs@.len() ==> (#[trigger] lhs@[r])@.len() == db.m,
    ensures
        final(c_rows)@.len() == old(c_rows)@.len() + count,
        forall|k: int|
            0 <= k < old(c_rows)@.len() ==> #[trigger] final(c_rows)@[k] == old(c_rows)@[k],
        forall|k: int|
            old(c_rows)@.len() <= k < old(c_rows)@.len() + count ==> (#[trigger] final(c_rows)@[k])@
                == db.answer(
                row_prefix(lhs@, row_idx + k - old(c_rows)@.len(), db.m as nat),
            ),
{
    let m: usize = db.m;
    let mut interleaved: Vec<[u32; N]> = zero_lanes(m);
    for i in 0..m
        invariant
            m == db.m,
            count <= N,
            row_idx + count <= usize::MAX,
            db.m > 0 ==> row_idx + count <= lhs@.len(),
            forall|r: int| 0 <= r < lhs@.len() ==> (#[trigger] lhs@[r])@.len() == db.m,
            interleaved@.len() == m,
            forall|k: int, j: int|
                0 <= k < i && 0 <= j < count ==> #[trigger] interleaved@[k]@[j] == lhs@[row_idx
                    + j]@[k],
    {
        let mut lanes: [u32; N] = interleaved[i];
        for j in 0..count
            invariant
                m == db.m,
                i < m,
                count <= N,
                row_idx + count <= usize::MAX,
                row_idx + count <= lhs@.len(),
                forall|r: int| 0 <= r < lhs@.len() ==> (#[trigger] lhs@[r])@.len() == db.m,
                forall|k: int|
                    0 <= k < j ==> #[trigger] lanes@[k] == lhs@[row_idx + k]@[i as int],
        {
            lanes[j] = lhs[row_idx + j][i];
        }
        interleaved[i] = lanes;
    }
    let batched_res = db.eval_batched_n::<N>(&interleaved);
    let ghost before = c_rows@;
    for j in 0..count
        invariant
            count <= N,
            batched_res@.len() == db.width,
            forall|j: int|
                0 <= j < N ==> #[trigger] lane(batched_res@, j) == db.answer(
                    lane(interleaved@, j),
                ),
            interleaved@.len() == db.m,
            forall|k: int, j: int|
                0 <= k < db.m && 0 <= j < count ==> #[trigger] interleaved@[k]@[j] == lhs@[row_idx
                    + j]@[k],
            c_rows@.len() == before.len() + j,
            forall|k: int| 0 <= k < before.len() ==> #[trigger] c_rows@[k] == before[k],
            forall|k: int|
                before.len() <= k < before.len() + j ==> (#[trigger] c_rows@[k])@ == db.answer(
                    row_prefix(lhs@, row_idx + k - before.len(), db.m as nat),
                ),
    {
        let mut row: Vec<u32> = Vec::with_capacity(db.width);
        for col in 0..db.width
            invariant
                j < N,
                batched_res@.len() == db.width,
                row@ == lane(batched_res@, j as int).take(col as int),
        {
            row.push(batched_res[col][j]);
            assert(lane(batched_res@, j as int).take(col + 1) =~= lane(
                batched_res@,
                j as int,
            ).take(col as int).push(batched_res@[col as int]@[j as int]));
        }
        assert(row@ =~= lane(batched_res@, j as int));
        assert(lane(interleaved@, j as int) =~= row_prefix(lhs@, row_idx + j, db.m as nat));
        c_rows.push(row);
    }
}

/// What a client needs to know of a server to make queries.
#[derive(Clone, Debug)]
pub struct BaseParams {
    /// The dimension of the learning-with-errors scheme.
    pub dim: usize,
    /// The number of elements of the database.
    pub m: usize,
    /// The size in bits of an element of the database.
    pub elem_size: usize,
    /// The number of bits of an element that an entry holds.
    pub plaintext_bits: usize,
    /// The seed of the public matrix.
    pub public_seed: [u8; 32],
    /// The product of the public matrix and the database, column after column.
    pub rhs: Vec<u32>,
}

impl BaseParams {
    /// Generates the right-hand side of the parameters from the database and the seed of the
    /// left-hand side. Rows are multiplied in blocks, the largest first; what is left over is padded
    /// to the smallest block that holds it.
    pub fn generate_params_rhs(
        db: &Database,
        public_seed: [u8; 32],
        dim: usize,
        m: usize,
    ) -> (rhs: Vec<u32>)
        requires
            db.wf(),
            dim > 0 ==> m == db.m,
            4 * (dim * m) <= usize::MAX,
            db.width * dim <= usize::MAX,
        ensures
            rhs@ == params_rhs(db, public_seed@, dim as nat),
    {
        let matrix = generate_lwe_matrix_from_seed(public_seed, dim, m);
        let lhs = swap_matrix_fmt(&matrix);
        let width: usize = db.get_matrix_width_self();
        let mut c_rows: Vec<Vec<u32>> = Vec::with_capacity(dim);
        let mut row_idx: usize = 0;
        proof {
            assert forall|r: int| 0 <= r < dim implies #[trigger] row_prefix(
                lhs@,
                r,
                db.m as nat,
            ) == lwe_row(public_seed@, dim as nat, m as nat, r) by {
                assert(row_prefix(lhs@, r, db.m as nat) =~= lwe_row(
                    public_seed@,
                    dim as nat,
                    m as nat,
                    r,
                ));
            }
        }
        while dim - row_idx >= 64
            invariant
                db.wf(),
                row_idx <= dim,
                dim > 0 ==> m == db.m,
                c_rows@.len() == row_idx,
                dim > 0 && m > 0 ==> lhs@.len() == dim,
                dim > 0 ==> forall|r: int|
                    0 <= r < lhs@.len() ==> (#[trigger] lhs@[r])@.len() == db.m,
                forall|r: int|
                    0 <= r < row_idx ==> (#[trigger] c_rows@[r])@ == db.answer(
                        row_prefix(lhs@, r, db.m as nat),
                    ),
            decreases dim - row_idx,
        {
            push_block::<64>(db, &lhs, row_idx, 64, &mut c_rows);
            row_idx = row_idx + 64;
        }
        if dim - row_idx >= 32 {
            push_block::<32>(db, &lhs, row_idx, 32, &mut c_rows);
            row_idx = row_idx + 32;
        }
        if dim - row_idx >= 16 {
            push_block::<16>(db, &lhs, row_idx, 16, &mut c_rows);
            row_idx = row_idx + 16;
        }
        if row_idx < dim {
            let leftover: usize = dim - row_idx;
            if leftover <= 8 {
                push_block::<8>(db, &lhs, row_idx, leftover, &mut c_rows);
            } else {
                push_block::<16>(db, &lhs, row_idx, leftover, &mut c_rows);
            }
        }
        let ghost seed = public_seed@;
        assert forall|r: int| 0 <= r < dim implies (#[trigger] c_rows@[r])@ == db.answer(
            lwe_row(seed, dim as nat, db.m as nat, r),
        ) by {
            assert(row_prefix(lhs@, r, db.m as nat) == lwe_row(
                seed,
                dim as nat,
                m as nat,
                r,
            ));
        }
        let mut flat_col_major: Vec<u32> = Vec::with_capacity(width * dim);
        for col in 0..width
            invariant
                width == db.width,
                c_rows@.len() == dim,
                forall|r: int|
                    0 <= r < dim ==> (#[trigger] c_rows@[r])@ == db.answer(
                        lwe_row(seed, dim as nat, db.m as nat, r),
                    ),
                flat_col_major@.len() == col * dim,
                col <= width,
                flat_col_major@ == params_rhs(db, seed, dim as nat).take(col * dim),
        {
            for row in 0..dim
                invariant
                    width == db.width,
                    col < width,
                    c_rows@.len() == dim,
                    forall|r: int|
                        0 <= r < dim ==> (#[trigger] c_rows@[r])@ == db.answer(
                            lwe_row(seed, dim as nat, db.m as nat, r),
                        ),
                    flat_col_major@.len() == col * dim + row,
                    flat_col_major@ == params_rhs(db, seed, dim as nat).take(col * dim + row),
            {
                proof {
                    lemma_flat_index(col as int, row as int, width as int, dim as int);
                    assert(params_rhs(db, seed, dim as nat).take(col * dim + row + 1)
                        =~= params_rhs(db, seed, dim as nat).take(col * dim + row).push(
                        c_rows@[row as int]@[col as int],
                    ));
                }
                flat_col_major.push(c_rows[row][col]);
            }
            assert((col + 1) * dim == col * dim + dim) by (nonlinear_arith);
        }
        assert(params_rhs(db, seed, dim as nat).take(width * dim) =~= params_rhs(
            db,
            seed,
            dim as nat,
        ));
        flat_col_major
    }

    /// These are the parameters of the database for this dimension and the seed that they hold.
    pub open spec fn is_for(&self, db: &Database, dim: int) -> bool {
        &&& self.dim == dim
        &&& self.m == db.m
        &&& self.elem_size == db.elem_size
        &&& self.plaintext_bits == db.plaintext_bits
        &&& self.rhs@ == params_rhs(db, self.public_seed@, dim as nat)
    }

    /// The parameters of a database, for a given seed of the public matrix.
    pub fn with_seed(db: &Database, dim: usize, public_seed: [u8; 32]) -> (params: Self)
        requires
            db.wf(),
            4 * (dim * db.m) <= usize::MAX,
            db.width * dim <= usize::MAX,
        ensures
            params.public_seed == public_seed,
            params.is_for(db, dim as int),
    {
        BaseParams {
            public_seed,
            rhs: BaseParams::generate_params_rhs(db, public_seed, dim, db.m),
            dim,
            m: db.m,
            elem_size: db.elem_size,
            plaintext_bits: db.plaintext_bits,
        }
    }

    /// The parameters of a database, for a seed that is drawn at random.
    pub fn new(db: &Database, dim: usize) -> (params: Self)
        requires
            db.wf(),
            4 * (dim * db.m) <= usize::MAX,
            db.width * dim <= usize::MAX,
        ensures
            params.is_for(db, dim as int),
    {
        BaseParams::with_seed(db, dim, generate_seed())
    }

    /// The number of columns of the right-hand side.
    pub open spec fn rhs_width(&self) -> int {
        self.rhs@.len() as int / self.dim as int
    }

    /// Column `c` of the right-hand side.
    pub open spec fn rhs_column(&self, c: int) -> Seq<u32> {
        self.rhs@.subrange(c * self.dim, c * self.dim + self.dim)
    }

    /// The product of a secret vector and the right-hand side, modulo 2^32.
    pub open spec fn right_product(&self, s: Seq<u32>) -> Seq<u32> {
        Seq::new(self.rhs_width() as nat, |c: int| wrap(dot(s, self.rhs_column(c))))
    }

    /// The columns lie within the right-hand side.
    proof fn lemma_rhs_columns(&self, c: int)
        requires
            self.dim > 0,
            0 <= c < self.rhs_width(),
        ensures
            0 <= c * self.dim,
            c * self.dim + self.dim <= self.rhs@.len(),
    {
        let w = self.rhs_width();
        lemma_fundamental_div_mod(self.rhs@.len() as int, self.dim as int);
        lemma_mod_bound(self.rhs@.len() as int, self.dim as int);
        assert(self.dim * w == w * self.dim) by (nonlinear_arith);
        lemma_flat_index(c, 0, w, self.dim as int);
    }

    /// Computes `c = s * (A * DB)`, where `A * DB` is the right-hand side of the parameters.
    pub fn mult_right(&self, s: &[u32]) -> (res: Result<Vec<u32>, PirError>)
        requires
            self.dim > 0,
            self.rhs_width() > 0 ==> s@.len() == self.dim,
        ensures
            res is Ok,
            res->Ok_0@ == self.right_product(s@),
    {
        let width: usize = self.rhs.len() / self.dim;
        let mult_column = |i: usize| -> (value: u32)
            requires
                self.dim > 0,
                i < self.rhs_width(),
                s@.len() == self.dim,
            ensures
                value == wrap(dot(s@, self.rhs_column(i as int))),
            {
                proof {
                    self.lemma_rhs_columns(i as int);
                    assert(self.rhs@.len() == self.rhs.len());
                }
                let start: usize = i * self.dim;
                let col: &[u32] = slice_subrange(self.rhs.as_slice(), start, start + self.dim);
                vec_mult_u32_u32(s, col).unwrap()
            };
        let res = par_map(width, mult_column);
        assert(res@ =~= self.right_product(s@));
        Ok(res)
    }

    /// Computes `c = s * (A * DB)` for interleaved vectors.
    pub fn mult_right_batched_n<const N: usize>(&self, s_interleaved: &[[u32; N]]) -> (res: Result<
        Vec<[u32; N]>,
        PirError,
    >)
        requires
            self.dim > 0,
            self.rhs_width() > 0 ==> s_interleaved@.len() == self.dim,
        ensures
            res is Ok,
            res->Ok_0@.len() == self.rhs_width(),
            forall|j: int|
                0 <= j < N ==> #[trigger] lane(res->Ok_0@, j) == self.right_product(
                    lane(s_interleaved@, j),
                ),
    {
        let width: usize = self.rhs.len() / self.dim;
        let mult_column = |i: usize| -> (lanes: [u32; N])
            requires
                self.dim > 0,
                i < self.rhs_width(),
                s_interleaved@.len() == self.dim,
            ensures
                forall|j: int|
                    0 <= j < N ==> #[trigger] lanes@[j] == wrap(
                        dot(lane(s_interleaved@, j), self.rhs_column(i as int)),
                    ),
            {
                proof {
                    self.lemma_rhs_columns(i as int);
                    assert(self.rhs@.len() == self.rhs.len());
                }
                let start: usize = i * self.dim;
                let col: &[u32] = slice_subrange(self.rhs.as_slice(), start, start + self.dim);
                vec_mult_lanes(s_interleaved, col)
            };
        let res = par_map(width, mult_column);
        proof {
            assert forall|j: int| 0 <= j < N implies #[trigger] lane(res@, j) == self.right_product(
                lane(s_interleaved@, j),
            ) by {
                assert forall|c: int| 0 <= c < width implies lane(res@, j)[c] == self.right_product(
                    lane(s_interleaved@, j),
                )[c] by {
                    assert(res@[c]@[j] == wrap(
                        dot(lane(s_interleaved@, j), self.rhs_column(c)),
                    ));
                }
                assert(lane(res@, j) =~= self.right_product(lane(s_interleaved@, j)));
            }
        }
        Ok(res)
    }

    /// The number of elements of the database.
    pub fn get_total_records(&self) -> (m: usize)
        ensures
            m == self.m,
    {
        self.m
    }

    /// The dimension of the learning-with-errors scheme.
    pub fn get_dim(&self) -> (dim: usize)
        ensures
            dim == self.dim,
    {
        self.dim
    }

    /// The size of an element in bits.
    pub fn get_elem_size(&self) -> (elem_size: usize)
        ensures
            elem_size == self.elem_size,
    {
        self.elem_size
    }

    /// The number of bits of an element that an entry holds.
    pub fn get_plaintext_bits(&self) -> (plaintext_bits: usize)
        ensures
            plaintext_bits == self.plaintext_bits,
    {
        self.plaintext_bits
    }
}

/// The inner product of each lane and one vector, modulo 2^32.
pub fn vec_mult_lanes<const N: usize>(s_interleaved: &[[u32; N]], col: &[u32]) -> (acc: [u32; N])
    requires
        s_interleaved@.len() == col@.len(),
    ensures
        forall|j: int|
            0 <= j < N ==> #[trigger] acc@[j] == wrap(dot(lane(s_interleaved@, j), col@)),
{
    let mut acc: [u32; N] = [0u32; N];
    for i in 0..col.len()
        invariant
            s_interleaved@.len() == col@.len(),
            forall|j: int|
                0 <= j < N ==> #[trigger] acc@[j] == wrap(
                    sum(products(lane(s_interleaved@, j), col@), 0, i as int),
                ),
    {
        let c: u32 = col[i];
        let s: &[u32; N] = &s_interleaved[i];
        let ghost before = acc@;
        for j in 0..N
            invariant
                forall|k: int|
                    0 <= k < j ==> #[trigger] acc@[k] == before[k].wrapping_add(
                        s@[k].wrapping_mul(c),
                    ),
                forall|k: int| j <= k < N ==> acc@[k] == before[k],
        {
            acc[j] = acc[j].wrapping_add(s[j].wrapping_mul(c));
        }
        proof {
            assert forall|j: int| 0 <= j < N implies #[trigger] acc@[j] == wrap(
                sum(products(lane(s_interleaved@, j), col@), 0, i + 1),
            ) by {
                let f = products(lane(s_interleaved@, j), col@);
                lemma_accumulate(sum(f, 0, i as int), s@[j], c);
                assert(before[j] == wrap(sum(f, 0, i as int)));
                assert(sum(f, 0, i + 1) == sum(f, 0, i as int) + f(i as int));
            }
        }
    }
    acc
}

/// Draws a seed for the public matrix. Chance decides, so nothing is said of its bytes.
fn generate_seed() -> (seed: [u8; 32]) {
    os_random_seed()
}

/// The public matrix, which clients and servers derive from the seed.
pub struct CommonParams {
    /// The columns of the matrix, one after the other.
    pub matrix: Vec<u32>,
    /// The number of columns.
    pub m: usize,
    /// The length of a column.
    pub dim: usize,
}

impl CommonParams {
    /// The columns fill the matrix.
    pub open spec fn wf(&self) -> bool {
        self.matrix@.len() == self.m * self.dim
    }

    /// Column `i` of the matrix.
    pub open spec fn column(&self, i: int) -> Seq<u32> {
        self.matrix@.subrange(i * self.dim, i * self.dim + self.dim)
    }

    /// The matrix is the one that the seed of the parameters stands for.
    pub open spec fn derived_from(&self, params: &BaseParams) -> bool {
        &&& self.wf()
        &&& self.m == params.m
        &&& self.dim == params.dim
        &&& forall|i: int|
            0 <= i < self.m ==> #[trigger] self.column(i) == lwe_column(
                params.public_seed@,
                params.dim as nat,
                params.m as nat,
                i,
            )
    }

    /// The product of a secret vector and the matrix, with an error added to each entry, modulo
    /// 2^32.
    pub open spec fn masked(&self, s: Seq<u32>, e: Seq<u32>) -> Seq<u32> {
        Seq::new(self.m as nat, |i: int| wrap(dot(s, self.column(i)) + e[i]))
    }

    /// A vector is the masked product for some ternary errors.
    pub open spec fn is_masked(&self, s: Seq<u32>, b: Seq<u32>) -> bool {
        exists|e: Seq<u32>|
            e.len() == self.m && all_ternary(e) && b == #[trigger] self.masked(s, e)
    }

    /// Derives the public matrix from the parameters.
    pub fn from(params: &BaseParams) -> (common: Self)
        requires
            4 * (params.dim * params.m) <= usize::MAX,
        ensures
            common.derived_from(params),
    {
        let cols = generate_lwe_matrix_from_seed(params.public_seed, params.dim, params.m);
        let common = CommonParams {
            matrix: flatten_matrix_row_major(&cols),
            m: params.m,
            dim: params.dim,
        };
        proof {
            let dim = params.dim as int;
            lemma_flat_entry(cols@, dim, 0, 0);
            assert forall|i: int| 0 <= i < common.m implies #[trigger] common.column(i)
                == lwe_column(params.public_seed@, params.dim as nat, params.m as nat, i) by {
                assert((i + 1) * dim == i * dim + dim) by (nonlinear_arith);
                assert((i + 1) * dim <= common.m * dim) by (nonlinear_arith)
                    requires
                        0 <= i < common.m,
                        dim >= 0,
                ;
                assert(0 <= i * dim) by (nonlinear_arith)
                    requires
                        0 <= i,
                        dim >= 0,
                ;
                assert forall|r: int| 0 <= r < dim implies common.column(i)[r] == cols@[i]@[r] by {
                    lemma_flat_entry(cols@, dim, i, r);
                }
                assert(common.column(i) =~= cols@[i]@);
            }
        }
        common
    }

    /// The matrix, column after column.
    pub fn as_matrix_flat(&self) -> (matrix: &[u32])
        ensures
            matrix@ == self.matrix@,
    {
        self.matrix.as_slice()
    }

    /// The columns lie within the matrix.
    proof fn lemma_columns(&self, i: int)
        requires
            self.wf(),
            0 <= i < self.m,
        ensures
            0 <= i * self.dim,
            i * self.dim + self.dim <= self.matrix@.len(),
    {
        assert(0 <= i * self.dim) by (nonlinear_arith)
            requires
                0 <= i,
        ;
        assert(i * self.dim + self.dim <= self.m * self.dim) by (nonlinear_arith)
            requires
                0 <= i < self.m,
        ;
    }

    /// Computes `b = s * A + e` for given errors.
    pub fn mult_left_with_errors(&self, s: &[u32], e: &[u32]) -> (res: Vec<u32>)
        requires
            self.wf(),
            self.m > 0 ==> s@.len() == self.dim,
            e@.len() == self.m,
        ensures
            res@ == self.masked(s@, e@),
    {
        let mult_column = |i: usize| -> (value: u32)
            requires
                self.wf(),
                i < self.m,
                s@.len() == self.dim,
                e@.len() == self.m,
            ensures
                value == wrap(dot(s@, self.column(i as int)) + e@[i as int]),
            {
                proof {
                    self.lemma_columns(i as int);
                    assert(self.matrix@.len() == self.matrix.len());
                    lemma_wrapping_add(dot(s@, self.column(i as int)), e@[i as int] as int);
                }
                let start: usize = i * self.dim;
                let col: &[u32] = slice_subrange(self.matrix.as_slice(), start, start + self.dim);
                let s_a: u32 = vec_mult_u32_u32(s, col).unwrap();
                s_a.wrapping_add(e[i])
            };
        let res = par_map(self.m, mult_column);
        assert(res@ =~= self.masked(s@, e@));
        res
    }

    /// Computes `b = s * A + e`, with ternary errors that are drawn at random.
    pub fn mult_left(&self, s: &[u32]) -> (res: Result<Vec<u32>, PirError>)
        requires
            self.wf(),
            self.m > 0 ==> s@.len() == self.dim,
        ensures
            res is Ok,
            self.is_masked(s@, res->Ok_0@),
    {
        let e = random_ternary_vector(self.m);
        Ok(self.mult_left_with_errors(s, &e))
    }

    /// Computes `b = s * A + e` for interleaved vectors and given errors.
    pub fn mult_left_batched_with_errors<const N: usize>(
        &self,
        s_interleaved: &[[u32; N]],
        e_interleaved: &[[u32; N]],
    ) -> (res: Vec<[u32; N]>)
        requires
            self.wf(),
            self.m > 0 ==> s_interleaved@.len() == self.dim,
            e_interleaved@.len() == self.m,
        ensures
            res@.len() == self.m,
            forall|j: int|
                0 <= j < N ==> #[trigger] lane(res@, j) == self.masked(
                    lane(s_interleaved@, j),
                    lane(e_interleaved@, j),
                ),
    {
        let mult_column = |i: usize| -> (lanes: [u32; N])
            requires
                self.wf(),
                i < self.m,
                s_interleaved@.len() == self.dim,
                e_interleaved@.len() == self.m,
            ensures
                forall|j: int|
                    0 <= j < N ==> #[trigger] lanes@[j] == wrap(
                        dot(lane(s_interleaved@, j), self.column(i as int))
                            + e_interleaved@[i as int]@[j],
                    ),
            {
                proof {
                    self.lemma_columns(i as int);
                    assert(self.matrix@.len() == self.matrix.len());
                }
                let start: usize = i * self.dim;
                let col: &[u32] = slice_subrange(self.matrix.as_slice(), start, start + self.dim);
                let mut acc: [u32; N] = vec_mult_lanes(s_interleaved, col);
                let ghost before = acc@;
                let e: &[u32; N] = &e_interleaved[i];
                for j in 0..N
                    invariant
                        forall|k: int|
                            0 <= k < j ==> #[trigger] acc@[k] == before[k].wrapping_add(e@[k]),
                        forall|k: int| j <= k < N ==> acc@[k] == before[k],
                {
                    acc[j] = acc[j].wrapping_add(e[j]);
                }
                proof {
                    assert forall|j: int| 0 <= j < N implies #[trigger] acc@[j] == wrap(
                        dot(lane(s_interleaved@, j), self.column(i as int)) + e@[j],
                    ) by {
                        lemma_wrapping_add(
                            dot(lane(s_interleaved@, j), self.column(i as int)),
                            e@[j] as int,
                        );
                        assert(before[j] == wrap(
                            dot(lane(s_interleaved@, j), self.column(i as int)),
                        ));
                    }
                }
                acc
            };
        let res = par_map(self.m, mult_column);
        proof {
            assert forall|j: int| 0 <= j < N implies #[trigger] lane(res@, j) == self.masked(
                lane(s_interleaved@, j),
                lane(e_interleaved@, j),
            ) by {
                let expected = self.masked(lane(s_interleaved@, j), lane(e_interleaved@, j));
                assert forall|i: int| 0 <= i < self.m implies lane(res@, j)[i] == expected[i] by {
                    assert(res@[i]@[j] == wrap(
                        dot(lane(s_interleaved@, j), self.column(i)) + e_interleaved@[i]@[j],
                    ));
                }
                assert(lane(res@, j) =~= expected);
            }
        }
        res
    }

    /// Computes `b = s * A + e` for interleaved vectors, with ternary errors that are drawn at
    /// random.
    pub fn mult_left_batched_n<const N: usize>(&self, s_interleaved: &[[u32; N]]) -> (res: Result<
        Vec<[u32; N]>,
        PirError,
    >)
        requires
            self.wf(),
            self.m > 0 ==> s_interleaved@.len() == self.dim,
        ensures
            res is Ok,
            res->Ok_0@.len() == self.m,
            forall|j: int|
                0 <= j < N ==> self.is_masked(
                    lane(s_interleaved@, j),
                    #[trigger] lane(res->Ok_0@, j),
                ),
    {
        let e = random_ternary_lanes::<N>(self.m);
        Ok(self.mult_left_batched_with_errors::<N>(s_interleaved, &e))
    }
}

/// Interleaved vectors of ternary values that are drawn one by one.
pub fn random_ternary_lanes<const N: usize>(width: usize) -> (v: Vec<[u32; N]>)
    ensures
        v@.len() == width,
        forall|j: int| 0 <= j < N ==> all_ternary(#[trigger] lane(v@, j)),
{
    let draw = |i: usize| -> (lanes: [u32; N])
        ensures
            all_ternary(lanes@),
        {
            let mut lanes: [u32; N] = [0u32; N];
            for j in 0..N
                invariant
                    forall|k: int| 0 <= k < j ==> is_ternary(#[trigger] lanes@[k]),
            {
                lanes[j] = random_ternary();
            }
            lanes
        };
    let v = par_map(width, draw);
    proof {
        assert forall|j: int| 0 <= j < N implies all_ternary(#[trigger] lane(v@, j)) by {
            assert forall|i: int| 0 <= i < width implies is_ternary(#[trigger] lane(v@, j)[i]) by {
                assert(all_ternary(v@[i]@));
                assert(is_ternary(v@[i]@[j]));
            }
        }
    }
    v
}

} // verus!
