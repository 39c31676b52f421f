//! Embedding sparse rows: random mixing of the columns, and then Frequent Directions.

use vstd::arithmetic::div_mod::lemma_div_multiples_vanish;
use vstd::prelude::*;
use vstd::string::StringExecFns;

use crate::fd::{basis_fails, fd_fit, fd_reduce, fit_fails, is_basis, is_fitted_projection};
use crate::fd::{is_reduction, FdError, Stage};
use crate::linalg::{mat_mul_returns, LinearAlgebra};
use crate::matrix::{has_shape, is_projection, Matrix};
use crate::random::{chosen_seed, is_sign, random_signs, seed_or_default, std_rng_bool};
use crate::scalar::Scalar;
use crate::sparse::{
    column_entry, csr_matmul_columns, csr_matmul_omega, flat_entry, is_readable, is_readable_row,
    is_sparse_product, whole_rows,
};
use crate::text::{decimal, push_decimal};

verus! {

impl FdError {
    /// What is reported of the error.
    pub open spec fn text(self) -> Seq<char> {
        match self {
            FdError::InvalidK => "Invalid k"@,
            FdError::SvdFailed(Stage::Reduce, report) => "SVD failed: "@ + report@,
            FdError::SvdFailed(Stage::Fit, report) => "Final SVD failed: "@ + report@,
            FdError::SvdFailed(Stage::Shrink, report) => "SVD (shrink) failed: "@ + report@,
            FdError::UMissing(Stage::Reduce) => "SVD: U missing"@,
            FdError::UMissing(Stage::Fit) => "Final SVD: U missing"@,
            FdError::UMissing(Stage::Shrink) => "SVD (shrink): U missing"@,
            FdError::VtMissing(Stage::Reduce) => "SVD: VT missing"@,
            FdError::VtMissing(Stage::Fit) => "Final SVD: VT missing"@,
            FdError::VtMissing(Stage::Shrink) => "SVD (shrink): VT missing"@,
            FdError::BadShape(Stage::Reduce) => "SVD: bad shape"@,
            FdError::BadShape(Stage::Fit) => "Final SVD: bad shape"@,
            FdError::BadShape(Stage::Shrink) => "SVD (shrink): bad shape"@,
            FdError::ColumnsMismatch { input, model } => "n_cols mismatch: input n_cols="@
                + decimal(input as nat) + " but model expects "@ + decimal(model as nat),
        }
    }

    /// What is reported of the error.
    pub fn message(&self) -> (msg: String)
        ensures
            msg@ == self.text(),
    {
        match self {
            FdError::InvalidK => String::from_str("Invalid k"),
            FdError::SvdFailed(stage, report) => {
                let mut msg: String = String::from_str(
                    match stage {
                        Stage::Reduce => "SVD failed: ",
                        Stage::Fit => "Final SVD failed: ",
                        Stage::Shrink => "SVD (shrink) failed: ",
                    },
                );
                msg.append(report.as_str());
                msg
            },
            FdError::UMissing(stage) => String::from_str(
                match stage {
                    Stage::Reduce => "SVD: U missing",
                    Stage::Fit => "Final SVD: U missing",
                    Stage::Shrink => "SVD (shrink): U missing",
                },
            ),
            FdError::VtMissing(stage) => String::from_str(
                match stage {
                    Stage::Reduce => "SVD: VT missing",
                    Stage::Fit => "Final SVD: VT missing",
                    Stage::Shrink => "SVD (shrink): VT missing",
                },
            ),
            FdError::BadShape(stage) => String::from_str(
                match stage {
                    Stage::Reduce => "SVD: bad shape",
                    Stage::Fit => "Final SVD: bad shape",
                    Stage::Shrink => "SVD (shrink): bad shape",
                },
            ),
            FdError::ColumnsMismatch { input, model } => {
                let mut msg: String = String::from_str("n_cols mismatch: input n_cols=");
                push_decimal(&mut msg, *input as u128);
                msg.append(" but model expects ");
                push_decimal(&mut msg, *model as u128);
                msg
            },
        }
    }
}

/// A fitted embedding.
pub struct FdEmbedModel<T> {
    /// The number of columns of the input.
    pub n_cols: usize,
    /// The number of directions.
    pub k: usize,
    /// How many more columns than directions the mixed input has.
    pub oversample: usize,
    /// The fitted directions, as columns.
    pub projection: Matrix<T>,
    /// The mixing matrix, its rows one after another.
    pub omega: Vec<T>,
    /// The number of columns of the mixed input.
    pub m: usize,
}

impl<T: Scalar> FdEmbedModel<T> {
    /// The mixing matrix has a row for every column of the input, and the directions have an
    /// entry for every column of the mixed input.
    pub open spec fn wf(self) -> bool {
        &&& self.m == self.k + self.oversample
        &&& self.omega@.len() == self.n_cols * self.m
        &&& self.projection.wf()
        &&& self.projection.ncols == self.k
        &&& self.projection@.len() == self.m
    }
}

/// The random signs of a seed, in rows of any width one after another.
pub open spec fn is_sign_matrix<T: Scalar>(seed: u64, len: int, omega: Seq<T>) -> bool {
    &&& omega.len() == len
    &&& forall|i: int| 0 <= i < len ==> is_sign(std_rng_bool(seed, i), #[trigger] omega[i])
}

/// The random signs of a seed, in columns of length `n_cols` one after another.
pub open spec fn is_sign_columns<T: Scalar>(
    seed: u64,
    n_cols: int,
    width: int,
    omega_t: Seq<Vec<T>>,
) -> bool {
    &&& omega_t.len() == width
    &&& forall|t: int| 0 <= t < width ==> (#[trigger] omega_t[t])@.len() == n_cols
    &&& forall|t: int, j: int|
        0 <= t < width && 0 <= j < n_cols ==> is_sign(
            std_rng_bool(seed, t * n_cols + j),
            #[trigger] omega_t[t]@[j],
        )
}

/// An entry of one of `width` columns of length `n_cols` has its place among all of them.
proof fn lemma_place(n_cols: int, width: int, t: int)
    requires
        0 <= t < width,
        0 <= n_cols,
    ensures
        0 <= t * n_cols,
        t * n_cols + n_cols <= n_cols * width,
{
    assert(0 <= t * n_cols && t * n_cols + n_cols <= n_cols * width) by (nonlinear_arith)
        requires
            0 <= t < width,
            0 <= n_cols,
    ;
}

/// The random signs of a seed as the columns of a matrix.
pub fn sign_columns<T: Scalar>(seed: u64, n_cols: usize, width: usize) -> (omega_t: Vec<Vec<T>>)
    requires
        n_cols * width <= isize::MAX,
    ensures
        is_sign_columns(seed, n_cols as int, width as int, omega_t@),
{
    let signs: Vec<T> = random_signs(seed, n_cols * width);
    let mut omega_t: Vec<Vec<T>> = Vec::new();
    let mut t: usize = 0;
    while t < width
        invariant
            t <= width,
            n_cols * width <= isize::MAX,
            signs@.len() == n_cols * width,
            forall|i: int|
                0 <= i < n_cols * width ==> is_sign(std_rng_bool(seed, i), #[trigger] signs@[i]),
            omega_t@.len() == t,
            forall|l: int| 0 <= l < t ==> (#[trigger] omega_t@[l])@.len() == n_cols,
            forall|l: int, j: int|
                0 <= l < t && 0 <= j < n_cols ==> is_sign(
                    std_rng_bool(seed, l * n_cols + j),
                    #[trigger] omega_t@[l]@[j],
                ),
        decreases width - t,
    {
        proof {
            lemma_place(n_cols as int, width as int, t as int);
        }
        let start: usize = t * n_cols;
        let mut col: Vec<T> = Vec::new();
        let mut j: usize = 0;
        while j < n_cols
            invariant
                j <= n_cols,
                start == t * n_cols,
                start + n_cols <= signs@.len(),
                signs@.len() == n_cols * width <= isize::MAX,
                forall|i: int|
                    0 <= i < n_cols * width ==> is_sign(
                        std_rng_bool(seed, i),
                        #[trigger] signs@[i],
                    ),
                col@.len() == j,
                forall|l: int|
                    0 <= l < j ==> is_sign(std_rng_bool(seed, start + l), #[trigger] col@[l]),
            decreases n_cols - j,
        {
            assert(is_sign(std_rng_bool(seed, start + j), signs@[start + j]));
            col.push(signs[start + j]);
            j += 1;
        }
        omega_t.push(col);
        t += 1;
    }
    omega_t
}

/// What embedding sparse rows into `k` columns with the random signs of a seed returns:
/// `InvalidK` for no columns, and else the reduction of the mixed rows or the reason why it
/// fails.
pub open spec fn is_embedding<T: Scalar, L: LinearAlgebra<T>>(
    la: &L,
    data: Seq<T>,
    indices: Seq<i32>,
    indptr: Seq<i64>,
    n_rows: int,
    n_cols: int,
    k: int,
    oversample: int,
    seed: u64,
    r: Result<Matrix<T>, FdError>,
) -> bool {
    if k == 0 {
        r == Err::<Matrix<T>, FdError>(FdError::InvalidK)
    } else {
        exists|omega_t: Seq<Vec<T>>, y: Seq<Seq<T>>|
            {
                &&& #[trigger] is_sign_columns(seed, n_cols, k + oversample, omega_t)
                &&& #[trigger] is_sparse_product(
                    data,
                    indices,
                    indptr,
                    n_rows,
                    column_entry(omega_t),
                    k + oversample,
                    y,
                )
                &&& match r {
                    Ok(z) => {
                        &&& z.wf()
                        &&& z.ncols == k
                        &&& exists|vt: Matrix<T>|
                            {
                                &&& #[trigger] is_basis(la, y, k + oversample, k, vt)
                                &&& is_reduction(y, vt@, k + oversample, k, z@)
                            }
                    },
                    Err(e) => basis_fails(la, y, k + oversample, k, e),
                }
            }
    }
}

/// Embeds sparse rows into `k` columns: mixes the columns with the random signs of the seed,
/// and reduces the result.
pub fn compute_fd_embed<T: Scalar, L: LinearAlgebra<T>>(
    data: &[T],
    indices: &[i32],
    indptr: &[i64],
    n_rows: usize,
    n_cols: usize,
    k: usize,
    oversample: usize,
    seed: Option<u64>,
    la: &L,
) -> (r: Result<Matrix<T>, FdError>)
    requires
        k + oversample <= usize::MAX,
        n_cols * (k + oversample) <= isize::MAX,
        8 * k <= usize::MAX,
        is_readable(
            data@.len() as int,
            indices@,
            indptr@,
            n_rows as int,
            n_cols as int,
            k + oversample,
        ),
    ensures
        is_embedding(
            la,
            data@,
            indices@,
            indptr@,
            n_rows as int,
            n_cols as int,
            k as int,
            oversample as int,
            seed_or_default(seed),
            r,
        ),
{
    let out_w: usize = k + oversample;
    let s: u64 = chosen_seed(seed);
    let omega_t: Vec<Vec<T>> = sign_columns(s, n_cols, out_w);
    let y: Matrix<T> = csr_matmul_columns(
        data,
        indices,
        indptr,
        n_rows,
        omega_t.as_slice(),
        n_cols,
    );
    proof {
        assert(is_sign_columns(seed_or_default(seed), n_cols as int, k + oversample, omega_t@));
        assert(is_sparse_product(
            data@,
            indices@,
            indptr@,
            n_rows as int,
            column_entry(omega_t@),
            k + oversample,
            y@,
        ));
    }
    fd_reduce(&y, k, la)
}

/// A mixing matrix of width `m` with a row for each of `n_cols` columns has exactly those
/// rows, so what can be read with it is what stays below `n_cols`.
pub proof fn lemma_readable_flat(
    data_len: int,
    indices: Seq<i32>,
    indptr: Seq<i64>,
    n_rows: int,
    n_cols: int,
    m: int,
)
    requires
        0 <= m,
        is_readable(data_len, indices, indptr, n_rows, n_cols, m),
    ensures
        is_readable(data_len, indices, indptr, n_rows, whole_rows(n_cols * m, m), m),
{
    if m > 0 {
        lemma_div_multiples_vanish(n_cols, m);
        assert(n_cols * m == m * n_cols) by (nonlinear_arith);
        assert forall|row: int| 0 <= row < n_rows && m > 0 implies #[trigger] is_readable_row(
            data_len,
            indices,
            indptr,
            whole_rows(n_cols * m, m),
            row,
        ) by {
            assert(is_readable_row(data_len, indices, indptr, n_cols, row));
        }
    }
}

/// What fitting an embedding of sparse rows into `k` columns with the random signs of a seed
/// returns: `InvalidK` for no columns, and else the model with the embedded rows or the
/// reason why it fails.
pub open spec fn is_fit<T: Scalar, L: LinearAlgebra<T>>(
    la: &L,
    data: Seq<T>,
    indices: Seq<i32>,
    indptr: Seq<i64>,
    n_rows: int,
    n_cols: int,
    k: int,
    oversample: int,
    seed: u64,
    r: Result<(FdEmbedModel<T>, Matrix<T>), FdError>,
) -> bool {
    if k == 0 {
        r == Err::<(FdEmbedModel<T>, Matrix<T>), FdError>(FdError::InvalidK)
    } else {
        exists|omega: Seq<T>, y: Seq<Seq<T>>|
            {
                &&& #[trigger] is_sign_matrix(seed, n_cols * (k + oversample), omega)
                &&& #[trigger] is_sparse_product(
                    data,
                    indices,
                    indptr,
                    n_rows,
                    flat_entry(omega, k + oversample),
                    k + oversample,
                    y,
                )
                &&& match r {
                    Ok((model, z)) => {
                        &&& model.wf()
                        &&& model.n_cols == n_cols
                        &&& model.k == k
                        &&& model.oversample == oversample
                        &&& model.omega@ == omega
                        &&& is_fitted_projection(la, y, k + oversample, k, model.projection@)
                        &&& z.wf()
                        &&& z.ncols == k
                        &&& has_shape(z@, n_rows, k)
                        &&& mat_mul_returns(la, y, model.projection@, k, z)
                    },
                    Err(e) => fit_fails(la, y, k + oversample, k, e),
                }
            }
    }
}

/// Fits an embedding of sparse rows into `k` columns, and embeds the rows: mixes the columns
/// with the random signs of the seed, and fits directions to the result.
pub fn compute_fd_fit<T: Scalar, L: LinearAlgebra<T>>(
    data: &[T],
    indices: &[i32],
    indptr: &[i64],
    n_rows: usize,
    n_cols: usize,
    k: usize,
    oversample: usize,
    seed: Option<u64>,
    la: &L,
) -> (r: Result<(FdEmbedModel<T>, Matrix<T>), FdError>)
    requires
        k + oversample <= usize::MAX,
        n_cols * (k + oversample) <= isize::MAX,
        8 * k <= usize::MAX,
        is_readable(
            data@.len() as int,
            indices@,
            indptr@,
            n_rows as int,
            n_cols as int,
            k + oversample,
        ),
    ensures
        is_fit(
            la,
            data@,
            indices@,
            indptr@,
            n_rows as int,
            n_cols as int,
            k as int,
            oversample as int,
            seed_or_default(seed),
            r,
        ),
{
    let m: usize = k + oversample;
    let s: u64 = chosen_seed(seed);
    let omega: Vec<T> = random_signs(s, n_cols * m);
    proof {
        lemma_readable_flat(
            data@.len() as int,
            indices@,
            indptr@,
            n_rows as int,
            n_cols as int,
            m as int,
        );
    }
    let y: Matrix<T> = csr_matmul_omega(data, indices, indptr, n_rows, omega.as_slice(), m);
    proof {
        assert(is_sign_matrix(seed_or_default(seed), n_cols * (k + oversample), omega@));
        assert(is_sparse_product(
            data@,
            indices@,
            indptr@,
            n_rows as int,
            flat_entry(omega@, k + oversample),
            k + oversample,
            y@,
        ));
    }
    match fd_fit(&y, k, la) {
        Ok((z, projection)) => {
            let model: FdEmbedModel<T> = FdEmbedModel {
                n_cols,
                k,
                oversample,
                projection,
                omega,
                m,
            };
            Ok((model, z))
        },
        Err(e) => Err(e),
    }
}

/// Whether rows have as many columns as the model.
pub fn check_columns(n_cols: usize, model_n_cols: usize) -> (r: Result<(), FdError>)
    ensures
        n_cols == model_n_cols ==> r == Ok::<(), FdError>(()),
        n_cols != model_n_cols ==> r == Err::<(), FdError>(
            (FdError::ColumnsMismatch { input: n_cols, model: model_n_cols }),
        ),
{
    if n_cols != model_n_cols {
        return Err(FdError::ColumnsMismatch { input: n_cols, model: model_n_cols });
    }
    Ok(())
}

/// What embedding sparse rows with a fitted embedding returns: `ColumnsMismatch` for another
/// number of columns than the model's, and else the mixed rows along the fitted directions.
pub open spec fn is_transform<T: Scalar>(
    projection: Matrix<T>,
    omega: Seq<T>,
    model_n_cols: usize,
    m: int,
    data: Seq<T>,
    indices: Seq<i32>,
    indptr: Seq<i64>,
    n_rows: int,
    n_cols: usize,
    r: Result<Matrix<T>, FdError>,
) -> bool {
    if n_cols != model_n_cols {
        r == Err::<Matrix<T>, FdError>(
            (FdError::ColumnsMismatch { input: n_cols, model: model_n_cols }),
        )
    } else {
        r matches Ok(z) && z.wf() && z.ncols == projection.ncols && exists|y: Seq<Seq<T>>|
            {
                &&& #[trigger] is_sparse_product(
                    data,
                    indices,
                    indptr,
                    n_rows,
                    flat_entry(omega, m),
                    m,
                    y,
                )
                &&& is_projection(y, projection@, m, projection.ncols as int, z@)
            }
    }
}

/// Embeds sparse rows with a fitted embedding. Fails with `ColumnsMismatch` exactly where the
/// rows have another number of columns than the model.
pub fn compute_fd_transform<T: Scalar>(
    projection: &Matrix<T>,
    omega: &[T],
    model_n_cols: usize,
    m: usize,
    data: &[T],
    indices: &[i32],
    indptr: &[i64],
    n_rows: usize,
    n_cols: usize,
) -> (r: Result<Matrix<T>, FdError>)
    requires
        n_cols == model_n_cols ==> {
            &&& projection.wf()
            &&& is_readable(
                data@.len() as int,
                indices@,
                indptr@,
                n_rows as int,
                whole_rows(omega@.len() as int, m as int),
                m as int,
            )
            &&& n_rows > 0 && projection.ncols > 0 ==> m <= projection@.len()
        },
    ensures
        is_transform(
            *projection,
            omega@,
            model_n_cols,
            m as int,
            data@,
            indices@,
            indptr@,
            n_rows as int,
            n_cols,
            r,
        ),
{
    match check_columns(n_cols, model_n_cols) {
        Ok(()) => {},
        Err(e) => {
            return Err(e);
        },
    }
    let y_new: Matrix<T> = csr_matmul_omega(data, indices, indptr, n_rows, omega, m);
    let k: usize = projection.ncols;
    let z: Matrix<T> = y_new.projected(projection, m, k);
    assert(is_projection(y_new@, projection@, m as int, k as int, z@));
    Ok(z)
}

} // verus!
