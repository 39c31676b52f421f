//! What holds of embedding as a whole.

use vstd::prelude::*;

use crate::embed::{
    is_embedding, is_fit, is_sign_matrix, is_transform, lemma_readable_flat, FdEmbedModel,
};
use crate::fd::{
    basis_fails, fit_fails, is_shrunk, is_sketch, is_sketch_step, shrink_fails, sketch_rows,
    FdError,
};
use crate::linalg::{
    is_near_product, mat_mul_returns, multiplies_in_order, multiplies_within, same_matrix,
    succeeds, LinearAlgebra,
};
use crate::matrix::{column, has_shape, is_projection, Matrix};
use crate::random::{is_sign, std_rng_bool};
use crate::scalar::{functional, is_dot, lemma_dot_unique, Scalar};
use crate::sparse::{
    flat_entry, gathered, is_readable, is_sparse_product, row_end, row_start, stretch, whole_rows,
};

verus! {

/// How many rows of the sketch are in use after `i` rows have entered it.
pub open spec fn rows_in_use(k: int, i: int) -> int {
    let ell = sketch_rows(k);
    if i <= ell {
        i
    } else {
        k + 1 + (i - ell - 1) % (ell - k)
    }
}

/// A remainder grows by one, until it starts again at zero.
proof fn lemma_mod_next(q: int, d: int)
    requires
        0 <= q,
        0 < d,
    ensures
        0 <= q % d < d,
        (q + 1) % d == if q % d == d - 1 {
            0
        } else {
            q % d + 1
        },
{
    vstd::arithmetic::div_mod::lemma_fundamental_div_mod(q, d);
    vstd::arithmetic::div_mod::lemma_mod_bound(q, d);
    let a = q / d;
    let r = q % d;
    if r == d - 1 {
        assert(q + 1 == (a + 1) * d) by (nonlinear_arith)
            requires
                q == d * a + r,
                r == d - 1,
        ;
        vstd::arithmetic::div_mod::lemma_fundamental_div_mod_converse(q + 1, d, a + 1, 0);
    } else {
        assert(q + 1 == a * d + (r + 1)) by (nonlinear_arith)
            requires
                q == d * a + r,
        ;
        vstd::arithmetic::div_mod::lemma_fundamental_div_mod_converse(q + 1, d, a, r + 1);
    }
}

/// The shape of a sketch never changes, and how much of it is in use depends on the number
/// of rows that entered alone: every row is used until all are, and from then on the use
/// runs from `k + 1` rows to all of them over and over.
pub proof fn law_rows_in_use<T: Scalar, L: LinearAlgebra<T>>(
    la: &L,
    y: Seq<Seq<T>>,
    m: int,
    k: int,
    i: int,
    b: Seq<Seq<T>>,
    filled: int,
)
    requires
        0 < k,
        0 <= m,
        0 <= i <= y.len(),
        has_shape(y, y.len() as int, m),
        is_sketch(la, y, m, k, i, b, filled),
    ensures
        filled == rows_in_use(k, i),
        0 <= filled <= sketch_rows(k),
        has_shape(b, sketch_rows(k), m),
    decreases i,
{
    let ell = sketch_rows(k);
    if i > 0 {
        let (b0, filled0) = choose|b0: Seq<Seq<T>>, filled0: int|
            is_sketch(la, y, m, k, i - 1, b0, filled0) && #[trigger] is_sketch_step(
                la,
                y[i - 1],
                m,
                k,
                b0,
                filled0,
                b,
                filled,
            );
        law_rows_in_use(la, y, m, k, i - 1, b0, filled0);
        assert(y[i - 1].len() == m);
        if i - 1 > ell {
            lemma_mod_next(i - 1 - ell - 1, ell - k);
        }
        if i - 1 == ell {
            assert(0int % (ell - k) == 0) by (nonlinear_arith)
                requires
                    ell - k > 0,
            ;
        }
        if filled0 < ell {
            assert(has_shape(b, ell, m)) by {
                assert forall|r: int| 0 <= r < ell implies (#[trigger] b[r]).len() == m by {
                    if r != filled0 {
                        assert(b[r] == b0[r]);
                    }
                }
            }
        } else {
            let shrunk = choose|shrunk: Seq<Seq<T>>| #[trigger]
                is_shrunk(la, b0, m, k, shrunk) && b == shrunk.update(k, y[i - 1]);
            assert(has_shape(shrunk, ell, m));
            assert(has_shape(b, ell, m)) by {
                assert forall|r: int| 0 <= r < ell implies (#[trigger] b[r]).len() == m by {
                    if r != k {
                        assert(b[r] == shrunk[r]);
                    }
                }
            }
        }
    }
}

/// A sketch that keeps `k` directions has `8 * k` rows, and is shrunk when row `8 * k` enters
/// and at every `7 * k`-th row after it.
pub proof fn law_shrink_period(k: int, i: int)
    requires
        0 < k,
        0 <= i,
    ensures
        sketch_rows(k) == 8 * k,
        rows_in_use(k, i) == sketch_rows(k) <==> i >= 8 * k && (i - 8 * k) % (7 * k) == 0,
{
    let ell = sketch_rows(k);
    let d = 7 * k;
    assert(ell - k == d);
    if i == ell {
        assert(0int % d == 0) by (nonlinear_arith)
            requires
                d > 0,
        ;
    }
    if i > ell {
        lemma_mod_next(i - ell - 1, d);
    }
}

/// Where the operations are functions, a sparse product has one value.
pub proof fn law_sparse_product_is_determined<T: Scalar>(
    data: Seq<T>,
    indices: Seq<i32>,
    indptr: Seq<i64>,
    n_rows: int,
    entry: spec_fn(int, int) -> T,
    m: int,
    y1: Seq<Seq<T>>,
    y2: Seq<Seq<T>>,
)
    requires
        functional::<T>(),
        is_sparse_product(data, indices, indptr, n_rows, entry, m, y1),
        is_sparse_product(data, indices, indptr, n_rows, entry, m, y2),
    ensures
        y1 == y2,
{
    assert forall|row: int| 0 <= row < n_rows implies y1[row] == y2[row] by {
        assert(y1[row].len() == m && y2[row].len() == m);
        assert forall|t: int| 0 <= t < m implies y1[row][t] == y2[row][t] by {
            lemma_dot_unique(
                stretch(data, row_start(indptr, row), row_end(indptr, row)),
                gathered(
                    stretch(indices, row_start(indptr, row), row_end(indptr, row)),
                    entry,
                    t,
                ),
                y1[row][t],
                y2[row][t],
            );
        }
        assert(y1[row] =~= y2[row]);
    }
    assert(y1 =~= y2);
}

/// Where the operations are functions, a projection has one value: transforming the same rows
/// twice gives the same embedding.
pub proof fn law_projection_is_determined<T: Scalar>(
    y: Seq<Seq<T>>,
    p: Seq<Seq<T>>,
    m: int,
    k: int,
    z1: Seq<Seq<T>>,
    z2: Seq<Seq<T>>,
)
    requires
        functional::<T>(),
        is_projection(y, p, m, k, z1),
        is_projection(y, p, m, k, z2),
    ensures
        z1 == z2,
{
    assert forall|i: int| 0 <= i < y.len() implies z1[i] == z2[i] by {
        assert(z1[i].len() == k && z2[i].len() == k);
        assert forall|r: int| 0 <= r < k implies z1[i][r] == z2[i][r] by {
            lemma_dot_unique(y[i].take(m), column(p, m, r), z1[i][r], z2[i][r]);
        }
        assert(z1[i] =~= z2[i]);
    }
    assert(z1 =~= z2);
}

/// Where the operations are functions, a seed determines the mixing matrix.
pub proof fn law_signs_are_determined<T: Scalar>(seed: u64, len: int, a: Seq<T>, b: Seq<T>)
    requires
        functional::<T>(),
        is_sign_matrix(seed, len, a),
        is_sign_matrix(seed, len, b),
    ensures
        a == b,
{
    assert forall|i: int| 0 <= i < len implies a[i] == b[i] by {
        assert(is_sign(std_rng_bool(seed, i), a[i]));
        assert(is_sign(std_rng_bool(seed, i), b[i]));
    }
    assert(a =~= b);
}

/// A fitted embedding transforms every sparse matrix whose columns are among those it was
/// fitted to.
pub proof fn law_model_reads_its_columns<T: Scalar>(
    model: FdEmbedModel<T>,
    data_len: int,
    indices: Seq<i32>,
    indptr: Seq<i64>,
    n_rows: int,
)
    requires
        model.wf(),
        is_readable(data_len, indices, indptr, n_rows, model.n_cols as int, model.m as int),
    ensures
        is_readable(
            data_len,
            indices,
            indptr,
            n_rows,
            whole_rows(model.omega@.len() as int, model.m as int),
            model.m as int,
        ),
        model.m <= model.projection@.len(),
{
    lemma_readable_flat(
        data_len,
        indices,
        indptr,
        n_rows,
        model.n_cols as int,
        model.m as int,
    );
}

/// The mixed rows behind a fit are those behind a transform of the same rows.
proof fn lemma_fit_and_transform<T: Scalar, L: LinearAlgebra<T>>(
    la: &L,
    data: Seq<T>,
    indices: Seq<i32>,
    indptr: Seq<i64>,
    n_rows: int,
    n_cols: usize,
    k: int,
    oversample: int,
    seed: u64,
    model: FdEmbedModel<T>,
    z: Matrix<T>,
    r: Result<Matrix<T>, FdError>,
) -> (y: Seq<Seq<T>>)
    requires
        functional::<T>(),
        is_fit(
            la,
            data,
            indices,
            indptr,
            n_rows,
            n_cols as int,
            k,
            oversample,
            seed,
            Ok((model, z)),
        ),
        is_transform(
            model.projection,
            model.omega@,
            model.n_cols,
            model.m as int,
            data,
            indices,
            indptr,
            n_rows,
            n_cols,
            r,
        ),
    ensures
        model.wf(),
        model.k == k,
        has_shape(y, n_rows, model.m as int),
        z.ncols == k,
        has_shape(z@, n_rows, k),
        mat_mul_returns(la, y, model.projection@, k, z),
        r is Ok,
        (r->Ok_0).ncols == k,
        is_projection(y, model.projection@, model.m as int, k, (r->Ok_0)@),
{
    let (omega, y) = choose|omega: Seq<T>, y: Seq<Seq<T>>|
        {
            &&& #[trigger] is_sign_matrix(seed, n_cols * (k + oversample), omega)
            &&& #[trigger] is_sparse_product(
                data,
                indices,
                indptr,
                n_rows,
                flat_entry(omega, k + oversample),
                k + oversample,
                y,
            )
            &&& model.wf()
            &&& model.n_cols == n_cols
            &&& model.k == k
            &&& model.oversample == oversample
            &&& model.omega@ == omega
            &&& z.wf()
            &&& z.ncols == k
            &&& has_shape(z@, n_rows, k)
            &&& mat_mul_returns(la, y, model.projection@, k, z)
        };
    let entry = flat_entry(model.omega@, model.m as int);
    let seen = choose|seen: Seq<Seq<T>>|
        {
            &&& #[trigger] is_sparse_product(
                data,
                indices,
                indptr,
                n_rows,
                entry,
                model.m as int,
                seen,
            )
            &&& is_projection(
                seen,
                model.projection@,
                model.m as int,
                model.projection.ncols as int,
                (r->Ok_0)@,
            )
        };
    law_sparse_product_is_determined(
        data,
        indices,
        indptr,
        n_rows,
        entry,
        model.m as int,
        y,
        seen,
    );
    y
}

/// Transforming the rows that an embedding was fitted to gives the embedding that the fit
/// returned, up to the rounding of the matrix product that the fit was computed with, where
/// the operations on numbers are functions.
pub proof fn law_transform_is_near_fit<T: Scalar, L: LinearAlgebra<T>>(
    la: &L,
    close: spec_fn(T, T) -> bool,
    data: Seq<T>,
    indices: Seq<i32>,
    indptr: Seq<i64>,
    n_rows: int,
    n_cols: usize,
    k: int,
    oversample: int,
    seed: u64,
    model: FdEmbedModel<T>,
    z: Matrix<T>,
    r: Result<Matrix<T>, FdError>,
)
    requires
        functional::<T>(),
        multiplies_within(la, close),
        is_fit(
            la,
            data,
            indices,
            indptr,
            n_rows,
            n_cols as int,
            k,
            oversample,
            seed,
            Ok((model, z)),
        ),
        is_transform(
            model.projection,
            model.omega@,
            model.n_cols,
            model.m as int,
            data,
            indices,
            indptr,
            n_rows,
            n_cols,
            r,
        ),
    ensures
        r matches Ok(seen) && {
            &&& seen.ncols == z.ncols
            &&& has_shape(z@, n_rows, k)
            &&& has_shape(seen@, n_rows, k)
            &&& forall|i: int, c: int|
                0 <= i < n_rows && 0 <= c < k ==> close(z@[i][c], #[trigger] seen@[i][c])
        },
{
    let y = lemma_fit_and_transform(
        la, data, indices, indptr, n_rows, n_cols, k, oversample, seed, model, z, r,
    );
    let p = model.projection@;
    let seen = (r->Ok_0)@;
    assert(is_near_product(y, p, k, close, z@));
    assert forall|i: int, c: int| 0 <= i < n_rows && 0 <= c < k implies close(
        z@[i][c],
        #[trigger] seen[i][c],
    ) by {
        assert(is_dot(y[i].take(model.m as int), column(p, model.m as int, c), seen[i][c]));
        assert(y[i].take(model.m as int) =~= y[i]);
        assert(is_dot(y[i], column(p, p.len() as int, c), seen[i][c]));
    }
}

/// Transforming the rows that an embedding was fitted to gives exactly the embedding that the
/// fit returned, where the operations on numbers are functions and matrices are multiplied in
/// order.
pub proof fn law_transform_agrees_with_fit<T: Scalar, L: LinearAlgebra<T>>(
    la: &L,
    data: Seq<T>,
    indices: Seq<i32>,
    indptr: Seq<i64>,
    n_rows: int,
    n_cols: usize,
    k: int,
    oversample: int,
    seed: u64,
    model: FdEmbedModel<T>,
    z: Matrix<T>,
    r: Result<Matrix<T>, FdError>,
)
    requires
        functional::<T>(),
        multiplies_in_order(la),
        is_fit(
            la,
            data,
            indices,
            indptr,
            n_rows,
            n_cols as int,
            k,
            oversample,
            seed,
            Ok((model, z)),
        ),
        is_transform(
            model.projection,
            model.omega@,
            model.n_cols,
            model.m as int,
            data,
            indices,
            indptr,
            n_rows,
            n_cols,
            r,
        ),
    ensures
        r matches Ok(seen) && same_matrix(z, seen),
{
    let y = lemma_fit_and_transform(
        la, data, indices, indptr, n_rows, n_cols, k, oversample, seed, model, z, r,
    );
    law_projection_is_determined(
        y,
        model.projection@,
        model.m as int,
        k,
        z@,
        (r->Ok_0)@,
    );
}

/// A sketch shrinks where every decomposition and product succeeds.
proof fn lemma_shrink_succeeds<T: Scalar, L: LinearAlgebra<T>>(
    la: &L,
    b: Seq<Seq<T>>,
    m: int,
    k: int,
    e: FdError,
)
    requires
        succeeds(la),
    ensures
        !shrink_fails(la, b, m, k, e),
{
}

/// Neither a reduction nor a fit fails where every decomposition and product succeeds.
proof fn lemma_nothing_fails<T: Scalar, L: LinearAlgebra<T>>(
    la: &L,
    y: Seq<Seq<T>>,
    m: int,
    k: int,
    e: FdError,
)
    requires
        succeeds(la),
        0 < k <= m,
    ensures
        !basis_fails(la, y, m, k, e),
        !fit_fails(la, y, m, k, e),
{
    assert forall|b: Seq<Seq<T>>| !#[trigger] shrink_fails(la, b, m, k, e) by {
        lemma_shrink_succeeds(la, b, m, k, e);
    }
}

/// Where every decomposition and product succeeds, embedding fails exactly for no columns,
/// and else gives a row of `k` columns for every row.
pub proof fn law_embedding_succeeds<T: Scalar, L: LinearAlgebra<T>>(
    la: &L,
    data: Seq<T>,
    indices: Seq<i32>,
    indptr: Seq<i64>,
    n_rows: int,
    n_cols: int,
    k: int,
    oversample: int,
    seed: u64,
    r: Result<Matrix<T>, FdError>,
)
    requires
        succeeds(la),
        0 <= k,
        0 <= oversample,
        is_embedding(la, data, indices, indptr, n_rows, n_cols, k, oversample, seed, r),
    ensures
        r is Err <==> k == 0,
        r matches Ok(z) ==> z.ncols == k && has_shape(z@, n_rows, k),
{
    if k != 0 {
        assert forall|y: Seq<Seq<T>>, e: FdError| !#[trigger] basis_fails(
            la,
            y,
            k + oversample,
            k,
            e,
        ) by {
            lemma_nothing_fails(la, y, k + oversample, k, e);
        }
    }
}

/// Where every decomposition and product succeeds, fitting fails exactly for no columns, and
/// else gives a row of `k` columns for every row.
pub proof fn law_fit_succeeds<T: Scalar, L: LinearAlgebra<T>>(
    la: &L,
    data: Seq<T>,
    indices: Seq<i32>,
    indptr: Seq<i64>,
    n_rows: int,
    n_cols: int,
    k: int,
    oversample: int,
    seed: u64,
    r: Result<(FdEmbedModel<T>, Matrix<T>), FdError>,
)
    requires
        succeeds(la),
        0 <= k,
        0 <= oversample,
        is_fit(la, data, indices, indptr, n_rows, n_cols, k, oversample, seed, r),
    ensures
        r is Err <==> k == 0,
        r matches Ok((model, z)) ==> model.wf() && z.ncols == k && has_shape(z@, n_rows, k),
{
    if k != 0 {
        assert forall|y: Seq<Seq<T>>, e: FdError| !#[trigger] fit_fails(
            la,
            y,
            k + oversample,
            k,
            e,
        ) by {
            lemma_nothing_fails(la, y, k + oversample, k, e);
        }
    }
}

} // verus!
