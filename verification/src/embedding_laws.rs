//! What fitting and applying an embedding returns, from the sparse rows to the embedded ones.

use vstd::prelude::*;

use crate::embed::{compute_fd_embed, compute_fd_fit, compute_fd_transform, FdEmbedModel};
use crate::fd::{
    is_basis, is_final_sketch, is_fitted_projection, is_reduction, is_scaled_factor, is_shrunk,
    is_sketch, is_usable, is_usable_basis, is_usable_projection, shrink_fails, sketch_fails,
    sketch_rows, FdError, Stage,
};
use crate::linalg::{mat_mul_returns, svd_returns, LinearAlgebra, Svd};
use crate::matrix::{is_projection, Matrix};
use crate::mixing_laws::{
    adds_up, law_dot_adds_up, law_projection_adds_up, law_rows_mix_with_columns,
    law_rows_mix_with_omega, sum_steps,
};
use crate::random::{seed_or_default, std_rng_bool};
use crate::reproducible::{
    witness_basis, witness_embedding, witness_fit, witness_fitted, witness_shrink_fails,
};
use crate::scalar::Scalar;
use crate::sparse::{column_entry, flat_entry, is_sparse_product};

verus! {

/// The three arrays hold `n_rows` sparse rows: the boundaries never go down and stay inside, and
/// no column is negative.
pub open spec fn are_rows<T>(
    data: Seq<T>,
    indices: Seq<i32>,
    indptr: Seq<i64>,
    n_rows: int,
) -> bool {
    &&& indices.len() == data.len() <= usize::MAX
    &&& indptr.len() == n_rows + 1
    &&& forall|row: int|
        0 <= row < n_rows ==> 0 <= #[trigger] indptr[row] <= indptr[row + 1] <= data.len()
    &&& forall|p: int| 0 <= p < indices.len() ==> 0 <= #[trigger] indices[p]
}

/// `y` holds the sparse rows mixed: entry `t` of a row adds up every stored value of the row
/// times `sign(column, t)`.
pub open spec fn mixes<T: Scalar>(
    data: Seq<T>,
    indices: Seq<i32>,
    indptr: Seq<i64>,
    n_rows: int,
    sign: spec_fn(int, int) -> T,
    m: int,
    y: Seq<Seq<T>>,
) -> bool {
    &&& y.len() == n_rows
    &&& forall|row: int| 0 <= row < n_rows ==> (#[trigger] y[row]).len() == m
    &&& forall|row: int, t: int|
        0 <= row < n_rows && 0 <= t < m ==> adds_up(
            indptr[row + 1] - indptr[row],
            |q: int| data[indptr[row] + q],
            |q: int| sign(indices[indptr[row] + q] as int, t),
            #[trigger] y[row][t],
        )
}

/// The random sign of a draw: one for true, minus one for false.
pub open spec fn draws<T: Scalar>(seed: u64, place: int, r: T) -> bool {
    if std_rng_bool(seed, place) {
        call_ensures(T::one, (), r)
    } else {
        call_ensures(T::minus_one, (), r)
    }
}

/// The seed that is given, and `0xC0FFEE` where none is.
pub open spec fn seed_given(seed: Option<u64>) -> u64 {
    match seed {
        Some(s) => s,
        None => 0xC0FFEE,
    }
}

/// What fitting returns where it succeeds. The mixing matrix has a random sign of the seed for
/// every column of the input and every column of the mixed rows, row after row. The mixed rows
/// enter a sketch. The rows of the sketch that are in use are decomposed, and the first `k` right
/// singular vectors are the columns of the projection. The mixed rows times the projection are
/// the embedded rows.
pub proof fn law_fit_embeds_by_entry<T: Scalar, L: LinearAlgebra<T>>(
    la: &L,
    data: &[T],
    indices: &[i32],
    indptr: &[i64],
    n_rows: usize,
    n_cols: usize,
    k: usize,
    oversample: usize,
    seed: Option<u64>,
    model: FdEmbedModel<T>,
    z: Matrix<T>,
) -> (w: (Seq<Seq<T>>, Seq<Seq<T>>, int, Matrix<T>, Svd<T>, (Matrix<T>, Matrix<T>)))
    requires
        are_rows(data@, indices@, indptr@, n_rows as int),
        call_ensures(
            compute_fd_fit::<T, L>,
            (data, indices, indptr, n_rows, n_cols, k, oversample, seed, la),
            Ok((model, z)),
        ),
    ensures
        0 < k,
        model.n_cols == n_cols,
        model.k == k,
        model.oversample == oversample,
        model.m == k + oversample,
        model.omega@.len() == n_cols * (k + oversample),
        forall|p: int| 0 <= p < model.omega@.len() ==> draws(seed_given(seed), p, #[trigger] model.omega@[p]),
        model.projection.ncols == k,
        model.projection@.len() == k + oversample,
        ({
            let (y, b, filled, a, out, factors) = w;
            let m = k + oversample;
            &&& mixes(
                data@,
                indices@,
                indptr@,
                n_rows as int,
                |column: int, t: int| model.omega@[column * m + t],
                m,
                y,
            )
            &&& is_sketch(la, y, m, k as int, n_rows as int, b, filled)
            &&& a@ == b.take(filled) && a.ncols == m
            &&& call_ensures(L::svd, (la, &a, false, true), Ok(out))
            &&& out.vt is Some
            &&& (out.vt->0)@.len() >= k
            &&& forall|c: int, r: int|
                0 <= c < m && 0 <= r < k ==> #[trigger] model.projection@[c][r] == (out.vt->0)@[r][c]
            &&& factors.0@ == y && factors.0.ncols == m
            &&& factors.1@ == model.projection@ && factors.1.ncols == k
            &&& call_ensures(L::mat_mul, (la, &factors.0, &factors.1), z)
            &&& z@.len() == n_rows && z.ncols == k
        }),
{
    let m = k + oversample;
    let (omega, y) = witness_fit(
        la,
        data@,
        indices@,
        indptr@,
        n_rows as int,
        n_cols as int,
        k as int,
        oversample as int,
        seed_or_default(seed),
        Ok((model, z)),
    );
    lemma_mixes_with_omega(data@, indices@, indptr@, n_rows as int, omega, m, y);
    let (b, filled, out) = witness_fitted(la, y, m, k as int, model.projection@);
    let a = choose|a: Matrix<T>|
        {
            &&& a.wf()
            &&& a@ == b.take(filled)
            &&& a.ncols == m
            &&& #[trigger] call_ensures(L::svd, (la, &a, false, true), Ok(out))
        };
    let factors = choose|ma: Matrix<T>, mb: Matrix<T>|
        {
            &&& ma.wf()
            &&& ma@ == y
            &&& ma.ncols == model.projection@.len()
            &&& mb.wf()
            &&& mb@ == model.projection@
            &&& mb.ncols == k
            &&& #[trigger] call_ensures(L::mat_mul, (la, &ma, &mb), z)
        };
    (y, b, filled, a, out, factors)
}

/// Rows that are mixed with a matrix held row after row.
pub proof fn lemma_mixes_with_omega<T: Scalar>(
    data: Seq<T>,
    indices: Seq<i32>,
    indptr: Seq<i64>,
    n_rows: int,
    omega: Seq<T>,
    m: int,
    y: Seq<Seq<T>>,
)
    requires
        are_rows(data, indices, indptr, n_rows),
        is_sparse_product(
            data,
            indices,
            indptr,
            n_rows,
            flat_entry(omega, m),
            m,
            y,
        ),
    ensures
        mixes(
            data,
            indices,
            indptr,
            n_rows,
            |column: int, t: int| omega[column * m + t],
            m,
            y,
        ),
{
    let sign = |column: int, t: int| omega[column * m + t];
    assert forall|row: int, t: int| 0 <= row < n_rows && 0 <= t < m implies adds_up(
        indptr[row + 1] - indptr[row],
        |q: int| data[indptr[row] + q],
        |q: int| sign(indices[indptr[row] + q] as int, t),
        #[trigger] y[row][t],
    ) by {
        assert(0 <= indptr[row] <= indptr[row + 1] <= data.len());
        law_rows_mix_with_omega(data, indices, indptr, n_rows, omega, m, y, row, t);
        lemma_adds_up_alike(
            indptr[row + 1] - indptr[row],
            |q: int| data[indptr[row] + q],
            |q: int| omega[indices[indptr[row] + q] * m + t],
            |q: int| sign(indices[indptr[row] + q] as int, t),
            y[row][t],
        );
    }
}

/// Rows that are mixed with a matrix held by its columns.
pub proof fn lemma_mixes_with_columns<T: Scalar>(
    data: Seq<T>,
    indices: Seq<i32>,
    indptr: Seq<i64>,
    n_rows: int,
    omega_t: Seq<Vec<T>>,
    m: int,
    y: Seq<Seq<T>>,
)
    requires
        are_rows(data, indices, indptr, n_rows),
        is_sparse_product(
            data,
            indices,
            indptr,
            n_rows,
            column_entry(omega_t),
            m,
            y,
        ),
    ensures
        mixes(
            data,
            indices,
            indptr,
            n_rows,
            |column: int, t: int| omega_t[t]@[column],
            m,
            y,
        ),
{
    let sign = |column: int, t: int| omega_t[t]@[column];
    assert forall|row: int, t: int| 0 <= row < n_rows && 0 <= t < m implies adds_up(
        indptr[row + 1] - indptr[row],
        |q: int| data[indptr[row] + q],
        |q: int| sign(indices[indptr[row] + q] as int, t),
        #[trigger] y[row][t],
    ) by {
        assert(0 <= indptr[row] <= indptr[row + 1] <= data.len());
        law_rows_mix_with_columns(data, indices, indptr, n_rows, omega_t, m, y, row, t);
        lemma_adds_up_alike(
            indptr[row + 1] - indptr[row],
            |q: int| data[indptr[row] + q],
            |q: int| omega_t[t]@[indices[indptr[row] + q] as int],
            |q: int| sign(indices[indptr[row] + q] as int, t),
            y[row][t],
        );
    }
}

/// A sum depends on its terms alone.
proof fn lemma_adds_up_alike<T: Scalar>(
    n: int,
    x: spec_fn(int) -> T,
    w1: spec_fn(int) -> T,
    w2: spec_fn(int) -> T,
    v: T,
)
    requires
        adds_up(n, x, w1, v),
        forall|q: int| 0 <= q < n ==> #[trigger] w1(q) == w2(q),
    ensures
        adds_up(n, x, w2, v),
{
    let (products, sums) = choose|products: Seq<T>, sums: Seq<T>| #[trigger]
        sum_steps(n, x, w1, products, sums, v);
    assert forall|q: int| 0 <= q < n implies call_ensures(
        T::times,
        (x(q), w2(q)),
        #[trigger] products[q],
    ) by {
        assert(w1(q) == w2(q));
    }
    assert(sum_steps(n, x, w2, products, sums, v));
}

/// What embedding with a fitted model returns: `ColumnsMismatch`, with both numbers, exactly where
/// the rows have another number of columns than the model; and else the mixed rows times the
/// projection, every entry added up in order.
pub proof fn law_transform_embeds_by_entry<T: Scalar>(
    projection: &Matrix<T>,
    omega: &[T],
    model_n_cols: usize,
    m: usize,
    data: &[T],
    indices: &[i32],
    indptr: &[i64],
    n_rows: usize,
    n_cols: usize,
    r: Result<Matrix<T>, FdError>,
) -> (y: Seq<Seq<T>>)
    requires
        are_rows(data@, indices@, indptr@, n_rows as int),
        call_ensures(
            compute_fd_transform::<T>,
            (projection, omega, model_n_cols, m, data, indices, indptr, n_rows, n_cols),
            r,
        ),
    ensures
        n_cols != model_n_cols ==> r == Err::<Matrix<T>, FdError>(
            (FdError::ColumnsMismatch { input: n_cols, model: model_n_cols }),
        ),
        n_cols == model_n_cols ==> r is Ok,
        r matches Ok(z) ==> {
            &&& mixes(
                data@,
                indices@,
                indptr@,
                n_rows as int,
                |column: int, t: int| omega@[column * m + t],
                m as int,
                y,
            )
            &&& z.ncols == projection.ncols
            &&& z@.len() == n_rows
            &&& forall|i: int| 0 <= i < n_rows ==> (#[trigger] z@[i]).len() == projection.ncols
            &&& forall|i: int, r: int|
                0 <= i < n_rows && 0 <= r < projection.ncols ==> adds_up(
                    m as int,
                    |c: int| y[i][c],
                    |c: int| projection@[c][r],
                    #[trigger] z@[i][r],
                )
        },
{
    if let Ok(z) = r {
        let y = choose|y: Seq<Seq<T>>|
            {
                &&& #[trigger] is_sparse_product(
                    data@,
                    indices@,
                    indptr@,
                    n_rows as int,
                    flat_entry(omega@, m as int),
                    m as int,
                    y,
                )
                &&& is_projection(y, projection@, m as int, projection.ncols as int, z@)
            };
        lemma_mixes_with_omega(
            data@,
            indices@,
            indptr@,
            n_rows as int,
            omega@,
            m as int,
            y,
        );
        assert forall|i: int, r: int| 0 <= i < n_rows && 0 <= r < projection.ncols implies adds_up(
            m as int,
            |c: int| y[i][c],
            |c: int| projection@[c][r],
            #[trigger] z@[i][r],
        ) by {
            assert(y[i].len() == m);
            law_projection_adds_up(y, projection@, m as int, projection.ncols as int, z@, i, r);
        }
        y
    } else {
        Seq::empty()
    }
}

/// What embedding without a model returns where it succeeds. The mixing matrix has a random sign
/// of the seed for every column of the input and every column of the mixed rows, column after
/// column. The mixed rows enter a sketch, which is shrunk once more where more than `k` of its
/// rows are in use. Its first `k` rows are decomposed, and an embedded row has the products of
/// the mixed row and the first `k` right singular vectors, added up in order.
pub proof fn law_embedding_by_entry<T: Scalar, L: LinearAlgebra<T>>(
    la: &L,
    data: &[T],
    indices: &[i32],
    indptr: &[i64],
    n_rows: usize,
    n_cols: usize,
    k: usize,
    oversample: usize,
    seed: Option<u64>,
    z: Matrix<T>,
) -> (w: (Seq<Vec<T>>, Seq<Seq<T>>, (Seq<Seq<T>>, int), Seq<Seq<T>>, Matrix<T>, Svd<T>))
    requires
        are_rows(data@, indices@, indptr@, n_rows as int),
        call_ensures(
            compute_fd_embed::<T, L>,
            (data, indices, indptr, n_rows, n_cols, k, oversample, seed, la),
            Ok(z),
        ),
    ensures
        0 < k,
        z.ncols == k,
        z@.len() == n_rows,
        ({
            let (omega_t, y, sketch, b, a, out) = w;
            let m = k + oversample;
            &&& omega_t.len() == m
            &&& forall|t: int| 0 <= t < m ==> (#[trigger] omega_t[t])@.len() == n_cols
            &&& forall|t: int, j: int|
                0 <= t < m && 0 <= j < n_cols ==> draws(
                    seed_given(seed),
                    t * n_cols + j,
                    #[trigger] omega_t[t]@[j],
                )
            &&& mixes(
                data@,
                indices@,
                indptr@,
                n_rows as int,
                |column: int, t: int| omega_t[t]@[column],
                m,
                y,
            )
            &&& is_sketch(la, y, m, k as int, n_rows as int, sketch.0, sketch.1)
            &&& sketch.1 > k ==> is_shrunk(la, sketch.0, m, k as int, b)
            &&& sketch.1 <= k ==> b == sketch.0
            &&& a@ == b.take(k as int) && a.ncols == m
            &&& call_ensures(L::svd, (la, &a, true, true), Ok(out))
            &&& out.u is Some && out.vt is Some
            &&& (out.vt->0)@.len() >= k
            &&& forall|i: int| 0 <= i < n_rows ==> (#[trigger] z@[i]).len() == k
            &&& forall|i: int, r: int|
                0 <= i < n_rows && 0 <= r < k ==> adds_up(
                    m,
                    |c: int| y[i][c],
                    |c: int| (out.vt->0)@[r][c],
                    #[trigger] z@[i][r],
                )
        }),
{
    let m = k + oversample;
    let (omega_t, y) = witness_embedding(
        la,
        data@,
        indices@,
        indptr@,
        n_rows as int,
        n_cols as int,
        k as int,
        oversample as int,
        seed_or_default(seed),
        Ok(z),
    );
    lemma_mixes_with_columns(data@, indices@, indptr@, n_rows as int, omega_t, m, y);
    let vt = choose|vt: Matrix<T>| #[trigger]
        is_basis(la, y, m, k as int, vt) && is_reduction(y, vt@, m, k as int, z@);
    let (b, out) = witness_basis(la, y, m, k as int, vt);
    let sketch = choose|b0: Seq<Seq<T>>, filled: int| #[trigger]
        is_sketch(la, y, m, k as int, y.len() as int, b0, filled) && if filled > k {
            is_shrunk(la, b0, m, k as int, b)
        } else {
            b == b0
        };
    assert(is_final_sketch(la, y, m, k as int, b));
    let a = choose|a: Matrix<T>|
        {
            &&& a.wf()
            &&& a@ == b.take(k as int)
            &&& a.ncols == m
            &&& #[trigger] call_ensures(L::svd, (la, &a, true, true), Ok(out))
        };
    assert forall|i: int, r: int| 0 <= i < n_rows && 0 <= r < k implies adds_up(
        m,
        |c: int| y[i][c],
        |c: int| (out.vt->0)@[r][c],
        #[trigger] z@[i][r],
    ) by {
        assert(y[i].len() == m);
        assert(vt@[r].len() == vt.ncols);
        law_dot_adds_up(
            y[i],
            vt@[r].take(m),
            |c: int| y[i][c],
            |c: int| (out.vt->0)@[r][c],
            z@[i][r],
        );
    }
    (omega_t, y, sketch, b, a, out)
}

/// Some decomposition that was asked for gave this reply.
pub open spec fn svd_replied<T: Scalar, L: LinearAlgebra<T>>(
    la: &L,
    want_u: bool,
    out: Result<Svd<T>, String>,
) -> bool {
    exists|a: Matrix<T>| #[trigger] call_ensures(L::svd, (la, &a, want_u, true), out)
}

/// An error of a stage says what a decomposition of that stage replied: its report where it
/// failed, and else which of the vectors that were asked for it came without. (A bad shape can
/// come of a product too.)
pub open spec fn tells_reply<T: Scalar, L: LinearAlgebra<T>>(
    la: &L,
    stage: Stage,
    want_u: bool,
    e: FdError,
) -> bool {
    match e {
        FdError::SvdFailed(s, report) => s == stage && svd_replied(
            la,
            want_u,
            Err::<Svd<T>, String>(report),
        ),
        FdError::UMissing(s) => s == stage && want_u && exists|out: Svd<T>|
            out.u is None && #[trigger] svd_replied(la, want_u, Ok::<Svd<T>, String>(out)),
        FdError::VtMissing(s) => s == stage && exists|out: Svd<T>|
            out.vt is None && #[trigger] svd_replied(la, want_u, Ok::<Svd<T>, String>(out)),
        FdError::BadShape(s) => s == stage,
        FdError::InvalidK => false,
        FdError::ColumnsMismatch { .. } => false,
    }
}

/// Some product that was asked for has not the shape that its factors call for.
pub open spec fn has_misshapen_product<T: Scalar, L: LinearAlgebra<T>>(la: &L) -> bool {
    exists|a: Matrix<T>, b: Matrix<T>, c: Matrix<T>|
        {
            &&& #[trigger] call_ensures(L::mat_mul, (la, &a, &b), c)
            &&& a.ncols == b@.len()
            &&& !(c.wf() && c@.len() == a@.len() && c.ncols == b.ncols)
        }
}

/// A product came back in another shape than its factors call for.
proof fn lemma_misshapen<T: Scalar, L: LinearAlgebra<T>>(
    la: &L,
    a: Seq<Seq<T>>,
    b: Seq<Seq<T>>,
    ncols: int,
    c: Matrix<T>,
)
    requires
        mat_mul_returns(la, a, b, ncols, c),
        !(c.wf() && c@.len() == a.len() && c.ncols == ncols),
    ensures
        has_misshapen_product::<T, L>(la),
{
    let (ma, mb) = choose|ma: Matrix<T>, mb: Matrix<T>|
        {
            &&& ma.wf()
            &&& ma@ == a
            &&& ma.ncols == b.len()
            &&& mb.wf()
            &&& mb@ == b
            &&& mb.ncols == ncols
            &&& #[trigger] call_ensures(L::mat_mul, (la, &ma, &mb), c)
        };
    assert(call_ensures(L::mat_mul, (la, &ma, &mb), c));
}

/// Some decomposition replied with right singular vectors that are fewer than `k`, not of the
/// length `m`, or of different lengths.
pub open spec fn has_poor_reply<T: Scalar, L: LinearAlgebra<T>>(
    la: &L,
    want_u: bool,
    k: int,
    m: int,
) -> bool {
    exists|out: Svd<T>|
        {
            &&& #[trigger] svd_replied(la, want_u, Ok::<Svd<T>, String>(out))
            &&& out.vt is Some
            &&& (out.vt->0)@.len() < k || (out.vt->0).ncols != m || !(out.vt->0).wf()
        }
}

/// A failed shrink says what the decomposition of that sketch replied.
pub proof fn law_shrink_failure_is_told<T: Scalar, L: LinearAlgebra<T>>(
    la: &L,
    before: Seq<Seq<T>>,
    m: int,
    k: int,
    e: FdError,
) -> (w: (Matrix<T>, Result<Svd<T>, String>))
    requires
        shrink_fails(la, before, m, k, e),
    ensures
        w.0@ == before,
        w.0.ncols == m,
        call_ensures(L::svd, (la, &w.0, true, true), w.1),
        match w.1 {
            Err(report) => e == FdError::SvdFailed(Stage::Shrink, report),
            Ok(out) => if out.u is None {
                e == FdError::UMissing(Stage::Shrink)
            } else if out.vt is None {
                e == FdError::VtMissing(Stage::Shrink)
            } else {
                &&& e == FdError::BadShape(Stage::Shrink)
                &&& has_misshapen_product::<T, L>(la) || !({
                    &&& (out.u->0).wf() && (out.u->0)@.len() == before.len()
                    &&& out.s@.len() <= (out.u->0).ncols
                    &&& (out.vt->0).wf() && (out.vt->0).ncols == m
                    &&& out.s@.len() <= (out.vt->0)@.len()
                })
            },
        },
        tells_reply::<T, L>(la, Stage::Shrink, true, e),
{
    let out = witness_shrink_fails(la, before, m, k, e);
    let a = choose|a: Matrix<T>|
        {
            &&& a.wf()
            &&& a@ == before
            &&& a.ncols == m
            &&& #[trigger] call_ensures(L::svd, (la, &a, true, true), out)
        };
    assert(svd_replied(la, true, out));
    if let Ok(svd) = out {
        if svd.u is Some && svd.vt is Some && is_usable(
            svd.u->0,
            svd.s@,
            svd.vt->0,
            before.len() as int,
            m,
        ) {
            let top = (svd.vt->0)@.take(svd.s@.len() as int);
            let (scaled, product) = choose|scaled: Seq<Seq<T>>, product: Matrix<T>| #[trigger]
                mat_mul_returns(la, scaled, (svd.vt->0)@.take(svd.s@.len() as int), m, product)
                    && is_scaled_factor((svd.u->0)@, svd.s@, k, scaled) && !(product.wf()
                    && product@.len() == before.len() && product.ncols == m);
            lemma_misshapen(la, scaled, top, m, product);
        }
    }
    (a, out)
}

/// A fit fails with `InvalidK` exactly where it is asked for no columns. Any other failure says
/// what a decomposition replied: one that shrinks the sketch, or the last one.
pub proof fn law_fit_failure_is_told<T: Scalar, L: LinearAlgebra<T>>(
    la: &L,
    data: &[T],
    indices: &[i32],
    indptr: &[i64],
    n_rows: usize,
    n_cols: usize,
    k: usize,
    oversample: usize,
    seed: Option<u64>,
    r: Result<(FdEmbedModel<T>, Matrix<T>), FdError>,
)
    requires
        call_ensures(
            compute_fd_fit::<T, L>,
            (data, indices, indptr, n_rows, n_cols, k, oversample, seed, la),
            r,
        ),
    ensures
        k == 0 <==> (r matches Err(e) && e is InvalidK),
        k != 0 ==> (r matches Err(e) ==> tells_reply::<T, L>(la, Stage::Shrink, true, e)
            || tells_reply::<T, L>(la, Stage::Fit, false, e)),
        r matches Err(e) ==> (e == FdError::BadShape(Stage::Fit) ==> has_misshapen_product::<T, L>(
            la,
        ) || has_poor_reply::<T, L>(la, false, k as int, k + oversample)),
{
    if k != 0 {
        let m = k + oversample;
        let (omega, y) = witness_fit(
            la,
            data@,
            indices@,
            indptr@,
            n_rows as int,
            n_cols as int,
            k as int,
            oversample as int,
            seed_or_default(seed),
            r,
        );
        let k = k as int;
        if let Err(e) = r {
            if sketch_fails(la, y, m, k, e) {
                lemma_sketch_failure_is_told(la, y, m, k, e);
            } else if exists|p: Seq<Seq<T>>, z: Matrix<T>|
                #![trigger is_fitted_projection(la, y, m, k, p), mat_mul_returns(la, y, p, k, z)]
                {
                    &&& is_fitted_projection(la, y, m, k, p)
                    &&& mat_mul_returns(la, y, p, k, z)
                    &&& e == FdError::BadShape(Stage::Fit)
                    &&& !(z.wf() && z@.len() == y.len() && z.ncols == k)
                } {
                let (p, z) = choose|p: Seq<Seq<T>>, z: Matrix<T>|
                    #![trigger is_fitted_projection(la, y, m, k, p), mat_mul_returns(la, y, p, k, z)]
                    {
                        &&& is_fitted_projection(la, y, m, k, p)
                        &&& mat_mul_returns(la, y, p, k, z)
                        &&& e == FdError::BadShape(Stage::Fit)
                        &&& !(z.wf() && z@.len() == y.len() && z.ncols == k)
                    };
                lemma_misshapen(la, y, p, k, z);
            } else {
                let (b, filled, out) = choose|
                    b: Seq<Seq<T>>,
                    filled: int,
                    out: Result<Svd<T>, String>,
                |
                    #![trigger is_sketch(la, y, m, k, y.len() as int, b, filled), svd_returns(la, b.take(filled), m, false, true, out)]
                    {
                        &&& is_sketch(la, y, m, k, y.len() as int, b, filled)
                        &&& svd_returns(la, b.take(filled), m, false, true, out)
                        &&& match out {
                            Err(report) => e == FdError::SvdFailed(Stage::Fit, report),
                            Ok(svd) => if svd.vt is None {
                                e == FdError::VtMissing(Stage::Fit)
                            } else {
                                e == FdError::BadShape(Stage::Fit) && !is_usable_projection(
                                    svd.vt->0,
                                    m,
                                    k,
                                )
                            },
                        }
                    };
                assert(svd_replied(la, false, out));
            }
        }
    }
}

/// A failed sketch says what a decomposition replied that was to shrink it.
proof fn lemma_sketch_failure_is_told<T: Scalar, L: LinearAlgebra<T>>(
    la: &L,
    y: Seq<Seq<T>>,
    m: int,
    k: int,
    e: FdError,
)
    requires
        sketch_fails(la, y, m, k, e),
    ensures
        tells_reply::<T, L>(la, Stage::Shrink, true, e),
{
    let (i, b) = choose|i: int, b: Seq<Seq<T>>|
        0 <= i < y.len() && #[trigger] is_sketch(la, y, m, k, i, b, sketch_rows(k))
            && shrink_fails(la, b, m, k, e);
    let _ = law_shrink_failure_is_told(la, b, m, k, e);
}

/// An embedding fails with `InvalidK` exactly where it is asked for no columns. Any other failure
/// says what a decomposition replied: one that shrinks the sketch, or the last one.
pub proof fn law_embedding_failure_is_told<T: Scalar, L: LinearAlgebra<T>>(
    la: &L,
    data: &[T],
    indices: &[i32],
    indptr: &[i64],
    n_rows: usize,
    n_cols: usize,
    k: usize,
    oversample: usize,
    seed: Option<u64>,
    r: Result<Matrix<T>, FdError>,
)
    requires
        call_ensures(
            compute_fd_embed::<T, L>,
            (data, indices, indptr, n_rows, n_cols, k, oversample, seed, la),
            r,
        ),
    ensures
        k == 0 <==> (r matches Err(e) && e is InvalidK),
        k != 0 ==> (r matches Err(e) ==> tells_reply::<T, L>(la, Stage::Shrink, true, e)
            || tells_reply::<T, L>(la, Stage::Reduce, true, e)),
        r matches Err(e) ==> (e == FdError::BadShape(Stage::Reduce) ==> has_poor_reply::<T, L>(
            la,
            true,
            k as int,
            k + oversample,
        )),
{
    if k != 0 {
        let m = k + oversample;
        let (omega_t, y) = witness_embedding(
            la,
            data@,
            indices@,
            indptr@,
            n_rows as int,
            n_cols as int,
            k as int,
            oversample as int,
            seed_or_default(seed),
            r,
        );
        let k = k as int;
        if let Err(e) = r {
            if sketch_fails(la, y, m, k, e) {
                lemma_sketch_failure_is_told(la, y, m, k, e);
            } else if exists|b: Seq<Seq<T>>, filled: int| #[trigger]
                is_sketch(la, y, m, k, y.len() as int, b, filled) && filled > k && shrink_fails(
                    la,
                    b,
                    m,
                    k,
                    e,
                ) {
                let (b, filled) = choose|b: Seq<Seq<T>>, filled: int| #[trigger]
                    is_sketch(la, y, m, k, y.len() as int, b, filled) && filled > k
                        && shrink_fails(la, b, m, k, e);
                let _ = law_shrink_failure_is_told(la, b, m, k, e);
            } else {
                let (b, out) = choose|b: Seq<Seq<T>>, out: Result<Svd<T>, String>|
                    #![trigger is_final_sketch(la, y, m, k, b), svd_returns(la, b.take(k), m, true, true, out)]
                    {
                        &&& is_final_sketch(la, y, m, k, b)
                        &&& svd_returns(la, b.take(k), m, true, true, out)
                        &&& match out {
                            Err(report) => e == FdError::SvdFailed(Stage::Reduce, report),
                            Ok(svd) => if svd.u is None {
                                e == FdError::UMissing(Stage::Reduce)
                            } else if svd.vt is None {
                                e == FdError::VtMissing(Stage::Reduce)
                            } else {
                                e == FdError::BadShape(Stage::Reduce) && !is_usable_basis(
                                    svd.vt->0,
                                    m,
                                    k,
                                )
                            },
                        }
                    };
                assert(svd_replied(la, true, out));
            }
        }
    }
}

} // verus!
