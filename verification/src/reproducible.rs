//! Embedding again gives the same embedding.

use vstd::prelude::*;

use crate::embed::{is_embedding, is_fit, is_sign_columns, is_sign_matrix, FdEmbedModel};
use crate::embed_laws::{law_signs_are_determined, law_sparse_product_is_determined};
use crate::fd::{
    basis_fails, fit_fails, is_basis, is_final_sketch, is_fitted_projection, is_reduction,
    is_scaled_factor, is_shrinkage, is_shrunk, is_shrunk_value, is_sketch, is_sketch_step,
    is_usable, is_usable_basis, is_usable_projection, shrink_fails, sketch_fails, sketch_rows,
    FdError, Stage,
};
use crate::linalg::{
    lemma_mat_mul_repeats, lemma_svd_repeats, mat_mul_returns, repeats, same_matrix, same_reply,
    svd_returns, LinearAlgebra, Svd,
};
use crate::matrix::{has_shape, Matrix};
use crate::random::{is_sign, seed_or_default, std_rng_bool};
use crate::scalar::{
    functional, is_difference, is_exceeds, is_product, is_sqrt, is_zero, lemma_dot_unique, Scalar,
};
use crate::sparse::{
    column_entry, flat_entry, gathered, is_readable, is_readable_row, is_sparse_product, row_end,
    row_start, stretch,
};

verus! {

/// The same error, with the same report.
pub open spec fn same_error(a: FdError, b: FdError) -> bool {
    match (a, b) {
        (FdError::SvdFailed(s, x), FdError::SvdFailed(t, y)) => s == t && x@ == y@,
        _ => a == b,
    }
}

/// Two matrices of the same entries and shape are well-formed together.
proof fn lemma_same_wf<T: Scalar>(a: Matrix<T>, b: Matrix<T>)
    requires
        same_matrix(a, b),
    ensures
        a.wf() == b.wf(),
        a.rows@.len() == b.rows@.len(),
{
    assert(a@.len() == b@.len());
    assert forall|i: int| 0 <= i < a.rows@.len() implies #[trigger] a.rows@[i]@ == b.rows@[i]@ by {
        assert(a@[i] == b@[i]);
    }
    if a.wf() {
        assert forall|i: int| 0 <= i < b.rows@.len() implies (#[trigger] b.rows@[i])@.len()
            == b.ncols by {
            assert(a.rows@[i]@ == b.rows@[i]@);
        }
    }
    if b.wf() {
        assert forall|i: int| 0 <= i < a.rows@.len() implies (#[trigger] a.rows@[i])@.len()
            == a.ncols by {
            assert(a.rows@[i]@ == b.rows@[i]@);
        }
    }
}

/// A spectrum is shrunk by one amount.
proof fn lemma_shrinkage_unique<T: Scalar>(s: Seq<T>, k: int, d1: T, d2: T)
    requires
        functional::<T>(),
        is_shrinkage(s, k, d1),
        is_shrinkage(s, k, d2),
    ensures
        d1 == d2,
{
}

/// A singular value shrinks to one value.
proof fn lemma_shrunk_value_unique<T: Scalar>(s: T, delta: T, w1: T, w2: T)
    requires
        functional::<T>(),
        is_shrunk_value(s, delta, w1),
        is_shrunk_value(s, delta, w2),
    ensures
        w1 == w2,
{
    let (q1, e1) = choose|square: T, exceeds: bool| #[trigger]
        is_product(s, s, square) && #[trigger] is_exceeds(square, delta, exceeds) && if exceeds {
            exists|rest: T| #[trigger] is_difference(square, delta, rest) && is_sqrt(rest, w1)
        } else {
            is_zero(w1)
        };
    let (q2, e2) = choose|square: T, exceeds: bool| #[trigger]
        is_product(s, s, square) && #[trigger] is_exceeds(square, delta, exceeds) && if exceeds {
            exists|rest: T| #[trigger] is_difference(square, delta, rest) && is_sqrt(rest, w2)
        } else {
            is_zero(w2)
        };
    assert(q1 == q2);
    assert(e1 == e2);
    if e1 {
        let r1 = choose|rest: T| #[trigger] is_difference(q1, delta, rest) && is_sqrt(rest, w1);
        let r2 = choose|rest: T| #[trigger] is_difference(q2, delta, rest) && is_sqrt(rest, w2);
        assert(r1 == r2);
    }
}

/// Left singular vectors are scaled in one way.
proof fn lemma_scaled_factor_unique<T: Scalar>(
    u: Seq<Seq<T>>,
    s: Seq<T>,
    k: int,
    a: Seq<Seq<T>>,
    b: Seq<Seq<T>>,
)
    requires
        functional::<T>(),
        is_scaled_factor(u, s, k, a),
        is_scaled_factor(u, s, k, b),
    ensures
        a == b,
{
    let (d1, w1) = choose|delta: T, w: Seq<T>|
        {
            &&& #[trigger] is_shrinkage(s, k, delta)
            &&& #[trigger] w.len() == s.len()
            &&& forall|j: int| 0 <= j < s.len() ==> is_shrunk_value(s[j], delta, #[trigger] w[j])
            &&& has_shape(a, u.len() as int, s.len() as int)
            &&& forall|i: int, j: int|
                0 <= i < u.len() && 0 <= j < s.len() ==> is_product(
                    u[i][j],
                    w[j],
                    #[trigger] a[i][j],
                )
        };
    let (d2, w2) = choose|delta: T, w: Seq<T>|
        {
            &&& #[trigger] is_shrinkage(s, k, delta)
            &&& #[trigger] w.len() == s.len()
            &&& forall|j: int| 0 <= j < s.len() ==> is_shrunk_value(s[j], delta, #[trigger] w[j])
            &&& has_shape(b, u.len() as int, s.len() as int)
            &&& forall|i: int, j: int|
                0 <= i < u.len() && 0 <= j < s.len() ==> is_product(
                    u[i][j],
                    w[j],
                    #[trigger] b[i][j],
                )
        };
    lemma_shrinkage_unique(s, k, d1, d2);
    assert forall|j: int| 0 <= j < s.len() implies w1[j] == w2[j] by {
        lemma_shrunk_value_unique(s[j], d1, w1[j], w2[j]);
    }
    assert forall|i: int| 0 <= i < u.len() implies a[i] == b[i] by {
        assert(a[i].len() == s.len() && b[i].len() == s.len());
        assert forall|j: int| 0 <= j < s.len() implies a[i][j] == b[i][j] by {
            assert(is_product(u[i][j], w1[j], a[i][j]));
            assert(is_product(u[i][j], w2[j], b[i][j]));
        }
        assert(a[i] =~= b[i]);
    }
    assert(a =~= b);
}

/// A sketch shrinks to one sketch.
proof fn lemma_shrunk_unique<T: Scalar, L: LinearAlgebra<T>>(
    la: &L,
    before: Seq<Seq<T>>,
    m: int,
    k: int,
    a: Seq<Seq<T>>,
    b: Seq<Seq<T>>,
)
    requires
        functional::<T>(),
        repeats(la),
        is_shrunk(la, before, m, k, a),
        is_shrunk(la, before, m, k, b),
    ensures
        a == b,
{
    let (o1, s1, p1) = witness_shrunk(la, before, m, k, a);
    let (o2, s2, p2) = witness_shrunk(la, before, m, k, b);
    lemma_svd_repeats(la, before, m, true, true, Ok(o1), Ok(o2));
    lemma_scaled_factor_unique((o1.u->0)@, o1.s@, k, s1, s2);
    lemma_mat_mul_repeats(la, s1, (o1.vt->0)@.take(o1.s@.len() as int), m, p1, p2);
}

/// The decomposition, the scaled factor and the product behind a shrunk sketch.
pub proof fn witness_shrunk<T: Scalar, L: LinearAlgebra<T>>(
    la: &L,
    before: Seq<Seq<T>>,
    m: int,
    k: int,
    after: Seq<Seq<T>>,
) -> (w: (Svd<T>, Seq<Seq<T>>, Matrix<T>))
    requires
        is_shrunk(la, before, m, k, after),
    ensures
        svd_returns(la, before, m, true, true, Ok(w.0)),
        w.0.u is Some,
        w.0.vt is Some,
        is_usable(w.0.u->0, w.0.s@, w.0.vt->0, before.len() as int, m),
        is_scaled_factor((w.0.u->0)@, w.0.s@, k, w.1),
        mat_mul_returns(la, w.1, (w.0.vt->0)@.take(w.0.s@.len() as int), m, w.2),
        w.2.wf(),
        w.2.ncols == m,
        w.2@ == after,
        has_shape(after, before.len() as int, m),
{
    choose|out: Svd<T>, scaled: Seq<Seq<T>>, product: Matrix<T>|
        #![trigger svd_returns(la, before, m, true, true, Ok(out)), mat_mul_returns(la, scaled, (out.vt->0)@.take(out.s@.len() as int), m, product)]
        {
            &&& svd_returns(la, before, m, true, true, Ok(out))
            &&& out.u is Some
            &&& out.vt is Some
            &&& is_usable(out.u->0, out.s@, out.vt->0, before.len() as int, m)
            &&& is_scaled_factor((out.u->0)@, out.s@, k, scaled)
            &&& mat_mul_returns(la, scaled, (out.vt->0)@.take(out.s@.len() as int), m, product)
            &&& product.wf()
            &&& product.ncols == m
            &&& product@ == after
            &&& has_shape(after, before.len() as int, m)
        }
}

/// The same decomposition is usable or not.
proof fn lemma_same_usable<T: Scalar>(a: Svd<T>, b: Svd<T>, nrows: int, m: int)
    requires
        same_reply(Ok::<Svd<T>, String>(a), Ok::<Svd<T>, String>(b)),
        a.u is Some,
        a.vt is Some,
        is_usable(a.u->0, a.s@, a.vt->0, nrows, m),
    ensures
        b.u is Some,
        b.vt is Some,
        is_usable(b.u->0, b.s@, b.vt->0, nrows, m),
{
    lemma_same_wf(a.u->0, b.u->0);
    lemma_same_wf(a.vt->0, b.vt->0);
}

/// A sketch that can be shrunk does not fail to.
proof fn lemma_shrinks_or_fails<T: Scalar, L: LinearAlgebra<T>>(
    la: &L,
    before: Seq<Seq<T>>,
    m: int,
    k: int,
    a: Seq<Seq<T>>,
    e: FdError,
)
    requires
        functional::<T>(),
        repeats(la),
        is_shrunk(la, before, m, k, a),
    ensures
        !shrink_fails(la, before, m, k, e),
{
    if shrink_fails(la, before, m, k, e) {
        let (o1, s1, p1) = witness_shrunk(la, before, m, k, a);
        let o2 = witness_shrink_fails(la, before, m, k, e);
        lemma_svd_repeats(la, before, m, true, true, Ok(o1), o2);
        let svd = o2->Ok_0;
        lemma_same_usable(o1, svd, before.len() as int, m);
        let (s2, p2) = choose|scaled: Seq<Seq<T>>, product: Matrix<T>| #[trigger]
            mat_mul_returns(la, scaled, (svd.vt->0)@.take(svd.s@.len() as int), m, product)
                && is_scaled_factor((svd.u->0)@, svd.s@, k, scaled) && !(product.wf()
                && product@.len() == before.len() && product.ncols == m);
        lemma_scaled_factor_unique((svd.u->0)@, svd.s@, k, s1, s2);
        lemma_mat_mul_repeats(la, s1, (svd.vt->0)@.take(svd.s@.len() as int), m, p1, p2);
        lemma_same_wf(p1, p2);
    }
}

/// The reply behind a sketch that cannot be shrunk.
pub proof fn witness_shrink_fails<T: Scalar, L: LinearAlgebra<T>>(
    la: &L,
    before: Seq<Seq<T>>,
    m: int,
    k: int,
    e: FdError,
) -> (out: Result<Svd<T>, String>)
    requires
        shrink_fails(la, before, m, k, e),
    ensures
        svd_returns(la, before, m, true, true, out),
        match out {
            Err(report) => e == FdError::SvdFailed(Stage::Shrink, report),
            Ok(svd) => if svd.u is None {
                e == FdError::UMissing(Stage::Shrink)
            } else if svd.vt is None {
                e == FdError::VtMissing(Stage::Shrink)
            } else {
                &&& e == FdError::BadShape(Stage::Shrink)
                &&& is_usable(svd.u->0, svd.s@, svd.vt->0, before.len() as int, m) ==> exists|
                    scaled: Seq<Seq<T>>,
                    product: Matrix<T>,
                | #[trigger]
                    mat_mul_returns(la, scaled, (svd.vt->0)@.take(svd.s@.len() as int), m, product)
                        && is_scaled_factor((svd.u->0)@, svd.s@, k, scaled) && !(product.wf()
                        && product@.len() == before.len() && product.ncols == m)
            },
        },
{
    choose|out: Result<Svd<T>, String>| #[trigger]
        svd_returns(la, before, m, true, true, out) && match out {
            Err(report) => e == FdError::SvdFailed(Stage::Shrink, report),
            Ok(svd) => if svd.u is None {
                e == FdError::UMissing(Stage::Shrink)
            } else if svd.vt is None {
                e == FdError::VtMissing(Stage::Shrink)
            } else {
                &&& e == FdError::BadShape(Stage::Shrink)
                &&& is_usable(svd.u->0, svd.s@, svd.vt->0, before.len() as int, m) ==> exists|
                    scaled: Seq<Seq<T>>,
                    product: Matrix<T>,
                | #[trigger]
                    mat_mul_returns(la, scaled, (svd.vt->0)@.take(svd.s@.len() as int), m, product)
                        && is_scaled_factor((svd.u->0)@, svd.s@, k, scaled) && !(product.wf()
                        && product@.len() == before.len() && product.ncols == m)
            },
        }
}

/// A sketch fails to be shrunk with one error.
proof fn lemma_shrink_failure_unique<T: Scalar, L: LinearAlgebra<T>>(
    la: &L,
    before: Seq<Seq<T>>,
    m: int,
    k: int,
    e1: FdError,
    e2: FdError,
)
    requires
        repeats(la),
        shrink_fails(la, before, m, k, e1),
        shrink_fails(la, before, m, k, e2),
    ensures
        same_error(e1, e2),
{
    let o1 = witness_shrink_fails(la, before, m, k, e1);
    let o2 = witness_shrink_fails(la, before, m, k, e2);
    lemma_svd_repeats(la, before, m, true, true, o1, o2);
}

/// The first rows of a matrix have one sketch.
proof fn lemma_sketch_unique<T: Scalar, L: LinearAlgebra<T>>(
    la: &L,
    y: Seq<Seq<T>>,
    m: int,
    k: int,
    i: int,
    b1: Seq<Seq<T>>,
    filled1: int,
    b2: Seq<Seq<T>>,
    filled2: int,
)
    requires
        functional::<T>(),
        repeats(la),
        is_sketch(la, y, m, k, i, b1, filled1),
        is_sketch(la, y, m, k, i, b2, filled2),
    ensures
        b1 == b2,
        filled1 == filled2,
    decreases i,
{
    if i <= 0 {
        assert forall|r: int| 0 <= r < sketch_rows(k) implies b1[r] == b2[r] by {
            assert(b1[r].len() == m && b2[r].len() == m);
            assert forall|c: int| 0 <= c < m implies b1[r][c] == b2[r][c] by {
                assert(is_zero(b1[r][c]));
                assert(is_zero(b2[r][c]));
            }
            assert(b1[r] =~= b2[r]);
        }
        assert(b1 =~= b2);
    } else {
        let (c1, f1) = witness_sketch(la, y, m, k, i, b1, filled1);
        let (c2, f2) = witness_sketch(la, y, m, k, i, b2, filled2);
        lemma_sketch_unique(la, y, m, k, i - 1, c1, f1, c2, f2);
        if f1 >= sketch_rows(k) {
            let s1 = choose|s: Seq<Seq<T>>| #[trigger]
                is_shrunk(la, c1, m, k, s) && b1 == s.update(k, y[i - 1]);
            let s2 = choose|s: Seq<Seq<T>>| #[trigger]
                is_shrunk(la, c2, m, k, s) && b2 == s.update(k, y[i - 1]);
            lemma_shrunk_unique(la, c1, m, k, s1, s2);
        }
    }
}

/// The sketch before the last row.
pub proof fn witness_sketch<T: Scalar, L: LinearAlgebra<T>>(
    la: &L,
    y: Seq<Seq<T>>,
    m: int,
    k: int,
    i: int,
    b: Seq<Seq<T>>,
    filled: int,
) -> (w: (Seq<Seq<T>>, int))
    requires
        i > 0,
        is_sketch(la, y, m, k, i, b, filled),
    ensures
        is_sketch(la, y, m, k, i - 1, w.0, w.1),
        is_sketch_step(la, y[i - 1], m, k, w.0, w.1, b, filled),
{
    choose|b0: Seq<Seq<T>>, filled0: int|
        is_sketch(la, y, m, k, i - 1, b0, filled0) && #[trigger] is_sketch_step(
            la,
            y[i - 1],
            m,
            k,
            b0,
            filled0,
            b,
            filled,
        )
}

/// A sketch of more rows has passed the sketch of fewer: where that was full, it was shrunk.
proof fn lemma_sketch_passes<T: Scalar, L: LinearAlgebra<T>>(
    la: &L,
    y: Seq<Seq<T>>,
    m: int,
    k: int,
    n: int,
    b: Seq<Seq<T>>,
    filled: int,
    i: int,
) -> (w: (Seq<Seq<T>>, int))
    requires
        0 <= i < n,
        is_sketch(la, y, m, k, n, b, filled),
    ensures
        is_sketch(la, y, m, k, i, w.0, w.1),
        w.1 >= sketch_rows(k) ==> exists|s: Seq<Seq<T>>| #[trigger] is_shrunk(la, w.0, m, k, s),
    decreases n,
{
    let (b0, filled0) = witness_sketch(la, y, m, k, n, b, filled);
    if i == n - 1 {
        (b0, filled0)
    } else {
        lemma_sketch_passes(la, y, m, k, n - 1, b0, filled0, i)
    }
}

/// Where a full sketch cannot be shrunk, there is no sketch of more rows.
proof fn lemma_no_sketch_past_failure<T: Scalar, L: LinearAlgebra<T>>(
    la: &L,
    y: Seq<Seq<T>>,
    m: int,
    k: int,
    i: int,
    bi: Seq<Seq<T>>,
    e: FdError,
    n: int,
    b: Seq<Seq<T>>,
    filled: int,
)
    requires
        functional::<T>(),
        repeats(la),
        0 <= i < n,
        is_sketch(la, y, m, k, i, bi, sketch_rows(k)),
        shrink_fails(la, bi, m, k, e),
    ensures
        !is_sketch(la, y, m, k, n, b, filled),
{
    if is_sketch(la, y, m, k, n, b, filled) {
        let (c, f) = lemma_sketch_passes(la, y, m, k, n, b, filled, i);
        lemma_sketch_unique(la, y, m, k, i, bi, sketch_rows(k), c, f);
        let s = choose|s: Seq<Seq<T>>| #[trigger] is_shrunk(la, c, m, k, s);
        lemma_shrinks_or_fails(la, bi, m, k, s, e);
    }
}

/// Sketching does not both fail and succeed.
proof fn lemma_sketches_or_fails<T: Scalar, L: LinearAlgebra<T>>(
    la: &L,
    y: Seq<Seq<T>>,
    m: int,
    k: int,
    e: FdError,
    b: Seq<Seq<T>>,
    filled: int,
)
    requires
        functional::<T>(),
        repeats(la),
        sketch_fails(la, y, m, k, e),
    ensures
        !is_sketch(la, y, m, k, y.len() as int, b, filled),
{
    let (i, bi) = choose|i: int, b: Seq<Seq<T>>|
        0 <= i < y.len() && #[trigger] is_sketch(la, y, m, k, i, b, sketch_rows(k))
            && shrink_fails(la, b, m, k, e);
    lemma_no_sketch_past_failure(la, y, m, k, i, bi, e, y.len() as int, b, filled);
}

/// Sketching fails with one error.
proof fn lemma_sketch_failure_unique<T: Scalar, L: LinearAlgebra<T>>(
    la: &L,
    y: Seq<Seq<T>>,
    m: int,
    k: int,
    e1: FdError,
    e2: FdError,
)
    requires
        functional::<T>(),
        repeats(la),
        sketch_fails(la, y, m, k, e1),
        sketch_fails(la, y, m, k, e2),
    ensures
        same_error(e1, e2),
{
    let (i1, b1) = choose|i: int, b: Seq<Seq<T>>|
        0 <= i < y.len() && #[trigger] is_sketch(la, y, m, k, i, b, sketch_rows(k))
            && shrink_fails(la, b, m, k, e1);
    let (i2, b2) = choose|i: int, b: Seq<Seq<T>>|
        0 <= i < y.len() && #[trigger] is_sketch(la, y, m, k, i, b, sketch_rows(k))
            && shrink_fails(la, b, m, k, e2);
    if i1 < i2 {
        lemma_no_sketch_past_failure(la, y, m, k, i1, b1, e1, i2, b2, sketch_rows(k));
    } else if i2 < i1 {
        lemma_no_sketch_past_failure(la, y, m, k, i2, b2, e2, i1, b1, sketch_rows(k));
    } else {
        lemma_sketch_unique(la, y, m, k, i1, b1, sketch_rows(k), b2, sketch_rows(k));
        lemma_shrink_failure_unique(la, b1, m, k, e1, e2);
    }
}

/// A matrix has one finished sketch.
proof fn lemma_final_sketch_unique<T: Scalar, L: LinearAlgebra<T>>(
    la: &L,
    y: Seq<Seq<T>>,
    m: int,
    k: int,
    a: Seq<Seq<T>>,
    b: Seq<Seq<T>>,
)
    requires
        functional::<T>(),
        repeats(la),
        is_final_sketch(la, y, m, k, a),
        is_final_sketch(la, y, m, k, b),
    ensures
        a == b,
{
    let n = y.len() as int;
    let (a0, fa) = choose|b0: Seq<Seq<T>>, filled: int| #[trigger]
        is_sketch(la, y, m, k, y.len() as int, b0, filled) && if filled > k {
            is_shrunk(la, b0, m, k, a)
        } else {
            a == b0
        };
    let (b0, fb) = choose|b0: Seq<Seq<T>>, filled: int| #[trigger]
        is_sketch(la, y, m, k, y.len() as int, b0, filled) && if filled > k {
            is_shrunk(la, b0, m, k, b)
        } else {
            b == b0
        };
    lemma_sketch_unique(la, y, m, k, n, a0, fa, b0, fb);
    if fa > k {
        lemma_shrunk_unique(la, a0, m, k, a, b);
    }
}

/// A matrix with a finished sketch does not fail to be sketched or shrunk.
proof fn lemma_final_sketch_or_fails<T: Scalar, L: LinearAlgebra<T>>(
    la: &L,
    y: Seq<Seq<T>>,
    m: int,
    k: int,
    b: Seq<Seq<T>>,
    e: FdError,
)
    requires
        functional::<T>(),
        repeats(la),
        is_final_sketch(la, y, m, k, b),
    ensures
        !sketch_fails(la, y, m, k, e),
        !last_shrink_fails(la, y, m, k, e),
{
    let (b0, f) = choose|b0: Seq<Seq<T>>, filled: int| #[trigger]
        is_sketch(la, y, m, k, y.len() as int, b0, filled) && if filled > k {
            is_shrunk(la, b0, m, k, b)
        } else {
            b == b0
        };
    if sketch_fails(la, y, m, k, e) {
        lemma_sketches_or_fails(la, y, m, k, e, b0, f);
    }
    if last_shrink_fails(la, y, m, k, e) {
        let (c, g) = choose|b: Seq<Seq<T>>, filled: int| #[trigger]
            is_sketch(la, y, m, k, y.len() as int, b, filled) && filled > k && shrink_fails(
                la,
                b,
                m,
                k,
                e,
            );
        lemma_sketch_unique(la, y, m, k, y.len() as int, b0, f, c, g);
        lemma_shrinks_or_fails(la, b0, m, k, b, e);
    }
}

/// The whole sketch cannot be shrunk once more.
spec fn last_shrink_fails<T: Scalar, L: LinearAlgebra<T>>(
    la: &L,
    y: Seq<Seq<T>>,
    m: int,
    k: int,
    e: FdError,
) -> bool {
    exists|b: Seq<Seq<T>>, filled: int| #[trigger]
        is_sketch(la, y, m, k, y.len() as int, b, filled) && filled > k && shrink_fails(
            la,
            b,
            m,
            k,
            e,
        )
}

/// The last decomposition of a reduction gives no directions.
spec fn last_svd_fails<T: Scalar, L: LinearAlgebra<T>>(
    la: &L,
    y: Seq<Seq<T>>,
    m: int,
    k: int,
    e: FdError,
) -> bool {
    exists|b: Seq<Seq<T>>, out: Result<Svd<T>, String>|
        #![trigger is_final_sketch(la, y, m, k, b), svd_returns(la, b.take(k), m, true, true, out)]
        {
            &&& is_final_sketch(la, y, m, k, b)
            &&& svd_returns(la, b.take(k), m, true, true, out)
            &&& is_basis_error(out, m, k, e)
        }
}

/// `e` is what is wrong with the last reply of a reduction.
spec fn is_basis_error<T: Scalar>(
    out: Result<Svd<T>, String>,
    m: int,
    k: int,
    e: FdError,
) -> bool {
    match out {
        Err(report) => e == FdError::SvdFailed(Stage::Reduce, report),
        Ok(svd) => if svd.u is None {
            e == FdError::UMissing(Stage::Reduce)
        } else if svd.vt is None {
            e == FdError::VtMissing(Stage::Reduce)
        } else {
            e == FdError::BadShape(Stage::Reduce) && !is_usable_basis(svd.vt->0, m, k)
        },
    }
}

/// A reduction fails in one of three ways.
proof fn lemma_basis_failures<T: Scalar, L: LinearAlgebra<T>>(
    la: &L,
    y: Seq<Seq<T>>,
    m: int,
    k: int,
    e: FdError,
)
    requires
        basis_fails(la, y, m, k, e),
    ensures
        sketch_fails(la, y, m, k, e) || last_shrink_fails(la, y, m, k, e) || last_svd_fails(
            la,
            y,
            m,
            k,
            e,
        ),
{
    if !sketch_fails(la, y, m, k, e) && !last_shrink_fails(la, y, m, k, e) {
        let (b, out) = choose|b: Seq<Seq<T>>, out: Result<Svd<T>, String>|
            #![trigger is_final_sketch(la, y, m, k, b), svd_returns(la, b.take(k), m, true, true, out)]
            {
                &&& is_final_sketch(la, y, m, k, b)
                &&& svd_returns(la, b.take(k), m, true, true, out)
                &&& match out {
                    Err(report) => e == FdError::SvdFailed(Stage::Reduce, report),
                    Ok(svd) => if svd.u is None {
                        e == FdError::UMissing(Stage::Reduce)
                    } else if svd.vt is None {
                        e == FdError::VtMissing(Stage::Reduce)
                    } else {
                        e == FdError::BadShape(Stage::Reduce) && !is_usable_basis(svd.vt->0, m, k)
                    },
                }
            };
        assert(is_basis_error(out, m, k, e));
    }
}

/// The finished sketch and the reply behind the directions of a matrix.
pub proof fn witness_basis<T: Scalar, L: LinearAlgebra<T>>(
    la: &L,
    y: Seq<Seq<T>>,
    m: int,
    k: int,
    vt: Matrix<T>,
) -> (w: (Seq<Seq<T>>, Svd<T>))
    requires
        is_basis(la, y, m, k, vt),
    ensures
        is_final_sketch(la, y, m, k, w.0),
        svd_returns(la, w.0.take(k), m, true, true, Ok(w.1)),
        w.1.u is Some,
        w.1.vt == Some(vt),
        is_usable_basis(vt, m, k),
{
    choose|b: Seq<Seq<T>>, out: Svd<T>|
        #![trigger is_final_sketch(la, y, m, k, b), svd_returns(la, b.take(k), m, true, true, Ok(out))]
        {
            &&& is_final_sketch(la, y, m, k, b)
            &&& svd_returns(la, b.take(k), m, true, true, Ok(out))
            &&& out.u is Some
            &&& out.vt == Some(vt)
            &&& is_usable_basis(vt, m, k)
        }
}

/// A matrix is reduced to one set of directions.
proof fn lemma_basis_unique<T: Scalar, L: LinearAlgebra<T>>(
    la: &L,
    y: Seq<Seq<T>>,
    m: int,
    k: int,
    vt1: Matrix<T>,
    vt2: Matrix<T>,
)
    requires
        functional::<T>(),
        repeats(la),
        is_basis(la, y, m, k, vt1),
        is_basis(la, y, m, k, vt2),
    ensures
        same_matrix(vt1, vt2),
{
    let (b1, o1) = witness_basis(la, y, m, k, vt1);
    let (b2, o2) = witness_basis(la, y, m, k, vt2);
    lemma_final_sketch_unique(la, y, m, k, b1, b2);
    lemma_svd_repeats(la, b1.take(k), m, true, true, Ok(o1), Ok(o2));
}

/// A matrix with directions does not fail to have them.
proof fn lemma_basis_or_fails<T: Scalar, L: LinearAlgebra<T>>(
    la: &L,
    y: Seq<Seq<T>>,
    m: int,
    k: int,
    vt: Matrix<T>,
    e: FdError,
)
    requires
        functional::<T>(),
        repeats(la),
        is_basis(la, y, m, k, vt),
    ensures
        !basis_fails(la, y, m, k, e),
{
    if basis_fails(la, y, m, k, e) {
        let (b1, o1) = witness_basis(la, y, m, k, vt);
        lemma_final_sketch_or_fails(la, y, m, k, b1, e);
        lemma_basis_failures(la, y, m, k, e);
        let (b2, o2) = choose|b: Seq<Seq<T>>, out: Result<Svd<T>, String>|
            #![trigger is_final_sketch(la, y, m, k, b), svd_returns(la, b.take(k), m, true, true, out)]
            {
                &&& is_final_sketch(la, y, m, k, b)
                &&& svd_returns(la, b.take(k), m, true, true, out)
                &&& is_basis_error(out, m, k, e)
            };
        lemma_final_sketch_unique(la, y, m, k, b1, b2);
        lemma_svd_repeats(la, b1.take(k), m, true, true, Ok(o1), o2);
        lemma_same_wf(vt, (o2->Ok_0).vt->0);
    }
}

/// A matrix fails to have directions with one error.
proof fn lemma_basis_failure_unique<T: Scalar, L: LinearAlgebra<T>>(
    la: &L,
    y: Seq<Seq<T>>,
    m: int,
    k: int,
    e1: FdError,
    e2: FdError,
)
    requires
        functional::<T>(),
        repeats(la),
        basis_fails(la, y, m, k, e1),
        basis_fails(la, y, m, k, e2),
    ensures
        same_error(e1, e2),
{
    lemma_basis_failures(la, y, m, k, e1);
    lemma_basis_failures(la, y, m, k, e2);
    if last_svd_fails(la, y, m, k, e1) || last_svd_fails(la, y, m, k, e2) {
        let e = if last_svd_fails(la, y, m, k, e1) {
            e1
        } else {
            e2
        };
        let (b, o) = choose|b: Seq<Seq<T>>, out: Result<Svd<T>, String>|
            #![trigger is_final_sketch(la, y, m, k, b), svd_returns(la, b.take(k), m, true, true, out)]
            {
                &&& is_final_sketch(la, y, m, k, b)
                &&& svd_returns(la, b.take(k), m, true, true, out)
                &&& is_basis_error(out, m, k, e)
            };
        lemma_final_sketch_or_fails(la, y, m, k, b, e1);
        lemma_final_sketch_or_fails(la, y, m, k, b, e2);
        let (b1, o1) = choose|b: Seq<Seq<T>>, out: Result<Svd<T>, String>|
            #![trigger is_final_sketch(la, y, m, k, b), svd_returns(la, b.take(k), m, true, true, out)]
            {
                &&& is_final_sketch(la, y, m, k, b)
                &&& svd_returns(la, b.take(k), m, true, true, out)
                &&& is_basis_error(out, m, k, e1)
            };
        let (b2, o2) = choose|b: Seq<Seq<T>>, out: Result<Svd<T>, String>|
            #![trigger is_final_sketch(la, y, m, k, b), svd_returns(la, b.take(k), m, true, true, out)]
            {
                &&& is_final_sketch(la, y, m, k, b)
                &&& svd_returns(la, b.take(k), m, true, true, out)
                &&& is_basis_error(out, m, k, e2)
            };
        lemma_final_sketch_unique(la, y, m, k, b1, b2);
        lemma_svd_repeats(la, b1.take(k), m, true, true, o1, o2);
    } else if sketch_fails(la, y, m, k, e1) && sketch_fails(la, y, m, k, e2) {
        lemma_sketch_failure_unique(la, y, m, k, e1, e2);
    } else {
        let (failing, e) = if last_shrink_fails(la, y, m, k, e1) {
            (e1, e2)
        } else {
            (e2, e1)
        };
        let (b, f) = choose|b: Seq<Seq<T>>, filled: int| #[trigger]
            is_sketch(la, y, m, k, y.len() as int, b, filled) && filled > k && shrink_fails(
                la,
                b,
                m,
                k,
                failing,
            );
        if sketch_fails(la, y, m, k, e) {
            lemma_sketches_or_fails(la, y, m, k, e, b, f);
        }
        let (c, g) = choose|b: Seq<Seq<T>>, filled: int| #[trigger]
            is_sketch(la, y, m, k, y.len() as int, b, filled) && filled > k && shrink_fails(
                la,
                b,
                m,
                k,
                e,
            );
        lemma_sketch_unique(la, y, m, k, y.len() as int, b, f, c, g);
        lemma_shrink_failure_unique(la, b, m, k, failing, e);
    }
}

/// Rows have one reduction along the same directions.
proof fn lemma_reduction_unique<T: Scalar>(
    y: Seq<Seq<T>>,
    vt: Seq<Seq<T>>,
    m: int,
    k: int,
    z1: Seq<Seq<T>>,
    z2: Seq<Seq<T>>,
)
    requires
        functional::<T>(),
        is_reduction(y, vt, m, k, z1),
        is_reduction(y, vt, m, k, z2),
    ensures
        z1 == z2,
{
    assert forall|i: int| 0 <= i < y.len() implies z1[i] == z2[i] by {
        assert(z1[i].len() == k && z2[i].len() == k);
        assert forall|r: int| 0 <= r < k implies z1[i][r] == z2[i][r] by {
            lemma_dot_unique(y[i], vt[r].take(m), z1[i][r], z2[i][r]);
        }
        assert(z1[i] =~= z2[i]);
    }
    assert(z1 =~= z2);
}

/// Dense matrices with the same entries below `n_cols` give the same sparse product.
proof fn lemma_sparse_products_alike<T: Scalar>(
    data: Seq<T>,
    indices: Seq<i32>,
    indptr: Seq<i64>,
    n_rows: int,
    n_cols: int,
    entry1: spec_fn(int, int) -> T,
    entry2: spec_fn(int, int) -> T,
    m: int,
    y1: Seq<Seq<T>>,
    y2: Seq<Seq<T>>,
)
    requires
        functional::<T>(),
        is_readable(data.len() as int, indices, indptr, n_rows, n_cols, m),
        forall|j: int, t: int|
            0 <= j < n_cols && 0 <= t < m ==> #[trigger] entry1(j, t) == entry2(j, t),
        is_sparse_product(data, indices, indptr, n_rows, entry1, m, y1),
        is_sparse_product(data, indices, indptr, n_rows, entry2, m, y2),
    ensures
        y1 == y2,
{
    assert forall|row: int| 0 <= row < n_rows implies y1[row] == y2[row] by {
        assert(y1[row].len() == m && y2[row].len() == m);
        assert forall|t: int| 0 <= t < m implies y1[row][t] == y2[row][t] by {
            let start = row_start(indptr, row);
            let end = row_end(indptr, row);
            let columns = stretch(indices, start, end);
            assert(is_readable_row(data.len() as int, indices, indptr, n_cols, row));
            assert(gathered(columns, entry1, t) =~= gathered(columns, entry2, t)) by {
                assert forall|q: int| 0 <= q < columns.len() implies gathered(
                    columns,
                    entry1,
                    t,
                )[q] == gathered(columns, entry2, t)[q] by {
                    assert(columns[q] == indices[start + q]);
                    assert((indices[start + q] as usize) < n_cols);
                    let j = (columns[q] as usize) as int;
                    assert(entry1(j, t) == entry2(j, t));
                }
            }
            lemma_dot_unique(
                stretch(data, start, end),
                gathered(columns, entry1, t),
                y1[row][t],
                y2[row][t],
            );
        }
        assert(y1[row] =~= y2[row]);
    }
    assert(y1 =~= y2);
}

/// The same embedding, or the same error.
pub open spec fn same_embedding<T>(
    a: Result<Matrix<T>, FdError>,
    b: Result<Matrix<T>, FdError>,
) -> bool {
    match (a, b) {
        (Ok(x), Ok(y)) => same_matrix(x, y),
        (Err(d), Err(e)) => same_error(d, e),
        _ => false,
    }
}

/// Embedding is reproducible: two results of `compute_fd_embed` on the same rows and settings
/// are the same, where the operations on numbers and on matrices are functions. No seed is
/// the default seed.
pub proof fn law_embedding_is_reproducible<T: Scalar, L: LinearAlgebra<T>>(
    la: &L,
    data: Seq<T>,
    indices: Seq<i32>,
    indptr: Seq<i64>,
    n_rows: int,
    n_cols: int,
    k: int,
    oversample: int,
    seed1: Option<u64>,
    seed2: Option<u64>,
    r1: Result<Matrix<T>, FdError>,
    r2: Result<Matrix<T>, FdError>,
)
    requires
        functional::<T>(),
        repeats(la),
        is_readable(data.len() as int, indices, indptr, n_rows, n_cols, k + oversample),
        seed_or_default(seed1) == seed_or_default(seed2),
        is_embedding(
            la,
            data,
            indices,
            indptr,
            n_rows,
            n_cols,
            k,
            oversample,
            seed_or_default(seed1),
            r1,
        ),
        is_embedding(
            la,
            data,
            indices,
            indptr,
            n_rows,
            n_cols,
            k,
            oversample,
            seed_or_default(seed2),
            r2,
        ),
    ensures
        same_embedding(r1, r2),
{
    let seed = seed_or_default(seed1);
    let m = k + oversample;
    if k != 0 {
        let (w1, y1) = witness_embedding(
            la, data, indices, indptr, n_rows, n_cols, k, oversample, seed, r1,
        );
        let (w2, y2) = witness_embedding(
            la, data, indices, indptr, n_rows, n_cols, k, oversample, seed, r2,
        );
        assert forall|j: int, t: int| 0 <= j < n_cols && 0 <= t < m implies #[trigger] column_entry(
            w1,
        )(j, t) == column_entry(w2)(j, t) by {
            assert(is_sign(std_rng_bool(seed, t * n_cols + j), w1[t]@[j]));
            assert(is_sign(std_rng_bool(seed, t * n_cols + j), w2[t]@[j]));
        }
        lemma_sparse_products_alike(
            data,
            indices,
            indptr,
            n_rows,
            n_cols,
            column_entry(w1),
            column_entry(w2),
            m,
            y1,
            y2,
        );
        match (r1, r2) {
            (Ok(z1), Ok(z2)) => {
                let vt1 = choose|vt: Matrix<T>|
                    #[trigger] is_basis(la, y1, m, k, vt) && is_reduction(y1, vt@, m, k, z1@);
                let vt2 = choose|vt: Matrix<T>|
                    #[trigger] is_basis(la, y2, m, k, vt) && is_reduction(y2, vt@, m, k, z2@);
                lemma_basis_unique(la, y1, m, k, vt1, vt2);
                lemma_reduction_unique(y1, vt1@, m, k, z1@, z2@);
            },
            (Err(e1), Err(e2)) => {
                lemma_basis_failure_unique(la, y1, m, k, e1, e2);
            },
            (Ok(z1), Err(e2)) => {
                let vt1 = choose|vt: Matrix<T>|
                    #[trigger] is_basis(la, y1, m, k, vt) && is_reduction(y1, vt@, m, k, z1@);
                lemma_basis_or_fails(la, y1, m, k, vt1, e2);
            },
            (Err(e1), Ok(z2)) => {
                let vt2 = choose|vt: Matrix<T>|
                    #[trigger] is_basis(la, y2, m, k, vt) && is_reduction(y2, vt@, m, k, z2@);
                lemma_basis_or_fails(la, y1, m, k, vt2, e1);
            },
        }
    }
}

/// The signs and the mixed rows behind an embedding.
pub proof fn witness_embedding<T: Scalar, L: LinearAlgebra<T>>(
    la: &L,
    data: Seq<T>,
    indices: Seq<i32>,
    indptr: Seq<i64>,
    n_rows: int,
    n_cols: int,
    k: int,
    oversample: int,
    seed: u64,
    r: Result<Matrix<T>, FdError>,
) -> (w: (Seq<Vec<T>>, Seq<Seq<T>>))
    requires
        k != 0,
        is_embedding(la, data, indices, indptr, n_rows, n_cols, k, oversample, seed, r),
    ensures
        is_sign_columns(seed, n_cols, k + oversample, w.0),
        is_sparse_product(
            data,
            indices,
            indptr,
            n_rows,
            column_entry(w.0),
            k + oversample,
            w.1,
        ),
        match r {
            Ok(z) => {
                &&& z.ncols == k
                &&& exists|vt: Matrix<T>|
                    #[trigger] is_basis(la, w.1, k + oversample, k, vt) && is_reduction(
                        w.1,
                        vt@,
                        k + oversample,
                        k,
                        z@,
                    )
            },
            Err(e) => basis_fails(la, w.1, k + oversample, k, e),
        },
{
    let w = choose|omega_t: Seq<Vec<T>>, y: Seq<Seq<T>>|
        {
            &&& #[trigger] is_sign_columns(seed, n_cols, k + oversample, omega_t)
            &&& #[trigger] is_sparse_product(
                data,
                indices,
                indptr,
                n_rows,
                column_entry(omega_t),
                k + oversample,
                y,
            )
            &&& match r {
                Ok(z) => {
                    &&& z.wf()
                    &&& z.ncols == k
                    &&& exists|vt: Matrix<T>|
                        {
                            &&& #[trigger] is_basis(la, y, k + oversample, k, vt)
                            &&& is_reduction(y, vt@, k + oversample, k, z@)
                        }
                },
                Err(e) => basis_fails(la, y, k + oversample, k, e),
            }
        };
    if let Ok(z) = r {
        let vt = choose|vt: Matrix<T>|
            {
                &&& #[trigger] is_basis(la, w.1, k + oversample, k, vt)
                &&& is_reduction(w.1, vt@, k + oversample, k, z@)
            };
        assert(is_basis(la, w.1, k + oversample, k, vt) && is_reduction(
            w.1,
            vt@,
            k + oversample,
            k,
            z@,
        ));
    }
    w
}

/// `e` is what is wrong with the last reply of a fit.
spec fn is_fit_error<T: Scalar>(out: Result<Svd<T>, String>, m: int, k: int, e: FdError) -> bool {
    match out {
        Err(report) => e == FdError::SvdFailed(Stage::Fit, report),
        Ok(svd) => if svd.vt is None {
            e == FdError::VtMissing(Stage::Fit)
        } else {
            e == FdError::BadShape(Stage::Fit) && !is_usable_projection(svd.vt->0, m, k)
        },
    }
}

/// The last decomposition of a fit gives no directions.
spec fn fit_svd_fails<T: Scalar, L: LinearAlgebra<T>>(
    la: &L,
    y: Seq<Seq<T>>,
    m: int,
    k: int,
    e: FdError,
) -> bool {
    exists|b: Seq<Seq<T>>, filled: int, out: Result<Svd<T>, String>|
        #![trigger is_sketch(la, y, m, k, y.len() as int, b, filled), svd_returns(la, b.take(filled), m, false, true, out)]
        {
            &&& is_sketch(la, y, m, k, y.len() as int, b, filled)
            &&& svd_returns(la, b.take(filled), m, false, true, out)
            &&& is_fit_error(out, m, k, e)
        }
}

/// The product of a fit has the wrong shape.
spec fn fit_product_fails<T: Scalar, L: LinearAlgebra<T>>(
    la: &L,
    y: Seq<Seq<T>>,
    m: int,
    k: int,
    e: FdError,
) -> bool {
    exists|p: Seq<Seq<T>>, z: Matrix<T>|
        #![trigger is_fitted_projection(la, y, m, k, p), mat_mul_returns(la, y, p, k, z)]
        {
            &&& is_fitted_projection(la, y, m, k, p)
            &&& mat_mul_returns(la, y, p, k, z)
            &&& e == FdError::BadShape(Stage::Fit)
            &&& !(z.wf() && z@.len() == y.len() && z.ncols == k)
        }
}

/// A fit fails in one of three ways.
proof fn lemma_fit_failures<T: Scalar, L: LinearAlgebra<T>>(
    la: &L,
    y: Seq<Seq<T>>,
    m: int,
    k: int,
    e: FdError,
)
    requires
        fit_fails(la, y, m, k, e),
    ensures
        sketch_fails(la, y, m, k, e) || fit_svd_fails(la, y, m, k, e) || fit_product_fails(
            la,
            y,
            m,
            k,
            e,
        ),
{
    if !sketch_fails(la, y, m, k, e) && !fit_product_fails(la, y, m, k, e) {
        let (b, filled, out) = choose|
            b: Seq<Seq<T>>,
            filled: int,
            out: Result<Svd<T>, String>,
        |
            #![trigger is_sketch(la, y, m, k, y.len() as int, b, filled), svd_returns(la, b.take(filled), m, false, true, out)]
            {
                &&& is_sketch(la, y, m, k, y.len() as int, b, filled)
                &&& svd_returns(la, b.take(filled), m, false, true, out)
                &&& match out {
                    Err(report) => e == FdError::SvdFailed(Stage::Fit, report),
                    Ok(svd) => if svd.vt is None {
                        e == FdError::VtMissing(Stage::Fit)
                    } else {
                        e == FdError::BadShape(Stage::Fit) && !is_usable_projection(
                            svd.vt->0,
                            m,
                            k,
                        )
                    },
                }
            };
        assert(is_fit_error(out, m, k, e));
    }
}

/// The sketch and the reply behind fitted directions.
pub proof fn witness_fitted<T: Scalar, L: LinearAlgebra<T>>(
    la: &L,
    y: Seq<Seq<T>>,
    m: int,
    k: int,
    p: Seq<Seq<T>>,
) -> (w: (Seq<Seq<T>>, int, Svd<T>))
    requires
        is_fitted_projection(la, y, m, k, p),
    ensures
        is_sketch(la, y, m, k, y.len() as int, w.0, w.1),
        svd_returns(la, w.0.take(w.1), m, false, true, Ok(w.2)),
        w.2.vt is Some,
        is_usable_projection(w.2.vt->0, m, k),
        has_shape(p, m, k),
        forall|c: int, r: int|
            0 <= c < m && 0 <= r < k ==> #[trigger] p[c][r] == (w.2.vt->0)@[r][c],
{
    choose|b: Seq<Seq<T>>, filled: int, out: Svd<T>|
        #![trigger is_sketch(la, y, m, k, y.len() as int, b, filled), svd_returns(la, b.take(filled), m, false, true, Ok(out))]
        {
            &&& is_sketch(la, y, m, k, y.len() as int, b, filled)
            &&& svd_returns(la, b.take(filled), m, false, true, Ok(out))
            &&& out.vt is Some
            &&& is_usable_projection(out.vt->0, m, k)
            &&& has_shape(p, m, k)
            &&& forall|c: int, r: int|
                0 <= c < m && 0 <= r < k ==> #[trigger] p[c][r] == (out.vt->0)@[r][c]
        }
}

/// A matrix has one set of fitted directions.
proof fn lemma_fitted_projection_unique<T: Scalar, L: LinearAlgebra<T>>(
    la: &L,
    y: Seq<Seq<T>>,
    m: int,
    k: int,
    p1: Seq<Seq<T>>,
    p2: Seq<Seq<T>>,
)
    requires
        functional::<T>(),
        repeats(la),
        is_fitted_projection(la, y, m, k, p1),
        is_fitted_projection(la, y, m, k, p2),
    ensures
        p1 == p2,
{
    let (b1, f1, o1) = witness_fitted(la, y, m, k, p1);
    let (b2, f2, o2) = witness_fitted(la, y, m, k, p2);
    lemma_sketch_unique(la, y, m, k, y.len() as int, b1, f1, b2, f2);
    lemma_svd_repeats(la, b1.take(f1), m, false, true, Ok(o1), Ok(o2));
    assert forall|c: int| 0 <= c < m implies p1[c] == p2[c] by {
        assert(p1[c].len() == k && p2[c].len() == k);
        assert forall|r: int| 0 <= r < k implies p1[c][r] == p2[c][r] by {
            assert(p1[c][r] == (o1.vt->0)@[r][c]);
            assert(p2[c][r] == (o2.vt->0)@[r][c]);
        }
        assert(p1[c] =~= p2[c]);
    }
    assert(p1 =~= p2);
}

/// Where directions are fitted, neither the sketch nor the last decomposition fails.
proof fn lemma_fitted_or_fails<T: Scalar, L: LinearAlgebra<T>>(
    la: &L,
    y: Seq<Seq<T>>,
    m: int,
    k: int,
    p: Seq<Seq<T>>,
    e: FdError,
)
    requires
        functional::<T>(),
        repeats(la),
        is_fitted_projection(la, y, m, k, p),
    ensures
        !sketch_fails(la, y, m, k, e),
        !fit_svd_fails(la, y, m, k, e),
{
    let (b1, f1, o1) = witness_fitted(la, y, m, k, p);
    if sketch_fails(la, y, m, k, e) {
        lemma_sketches_or_fails(la, y, m, k, e, b1, f1);
    }
    if fit_svd_fails(la, y, m, k, e) {
        let (b2, f2, o2) = witness_fit_svd_fails(la, y, m, k, e);
        lemma_sketch_unique(la, y, m, k, y.len() as int, b1, f1, b2, f2);
        lemma_svd_repeats(la, b1.take(f1), m, false, true, Ok(o1), o2);
        lemma_same_wf(o1.vt->0, (o2->Ok_0).vt->0);
    }
}

/// The sketch and the reply behind a fit whose last decomposition fails.
proof fn witness_fit_svd_fails<T: Scalar, L: LinearAlgebra<T>>(
    la: &L,
    y: Seq<Seq<T>>,
    m: int,
    k: int,
    e: FdError,
) -> (w: (Seq<Seq<T>>, int, Result<Svd<T>, String>))
    requires
        fit_svd_fails(la, y, m, k, e),
    ensures
        is_sketch(la, y, m, k, y.len() as int, w.0, w.1),
        svd_returns(la, w.0.take(w.1), m, false, true, w.2),
        is_fit_error(w.2, m, k, e),
{
    choose|b: Seq<Seq<T>>, filled: int, out: Result<Svd<T>, String>|
        #![trigger is_sketch(la, y, m, k, y.len() as int, b, filled), svd_returns(la, b.take(filled), m, false, true, out)]
        {
            &&& is_sketch(la, y, m, k, y.len() as int, b, filled)
            &&& svd_returns(la, b.take(filled), m, false, true, out)
            &&& is_fit_error(out, m, k, e)
        }
}

/// A matrix that is fitted does not fail to be.
proof fn lemma_fit_or_fails<T: Scalar, L: LinearAlgebra<T>>(
    la: &L,
    y: Seq<Seq<T>>,
    m: int,
    k: int,
    p: Seq<Seq<T>>,
    z: Matrix<T>,
    e: FdError,
)
    requires
        functional::<T>(),
        repeats(la),
        is_fitted_projection(la, y, m, k, p),
        mat_mul_returns(la, y, p, k, z),
        z.wf(),
        z@.len() == y.len(),
        z.ncols == k,
    ensures
        !fit_fails(la, y, m, k, e),
{
    if fit_fails(la, y, m, k, e) {
        lemma_fit_failures(la, y, m, k, e);
        lemma_fitted_or_fails(la, y, m, k, p, e);
        let (p2, z2) = choose|p: Seq<Seq<T>>, z: Matrix<T>|
            #![trigger is_fitted_projection(la, y, m, k, p), mat_mul_returns(la, y, p, k, z)]
            {
                &&& is_fitted_projection(la, y, m, k, p)
                &&& mat_mul_returns(la, y, p, k, z)
                &&& e == FdError::BadShape(Stage::Fit)
                &&& !(z.wf() && z@.len() == y.len() && z.ncols == k)
            };
        lemma_fitted_projection_unique(la, y, m, k, p, p2);
        lemma_mat_mul_repeats(la, y, p, k, z, z2);
        lemma_same_wf(z, z2);
    }
}

/// A fit fails with one error.
proof fn lemma_fit_failure_unique<T: Scalar, L: LinearAlgebra<T>>(
    la: &L,
    y: Seq<Seq<T>>,
    m: int,
    k: int,
    e1: FdError,
    e2: FdError,
)
    requires
        functional::<T>(),
        repeats(la),
        fit_fails(la, y, m, k, e1),
        fit_fails(la, y, m, k, e2),
    ensures
        same_error(e1, e2),
{
    lemma_fit_failures(la, y, m, k, e1);
    lemma_fit_failures(la, y, m, k, e2);
    if fit_product_fails(la, y, m, k, e1) || fit_product_fails(la, y, m, k, e2) {
        let e = if fit_product_fails(la, y, m, k, e1) {
            e1
        } else {
            e2
        };
        let (p, z) = choose|p: Seq<Seq<T>>, z: Matrix<T>|
            #![trigger is_fitted_projection(la, y, m, k, p), mat_mul_returns(la, y, p, k, z)]
            {
                &&& is_fitted_projection(la, y, m, k, p)
                &&& mat_mul_returns(la, y, p, k, z)
                &&& e == FdError::BadShape(Stage::Fit)
                &&& !(z.wf() && z@.len() == y.len() && z.ncols == k)
            };
        lemma_fitted_or_fails(la, y, m, k, p, e1);
        lemma_fitted_or_fails(la, y, m, k, p, e2);
    } else if sketch_fails(la, y, m, k, e1) && sketch_fails(la, y, m, k, e2) {
        lemma_sketch_failure_unique(la, y, m, k, e1, e2);
    } else {
        let (failing, e) = if fit_svd_fails(la, y, m, k, e1) {
            (e1, e2)
        } else {
            (e2, e1)
        };
        let (b1, f1, o1) = witness_fit_svd_fails(la, y, m, k, failing);
        if sketch_fails(la, y, m, k, e) {
            lemma_sketches_or_fails(la, y, m, k, e, b1, f1);
        }
        let (b2, f2, o2) = witness_fit_svd_fails(la, y, m, k, e);
        lemma_sketch_unique(la, y, m, k, y.len() as int, b1, f1, b2, f2);
        lemma_svd_repeats(la, b1.take(f1), m, false, true, o1, o2);
        if o1 is Ok && (o1->Ok_0).vt is Some {
            lemma_same_wf((o1->Ok_0).vt->0, (o2->Ok_0).vt->0);
        }
    }
}

/// The same model.
pub open spec fn same_model<T: Scalar>(a: FdEmbedModel<T>, b: FdEmbedModel<T>) -> bool {
    &&& a.n_cols == b.n_cols
    &&& a.k == b.k
    &&& a.oversample == b.oversample
    &&& a.m == b.m
    &&& a.omega@ == b.omega@
    &&& same_matrix(a.projection, b.projection)
}

/// The same model and embedding, or the same error.
pub open spec fn same_fit<T: Scalar>(
    a: Result<(FdEmbedModel<T>, Matrix<T>), FdError>,
    b: Result<(FdEmbedModel<T>, Matrix<T>), FdError>,
) -> bool {
    match (a, b) {
        (Ok((x, y)), Ok((v, w))) => same_model(x, v) && same_matrix(y, w),
        (Err(d), Err(e)) => same_error(d, e),
        _ => false,
    }
}

/// Fitting is reproducible: two results of `compute_fd_fit` on the same rows and settings are
/// the same, where the operations on numbers and on matrices are functions. No seed is the
/// default seed.
pub proof fn law_fit_is_reproducible<T: Scalar, L: LinearAlgebra<T>>(
    la: &L,
    data: Seq<T>,
    indices: Seq<i32>,
    indptr: Seq<i64>,
    n_rows: int,
    n_cols: int,
    k: int,
    oversample: int,
    seed1: Option<u64>,
    seed2: Option<u64>,
    r1: Result<(FdEmbedModel<T>, Matrix<T>), FdError>,
    r2: Result<(FdEmbedModel<T>, Matrix<T>), FdError>,
)
    requires
        functional::<T>(),
        repeats(la),
        seed_or_default(seed1) == seed_or_default(seed2),
        is_fit(
            la,
            data,
            indices,
            indptr,
            n_rows,
            n_cols,
            k,
            oversample,
            seed_or_default(seed1),
            r1,
        ),
        is_fit(
            la,
            data,
            indices,
            indptr,
            n_rows,
            n_cols,
            k,
            oversample,
            seed_or_default(seed2),
            r2,
        ),
    ensures
        same_fit(r1, r2),
{
    let seed = seed_or_default(seed1);
    let m = k + oversample;
    if k != 0 {
        let (w1, y1) = witness_fit(
            la, data, indices, indptr, n_rows, n_cols, k, oversample, seed, r1,
        );
        let (w2, y2) = witness_fit(
            la, data, indices, indptr, n_rows, n_cols, k, oversample, seed, r2,
        );
        law_signs_are_determined(seed, n_cols * m, w1, w2);
        law_sparse_product_is_determined(
            data,
            indices,
            indptr,
            n_rows,
            flat_entry(w1, m),
            m,
            y1,
            y2,
        );
        match (r1, r2) {
            (Ok((m1, z1)), Ok((m2, z2))) => {
                lemma_fitted_projection_unique(
                    la, y1, m, k, m1.projection@, m2.projection@,
                );
                lemma_mat_mul_repeats(la, y1, m1.projection@, k, z1, z2);
            },
            (Err(e1), Err(e2)) => {
                lemma_fit_failure_unique(la, y1, m, k, e1, e2);
            },
            (Ok((m1, z1)), Err(e2)) => {
                lemma_fit_or_fails(la, y1, m, k, m1.projection@, z1, e2);
            },
            (Err(e1), Ok((m2, z2))) => {
                lemma_fit_or_fails(la, y1, m, k, m2.projection@, z2, e1);
            },
        }
    }
}

/// The signs and the mixed rows behind a fit.
pub proof fn witness_fit<T: Scalar, L: LinearAlgebra<T>>(
    la: &L,
    data: Seq<T>,
    indices: Seq<i32>,
    indptr: Seq<i64>,
    n_rows: int,
    n_cols: int,
    k: int,
    oversample: int,
    seed: u64,
    r: Result<(FdEmbedModel<T>, Matrix<T>), FdError>,
) -> (w: (Seq<T>, Seq<Seq<T>>))
    requires
        k != 0,
        is_fit(la, data, indices, indptr, n_rows, n_cols, k, oversample, seed, r),
    ensures
        is_sign_matrix(seed, n_cols * (k + oversample), w.0),
        is_sparse_product(
            data,
            indices,
            indptr,
            n_rows,
            flat_entry(w.0, k + oversample),
            k + oversample,
            w.1,
        ),
        match r {
            Ok((model, z)) => {
                &&& model.wf()
                &&& model.n_cols == n_cols
                &&& model.k == k
                &&& model.oversample == oversample
                &&& model.omega@ == w.0
                &&& is_fitted_projection(la, w.1, k + oversample, k, model.projection@)
                &&& z.wf()
                &&& z.ncols == k
                &&& has_shape(z@, n_rows, k)
                &&& mat_mul_returns(la, w.1, model.projection@, k, z)
            },
            Err(e) => fit_fails(la, w.1, k + oversample, k, e),
        },
{
    choose|omega: Seq<T>, y: Seq<Seq<T>>|
        {
            &&& #[trigger] is_sign_matrix(seed, n_cols * (k + oversample), omega)
            &&& #[trigger] is_sparse_product(
                data,
                indices,
                indptr,
                n_rows,
                flat_entry(omega, k + oversample),
                k + oversample,
                y,
            )
            &&& match r {
                Ok((model, z)) => {
                    &&& model.wf()
                    &&& model.n_cols == n_cols
                    &&& model.k == k
                    &&& model.oversample == oversample
                    &&& model.omega@ == omega
                    &&& is_fitted_projection(la, y, k + oversample, k, model.projection@)
                    &&& z.wf()
                    &&& z.ncols == k
                    &&& has_shape(z@, n_rows, k)
                    &&& mat_mul_returns(la, y, model.projection@, k, z)
                },
                Err(e) => fit_fails(la, y, k + oversample, k, e),
            }
        }
}

} // verus!
