//! Frequent Directions: a small sketch of a tall matrix, and the embedding it gives.

use vstd::prelude::*;

use crate::linalg::{mat_mul_returns, svd_returns, LinearAlgebra, Svd};
use crate::matrix::{column, has_shape, is_projection, Matrix};
use crate::scalar::{
    is_difference, is_dot, is_exceeds, is_product, is_sqrt, is_zero, Scalar,
};

verus! {

/// Which decomposition an error speaks of.
#[derive(Clone, Copy, Debug, PartialEq, Eq, Structural)]
pub enum Stage {
    /// The last one of a reduction.
    Reduce,
    /// The last one of a fit.
    Fit,
    /// One that shrinks the sketch.
    Shrink,
}

/// Why an embedding fails.
#[derive(Debug)]
pub enum FdError {
    /// The number of directions is zero, or larger than the width of the input.
    InvalidK,
    /// A decomposition failed, with this report.
    SvdFailed(Stage, String),
    /// A decomposition came without left singular vectors.
    UMissing(Stage),
    /// A decomposition came without right singular vectors.
    VtMissing(Stage),
    /// A matrix came back in a shape that cannot be used.
    BadShape(Stage),
    /// The input has another number of columns than the model.
    ColumnsMismatch { input: usize, model: usize },
}

/// The number of rows of the sketch that keeps `k` directions.
pub open spec fn sketch_rows(k: int) -> int {
    if 8 * k > k + 1 {
        8 * k
    } else {
        k + 1
    }
}

/// `delta` is the square of the `k`-th singular value, or of zero where there are fewer.
pub open spec fn is_shrinkage<T: Scalar>(s: Seq<T>, k: int, delta: T) -> bool {
    let last = if k > 0 {
        k - 1
    } else {
        0
    };
    exists|s_k: T|
        (if last < s.len() {
            s_k == s[last]
        } else {
            is_zero(s_k)
        }) && #[trigger] is_product(s_k, s_k, delta)
}

/// `w` is `sqrt(s * s - delta)` where `s * s` exceeds `delta`, and otherwise zero.
pub open spec fn is_shrunk_value<T: Scalar>(s: T, delta: T, w: T) -> bool {
    exists|square: T, exceeds: bool| #[trigger]
        is_product(s, s, square) && #[trigger] is_exceeds(square, delta, exceeds) && if exceeds {
            exists|rest: T| #[trigger] is_difference(square, delta, rest) && is_sqrt(rest, w)
        } else {
            is_zero(w)
        }
}

/// `scaled` is `u` with column `j` times the shrunk `j`-th singular value, for as many
/// columns as there are singular values.
pub open spec fn is_scaled_factor<T: Scalar>(
    u: Seq<Seq<T>>,
    s: Seq<T>,
    k: int,
    scaled: Seq<Seq<T>>,
) -> bool {
    exists|delta: T, w: Seq<T>|
        {
            &&& #[trigger] is_shrinkage(s, k, delta)
            &&& #[trigger] w.len() == s.len()
            &&& forall|j: int| 0 <= j < s.len() ==> is_shrunk_value(s[j], delta, #[trigger] w[j])
            &&& has_shape(scaled, u.len() as int, s.len() as int)
            &&& forall|i: int, j: int|
                0 <= i < u.len() && 0 <= j < s.len() ==> is_product(
                    u[i][j],
                    w[j],
                    #[trigger] scaled[i][j],
                )
        }
}

/// A decomposition of a matrix with `nrows` rows and `ncols` columns has enough singular
/// vectors, of the right lengths, to put the matrix together again.
pub open spec fn is_usable<T: Scalar>(
    u: Matrix<T>,
    s: Seq<T>,
    vt: Matrix<T>,
    nrows: int,
    ncols: int,
) -> bool {
    &&& u.wf()
    &&& u@.len() == nrows
    &&& s.len() <= u.ncols
    &&& vt.wf()
    &&& s.len() <= vt@.len()
    &&& vt.ncols == ncols
}

/// `after` is the sketch `before`, shrunk: decomposed, its singular values shrunk, and put
/// together again.
pub open spec fn is_shrunk<T: Scalar, L: LinearAlgebra<T>>(
    la: &L,
    before: Seq<Seq<T>>,
    m: int,
    k: int,
    after: Seq<Seq<T>>,
) -> bool {
    exists|out: Svd<T>, scaled: Seq<Seq<T>>, product: Matrix<T>|
        #![trigger svd_returns(la, before, m, true, true, Ok(out)), mat_mul_returns(la, scaled, (out.vt->0)@.take(out.s@.len() as int), m, product)]
        {
            &&& svd_returns(la, before, m, true, true, Ok(out))
            &&& out.u is Some
            &&& out.vt is Some
            &&& is_usable(out.u->0, out.s@, out.vt->0, before.len() as int, m)
            &&& is_scaled_factor((out.u->0)@, out.s@, k, scaled)
            &&& mat_mul_returns(la, scaled, (out.vt->0)@.take(out.s@.len() as int), m, product)
            &&& product.wf()
            &&& product.ncols == m
            &&& product@ == after
            &&& has_shape(after, before.len() as int, m)
        }
}

/// Shrinking the sketch `before` fails with `e`.
pub open spec fn shrink_fails<T: Scalar, L: LinearAlgebra<T>>(
    la: &L,
    before: Seq<Seq<T>>,
    m: int,
    k: int,
    e: FdError,
) -> bool {
    exists|out: Result<Svd<T>, String>| #[trigger]
        svd_returns(la, before, m, true, true, out) && match out {
            Err(report) => e == FdError::SvdFailed(Stage::Shrink, report),
            Ok(svd) => if svd.u is None {
                e == FdError::UMissing(Stage::Shrink)
            } else if svd.vt is None {
                e == FdError::VtMissing(Stage::Shrink)
            } else {
                &&& e == FdError::BadShape(Stage::Shrink)
                &&& is_usable(svd.u->0, svd.s@, svd.vt->0, before.len() as int, m) ==> exists|
                    scaled: Seq<Seq<T>>,
                    product: Matrix<T>,
                | #[trigger]
                    mat_mul_returns(la, scaled, (svd.vt->0)@.take(svd.s@.len() as int), m, product)
                        && is_scaled_factor((svd.u->0)@, svd.s@, k, scaled) && !(product.wf()
                        && product@.len() == before.len() && product.ncols == m)
            },
        }
}

/// The shrunk singular values.
fn shrunk_values<T: Scalar>(s: &[T], k: usize) -> (w: Vec<T>)
    ensures
        exists|delta: T|
            {
                &&& #[trigger] is_shrinkage(s@, k as int, delta)
                &&& w@.len() == s@.len()
                &&& forall|j: int|
                    0 <= j < s@.len() ==> is_shrunk_value(s@[j], delta, #[trigger] w@[j])
            },
{
    let last: usize = if k > 0 {
        k - 1
    } else {
        0
    };
    let s_k: T = if last < s.len() {
        s[last]
    } else {
        T::zero()
    };
    let delta: T = s_k.times(s_k);
    assert(is_product(s_k, s_k, delta));
    assert(is_shrinkage(s@, k as int, delta));
    let mut w: Vec<T> = Vec::new();
    let mut j: usize = 0;
    while j < s.len()
        invariant
            j <= s@.len(),
            w@.len() == j,
            forall|l: int| 0 <= l < j ==> is_shrunk_value(s@[l], delta, #[trigger] w@[l]),
        decreases s@.len() - j,
    {
        let square: T = s[j].times(s[j]);
        let exceeds: bool = square.exceeds(delta);
        assert(is_product(s@[j as int], s@[j as int], square));
        assert(is_exceeds(square, delta, exceeds));
        let value: T = if exceeds {
            let rest: T = square.minus(delta);
            assert(is_difference(square, delta, rest));
            rest.sqrt()
        } else {
            T::zero()
        };
        assert(is_shrunk_value(s@[j as int], delta, value));
        w.push(value);
        j += 1;
    }
    w
}

/// The left singular vectors, each times its shrunk singular value.
pub fn scaled_factor<T: Scalar>(u: &Matrix<T>, s: &[T], k: usize) -> (scaled: Matrix<T>)
    requires
        u.wf(),
        s@.len() <= u.ncols,
    ensures
        scaled.wf(),
        scaled.ncols == s@.len(),
        is_scaled_factor(u@, s@, k as int, scaled@),
{
    let w: Vec<T> = shrunk_values(s, k);
    let mut rows: Vec<Vec<T>> = Vec::new();
    let mut i: usize = 0;
    while i < u.rows.len()
        invariant
            i <= u.rows@.len(),
            u.wf(),
            s@.len() <= u.ncols,
            w@.len() == s@.len(),
            rows@.len() == i,
            forall|l: int| 0 <= l < i ==> (#[trigger] rows@[l])@.len() == s@.len(),
            forall|l: int, j: int|
                0 <= l < i && 0 <= j < s@.len() ==> is_product(
                    u@[l][j],
                    w@[j],
                    #[trigger] rows@[l]@[j],
                ),
        decreases u.rows@.len() - i,
    {
        let mut row: Vec<T> = Vec::new();
        let mut j: usize = 0;
        while j < s.len()
            invariant
                j <= s@.len(),
                i < u.rows@.len(),
                u.wf(),
                s@.len() <= u.ncols,
                w@.len() == s@.len(),
                row@.len() == j,
                forall|l: int|
                    0 <= l < j ==> is_product(u@[i as int][l], w@[l], #[trigger] row@[l]),
            decreases s@.len() - j,
        {
            assert(u@[i as int] == u.rows@[i as int]@);
            row.push(u.rows[i][j].times(w[j]));
            j += 1;
        }
        rows.push(row);
        i += 1;
    }
    let scaled: Matrix<T> = Matrix { rows, ncols: s.len() };
    proof {
        let delta = choose|delta: T|
            {
                &&& #[trigger] is_shrinkage(s@, k as int, delta)
                &&& w@.len() == s@.len()
                &&& forall|j: int|
                    0 <= j < s@.len() ==> is_shrunk_value(s@[j], delta, #[trigger] w@[j])
            };
        assert forall|l: int, j: int| 0 <= l < u@.len() && 0 <= j < s@.len() implies is_product(
            u@[l][j],
            w@[j],
            #[trigger] scaled@[l][j],
        ) by {
            assert(scaled@[l][j] == scaled.rows@[l]@[j]);
        }
        assert(is_shrinkage(s@, k as int, delta) && w@.len() == s@.len());
    }
    scaled
}

/// Shrinks the sketch in place.
pub fn shrink<T: Scalar, L: LinearAlgebra<T>>(b: &mut Matrix<T>, k: usize, la: &L) -> (r: Result<
    (),
    FdError,
>)
    requires
        old(b).wf(),
    ensures
        match r {
            Ok(()) => {
                &&& final(b).wf()
                &&& final(b).ncols == old(b).ncols
                &&& is_shrunk(la, old(b)@, old(b).ncols as int, k as int, final(b)@)
            },
            Err(e) => {
                &&& *final(b) == *old(b)
                &&& shrink_fails(la, old(b)@, old(b).ncols as int, k as int, e)
            },
        },
{
    let nrows: usize = b.nrows();
    let ncols: usize = b.ncols;
    let ghost before = b@;
    let out: Result<Svd<T>, String> = la.svd(b, true, true);
    assert(svd_returns(la, before, ncols as int, true, true, out));
    let ghost out0 = out;
    let svd: Svd<T> = match out {
        Ok(svd) => svd,
        Err(report) => {
            return Err(FdError::SvdFailed(Stage::Shrink, report));
        },
    };
    let u: Matrix<T> = match svd.u {
        Some(u) => u,
        None => {
            return Err(FdError::UMissing(Stage::Shrink));
        },
    };
    let vt: Matrix<T> = match svd.vt {
        Some(vt) => vt,
        None => {
            return Err(FdError::VtMissing(Stage::Shrink));
        },
    };
    let s: Vec<T> = svd.s;
    let r: usize = s.len();
    if !(has_rows_of(&u, u.ncols) && u.nrows() == nrows && r <= u.ncols && has_rows_of(
        &vt,
        vt.ncols,
    ) && r <= vt.nrows() && vt.ncols == ncols) {
        return Err(FdError::BadShape(Stage::Shrink));
    }
    let scaled: Matrix<T> = scaled_factor(&u, s.as_slice(), k);
    let vt_top: Matrix<T> = vt.top(r);
    let product: Matrix<T> = la.mat_mul(&scaled, &vt_top);
    assert(mat_mul_returns(la, scaled@, vt@.take(r as int), ncols as int, product));
    if !(has_rows_of(&product, product.ncols) && product.nrows() == nrows && product.ncols
        == ncols) {
        return Err(FdError::BadShape(Stage::Shrink));
    }
    proof {
        assert(has_shape(product@, nrows as int, ncols as int));
        assert(svd_returns(la, before, ncols as int, true, true, Ok(out0->Ok_0)));
    }
    *b = product;
    Ok(())
}

/// Whether every row of a matrix has the given length.
fn has_rows_of<T: Copy>(a: &Matrix<T>, ncols: usize) -> (r: bool)
    ensures
        r == (forall|i: int| 0 <= i < a.rows@.len() ==> (#[trigger] a.rows@[i])@.len() == ncols),
{
    let mut i: usize = 0;
    while i < a.rows.len()
        invariant
            i <= a.rows@.len(),
            forall|l: int| 0 <= l < i ==> (#[trigger] a.rows@[l])@.len() == ncols,
        decreases a.rows@.len() - i,
    {
        if a.rows[i].len() != ncols {
            return false;
        }
        i += 1;
    }
    true
}

/// One row enters the sketch: into the next free row, or, where there is none, below the
/// `k` rows that are kept when the sketch is shrunk.
pub open spec fn is_sketch_step<T: Scalar, L: LinearAlgebra<T>>(
    la: &L,
    row: Seq<T>,
    m: int,
    k: int,
    before: Seq<Seq<T>>,
    filled_before: int,
    after: Seq<Seq<T>>,
    filled_after: int,
) -> bool {
    if filled_before < sketch_rows(k) {
        &&& after == before.update(filled_before, row)
        &&& filled_after == filled_before + 1
    } else {
        &&& exists|shrunk: Seq<Seq<T>>| #[trigger]
            is_shrunk(la, before, m, k, shrunk) && after == shrunk.update(k, row)
        &&& filled_after == k + 1
    }
}

/// `b` is a sketch of the first `i` rows of `y`, with `filled` rows in use.
pub open spec fn is_sketch<T: Scalar, L: LinearAlgebra<T>>(
    la: &L,
    y: Seq<Seq<T>>,
    m: int,
    k: int,
    i: int,
    b: Seq<Seq<T>>,
    filled: int,
) -> bool
    decreases i,
{
    if i <= 0 {
        &&& has_shape(b, sketch_rows(k), m)
        &&& forall|r: int, c: int|
            0 <= r < sketch_rows(k) && 0 <= c < m ==> is_zero(#[trigger] b[r][c])
        &&& filled == 0
    } else {
        exists|b0: Seq<Seq<T>>, filled0: int|
            is_sketch(la, y, m, k, i - 1, b0, filled0) && #[trigger] is_sketch_step(
                la,
                y[i - 1],
                m,
                k,
                b0,
                filled0,
                b,
                filled,
            )
    }
}

/// Sketching `y` fails with `e`: a full sketch of some of its rows cannot be shrunk.
pub open spec fn sketch_fails<T: Scalar, L: LinearAlgebra<T>>(
    la: &L,
    y: Seq<Seq<T>>,
    m: int,
    k: int,
    e: FdError,
) -> bool {
    exists|i: int, b: Seq<Seq<T>>|
        0 <= i < y.len() && #[trigger] is_sketch(la, y, m, k, i, b, sketch_rows(k))
            && shrink_fails(la, b, m, k, e)
}

/// `b` is the finished sketch of `y`: shrunk once more where more than `k` rows are in use.
pub open spec fn is_final_sketch<T: Scalar, L: LinearAlgebra<T>>(
    la: &L,
    y: Seq<Seq<T>>,
    m: int,
    k: int,
    b: Seq<Seq<T>>,
) -> bool {
    exists|b0: Seq<Seq<T>>, filled: int| #[trigger]
        is_sketch(la, y, m, k, y.len() as int, b0, filled) && if filled > k {
            is_shrunk(la, b0, m, k, b)
        } else {
            b == b0
        }
}

/// The right singular vectors of a decomposition can serve as `k` directions of length `m`.
pub open spec fn is_usable_basis<T: Scalar>(vt: Matrix<T>, m: int, k: int) -> bool {
    &&& vt.wf()
    &&& vt@.len() >= k
    &&& vt.ncols >= m
}

/// `vt` holds the directions that `y` is reduced to: the right singular vectors of the top
/// `k` rows of its finished sketch.
pub open spec fn is_basis<T: Scalar, L: LinearAlgebra<T>>(
    la: &L,
    y: Seq<Seq<T>>,
    m: int,
    k: int,
    vt: Matrix<T>,
) -> bool {
    exists|b: Seq<Seq<T>>, out: Svd<T>|
        #![trigger is_final_sketch(la, y, m, k, b), svd_returns(la, b.take(k), m, true, true, Ok(out))]
        {
            &&& is_final_sketch(la, y, m, k, b)
            &&& svd_returns(la, b.take(k), m, true, true, Ok(out))
            &&& out.u is Some
            &&& out.vt == Some(vt)
            &&& is_usable_basis(vt, m, k)
        }
}

/// Finding the directions of `y` fails with `e`.
pub open spec fn basis_fails<T: Scalar, L: LinearAlgebra<T>>(
    la: &L,
    y: Seq<Seq<T>>,
    m: int,
    k: int,
    e: FdError,
) -> bool {
    ||| sketch_fails(la, y, m, k, e)
    ||| exists|b: Seq<Seq<T>>, filled: int| #[trigger]
        is_sketch(la, y, m, k, y.len() as int, b, filled) && filled > k && shrink_fails(
            la,
            b,
            m,
            k,
            e,
        )
    ||| exists|b: Seq<Seq<T>>, out: Result<Svd<T>, String>|
        #![trigger is_final_sketch(la, y, m, k, b), svd_returns(la, b.take(k), m, true, true, out)]
        {
            &&& is_final_sketch(la, y, m, k, b)
            &&& svd_returns(la, b.take(k), m, true, true, out)
            &&& match out {
                Err(report) => e == FdError::SvdFailed(Stage::Reduce, report),
                Ok(svd) => if svd.u is None {
                    e == FdError::UMissing(Stage::Reduce)
                } else if svd.vt is None {
                    e == FdError::VtMissing(Stage::Reduce)
                } else {
                    e == FdError::BadShape(Stage::Reduce) && !is_usable_basis(svd.vt->0, m, k)
                },
            }
        }
}

/// `z` holds the rows of `y` along the first `k` rows of `vt`.
pub open spec fn is_reduction<T: Scalar>(
    y: Seq<Seq<T>>,
    vt: Seq<Seq<T>>,
    m: int,
    k: int,
    z: Seq<Seq<T>>,
) -> bool {
    &&& has_shape(z, y.len() as int, k)
    &&& forall|i: int, r: int|
        0 <= i < y.len() && 0 <= r < k ==> is_dot(y[i], vt[r].take(m), #[trigger] z[i][r])
}

/// `p` holds the directions that are fitted to `y`, as columns: the first `k` right singular
/// vectors of the rows in use of its sketch.
pub open spec fn is_fitted_projection<T: Scalar, L: LinearAlgebra<T>>(
    la: &L,
    y: Seq<Seq<T>>,
    m: int,
    k: int,
    p: Seq<Seq<T>>,
) -> bool {
    exists|b: Seq<Seq<T>>, filled: int, out: Svd<T>|
        #![trigger is_sketch(la, y, m, k, y.len() as int, b, filled), svd_returns(la, b.take(filled), m, false, true, Ok(out))]
        {
            &&& is_sketch(la, y, m, k, y.len() as int, b, filled)
            &&& svd_returns(la, b.take(filled), m, false, true, Ok(out))
            &&& out.vt is Some
            &&& is_usable_projection(out.vt->0, m, k)
            &&& has_shape(p, m, k)
            &&& forall|c: int, r: int|
                0 <= c < m && 0 <= r < k ==> #[trigger] p[c][r] == (out.vt->0)@[r][c]
        }
}

/// The right singular vectors of a decomposition can be fitted as `k` directions of length
/// `m`.
pub open spec fn is_usable_projection<T: Scalar>(vt: Matrix<T>, m: int, k: int) -> bool {
    &&& vt.wf()
    &&& vt@.len() >= k
    &&& vt.ncols == m
}

/// Fitting to `y` fails with `e`.
pub open spec fn fit_fails<T: Scalar, L: LinearAlgebra<T>>(
    la: &L,
    y: Seq<Seq<T>>,
    m: int,
    k: int,
    e: FdError,
) -> bool {
    ||| sketch_fails(la, y, m, k, e)
    ||| exists|b: Seq<Seq<T>>, filled: int, out: Result<Svd<T>, String>|
        #![trigger is_sketch(la, y, m, k, y.len() as int, b, filled), svd_returns(la, b.take(filled), m, false, true, out)]
        {
            &&& is_sketch(la, y, m, k, y.len() as int, b, filled)
            &&& svd_returns(la, b.take(filled), m, false, true, out)
            &&& match out {
                Err(report) => e == FdError::SvdFailed(Stage::Fit, report),
                Ok(svd) => if svd.vt is None {
                    e == FdError::VtMissing(Stage::Fit)
                } else {
                    e == FdError::BadShape(Stage::Fit) && !is_usable_projection(svd.vt->0, m, k)
                },
            }
        }
    ||| exists|p: Seq<Seq<T>>, z: Matrix<T>|
        #![trigger is_fitted_projection(la, y, m, k, p), mat_mul_returns(la, y, p, k, z)]
        {
            &&& is_fitted_projection(la, y, m, k, p)
            &&& mat_mul_returns(la, y, p, k, z)
            &&& e == FdError::BadShape(Stage::Fit)
            &&& !(z.wf() && z@.len() == y.len() && z.ncols == k)
        }
}

/// Streams the rows of `y` into a sketch; returns it with the number of rows in use.
pub fn sketch<T: Scalar, L: LinearAlgebra<T>>(y: &Matrix<T>, k: usize, la: &L) -> (r: Result<
    (Matrix<T>, usize),
    FdError,
>)
    requires
        y.wf(),
        0 < k,
        8 * k <= usize::MAX,
    ensures
        match r {
            Ok((b, filled)) => {
                &&& b.wf()
                &&& b.ncols == y.ncols
                &&& b@.len() == sketch_rows(k as int)
                &&& filled <= sketch_rows(k as int)
                &&& is_sketch(
                    la,
                    y@,
                    y.ncols as int,
                    k as int,
                    y@.len() as int,
                    b@,
                    filled as int,
                )
            },
            Err(e) => sketch_fails(la, y@, y.ncols as int, k as int, e),
        },
{
    let n: usize = y.nrows();
    let m: usize = y.ncols;
    let ell: usize = if 8 * k > k + 1 {
        8 * k
    } else {
        k + 1
    };
    let mut b: Matrix<T> = Matrix::zeros(ell, m);
    let mut filled: usize = 0;
    let mut i: usize = 0;
    while i < n
        invariant
            i <= n,
            n == y.rows@.len(),
            m == y.ncols,
            0 < k,
            ell == sketch_rows(k as int),
            y.wf(),
            b.wf(),
            b.ncols == m,
            b@.len() == ell,
            filled <= ell,
            is_sketch(la, y@, m as int, k as int, i as int, b@, filled as int),
        decreases n - i,
    {
        let ghost b0 = b@;
        let ghost filled0 = filled;
        assert(y@[i as int] == y.rows@[i as int]@);
        if filled < ell {
            b.set_row(filled, y.rows[i].as_slice());
            filled += 1;
        } else {
            match shrink(&mut b, k, la) {
                Ok(()) => {},
                Err(e) => {
                    return Err(e);
                },
            }
            let ghost shrunk = b@;
            assert(is_shrunk(la, b0, m as int, k as int, shrunk));
            b.set_row(k, y.rows[i].as_slice());
            filled = k + 1;
        }
        i += 1;
        proof {
            assert(is_sketch(la, y@, m as int, k as int, i - 1, b0, filled0 as int));
            assert(is_sketch_step(
                la,
                y@[i - 1],
                m as int,
                k as int,
                b0,
                filled0 as int,
                b@,
                filled as int,
            ));
        }
    }
    Ok((b, filled))
}

/// The directions that `y` is reduced to.
pub fn reduction_basis<T: Scalar, L: LinearAlgebra<T>>(
    y: &Matrix<T>,
    k: usize,
    la: &L,
) -> (r: Result<Matrix<T>, FdError>)
    requires
        y.wf(),
        0 < k <= y.ncols ==> 8 * k <= usize::MAX,
    ensures
        (k == 0 || k > y.ncols) ==> r == Err::<Matrix<T>, FdError>(FdError::InvalidK),
        0 < k <= y.ncols ==> match r {
            Ok(vt) => is_basis(la, y@, y.ncols as int, k as int, vt),
            Err(e) => basis_fails(la, y@, y.ncols as int, k as int, e),
        },
{
    let m: usize = y.ncols;
    if k == 0 || k > m {
        return Err(FdError::InvalidK);
    }
    let (mut b, filled): (Matrix<T>, usize) = match sketch(y, k, la) {
        Ok(r) => r,
        Err(e) => {
            return Err(e);
        },
    };
    let ghost b0 = b@;
    if filled > k {
        match shrink(&mut b, k, la) {
            Ok(()) => {},
            Err(e) => {
                return Err(e);
            },
        }
    }
    assert(is_final_sketch(la, y@, m as int, k as int, b@));
    let top: Matrix<T> = b.top(k);
    let out: Result<Svd<T>, String> = la.svd(&top, true, true);
    assert(svd_returns(la, b@.take(k as int), m as int, true, true, out));
    let svd: Svd<T> = match out {
        Ok(svd) => svd,
        Err(report) => {
            return Err(FdError::SvdFailed(Stage::Reduce, report));
        },
    };
    let ghost svd0 = svd;
    assert(svd_returns(la, b@.take(k as int), m as int, true, true, Ok(svd0)));
    let vt_opt: Option<Matrix<T>> = svd.vt;
    if svd.u.is_none() {
        return Err(FdError::UMissing(Stage::Reduce));
    }
    let vt: Matrix<T> = match vt_opt {
        Some(vt) => vt,
        None => {
            return Err(FdError::VtMissing(Stage::Reduce));
        },
    };
    if !(has_rows_of(&vt, vt.ncols) && vt.nrows() >= k && vt.ncols >= m) {
        return Err(FdError::BadShape(Stage::Reduce));
    }
    Ok(vt)
}

/// Reduces the rows of `y` to `k` columns. Fails with `InvalidK` exactly where `k` is zero or
/// larger than the width of `y`.
pub fn fd_reduce<T: Scalar, L: LinearAlgebra<T>>(y: &Matrix<T>, k: usize, la: &L) -> (r: Result<
    Matrix<T>,
    FdError,
>)
    requires
        y.wf(),
        0 < k <= y.ncols ==> 8 * k <= usize::MAX,
    ensures
        (k == 0 || k > y.ncols) ==> r == Err::<Matrix<T>, FdError>(FdError::InvalidK),
        0 < k <= y.ncols ==> match r {
            Ok(z) => {
                &&& z.wf()
                &&& z.ncols == k
                &&& exists|vt: Matrix<T>|
                    {
                        &&& #[trigger] is_basis(la, y@, y.ncols as int, k as int, vt)
                        &&& is_reduction(y@, vt@, y.ncols as int, k as int, z@)
                    }
            },
            Err(e) => basis_fails(la, y@, y.ncols as int, k as int, e),
        },
{
    let m: usize = y.ncols;
    let vt: Matrix<T> = match reduction_basis(y, k, la) {
        Ok(vt) => vt,
        Err(e) => {
            return Err(e);
        },
    };
    let p: Matrix<T> = vt.transposed();
    let z: Matrix<T> = y.projected(&p, m, k);
    proof {
        lemma_reduction(y@, vt@, p@, m as int, k as int, vt.ncols as int, z@);
    }
    Ok(z)
}

/// Projecting on the columns of the transpose is reducing along the rows.
proof fn lemma_reduction<T: Scalar>(
    y: Seq<Seq<T>>,
    vt: Seq<Seq<T>>,
    p: Seq<Seq<T>>,
    m: int,
    k: int,
    width: int,
    z: Seq<Seq<T>>,
)
    requires
        0 <= m <= width,
        0 <= k <= vt.len(),
        has_shape(y, y.len() as int, m),
        has_shape(vt, vt.len() as int, width),
        has_shape(p, width, vt.len() as int),
        forall|c: int, r: int|
            0 <= c < width && 0 <= r < vt.len() ==> #[trigger] p[c][r] == vt[r][c],
        is_projection(y, p, m, k, z),
    ensures
        is_reduction(y, vt, m, k, z),
{
    assert forall|i: int, r: int| 0 <= i < y.len() && 0 <= r < k implies is_dot(
        y[i],
        vt[r].take(m),
        #[trigger] z[i][r],
    ) by {
        assert(y[i].take(m) =~= y[i]);
        assert(vt[r].len() == width);
        assert(column(p, m, r) =~= vt[r].take(m)) by {
            assert forall|c: int| 0 <= c < m implies column(p, m, r)[c] == vt[r].take(m)[c] by {
                assert(p[c][r] == vt[r][c]);
            }
        }
    }
}

/// Fits `k` directions to the rows of `y`: the rows along those directions, and the
/// directions as columns. Fails with `InvalidK` exactly where `k` is zero or larger than the
/// width of `y`.
pub fn fd_fit<T: Scalar, L: LinearAlgebra<T>>(y: &Matrix<T>, k: usize, la: &L) -> (r: Result<
    (Matrix<T>, Matrix<T>),
    FdError,
>)
    requires
        y.wf(),
        0 < k <= y.ncols ==> 8 * k <= usize::MAX,
    ensures
        (k == 0 || k > y.ncols) ==> r == Err::<(Matrix<T>, Matrix<T>), FdError>(
            FdError::InvalidK,
        ),
        0 < k <= y.ncols ==> match r {
            Ok((z, p)) => {
                &&& z.wf()
                &&& has_shape(z@, y@.len() as int, k as int)
                &&& z.ncols == k
                &&& p.wf()
                &&& p.ncols == k
                &&& is_fitted_projection(la, y@, y.ncols as int, k as int, p@)
                &&& mat_mul_returns(la, y@, p@, k as int, z)
            },
            Err(e) => fit_fails(la, y@, y.ncols as int, k as int, e),
        },
{
    let n: usize = y.nrows();
    let m: usize = y.ncols;
    if k == 0 || k > m {
        return Err(FdError::InvalidK);
    }
    let (b, filled): (Matrix<T>, usize) = match sketch(y, k, la) {
        Ok(r) => r,
        Err(e) => {
            return Err(e);
        },
    };
    let used: Matrix<T> = b.top(filled);
    let out: Result<Svd<T>, String> = la.svd(&used, false, true);
    assert(svd_returns(la, b@.take(filled as int), m as int, false, true, out));
    let svd: Svd<T> = match out {
        Ok(svd) => svd,
        Err(report) => {
            return Err(FdError::SvdFailed(Stage::Fit, report));
        },
    };
    let ghost svd0 = svd;
    assert(svd_returns(la, b@.take(filled as int), m as int, false, true, Ok(svd0)));
    let vt: Matrix<T> = match svd.vt {
        Some(vt) => vt,
        None => {
            return Err(FdError::VtMissing(Stage::Fit));
        },
    };
    if !(has_rows_of(&vt, vt.ncols) && vt.nrows() >= k && vt.ncols == m) {
        return Err(FdError::BadShape(Stage::Fit));
    }
    let p: Matrix<T> = vt.top(k).transposed();
    assert(is_fitted_projection(la, y@, m as int, k as int, p@));
    let z: Matrix<T> = la.mat_mul(y, &p);
    assert(mat_mul_returns(la, y@, p@, k as int, z));
    if !(has_rows_of(&z, z.ncols) && z.nrows() == n && z.ncols == k) {
        return Err(FdError::BadShape(Stage::Fit));
    }
    Ok((z, p))
}

} // verus!
