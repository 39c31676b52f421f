//! The linear algebra that an embedding is computed with.

use vstd::prelude::*;

use crate::matrix::{column, has_shape, is_projection, Matrix};
use crate::scalar::{is_dot, Scalar};

verus! {

/// A singular value decomposition, as far as it was asked for.
pub struct Svd<T> {
    /// The left singular vectors, as columns.
    pub u: Option<Matrix<T>>,
    /// The singular values, from the largest.
    pub s: Vec<T>,
    /// The right singular vectors, as rows.
    pub vt: Option<Matrix<T>>,
}

/// The operations on whole matrices. Nothing is promised of what they return.
pub trait LinearAlgebra<T: Scalar> {
    /// Decomposes `a`, with the left and right singular vectors where asked for.
    fn svd(&self, a: &Matrix<T>, want_u: bool, want_vt: bool) -> Result<Svd<T>, String>;

    /// `a` times `b`.
    fn mat_mul(&self, a: &Matrix<T>, b: &Matrix<T>) -> Matrix<T>;
}

/// `out` is what decomposing `a`, of width `ncols`, returned.
pub open spec fn svd_returns<T: Scalar, L: LinearAlgebra<T>>(
    la: &L,
    a: Seq<Seq<T>>,
    ncols: int,
    want_u: bool,
    want_vt: bool,
    out: Result<Svd<T>, String>,
) -> bool {
    exists|m: Matrix<T>|
        {
            &&& m.wf()
            &&& m@ == a
            &&& m.ncols == ncols
            &&& #[trigger] call_ensures(L::svd, (la, &m, want_u, want_vt), out)
        }
}

/// `c` is what multiplying `a` by `b`, of width `ncols`, returned.
pub open spec fn mat_mul_returns<T: Scalar, L: LinearAlgebra<T>>(
    la: &L,
    a: Seq<Seq<T>>,
    b: Seq<Seq<T>>,
    ncols: int,
    c: Matrix<T>,
) -> bool {
    exists|ma: Matrix<T>, mb: Matrix<T>|
        {
            &&& ma.wf()
            &&& ma@ == a
            &&& ma.ncols == b.len()
            &&& mb.wf()
            &&& mb@ == b
            &&& mb.ncols == ncols
            &&& #[trigger] call_ensures(L::mat_mul, (la, &ma, &mb), c)
        }
}

/// The same entries in the same shape.
pub open spec fn same_matrix<T>(a: Matrix<T>, b: Matrix<T>) -> bool {
    a@ == b@ && a.ncols == b.ncols
}

/// Both are missing, or both are the same matrix.
pub open spec fn same_factor<T>(a: Option<Matrix<T>>, b: Option<Matrix<T>>) -> bool {
    match (a, b) {
        (Some(x), Some(y)) => same_matrix(x, y),
        (None, None) => true,
        _ => false,
    }
}

/// The same decomposition, or the same report of a failure.
pub open spec fn same_reply<T>(a: Result<Svd<T>, String>, b: Result<Svd<T>, String>) -> bool {
    match (a, b) {
        (Ok(x), Ok(y)) => same_factor(x.u, y.u) && x.s@ == y.s@ && same_factor(x.vt, y.vt),
        (Err(x), Err(y)) => x@ == y@,
        _ => false,
    }
}

/// The operations are functions: the same matrices give the same results.
#[verifier::opaque]
pub open spec fn repeats<T: Scalar, L: LinearAlgebra<T>>(la: &L) -> bool {
    &&& forall|
        a: Matrix<T>,
        b: Matrix<T>,
        want_u: bool,
        want_vt: bool,
        x: Result<Svd<T>, String>,
        y: Result<Svd<T>, String>,
    | #[trigger]
        call_ensures(L::svd, (la, &a, want_u, want_vt), x) && #[trigger] call_ensures(
            L::svd,
            (la, &b, want_u, want_vt),
            y,
        ) && same_matrix(a, b) ==> same_reply(x, y)
    &&& forall|
        a: Matrix<T>,
        b: Matrix<T>,
        c: Matrix<T>,
        d: Matrix<T>,
        x: Matrix<T>,
        y: Matrix<T>,
    | #[trigger]
        call_ensures(L::mat_mul, (la, &a, &b), x) && #[trigger] call_ensures(
            L::mat_mul,
            (la, &c, &d),
            y,
        ) && same_matrix(a, c) && same_matrix(b, d) ==> same_matrix(x, y)
}

/// Where the operations are functions, a matrix has one decomposition.
pub proof fn lemma_svd_repeats<T: Scalar, L: LinearAlgebra<T>>(
    la: &L,
    a: Seq<Seq<T>>,
    ncols: int,
    want_u: bool,
    want_vt: bool,
    x: Result<Svd<T>, String>,
    y: Result<Svd<T>, String>,
)
    requires
        repeats(la),
        svd_returns(la, a, ncols, want_u, want_vt, x),
        svd_returns(la, a, ncols, want_u, want_vt, y),
    ensures
        same_reply(x, y),
{
    reveal(repeats);
}

/// Where the operations are functions, two matrices have one product.
pub proof fn lemma_mat_mul_repeats<T: Scalar, L: LinearAlgebra<T>>(
    la: &L,
    a: Seq<Seq<T>>,
    b: Seq<Seq<T>>,
    ncols: int,
    x: Matrix<T>,
    y: Matrix<T>,
)
    requires
        repeats(la),
        mat_mul_returns(la, a, b, ncols, x),
        mat_mul_returns(la, a, b, ncols, y),
    ensures
        same_matrix(x, y),
{
    reveal(repeats);
    let (a1, b1) = choose|ma: Matrix<T>, mb: Matrix<T>|
        {
            &&& ma.wf()
            &&& ma@ == a
            &&& ma.ncols == b.len()
            &&& mb.wf()
            &&& mb@ == b
            &&& mb.ncols == ncols
            &&& #[trigger] call_ensures(L::mat_mul, (la, &ma, &mb), x)
        };
    let (a2, b2) = choose|ma: Matrix<T>, mb: Matrix<T>|
        {
            &&& ma.wf()
            &&& ma@ == a
            &&& ma.ncols == b.len()
            &&& mb.wf()
            &&& mb@ == b
            &&& mb.ncols == ncols
            &&& #[trigger] call_ensures(L::mat_mul, (la, &ma, &mb), y)
        };
    assert(same_matrix(a1, a2) && same_matrix(b1, b2));
}

/// The decomposition of `a` succeeds, and comes with the vectors that were asked for, in full.
pub open spec fn is_full<T: Scalar>(
    nrows: int,
    ncols: int,
    want_u: bool,
    want_vt: bool,
    out: Result<Svd<T>, String>,
) -> bool {
    &&& out matches Ok(svd)
    &&& want_u ==> {
        &&& svd.u is Some
        &&& (svd.u->0).wf()
        &&& (svd.u->0)@.len() == nrows
        &&& svd.s@.len() <= (svd.u->0).ncols
    }
    &&& want_vt ==> {
        &&& svd.vt is Some
        &&& (svd.vt->0).wf()
        &&& (svd.vt->0)@.len() == ncols
        &&& (svd.vt->0).ncols == ncols
        &&& svd.s@.len() <= ncols
    }
}

/// Every decomposition succeeds in full, and every product has the shape that its factors
/// call for.
pub open spec fn succeeds<T: Scalar, L: LinearAlgebra<T>>(la: &L) -> bool {
    &&& forall|a: Matrix<T>, want_u: bool, want_vt: bool, out: Result<Svd<T>, String>| #[trigger]
        call_ensures(L::svd, (la, &a, want_u, want_vt), out) && a.wf() ==> is_full(
            a@.len() as int,
            a.ncols as int,
            want_u,
            want_vt,
            out,
        )
    &&& forall|a: Matrix<T>, b: Matrix<T>, c: Matrix<T>| #[trigger]
        call_ensures(L::mat_mul, (la, &a, &b), c) && a.wf() && b.wf() && a.ncols == b@.len()
            ==> c.wf() && c@.len() == a@.len() && c.ncols == b.ncols
}

/// Every product has the dot product of a row and a column for an entry, each summed from the
/// left.
pub open spec fn multiplies_in_order<T: Scalar, L: LinearAlgebra<T>>(la: &L) -> bool {
    forall|a: Matrix<T>, b: Matrix<T>, c: Matrix<T>| #[trigger]
        call_ensures(L::mat_mul, (la, &a, &b), c) && a.wf() && b.wf() && a.ncols == b@.len()
            ==> is_projection(a@, b@, b@.len() as int, b.ncols as int, c@)
}

/// Every entry of `c` is close to every value that the dot product of a row of `a` and a
/// column of `b`, summed from the left, can have.
pub open spec fn is_near_product<T: Scalar>(
    a: Seq<Seq<T>>,
    b: Seq<Seq<T>>,
    ncols: int,
    close: spec_fn(T, T) -> bool,
    c: Seq<Seq<T>>,
) -> bool {
    &&& has_shape(c, a.len() as int, ncols)
    &&& forall|i: int, j: int, d: T|
        0 <= i < a.len() && 0 <= j < ncols && #[trigger] is_dot(
            a[i],
            column(b, b.len() as int, j),
            d,
        ) ==> close(c[i][j], d)
}

/// Every product is close to the one whose entries are summed from the left: whatever the
/// order of its sums, it differs by no more than `close` lets pass as rounding.
pub open spec fn multiplies_within<T: Scalar, L: LinearAlgebra<T>>(
    la: &L,
    close: spec_fn(T, T) -> bool,
) -> bool {
    forall|a: Matrix<T>, b: Matrix<T>, c: Matrix<T>| #[trigger]
        call_ensures(L::mat_mul, (la, &a, &b), c) && a.wf() && b.wf() && a.ncols == b@.len()
            ==> is_near_product(a@, b@, b.ncols as int, close, c@)
}

} // verus!
