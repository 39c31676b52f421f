//! What a sketch holds of the rows that entered it, and what shrinking does to it.

use vstd::prelude::*;

use crate::fd::{is_shrinkage, is_shrunk, is_shrunk_value, is_sketch};
use crate::linalg::{LinearAlgebra, Svd};
use crate::matrix::{has_shape, Matrix};
use crate::reproducible::{witness_shrunk, witness_sketch};
use crate::scalar::{is_difference, is_exceeds, is_product, is_sqrt, is_zero, Scalar};

verus! {

/// A sketch starts with `8 * k` rows of zeros, none of them in use.
pub proof fn law_sketch_starts_empty<T: Scalar, L: LinearAlgebra<T>>(
    la: &L,
    y: Seq<Seq<T>>,
    m: int,
    k: int,
    b: Seq<Seq<T>>,
    filled: int,
)
    requires
        0 < k,
        is_sketch(la, y, m, k, 0, b, filled),
    ensures
        filled == 0,
        b.len() == 8 * k,
        forall|r: int| 0 <= r < 8 * k ==> (#[trigger] b[r]).len() == m,
        forall|r: int, c: int|
            0 <= r < 8 * k && 0 <= c < m ==> call_ensures(T::zero, (), #[trigger] b[r][c]),
{
}

/// The newest row is always kept as it came: it is the last row in use, whether the sketch had
/// room for it or was full and had to be shrunk first.
pub proof fn law_newest_row_is_kept<T: Scalar, L: LinearAlgebra<T>>(
    la: &L,
    y: Seq<Seq<T>>,
    m: int,
    k: int,
    i: int,
    b: Seq<Seq<T>>,
    filled: int,
)
    requires
        0 < k,
        0 < i,
        is_sketch(la, y, m, k, i, b, filled),
    ensures
        b.len() == 8 * k,
        0 < filled <= 8 * k,
        b[filled - 1] == y[i - 1],
    decreases i,
{
    let (b0, filled0) = witness_sketch(la, y, m, k, i, b, filled);
    if i > 1 {
        law_newest_row_is_kept(la, y, m, k, i - 1, b0, filled0);
    }
    if filled0 >= 8 * k {
        let shrunk = choose|shrunk: Seq<Seq<T>>| #[trigger]
            is_shrunk(la, b0, m, k, shrunk) && b == shrunk.update(k, y[i - 1]);
        let (out, scaled, product) = witness_shrunk(la, b0, m, k, shrunk);
    }
}

/// Until the sketch is full nothing is lost: after `i` rows, row `r` of the sketch is the `r`-th
/// row that entered, and the rows that are not in use are zeros.
pub proof fn law_sketch_keeps_all_until_full<T: Scalar, L: LinearAlgebra<T>>(
    la: &L,
    y: Seq<Seq<T>>,
    m: int,
    k: int,
    i: int,
    b: Seq<Seq<T>>,
    filled: int,
)
    requires
        0 < k,
        0 <= i <= 8 * k,
        is_sketch(la, y, m, k, i, b, filled),
    ensures
        filled == i,
        b.len() == 8 * k,
        forall|r: int| 0 <= r < i ==> #[trigger] b[r] == y[r],
        forall|r: int| i <= r < 8 * k ==> (#[trigger] b[r]).len() == m,
        forall|r: int, c: int|
            i <= r < 8 * k && 0 <= c < m ==> call_ensures(T::zero, (), #[trigger] b[r][c]),
    decreases i,
{
    if i > 0 {
        let (b0, filled0) = witness_sketch(la, y, m, k, i, b, filled);
        law_sketch_keeps_all_until_full(la, y, m, k, i - 1, b0, filled0);
        assert forall|r: int| i <= r < 8 * k implies (#[trigger] b[r]).len() == m by {
            assert(b[r] == b0[r]);
        }
        assert forall|r: int, c: int| i <= r < 8 * k && 0 <= c < m implies call_ensures(
            T::zero,
            (),
            #[trigger] b[r][c],
        ) by {
            assert(b[r] == b0[r]);
            assert(call_ensures(T::zero, (), b0[r][c]));
        }
    }
}

/// Once rows have entered a full sketch, it is the last full sketch `b0` shrunk, with the rows
/// that entered since written one below another from row `k` on, and nothing else changed. There
/// are `filled - k` such rows, from one to `7 * k`; the full sketch is one of all rows before
/// them.
pub proof fn law_sketch_is_shrunk_and_refilled<T: Scalar, L: LinearAlgebra<T>>(
    la: &L,
    y: Seq<Seq<T>>,
    m: int,
    k: int,
    i: int,
    b: Seq<Seq<T>>,
    filled: int,
) -> (w: (Seq<Seq<T>>, Seq<Seq<T>>))
    requires
        0 < k,
        8 * k < i,
        is_sketch(la, y, m, k, i, b, filled),
    ensures
        k < filled <= 8 * k,
        is_sketch(la, y, m, k, i - (filled - k), w.0, 8 * k),
        is_shrunk(la, w.0, m, k, w.1),
        w.1.len() == 8 * k,
        b.len() == 8 * k,
        forall|r: int| 0 <= r < k || filled <= r < 8 * k ==> #[trigger] b[r] == w.1[r],
        forall|r: int| k <= r < filled ==> #[trigger] b[r] == y[i - filled + r],
    decreases i,
{
    let (b0, filled0) = witness_sketch(la, y, m, k, i, b, filled);
    law_newest_row_is_kept(la, y, m, k, i, b, filled);
    law_newest_row_is_kept(la, y, m, k, i - 1, b0, filled0);
    if filled0 < 8 * k {
        if i - 1 == 8 * k {
            law_sketch_keeps_all_until_full(la, y, m, k, i - 1, b0, filled0);
        }
        let w = law_sketch_is_shrunk_and_refilled(la, y, m, k, i - 1, b0, filled0);
        assert forall|r: int| k <= r < filled implies #[trigger] b[r] == y[i - filled + r] by {
            if r < filled0 {
                assert(b[r] == b0[r]);
            }
        }
        assert forall|r: int| 0 <= r < k || filled <= r < 8 * k implies #[trigger] b[r]
            == w.1[r] by {
            assert(b[r] == b0[r]);
        }
        w
    } else {
        let shrunk = choose|shrunk: Seq<Seq<T>>| #[trigger]
            is_shrunk(la, b0, m, k, shrunk) && b == shrunk.update(k, y[i - 1]);
        let (out, scaled, product) = witness_shrunk(la, b0, m, k, shrunk);
        (b0, shrunk)
    }
}

/// What shrinking a sketch does. The sketch is decomposed; `delta` is the square of the `k`-th
/// singular value, or of zero where there are fewer; every singular value `s` becomes
/// `sqrt(s * s - delta)`, or zero where `s * s` is not larger than `delta`; and the left singular
/// vectors, each times its new value, are multiplied by the right ones.
pub proof fn law_shrink_by_entry<T: Scalar, L: LinearAlgebra<T>>(
    la: &L,
    before: Seq<Seq<T>>,
    m: int,
    k: int,
    after: Seq<Seq<T>>,
) -> (w: (Matrix<T>, Svd<T>, T, T, Seq<T>, Matrix<T>, Matrix<T>, Matrix<T>))
    requires
        0 < k,
        is_shrunk(la, before, m, k, after),
    ensures
        ({
            let (a, out, s_k, delta, values, scaled, directions, product) = w;
            &&& a@ == before && a.ncols == m
            &&& call_ensures(L::svd, (la, &a, true, true), Ok(out))
            &&& out.u is Some && out.vt is Some
            &&& if k <= out.s@.len() {
                s_k == out.s@[k - 1]
            } else {
                call_ensures(T::zero, (), s_k)
            }
            &&& call_ensures(T::times, (s_k, s_k), delta)
            &&& values.len() == out.s@.len()
            &&& forall|j: int|
                0 <= j < values.len() ==> shrinks_to(out.s@[j], delta, #[trigger] values[j])
            &&& scaled@.len() == before.len() && scaled.ncols == out.s@.len()
            &&& forall|i: int, j: int|
                0 <= i < before.len() && 0 <= j < values.len() ==> call_ensures(
                    T::times,
                    ((out.u->0)@[i][j], values[j]),
                    #[trigger] scaled@[i][j],
                )
            &&& directions@.len() == out.s@.len() && directions.ncols == m
            &&& forall|j: int|
                0 <= j < directions@.len() ==> #[trigger] directions@[j] == (out.vt->0)@[j]
            &&& call_ensures(L::mat_mul, (la, &scaled, &directions), product)
            &&& product@ == after
            &&& after.len() == before.len()
            &&& forall|i: int| 0 <= i < after.len() ==> (#[trigger] after[i]).len() == m
        }),
{
    let (out, scaled, product) = witness_shrunk(la, before, m, k, after);
    let a = choose|a: Matrix<T>|
        {
            &&& a.wf()
            &&& a@ == before
            &&& a.ncols == m
            &&& #[trigger] call_ensures(L::svd, (la, &a, true, true), Ok(out))
        };
    let top = (out.vt->0)@.take(out.s@.len() as int);
    let (ma, mb) = choose|ma: Matrix<T>, mb: Matrix<T>|
        {
            &&& ma.wf()
            &&& ma@ == scaled
            &&& ma.ncols == top.len()
            &&& mb.wf()
            &&& mb@ == top
            &&& mb.ncols == m
            &&& #[trigger] call_ensures(L::mat_mul, (la, &ma, &mb), product)
        };
    let (delta, values) = choose|delta: T, values: Seq<T>|
        {
            &&& #[trigger] is_shrinkage(out.s@, k, delta)
            &&& #[trigger] values.len() == out.s@.len()
            &&& forall|j: int|
                0 <= j < out.s@.len() ==> is_shrunk_value(out.s@[j], delta, #[trigger] values[j])
            &&& has_shape(scaled, (out.u->0)@.len() as int, out.s@.len() as int)
            &&& forall|i: int, j: int|
                0 <= i < (out.u->0)@.len() && 0 <= j < out.s@.len()
                    ==> is_product(
                    (out.u->0)@[i][j],
                    values[j],
                    #[trigger] scaled[i][j],
                )
        };
    let s_k = choose|s_k: T|
        (if k - 1 < out.s@.len() {
            s_k == out.s@[k - 1]
        } else {
            is_zero(s_k)
        }) && #[trigger] is_product(s_k, s_k, delta);
    assert forall|j: int| 0 <= j < values.len() implies shrinks_to(
        out.s@[j],
        delta,
        #[trigger] values[j],
    ) by {
        lemma_shrinks_to(out.s@[j], delta, values[j]);
    }
    (a, out, s_k, delta, values, ma, mb, product)
}

/// `w` is `sqrt(s * s - delta)` where `s * s` exceeds `delta`, and otherwise zero: the steps.
pub open spec fn shrink_steps<T: Scalar>(
    s: T,
    delta: T,
    square: T,
    exceeds: bool,
    rest: T,
    w: T,
) -> bool {
    &&& call_ensures(T::times, (s, s), square)
    &&& call_ensures(T::exceeds, (square, delta), exceeds)
    &&& exceeds ==> call_ensures(T::minus, (square, delta), rest) && call_ensures(
        T::sqrt,
        (rest,),
        w,
    )
    &&& !exceeds ==> call_ensures(T::zero, (), w)
}

/// A singular value `s` becomes `w` where `delta` is taken off its square.
pub open spec fn shrinks_to<T: Scalar>(s: T, delta: T, w: T) -> bool {
    exists|square: T, exceeds: bool, rest: T| #[trigger]
        shrink_steps(s, delta, square, exceeds, rest, w)
}

/// A shrunk value, step by step.
proof fn lemma_shrinks_to<T: Scalar>(s: T, delta: T, w: T)
    requires
        is_shrunk_value(s, delta, w),
    ensures
        shrinks_to(s, delta, w),
{
    let (square, exceeds) = choose|square: T, exceeds: bool| #[trigger]
        is_product(s, s, square) && #[trigger] is_exceeds(
            square,
            delta,
            exceeds,
        ) && if exceeds {
            exists|rest: T| #[trigger]
                is_difference(square, delta, rest) && is_sqrt(
                    rest,
                    w,
                )
        } else {
            is_zero(w)
        };
    if exceeds {
        let rest = choose|rest: T| #[trigger]
            is_difference(square, delta, rest) && is_sqrt(rest, w);
        assert(shrink_steps(s, delta, square, exceeds, rest, w));
    } else {
        assert(shrink_steps(s, delta, square, exceeds, square, w));
    }
}

} // verus!
