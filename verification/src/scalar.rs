//! The numbers that the kernels compute with, and what the kernels compute.
//!
//! [`Scalar`] names the operations and promises nothing of them. A statement such as
//! `is_sum(a, b, r)` says that `r` came out of [`Scalar::plus`] on `a` and `b`; for a
//! type whose operations carry postconditions, those follow from it.

use vstd::prelude::*;

verus! {

/// A number type, by the operations that the kernels use.
pub trait Scalar: Copy {
    /// The constant 0.
    fn zero() -> Self;

    /// The constant 1.
    fn one() -> Self;

    /// The constant -1.
    fn minus_one() -> Self;

    /// The number nearest to a term count.
    fn from_count(count: u32) -> Self;

    /// The number nearest to a length.
    fn from_len(len: usize) -> Self;

    /// `self + other`.
    fn plus(self, other: Self) -> Self;

    /// `self - other`.
    fn minus(self, other: Self) -> Self;

    /// `self * other`.
    fn times(self, other: Self) -> Self;

    /// `self / other`.
    fn over(self, other: Self) -> Self;

    /// The square root.
    fn sqrt(self) -> Self;

    /// The natural logarithm.
    fn ln(self) -> Self;

    /// Whether `self > other`.
    fn exceeds(self, other: Self) -> bool;
}

/// `r` is a result of [`Scalar::zero`].
pub open spec fn is_zero<T: Scalar>(r: T) -> bool {
    call_ensures(T::zero, (), r)
}

/// `r` is a result of [`Scalar::one`].
pub open spec fn is_one<T: Scalar>(r: T) -> bool {
    call_ensures(T::one, (), r)
}

/// `r` is a result of [`Scalar::minus_one`].
pub open spec fn is_minus_one<T: Scalar>(r: T) -> bool {
    call_ensures(T::minus_one, (), r)
}

/// `r` is a result of [`Scalar::from_count`] on `count`.
pub open spec fn is_count<T: Scalar>(count: u32, r: T) -> bool {
    call_ensures(T::from_count, (count,), r)
}

/// `r` is a result of [`Scalar::from_len`] on `len`.
pub open spec fn is_len<T: Scalar>(len: usize, r: T) -> bool {
    call_ensures(T::from_len, (len,), r)
}

/// `r` is a result of [`Scalar::plus`].
pub open spec fn is_sum<T: Scalar>(a: T, b: T, r: T) -> bool {
    call_ensures(T::plus, (a, b), r)
}

/// `r` is a result of [`Scalar::minus`].
pub open spec fn is_difference<T: Scalar>(a: T, b: T, r: T) -> bool {
    call_ensures(T::minus, (a, b), r)
}

/// `r` is a result of [`Scalar::times`].
pub open spec fn is_product<T: Scalar>(a: T, b: T, r: T) -> bool {
    call_ensures(T::times, (a, b), r)
}

/// `r` is a result of [`Scalar::over`].
pub open spec fn is_quotient<T: Scalar>(a: T, b: T, r: T) -> bool {
    call_ensures(T::over, (a, b), r)
}

/// `r` is a result of [`Scalar::sqrt`].
pub open spec fn is_sqrt<T: Scalar>(a: T, r: T) -> bool {
    call_ensures(T::sqrt, (a,), r)
}

/// `r` is a result of [`Scalar::ln`].
pub open spec fn is_ln<T: Scalar>(a: T, r: T) -> bool {
    call_ensures(T::ln, (a,), r)
}

/// `r` is a result of [`Scalar::exceeds`].
pub open spec fn is_exceeds<T: Scalar>(a: T, b: T, r: bool) -> bool {
    call_ensures(T::exceeds, (a, b), r)
}

/// The operations that kernels use are functions: one result for each operand list.
pub open spec fn functional<T: Scalar>() -> bool {
    &&& forall|r1: T, r2: T| #[trigger] is_zero(r1) && #[trigger] is_zero(r2) ==> r1 == r2
    &&& forall|r1: T, r2: T| #[trigger] is_one(r1) && #[trigger] is_one(r2) ==> r1 == r2
    &&& forall|r1: T, r2: T| #[trigger]
        is_minus_one(r1) && #[trigger] is_minus_one(r2) ==> r1 == r2
    &&& forall|c: u32, r1: T, r2: T| #[trigger]
        is_count(c, r1) && #[trigger] is_count(c, r2) ==> r1 == r2
    &&& forall|n: usize, r1: T, r2: T| #[trigger]
        is_len(n, r1) && #[trigger] is_len(n, r2) ==> r1 == r2
    &&& forall|a: T, b: T, r1: T, r2: T| #[trigger]
        is_sum(a, b, r1) && #[trigger] is_sum(a, b, r2) ==> r1 == r2
    &&& forall|a: T, b: T, r1: T, r2: T| #[trigger]
        is_difference(a, b, r1) && #[trigger] is_difference(a, b, r2) ==> r1 == r2
    &&& forall|a: T, b: T, r1: T, r2: T| #[trigger]
        is_product(a, b, r1) && #[trigger] is_product(a, b, r2) ==> r1 == r2
    &&& forall|a: T, b: T, r1: T, r2: T| #[trigger]
        is_quotient(a, b, r1) && #[trigger] is_quotient(a, b, r2) ==> r1 == r2
    &&& forall|a: T, r1: T, r2: T| #[trigger]
        is_sqrt(a, r1) && #[trigger] is_sqrt(a, r2) ==> r1 == r2
    &&& forall|a: T, r1: T, r2: T| #[trigger]
        is_ln(a, r1) && #[trigger] is_ln(a, r2) ==> r1 == r2
    &&& forall|a: T, b: T, r1: bool, r2: bool| #[trigger]
        is_exceeds(a, b, r1) && #[trigger] is_exceeds(a, b, r2) ==> r1 == r2
}

/// `plus` is what [`Scalar::plus`] computes, and its terms can be added in any order: adding
/// `x` and then `y` is adding `y` and then `x`.
pub open spec fn is_exact_plus<T: Scalar>(plus: spec_fn(T, T) -> T) -> bool {
    &&& forall|a: T, b: T, r: T| #[trigger] is_sum(a, b, r) ==> r == plus(a, b)
    &&& forall|a: T, x: T, y: T| #[trigger] plus(plus(a, x), y) == plus(plus(a, y), x)
}

/// Terms can be added in any order. Exact numbers have this, and rounded ones do not.
pub open spec fn adds_in_any_order<T: Scalar>() -> bool {
    exists|plus: spec_fn(T, T) -> T| is_exact_plus(plus)
}

/// `r` is `xs[0] * ws[0] + xs[1] * ws[1] + ...`, added to zero from the left.
pub open spec fn is_dot<T: Scalar>(xs: Seq<T>, ws: Seq<T>, r: T) -> bool
    decreases xs.len(),
{
    if xs.len() == 0 {
        is_zero(r)
    } else {
        exists|acc: T, prod: T|
            is_dot(xs.drop_last(), ws.drop_last(), acc) && #[trigger] is_product(
                xs.last(),
                ws.last(),
                prod,
            ) && #[trigger] is_sum(acc, prod, r)
    }
}

/// One more term of a dot product.
pub proof fn lemma_dot_step<T: Scalar>(xs: Seq<T>, ws: Seq<T>, n: int, acc: T, prod: T, r: T)
    requires
        0 <= n < xs.len(),
        xs.len() == ws.len(),
        is_dot(xs.take(n), ws.take(n), acc),
        is_product(xs[n], ws[n], prod),
        is_sum(acc, prod, r),
    ensures
        is_dot(xs.take(n + 1), ws.take(n + 1), r),
{
    let x = xs.take(n + 1);
    let w = ws.take(n + 1);
    assert(x.drop_last() =~= xs.take(n));
    assert(w.drop_last() =~= ws.take(n));
    assert(is_product(x.last(), w.last(), prod));
}

/// Where the operations are functions, a dot product has one value.
pub proof fn lemma_dot_unique<T: Scalar>(xs: Seq<T>, ws: Seq<T>, r1: T, r2: T)
    requires
        functional::<T>(),
        is_dot(xs, ws, r1),
        is_dot(xs, ws, r2),
    ensures
        r1 == r2,
    decreases xs.len(),
{
    if xs.len() > 0 {
        let (a1, p1) = choose|acc: T, prod: T|
            is_dot(xs.drop_last(), ws.drop_last(), acc) && #[trigger] is_product(
                xs.last(),
                ws.last(),
                prod,
            ) && #[trigger] is_sum(acc, prod, r1);
        let (a2, p2) = choose|acc: T, prod: T|
            is_dot(xs.drop_last(), ws.drop_last(), acc) && #[trigger] is_product(
                xs.last(),
                ws.last(),
                prod,
            ) && #[trigger] is_sum(acc, prod, r2);
        lemma_dot_unique(xs.drop_last(), ws.drop_last(), a1, a2);
    }
}

} // verus!
