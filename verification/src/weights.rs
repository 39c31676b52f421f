//! The numbers of TF-IDF: inverse document frequency, term weight, row scaling.

use vstd::prelude::*;

use crate::scalar::{
    is_count, is_exceeds, is_len, is_ln, is_one, is_product, is_quotient, is_sqrt, is_sum, is_zero,
    Scalar,
};

verus! {

/// `r` is `ln((1 + n_docs) / (1 + df)) + 1`.
pub open spec fn is_smoothed_idf<T: Scalar>(n_docs: usize, df: u32, r: T) -> bool {
    exists|n: T, d: T, above: T, below: T, ratio: T, log: T, one1: T, one2: T, one3: T|
        #![trigger is_len(n_docs, n), is_count(df, d), is_sum(one1, n, above), is_sum(one2, d, below), is_quotient(above, below, ratio), is_ln(ratio, log), is_sum(log, one3, r)]
        {
            &&& is_len(n_docs, n)
            &&& is_count(df, d)
            &&& is_one(one1)
            &&& is_one(one2)
            &&& is_one(one3)
            &&& is_sum(one1, n, above)
            &&& is_sum(one2, d, below)
            &&& is_quotient(above, below, ratio)
            &&& is_ln(ratio, log)
            &&& is_sum(log, one3, r)
        }
}

/// `w` is the inverse document frequency of a column, and zero past the end of `idf`.
pub open spec fn is_idf_at<T: Scalar>(idf: Seq<T>, column: usize, w: T) -> bool {
    if column < idf.len() {
        w == idf[column as int]
    } else {
        is_zero(w)
    }
}

/// `r` is the count of an item times the inverse document frequency of its column.
pub open spec fn is_term_weight<T: Scalar>(idf: Seq<T>, item: (usize, u32), r: T) -> bool {
    exists|tf: T, w: T| #[trigger]
        is_count(item.1, tf) && is_idf_at(idf, item.0, w) && #[trigger] is_product(tf, w, r)
}

/// `r` is `raw[0] * raw[0] + raw[1] * raw[1] + ...`, added to zero from the left.
pub open spec fn is_sum_of_squares<T: Scalar>(raw: Seq<T>, r: T) -> bool {
    crate::scalar::is_dot(raw, raw, r)
}

/// `scale` is `1 / sqrt(norm)`.
pub open spec fn is_inverse_root<T: Scalar>(norm: T, scale: T) -> bool {
    exists|one: T, root: T|
        is_one(one) && #[trigger] is_sqrt(norm, root) && #[trigger] is_quotient(one, root, scale)
}

/// `out` is `raw` with every entry times `scale`.
pub open spec fn is_scaled<T: Scalar>(raw: Seq<T>, scale: T, out: Seq<T>) -> bool {
    &&& out.len() == raw.len()
    &&& forall|j: int| 0 <= j < raw.len() ==> is_product(raw[j], scale, #[trigger] out[j])
}

/// `out` is `raw` over the square root of its sum of squares, where that sum is positive;
/// otherwise `out` is `raw`.
pub open spec fn is_normalized<T: Scalar>(raw: Seq<T>, out: Seq<T>) -> bool {
    exists|norm: T, nought: T, positive: bool|
        is_sum_of_squares(raw, norm) && is_zero(nought) && #[trigger] is_exceeds(
            norm,
            nought,
            positive,
        ) && if positive {
            exists|scale: T| is_inverse_root(norm, scale) && #[trigger] is_scaled(raw, scale, out)
        } else {
            out == raw
        }
}

/// `values` are the weights of `items`, normalised as one row.
pub open spec fn is_weighted_row<T: Scalar>(
    idf: Seq<T>,
    items: Seq<(usize, u32)>,
    values: Seq<T>,
) -> bool {
    exists|raw: Seq<T>|
        {
            &&& raw.len() == items.len()
            &&& forall|j: int|
                0 <= j < items.len() ==> is_term_weight(idf, items[j], #[trigger] raw[j])
            &&& #[trigger] is_normalized(raw, values)
        }
}

/// The smoothed inverse document frequency of a term that `df` of `n_docs` documents hold.
pub fn smoothed_idf<T: Scalar>(n_docs: usize, df: u32) -> (r: T)
    ensures
        is_smoothed_idf(n_docs, df, r),
{
    let n: T = T::from_len(n_docs);
    let d: T = T::from_count(df);
    let one1: T = T::one();
    let one2: T = T::one();
    let one3: T = T::one();
    let above: T = one1.plus(n);
    let below: T = one2.plus(d);
    let ratio: T = above.over(below);
    let log: T = ratio.ln();
    let r: T = log.plus(one3);
    proof {
        assert(is_len(n_docs, n) && is_count(df, d));
        assert(is_sum(one1, n, above) && is_sum(one2, d, below));
        assert(is_quotient(above, below, ratio) && is_ln(ratio, log) && is_sum(log, one3, r));
    }
    r
}

/// The smoothed inverse document frequencies of all columns.
pub fn smoothed_idfs<T: Scalar>(n_docs: usize, df: &[u32]) -> (idf: Vec<T>)
    ensures
        idf@.len() == df@.len(),
        forall|j: int| 0 <= j < df@.len() ==> is_smoothed_idf(n_docs, df@[j], #[trigger] idf@[j]),
{
    let mut idf: Vec<T> = Vec::new();
    let mut j: usize = 0;
    while j < df.len()
        invariant
            j <= df@.len(),
            idf@.len() == j,
            forall|l: int| 0 <= l < j ==> is_smoothed_idf(n_docs, df@[l], #[trigger] idf@[l]),
        decreases df@.len() - j,
    {
        idf.push(smoothed_idf(n_docs, df[j]));
        j += 1;
    }
    idf
}

/// The weight of one item, before the row is normalised.
pub fn term_weight<T: Scalar>(idf: &[T], column: usize, count: u32) -> (r: T)
    ensures
        is_term_weight(idf@, (column, count), r),
{
    let tf: T = T::from_count(count);
    let w: T = if column < idf.len() {
        idf[column]
    } else {
        T::zero()
    };
    let r: T = tf.times(w);
    proof {
        assert(is_count((column, count).1, tf) && is_product(tf, w, r));
    }
    r
}

} // verus!
