//! Sparse rows: values, columns and row boundaries, each in one array.

use vstd::prelude::*;

use crate::scalar::{is_exceeds, is_one, is_product, is_quotient, is_sqrt, lemma_dot_step};
use crate::scalar::Scalar;
use crate::weights::{
    is_inverse_root, is_normalized, is_scaled, is_sum_of_squares, is_term_weight, is_weighted_row,
    term_weight,
};

verus! {

/// The three arrays hold the given rows one after another: row `i` has the columns
/// `columns[i]` and the values `values[i]`, and starts where `indptr[i]` says.
pub open spec fn lays_out<T>(
    data: Seq<T>,
    indices: Seq<i32>,
    indptr: Seq<i64>,
    columns: Seq<Seq<i32>>,
    values: Seq<Seq<T>>,
) -> bool {
    &&& columns.len() == values.len()
    &&& forall|i: int|
        0 <= i < columns.len() ==> (#[trigger] columns[i]).len() == (#[trigger] values[i]).len()
    &&& data == values.flatten()
    &&& indices == columns.flatten()
    &&& indptr.len() == columns.len() + 1
    &&& forall|i: int|
        0 <= i <= columns.len() ==> #[trigger] indptr[i] == columns.take(i).flatten().len() as i64
}

/// The columns of a row, as they are stored.
pub open spec fn stored_columns(items: Seq<(usize, u32)>) -> Seq<i32> {
    Seq::new(items.len(), |j: int| items[j].0 as i32)
}

/// Sparse rows under construction.
pub struct CsrParts<T> {
    /// The values of all rows.
    pub data: Vec<T>,
    /// The column of each value.
    pub indices: Vec<i32>,
    /// Where each row starts in the other two, and where the last one ends.
    pub indptr: Vec<i64>,
}

impl<T: Scalar> CsrParts<T> {
    /// The arrays hold the given rows.
    pub open spec fn holds(self, columns: Seq<Seq<i32>>, values: Seq<Seq<T>>) -> bool {
        lays_out(self.data@, self.indices@, self.indptr@, columns, values)
    }

    /// No rows.
    pub fn new() -> (parts: Self)
        ensures
            parts.holds(Seq::empty(), Seq::empty()),
    {
        let mut indptr: Vec<i64> = Vec::new();
        indptr.push(0);
        proof {
            assert(Seq::<Seq<i32>>::empty().take(0) =~= Seq::<Seq<i32>>::empty());
        }
        CsrParts { data: Vec::new(), indices: Vec::new(), indptr }
    }

    /// Appends one row: the weights of `items`, normalised, in the order of `items`.
    pub fn push_row(&mut self, items: &[(usize, u32)], idf: &[T])
        ensures
            exists|values: Seq<T>|
                #![trigger is_weighted_row(idf@, items@, values)]
                {
                    &&& is_weighted_row(idf@, items@, values)
                    &&& values.len() == items@.len()
                    &&& final(self).data@ == old(self).data@ + values
                },
            final(self).indices@ == old(self).indices@ + stored_columns(items@),
            final(self).indptr@ == old(self).indptr@.push(final(self).data@.len() as i64),
    {
        let row_start: usize = self.data.len();
        let ghost data0 = self.data@;
        let ghost indices0 = self.indices@;
        let ghost mut raw: Seq<T> = Seq::empty();
        let mut norm_sq: T = T::zero();
        let mut j: usize = 0;
        assert(raw.take(0) =~= Seq::empty());
        while j < items.len()
            invariant
                j <= items@.len(),
                raw.len() == j,
                forall|l: int| 0 <= l < j ==> is_term_weight(idf@, items@[l], #[trigger] raw[l]),
                self.data@ == data0 + raw,
                self.indices@ == indices0 + stored_columns(items@).take(j as int),
                self.indptr@ == old(self).indptr@,
                is_sum_of_squares(raw, norm_sq),
            decreases items@.len() - j,
        {
            let column: usize = items[j].0;
            let count: u32 = items[j].1;
            let v: T = term_weight(idf, column, count);
            self.indices.push(
                #[verifier::truncate]
                (column as i32),
            );
            self.data.push(v);
            let square: T = v.times(v);
            let next: T = norm_sq.plus(square);
            proof {
                let longer = raw.push(v);
                assert(longer.take(j as int) =~= raw);
                assert(longer.take(j + 1) =~= longer);
                lemma_dot_step(longer, longer, j as int, norm_sq, square, next);
                raw = longer;
                assert(stored_columns(items@).take(j + 1) =~= stored_columns(items@).take(
                    j as int,
                ).push(stored_columns(items@)[j as int]));
            }
            norm_sq = next;
            j += 1;
        }
        assert(stored_columns(items@).take(j as int) =~= stored_columns(items@));
        let nought: T = T::zero();
        let positive: bool = norm_sq.exceeds(nought);
        assert(is_exceeds(norm_sq, nought, positive));
        if positive {
            let one: T = T::one();
            let root: T = norm_sq.sqrt();
            let scale: T = one.over(root);
            assert(is_one(one) && is_sqrt(norm_sq, root) && is_quotient(one, root, scale));
            assert(is_inverse_root(norm_sq, scale));
            let row_end: usize = self.data.len();
            let mut p: usize = row_start;
            while p < row_end
                invariant
                    data0.len() == row_start <= p <= row_end,
                    row_end == self.data@.len() == data0.len() + raw.len(),
                    forall|l: int| 0 <= l < row_start ==> self.data@[l] == data0[l],
                    forall|l: int|
                        row_start <= l < p ==> is_product(
                            raw[l - row_start],
                            scale,
                            #[trigger] self.data@[l],
                        ),
                    forall|l: int| p <= l < row_end ==> self.data@[l] == raw[l - row_start],
                    self.indices@ == indices0 + stored_columns(items@),
                    self.indptr@ == old(self).indptr@,
                decreases row_end - p,
            {
                let v: T = self.data[p];
                let scaled: T = v.times(scale);
                assert(is_product(raw[p - row_start], scale, scaled));
                self.data.set(p, scaled);
                p += 1;
            }
            let ghost values = self.data@.skip(row_start as int);
            proof {
                assert forall|l: int| 0 <= l < raw.len() implies is_product(
                    raw[l],
                    scale,
                    #[trigger] values[l],
                ) by {
                    assert(values[l] == self.data@[l + row_start]);
                }
                assert(is_scaled(raw, scale, values));
                assert(self.data@ =~= data0 + values);
            }
            assert(is_normalized(raw, values));
            assert(is_weighted_row(idf@, items@, values));
        } else {
            assert(is_normalized(raw, raw));
            assert(is_weighted_row(idf@, items@, raw));
        }
        let row_end: usize = self.data.len();
        self.indptr.push(
            #[verifier::truncate]
            (row_end as i64),
        );
    }
}

/// Appending a row to laid-out rows.
pub proof fn lemma_lays_out_push<T>(
    data: Seq<T>,
    indices: Seq<i32>,
    indptr: Seq<i64>,
    columns: Seq<Seq<i32>>,
    values: Seq<Seq<T>>,
    row_columns: Seq<i32>,
    row_values: Seq<T>,
)
    requires
        lays_out(data, indices, indptr, columns, values),
        row_columns.len() == row_values.len(),
    ensures
        data.len() == indices.len(),
        lays_out(
            data + row_values,
            indices + row_columns,
            indptr.push((data + row_values).len() as i64),
            columns.push(row_columns),
            values.push(row_values),
        ),
{
    lemma_flatten_lens(columns, values);
    values.lemma_flatten_push(row_values);
    columns.lemma_flatten_push(row_columns);
    let columns1 = columns.push(row_columns);
    assert forall|i: int| 0 <= i <= columns1.len() implies #[trigger] indptr.push(
        (data + row_values).len() as i64,
    )[i] == columns1.take(i).flatten().len() as i64 by {
        if i <= columns.len() {
            assert(columns1.take(i) =~= columns.take(i));
        } else {
            assert(columns1.take(i) =~= columns1);
        }
    }
}

/// Rows of equal lengths add up to equal lengths.
pub proof fn lemma_flatten_lens<A, B>(a: Seq<Seq<A>>, b: Seq<Seq<B>>)
    requires
        a.len() == b.len(),
        forall|i: int| 0 <= i < a.len() ==> (#[trigger] a[i]).len() == (#[trigger] b[i]).len(),
    ensures
        a.flatten().len() == b.flatten().len(),
    decreases a.len(),
{
    if a.len() > 0 {
        let a0 = a.drop_last();
        let b0 = b.drop_last();
        assert forall|i: int| 0 <= i < a0.len() implies (#[trigger] a0[i]).len() == (
        #[trigger] b0[i]).len() by {
            assert(a0[i] == a[i] && b0[i] == b[i]);
        }
        lemma_flatten_lens(a0, b0);
        a0.lemma_flatten_push(a.last());
        b0.lemma_flatten_push(b.last());
        assert(a0.push(a.last()) =~= a);
        assert(b0.push(b.last()) =~= b);
    }
}

} // verus!
