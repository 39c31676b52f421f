//! What mixing and projecting rows returns, sum by sum, over the arrays alone.

use vstd::prelude::*;

use crate::entry_laws::law_dot_is_running_sum;
use crate::matrix::{column, is_projection};
use crate::scalar::{is_dot, Scalar};
use crate::sparse::{
    column_entry, flat_entry, gathered, is_sparse_product, row_end, row_start, stretch,
};

verus! {

/// The steps of a sum of `n` products: `products[q]` is `x(q)` times `w(q)`, and `sums[q]` is
/// what the first `q` products add up to, from zero and in order.
pub open spec fn sum_steps<T: Scalar>(
    n: int,
    x: spec_fn(int) -> T,
    w: spec_fn(int) -> T,
    products: Seq<T>,
    sums: Seq<T>,
    v: T,
) -> bool {
    &&& products.len() == n
    &&& sums.len() == n + 1
    &&& call_ensures(T::zero, (), sums[0])
    &&& forall|q: int| 0 <= q < n ==> call_ensures(T::times, (x(q), w(q)), #[trigger] products[q])
    &&& forall|q: int|
        0 <= q < n ==> call_ensures(T::plus, (sums[q], #[trigger] products[q]), sums[q + 1])
    &&& sums[n] == v
}

/// `v` is the sum of the products `x(q)` times `w(q)` for every `q` from `0` to `n - 1`, added
/// to zero one by one and in order.
pub open spec fn adds_up<T: Scalar>(
    n: int,
    x: spec_fn(int) -> T,
    w: spec_fn(int) -> T,
    v: T,
) -> bool {
    exists|products: Seq<T>, sums: Seq<T>| #[trigger] sum_steps(n, x, w, products, sums, v)
}

/// A dot product adds up every pair of entries.
pub proof fn law_dot_adds_up<T: Scalar>(
    xs: Seq<T>,
    ws: Seq<T>,
    x: spec_fn(int) -> T,
    w: spec_fn(int) -> T,
    v: T,
)
    requires
        xs.len() == ws.len(),
        is_dot(xs, ws, v),
        forall|q: int| 0 <= q < xs.len() ==> #[trigger] x(q) == xs[q],
        forall|q: int| 0 <= q < xs.len() ==> #[trigger] w(q) == ws[q],
    ensures
        adds_up(xs.len() as int, x, w, v),
{
    let (products, sums) = law_dot_is_running_sum(xs, ws, v);
    assert forall|q: int| 0 <= q < xs.len() implies call_ensures(
        T::times,
        (x(q), w(q)),
        #[trigger] products[q],
    ) by {
        assert(x(q) == xs[q] && w(q) == ws[q]);
    }
    assert(sum_steps(xs.len() as int, x, w, products, sums, v));
}

/// Every stored entry of a row counts: where the row runs from `start` to `end`, the mixed entry
/// adds up `data[p] * entry(indices[p], t)` for every `p` from `start` to `end - 1`. An empty or
/// reversed row gives zero.
pub proof fn law_row_mixes_every_entry<T: Scalar>(
    data: Seq<T>,
    indices: Seq<i32>,
    indptr: Seq<i64>,
    row: int,
    entry: spec_fn(int, int) -> T,
    t: int,
    v: T,
)
    requires
        (indptr[row] as usize) < (indptr[row + 1] as usize) ==> (indptr[row + 1] as usize)
            <= data.len() && (indptr[row + 1] as usize) <= indices.len(),
        is_dot(
            stretch(data, row_start(indptr, row), row_end(indptr, row)),
            gathered(
                stretch(indices, row_start(indptr, row), row_end(indptr, row)),
                entry,
                t,
            ),
            v,
        ),
    ensures
        (indptr[row] as usize) <= (indptr[row + 1] as usize) ==> adds_up(
            (indptr[row + 1] as usize) - (indptr[row] as usize),
            |q: int| data[(indptr[row] as usize) + q],
            |q: int| entry((indices[(indptr[row] as usize) + q] as usize) as int, t),
            v,
        ),
        (indptr[row] as usize) >= (indptr[row + 1] as usize) ==> call_ensures(T::zero, (), v),
{
    let start = indptr[row] as usize;
    let end = indptr[row + 1] as usize;
    let xs = stretch(data, row_start(indptr, row), row_end(indptr, row));
    let columns = stretch(indices, row_start(indptr, row), row_end(indptr, row));
    let ws = gathered(columns, entry, t);
    if start <= end {
        assert(xs.len() == end - start);
        law_dot_adds_up(
            xs,
            ws,
            |q: int| data[(indptr[row] as usize) + q],
            |q: int| entry((indices[(indptr[row] as usize) + q] as usize) as int, t),
            v,
        );
    }
}

/// The mixed rows, where the mixing matrix of width `m` is held row after row: entry `t` of a row
/// adds up `data[p] * omega[indices[p] * m + t]` over every stored entry `p` of that row.
pub proof fn law_rows_mix_with_omega<T: Scalar>(
    data: Seq<T>,
    indices: Seq<i32>,
    indptr: Seq<i64>,
    n_rows: int,
    omega: Seq<T>,
    m: int,
    y: Seq<Seq<T>>,
    row: int,
    t: int,
)
    requires
        is_sparse_product(data, indices, indptr, n_rows, flat_entry(omega, m), m, y),
        0 <= row < n_rows,
        0 <= t < m,
        0 <= indptr[row] <= indptr[row + 1] <= usize::MAX,
        indptr[row + 1] <= data.len(),
        indptr[row + 1] <= indices.len(),
        forall|p: int| indptr[row] <= p < indptr[row + 1] ==> 0 <= #[trigger] indices[p],
    ensures
        y.len() == n_rows,
        y[row].len() == m,
        adds_up(
            indptr[row + 1] - indptr[row],
            |q: int| data[indptr[row] + q],
            |q: int| omega[indices[indptr[row] + q] * m + t],
            y[row][t],
        ),
{
    let xs = stretch(data, row_start(indptr, row), row_end(indptr, row));
    let columns = stretch(indices, row_start(indptr, row), row_end(indptr, row));
    let ws = gathered(columns, flat_entry(omega, m), t);
    let w = |q: int| omega[indices[indptr[row] + q] * m + t];
    assert forall|q: int| 0 <= q < xs.len() implies #[trigger] w(q) == ws[q] by {
        assert(columns[q] == indices[indptr[row] + q]);
        assert(0 <= indices[indptr[row] + q]);
    }
    law_dot_adds_up(xs, ws, |q: int| data[indptr[row] + q], w, y[row][t]);
}

/// The mixed rows, where the mixing matrix is held by its columns: entry `t` of a row adds up
/// `data[p] * omega_t[t][indices[p]]` over every stored entry `p` of that row.
pub proof fn law_rows_mix_with_columns<T: Scalar>(
    data: Seq<T>,
    indices: Seq<i32>,
    indptr: Seq<i64>,
    n_rows: int,
    omega_t: Seq<Vec<T>>,
    m: int,
    y: Seq<Seq<T>>,
    row: int,
    t: int,
)
    requires
        is_sparse_product(data, indices, indptr, n_rows, column_entry(omega_t), m, y),
        0 <= row < n_rows,
        0 <= t < m,
        0 <= indptr[row] <= indptr[row + 1] <= usize::MAX,
        indptr[row + 1] <= data.len(),
        indptr[row + 1] <= indices.len(),
        forall|p: int| indptr[row] <= p < indptr[row + 1] ==> 0 <= #[trigger] indices[p],
    ensures
        y.len() == n_rows,
        y[row].len() == m,
        adds_up(
            indptr[row + 1] - indptr[row],
            |q: int| data[indptr[row] + q],
            |q: int| omega_t[t]@[indices[indptr[row] + q] as int],
            y[row][t],
        ),
{
    let xs = stretch(data, row_start(indptr, row), row_end(indptr, row));
    let columns = stretch(indices, row_start(indptr, row), row_end(indptr, row));
    let ws = gathered(columns, column_entry(omega_t), t);
    let w = |q: int| omega_t[t]@[indices[indptr[row] + q] as int];
    assert forall|q: int| 0 <= q < xs.len() implies #[trigger] w(q) == ws[q] by {
        assert(columns[q] == indices[indptr[row] + q]);
        assert(0 <= indices[indptr[row] + q]);
    }
    law_dot_adds_up(xs, ws, |q: int| data[indptr[row] + q], w, y[row][t]);
}

/// An entry of a projection adds up a row of `y` and a column of `p`.
pub proof fn law_projection_adds_up<T: Scalar>(
    y: Seq<Seq<T>>,
    p: Seq<Seq<T>>,
    m: int,
    k: int,
    z: Seq<Seq<T>>,
    i: int,
    r: int,
)
    requires
        is_projection(y, p, m, k, z),
        0 <= m,
        0 <= i < y.len(),
        0 <= r < k,
        m <= y[i].len(),
    ensures
        z.len() == y.len(),
        z[i].len() == k,
        adds_up(m, |c: int| y[i][c], |c: int| p[c][r], z[i][r]),
{
    law_dot_adds_up(
        y[i].take(m),
        column(p, m, r),
        |c: int| y[i][c],
        |c: int| p[c][r],
        z[i][r],
    );
}

} // verus!
