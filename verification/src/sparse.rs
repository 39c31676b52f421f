//! Sparse rows times a dense matrix.

use vstd::prelude::*;

use crate::matrix::{has_shape, Matrix};
use crate::scalar::{is_dot, is_product, is_sum, lemma_dot_step, Scalar};

verus! {

/// Where a row starts in the arrays of values and columns.
pub open spec fn row_start(indptr: Seq<i64>, row: int) -> usize {
    indptr[row] as usize
}

/// Where a row ends in the arrays of values and columns.
pub open spec fn row_end(indptr: Seq<i64>, row: int) -> usize {
    indptr[row + 1] as usize
}

/// The stretch of `xs` from `start` to `end`, which is empty where `end` is no larger.
pub open spec fn stretch<A>(xs: Seq<A>, start: usize, end: usize) -> Seq<A> {
    if start < end {
        xs.subrange(start as int, end as int)
    } else {
        Seq::empty()
    }
}

/// Column `t` of a dense matrix at the given rows; `entry(j, t)` is the matrix's entry in
/// row `j` and column `t`.
pub open spec fn gathered<T>(columns: Seq<i32>, entry: spec_fn(int, int) -> T, t: int) -> Seq<T> {
    Seq::new(columns.len(), |q: int| entry((columns[q] as usize) as int, t))
}

/// `y` is the sparse matrix times the dense one, each entry summed along the sparse row.
pub open spec fn is_sparse_product<T: Scalar>(
    data: Seq<T>,
    indices: Seq<i32>,
    indptr: Seq<i64>,
    n_rows: int,
    entry: spec_fn(int, int) -> T,
    m: int,
    y: Seq<Seq<T>>,
) -> bool {
    &&& has_shape(y, n_rows, m)
    &&& forall|row: int, t: int|
        0 <= row < n_rows && 0 <= t < m ==> is_dot(
            stretch(data, row_start(indptr, row), row_end(indptr, row)),
            gathered(
                stretch(indices, row_start(indptr, row), row_end(indptr, row)),
                entry,
                t,
            ),
            #[trigger] y[row][t],
        )
}

/// The entries of a dense matrix of width `m` whose rows stand one after another.
pub open spec fn flat_entry<T>(omega: Seq<T>, m: int) -> spec_fn(int, int) -> T {
    |j: int, t: int| omega[j * m + t]
}

/// The entries of a dense matrix that is held by its columns.
pub open spec fn column_entry<T>(omega_t: Seq<Vec<T>>) -> spec_fn(int, int) -> T {
    |j: int, t: int| omega_t[t]@[j]
}

/// A row can be read, and every column of it is below `n_cols`.
pub open spec fn is_readable_row(
    data_len: int,
    indices: Seq<i32>,
    indptr: Seq<i64>,
    n_cols: int,
    row: int,
) -> bool {
    let start = row_start(indptr, row);
    let end = row_end(indptr, row);
    start < end ==> {
        &&& end <= data_len
        &&& end <= indices.len()
        &&& forall|p: int| start <= p < end ==> (#[trigger] indices[p] as usize) < n_cols
    }
}

/// The sparse matrix can be multiplied by a dense one of width `m` with `n_cols` rows: its
/// row boundaries can be read, and unless there is nothing to compute every row can be
/// read, and every column is below `n_cols`.
pub open spec fn is_readable(
    data_len: int,
    indices: Seq<i32>,
    indptr: Seq<i64>,
    n_rows: int,
    n_cols: int,
    m: int,
) -> bool {
    &&& n_rows > 0 ==> n_rows < indptr.len()
    &&& forall|row: int|
        0 <= row < n_rows && m > 0 ==> #[trigger] is_readable_row(
            data_len,
            indices,
            indptr,
            n_cols,
            row,
        )
}

/// How many rows of width `m` fit into `len` entries.
pub open spec fn whole_rows(len: int, m: int) -> int {
    if m > 0 {
        len / m
    } else {
        0
    }
}

/// An entry of one of the whole rows lies inside the array.
proof fn lemma_entry_inside(len: int, m: int, j: int, t: int)
    requires
        0 <= j < whole_rows(len, m),
        0 <= t < m,
        0 <= len,
    ensures
        0 <= j * m <= j * m + t < len,
        j * m + m <= len,
{
    assert(j * m + m <= len && 0 <= j * m) by (nonlinear_arith)
        requires
            0 <= j < len / m,
            0 < m,
            0 <= len,
    ;
}

/// One row of a sparse matrix times a dense one whose rows of width `m` stand one after
/// another in `omega`.
pub fn sparse_row_times_omega<T: Scalar>(
    data: &[T],
    indices: &[i32],
    indptr: &[i64],
    row: usize,
    omega: &[T],
    m: usize,
) -> (y_row: Vec<T>)
    requires
        row + 1 < indptr@.len(),
        m > 0 ==> is_readable_row(
            data@.len() as int,
            indices@,
            indptr@,
            whole_rows(omega@.len() as int, m as int),
            row as int,
        ),
    ensures
        y_row@.len() == m,
        forall|t: int|
            0 <= t < m ==> is_dot(
                stretch(data@, row_start(indptr@, row as int), row_end(indptr@, row as int)),
                gathered(
                    stretch(indices@, row_start(indptr@, row as int), row_end(indptr@, row as int)),
                    flat_entry(omega@, m as int),
                    t,
                ),
                #[trigger] y_row@[t],
            ),
{
    let start: usize = #[verifier::truncate]
    (indptr[row] as usize);
    let end: usize = #[verifier::truncate]
    (indptr[row + 1] as usize);
    let ghost entry = flat_entry(omega@, m as int);
    let ghost xs = stretch(data@, start, end);
    let ghost columns = stretch(indices@, start, end);
    let ghost width = whole_rows(omega@.len() as int, m as int);
    let omega_len: usize = omega.len();
    let mut y_row: Vec<T> = Vec::new();
    let mut t: usize = 0;
    while t < m
        invariant
            t <= m,
            start == row_start(indptr@, row as int),
            end == row_end(indptr@, row as int),
            entry == flat_entry(omega@, m as int),
            xs == stretch(data@, start, end),
            columns == stretch(indices@, start, end),
            width == whole_rows(omega@.len() as int, m as int),
            omega_len == omega@.len(),
            m > 0 ==> is_readable_row(data@.len() as int, indices@, indptr@, width, row as int),
            y_row@.len() == t,
            forall|l: int|
                0 <= l < t ==> is_dot(xs, gathered(columns, entry, l), #[trigger] y_row@[l]),
        decreases m - t,
    {
        let ghost ws = gathered(columns, entry, t as int);
        let mut acc: T = T::zero();
        let mut p: usize = start;
        assert(xs.take(0) =~= Seq::empty());
        while p < end
            invariant
                start <= p,
                p <= end || p == start,
                t < m,
                start == row_start(indptr@, row as int),
                end == row_end(indptr@, row as int),
                entry == flat_entry(omega@, m as int),
                xs == stretch(data@, start, end),
                columns == stretch(indices@, start, end),
                ws == gathered(columns, entry, t as int),
                width == whole_rows(omega@.len() as int, m as int),
                omega_len == omega@.len(),
                is_readable_row(data@.len() as int, indices@, indptr@, width, row as int),
                is_dot(xs.take(p - start), ws.take(p - start), acc),
            decreases end - p,
        {
            assert((indices@[p as int] as usize) < width);
            let j: usize = #[verifier::truncate]
            (indices[p] as usize);
            let v: T = data[p];
            proof {
                lemma_entry_inside(omega@.len() as int, m as int, j as int, t as int);
                assert(columns[p - start] == indices@[p as int]);
                assert(ws[p - start] == omega@[j * m + t]);
            }
            let product: T = v.times(omega[j * m + t]);
            let next: T = acc.plus(product);
            proof {
                assert(is_product(xs[p - start], ws[p - start], product) && is_sum(
                    acc,
                    product,
                    next,
                ));
                lemma_dot_step(xs, ws, p - start, acc, product, next);
            }
            acc = next;
            p += 1;
        }
        assert(xs.take(p - start) =~= xs);
        assert(ws.take(p - start) =~= ws);
        y_row.push(acc);
        t += 1;
    }
    y_row
}

/// One row of a sparse matrix times a dense one that is held by its columns.
pub fn sparse_row_times_columns<T: Scalar>(
    data: &[T],
    indices: &[i32],
    indptr: &[i64],
    row: usize,
    omega_t: &[Vec<T>],
    n_cols: usize,
) -> (y_row: Vec<T>)
    requires
        row + 1 < indptr@.len(),
        omega_t@.len() > 0 ==> is_readable_row(
            data@.len() as int,
            indices@,
            indptr@,
            n_cols as int,
            row as int,
        ),
        forall|t: int| 0 <= t < omega_t@.len() ==> (#[trigger] omega_t@[t])@.len() == n_cols,
    ensures
        y_row@.len() == omega_t@.len(),
        forall|t: int|
            0 <= t < omega_t@.len() ==> is_dot(
                stretch(data@, row_start(indptr@, row as int), row_end(indptr@, row as int)),
                gathered(
                    stretch(indices@, row_start(indptr@, row as int), row_end(indptr@, row as int)),
                    column_entry(omega_t@),
                    t,
                ),
                #[trigger] y_row@[t],
            ),
{
    let start: usize = #[verifier::truncate]
    (indptr[row] as usize);
    let end: usize = #[verifier::truncate]
    (indptr[row + 1] as usize);
    let ghost entry = column_entry(omega_t@);
    let ghost xs = stretch(data@, start, end);
    let ghost columns = stretch(indices@, start, end);
    let mut y_row: Vec<T> = Vec::new();
    let mut t: usize = 0;
    while t < omega_t.len()
        invariant
            t <= omega_t@.len(),
            start == row_start(indptr@, row as int),
            end == row_end(indptr@, row as int),
            entry == column_entry(omega_t@),
            xs == stretch(data@, start, end),
            columns == stretch(indices@, start, end),
            omega_t@.len() > 0 ==> is_readable_row(
                data@.len() as int,
                indices@,
                indptr@,
                n_cols as int,
                row as int,
            ),
            forall|t: int| 0 <= t < omega_t@.len() ==> (#[trigger] omega_t@[t])@.len() == n_cols,
            y_row@.len() == t,
            forall|l: int|
                0 <= l < t ==> is_dot(xs, gathered(columns, entry, l), #[trigger] y_row@[l]),
        decreases omega_t@.len() - t,
    {
        let ghost ws = gathered(columns, entry, t as int);
        let mut acc: T = T::zero();
        let mut p: usize = start;
        assert(xs.take(0) =~= Seq::empty());
        while p < end
            invariant
                start <= p,
                p <= end || p == start,
                t < omega_t@.len(),
                start == row_start(indptr@, row as int),
                end == row_end(indptr@, row as int),
                entry == column_entry(omega_t@),
                xs == stretch(data@, start, end),
                columns == stretch(indices@, start, end),
                ws == gathered(columns, entry, t as int),
                is_readable_row(
                    data@.len() as int,
                    indices@,
                    indptr@,
                    n_cols as int,
                    row as int,
                ),
                forall|t: int|
                    0 <= t < omega_t@.len() ==> (#[trigger] omega_t@[t])@.len() == n_cols,
                is_dot(xs.take(p - start), ws.take(p - start), acc),
            decreases end - p,
        {
            assert((indices@[p as int] as usize) < n_cols);
            let j: usize = #[verifier::truncate]
            (indices[p] as usize);
            let v: T = data[p];
            assert(columns[p - start] == indices@[p as int]);
            let w: T = omega_t[t][j];
            assert(ws[p - start] == w);
            let product: T = v.times(w);
            let next: T = acc.plus(product);
            proof {
                assert(is_product(xs[p - start], ws[p - start], product) && is_sum(
                    acc,
                    product,
                    next,
                ));
                lemma_dot_step(xs, ws, p - start, acc, product, next);
            }
            acc = next;
            p += 1;
        }
        assert(xs.take(p - start) =~= xs);
        assert(ws.take(p - start) =~= ws);
        y_row.push(acc);
        t += 1;
    }
    y_row
}

/// A sparse matrix times a dense one whose rows of width `m` stand one after another in
/// `omega`.
pub fn csr_matmul_omega<T: Scalar>(
    data: &[T],
    indices: &[i32],
    indptr: &[i64],
    n_rows: usize,
    omega: &[T],
    m: usize,
) -> (y: Matrix<T>)
    requires
        is_readable(
            data@.len() as int,
            indices@,
            indptr@,
            n_rows as int,
            whole_rows(omega@.len() as int, m as int),
            m as int,
        ),
    ensures
        y.wf(),
        y.ncols == m,
        is_sparse_product(
            data@,
            indices@,
            indptr@,
            n_rows as int,
            flat_entry(omega@, m as int),
            m as int,
            y@,
        ),
{
    let ghost entry = flat_entry(omega@, m as int);
    let ghost width = whole_rows(omega@.len() as int, m as int);
    let mut rows: Vec<Vec<T>> = Vec::new();
    let mut row: usize = 0;
    while row < n_rows
        invariant
            row <= n_rows,
            entry == flat_entry(omega@, m as int),
            width == whole_rows(omega@.len() as int, m as int),
            is_readable(
                data@.len() as int,
                indices@,
                indptr@,
                n_rows as int,
                width,
                m as int,
            ),
            rows@.len() == row,
            forall|l: int| 0 <= l < row ==> (#[trigger] rows@[l])@.len() == m,
            forall|l: int, t: int|
                0 <= l < row && 0 <= t < m ==> is_dot(
                    stretch(data@, row_start(indptr@, l), row_end(indptr@, l)),
                    gathered(
                        stretch(indices@, row_start(indptr@, l), row_end(indptr@, l)),
                        entry,
                        t,
                    ),
                    #[trigger] rows@[l]@[t],
                ),
        decreases n_rows - row,
    {
        proof {
            if m > 0 {
                assert(is_readable_row(data@.len() as int, indices@, indptr@, width, row as int));
            }
        }
        rows.push(sparse_row_times_omega(data, indices, indptr, row, omega, m));
        row += 1;
    }
    let y: Matrix<T> = Matrix { rows, ncols: m };
    assert forall|l: int, t: int| 0 <= l < n_rows && 0 <= t < m implies is_dot(
        stretch(data@, row_start(indptr@, l), row_end(indptr@, l)),
        gathered(stretch(indices@, row_start(indptr@, l), row_end(indptr@, l)), entry, t),
        #[trigger] y@[l][t],
    ) by {
        assert(y@[l][t] == y.rows@[l]@[t]);
    }
    y
}

/// A sparse matrix times a dense one that is held by its columns.
pub fn csr_matmul_columns<T: Scalar>(
    data: &[T],
    indices: &[i32],
    indptr: &[i64],
    n_rows: usize,
    omega_t: &[Vec<T>],
    n_cols: usize,
) -> (y: Matrix<T>)
    requires
        is_readable(
            data@.len() as int,
            indices@,
            indptr@,
            n_rows as int,
            n_cols as int,
            omega_t@.len() as int,
        ),
        forall|t: int| 0 <= t < omega_t@.len() ==> (#[trigger] omega_t@[t])@.len() == n_cols,
    ensures
        y.wf(),
        y.ncols == omega_t@.len(),
        is_sparse_product(
            data@,
            indices@,
            indptr@,
            n_rows as int,
            column_entry(omega_t@),
            omega_t@.len() as int,
            y@,
        ),
{
    let ghost entry = column_entry(omega_t@);
    let mut rows: Vec<Vec<T>> = Vec::new();
    let mut row: usize = 0;
    while row < n_rows
        invariant
            row <= n_rows,
            entry == column_entry(omega_t@),
            is_readable(
                data@.len() as int,
                indices@,
                indptr@,
                n_rows as int,
                n_cols as int,
                omega_t@.len() as int,
            ),
            forall|t: int| 0 <= t < omega_t@.len() ==> (#[trigger] omega_t@[t])@.len() == n_cols,
            rows@.len() == row,
            forall|l: int| 0 <= l < row ==> (#[trigger] rows@[l])@.len() == omega_t@.len(),
            forall|l: int, t: int|
                0 <= l < row && 0 <= t < omega_t@.len() ==> is_dot(
                    stretch(data@, row_start(indptr@, l), row_end(indptr@, l)),
                    gathered(
                        stretch(indices@, row_start(indptr@, l), row_end(indptr@, l)),
                        entry,
                        t,
                    ),
                    #[trigger] rows@[l]@[t],
                ),
        decreases n_rows - row,
    {
        proof {
            if omega_t@.len() > 0 {
                assert(is_readable_row(
                    data@.len() as int,
                    indices@,
                    indptr@,
                    n_cols as int,
                    row as int,
                ));
            }
        }
        rows.push(sparse_row_times_columns(data, indices, indptr, row, omega_t, n_cols));
        row += 1;
    }
    let y: Matrix<T> = Matrix { rows, ncols: omega_t.len() };
    assert forall|l: int, t: int| 0 <= l < n_rows && 0 <= t < omega_t@.len() implies is_dot(
        stretch(data@, row_start(indptr@, l), row_end(indptr@, l)),
        gathered(stretch(indices@, row_start(indptr@, l), row_end(indptr@, l)), entry, t),
        #[trigger] y@[l][t],
    ) by {
        assert(y@[l][t] == y.rows@[l]@[t]);
    }
    y
}

/// Whether a sparse matrix can be multiplied by a dense one of width `m` with `n_cols` rows.
pub fn csr_is_readable(
    data_len: usize,
    indices: &[i32],
    indptr: &[i64],
    n_rows: usize,
    n_cols: usize,
    m: usize,
) -> (r: bool)
    ensures
        r == is_readable(
            data_len as int,
            indices@,
            indptr@,
            n_rows as int,
            n_cols as int,
            m as int,
        ),
{
    if n_rows > 0 && n_rows >= indptr.len() {
        return false;
    }
    if m == 0 {
        return true;
    }
    let mut row: usize = 0;
    while row < n_rows
        invariant
            row <= n_rows,
            m > 0,
            n_rows > 0 ==> n_rows < indptr@.len(),
            forall|l: int|
                0 <= l < row ==> #[trigger] is_readable_row(
                    data_len as int,
                    indices@,
                    indptr@,
                    n_cols as int,
                    l,
                ),
        decreases n_rows - row,
    {
        let start: usize = #[verifier::truncate]
        (indptr[row] as usize);
        let end: usize = #[verifier::truncate]
        (indptr[row + 1] as usize);
        if start < end {
            if end > data_len || end > indices.len() {
                assert(!is_readable_row(
                    data_len as int,
                    indices@,
                    indptr@,
                    n_cols as int,
                    row as int,
                ));
                return false;
            }
            let mut p: usize = start;
            while p < end
                invariant
                    row < n_rows,
                    m > 0,
                    start <= p <= end <= indices@.len(),
                    start == row_start(indptr@, row as int),
                    end == row_end(indptr@, row as int),
                    forall|l: int| start <= l < p ==> (#[trigger] indices@[l] as usize) < n_cols,
                decreases end - p,
            {
                let j: usize = #[verifier::truncate]
                (indices[p] as usize);
                if j >= n_cols {
                    assert(!((indices@[p as int] as usize) < n_cols));
                    assert(!is_readable_row(
                        data_len as int,
                        indices@,
                        indptr@,
                        n_cols as int,
                        row as int,
                    ));
                    return false;
                }
                p += 1;
            }
        }
        assert(is_readable_row(
            data_len as int,
            indices@,
            indptr@,
            n_cols as int,
            row as int,
        ));
        row += 1;
    }
    true
}

} // verus!
