//! Dense matrices, by their rows.

use vstd::prelude::*;

use crate::scalar::{is_dot, is_product, is_sum, is_zero, lemma_dot_step, Scalar};

verus! {

/// A dense matrix.
pub struct Matrix<T> {
    /// The rows, from the top.
    pub rows: Vec<Vec<T>>,
    /// The length of every row.
    pub ncols: usize,
}

impl<T> View for Matrix<T> {
    type V = Seq<Seq<T>>;

    open spec fn view(&self) -> Seq<Seq<T>> {
        Seq::new(self.rows@.len(), |i: int| self.rows@[i]@)
    }
}

/// `a` has `nrows` rows of length `ncols`.
pub open spec fn has_shape<T>(a: Seq<Seq<T>>, nrows: int, ncols: int) -> bool {
    &&& a.len() == nrows
    &&& forall|i: int| 0 <= i < nrows ==> (#[trigger] a[i]).len() == ncols
}

/// The first `len` entries of column `c`.
pub open spec fn column<T>(a: Seq<Seq<T>>, len: int, c: int) -> Seq<T> {
    Seq::new(len as nat, |i: int| a[i][c])
}

/// `z` is `y` times the first `m` rows and `k` columns of `p`, each entry summed from the
/// left.
pub open spec fn is_projection<T: Scalar>(
    y: Seq<Seq<T>>,
    p: Seq<Seq<T>>,
    m: int,
    k: int,
    z: Seq<Seq<T>>,
) -> bool {
    &&& has_shape(z, y.len() as int, k)
    &&& forall|i: int, r: int|
        0 <= i < y.len() && 0 <= r < k ==> is_dot(y[i].take(m), column(p, m, r), #[trigger] z[i][r])
}

/// Copies a row.
pub fn copy_row<T: Copy>(row: &[T]) -> (copy: Vec<T>)
    ensures
        copy@ == row@,
{
    let mut copy: Vec<T> = Vec::new();
    let mut i: usize = 0;
    while i < row.len()
        invariant
            i <= row@.len(),
            copy@ == row@.take(i as int),
        decreases row@.len() - i,
    {
        copy.push(row[i]);
        i += 1;
        assert(row@.take(i as int) =~= row@.take(i - 1).push(row@[i - 1]));
    }
    assert(row@.take(i as int) =~= row@);
    copy
}

/// One row of a projection.
pub fn project_row<T: Scalar>(y_row: &[T], p: &Matrix<T>, m: usize, k: usize) -> (z_row: Vec<T>)
    requires
        p.wf(),
        m <= y_row@.len(),
        k > 0 ==> m <= p@.len(),
        m > 0 ==> k <= p.ncols,
    ensures
        z_row@.len() == k,
        forall|r: int|
            0 <= r < k ==> is_dot(
                y_row@.take(m as int),
                column(p@, m as int, r),
                #[trigger] z_row@[r],
            ),
{
    let ghost xs = y_row@.take(m as int);
    let mut z_row: Vec<T> = Vec::new();
    let mut r: usize = 0;
    while r < k
        invariant
            r <= k,
            p.wf(),
            m <= y_row@.len(),
            xs == y_row@.take(m as int),
            k > 0 ==> m <= p@.len(),
            m > 0 ==> k <= p.ncols,
            z_row@.len() == r,
            forall|l: int|
                0 <= l < r ==> is_dot(xs, column(p@, m as int, l), #[trigger] z_row@[l]),
        decreases k - r,
    {
        let ghost ws = column(p@, m as int, r as int);
        let mut sum: T = T::zero();
        let mut c: usize = 0;
        assert(xs.take(0) =~= Seq::empty());
        while c < m
            invariant
                c <= m,
                r < k,
                p.wf(),
                m <= y_row@.len(),
                m <= p@.len(),
                m > 0 ==> k <= p.ncols,
                xs == y_row@.take(m as int),
                ws == column(p@, m as int, r as int),
                is_dot(xs.take(c as int), ws.take(c as int), sum),
            decreases m - c,
        {
            assert(p@[c as int] == p.rows@[c as int]@);
            let w: T = p.rows[c][r];
            let product: T = y_row[c].times(w);
            let next: T = sum.plus(product);
            proof {
                assert(is_product(xs[c as int], ws[c as int], product) && is_sum(
                    sum,
                    product,
                    next,
                ));
                lemma_dot_step(xs, ws, c as int, sum, product, next);
            }
            sum = next;
            c += 1;
        }
        assert(xs.take(c as int) =~= xs);
        assert(ws.take(c as int) =~= ws);
        z_row.push(sum);
        r += 1;
    }
    z_row
}

impl<T: Copy> Matrix<T> {
    /// Every row has the same length.
    pub open spec fn wf(self) -> bool {
        forall|i: int| 0 <= i < self.rows@.len() ==> (#[trigger] self.rows@[i])@.len() == self.ncols
    }

    /// The number of rows.
    pub fn nrows(&self) -> (n: usize)
        ensures
            n == self@.len(),
    {
        self.rows.len()
    }

    /// The first `n` rows.
    pub fn top(&self, n: usize) -> (part: Self)
        requires
            self.wf(),
            n <= self@.len(),
        ensures
            part.wf(),
            part.ncols == self.ncols,
            part@ == self@.take(n as int),
    {
        let mut rows: Vec<Vec<T>> = Vec::new();
        let mut i: usize = 0;
        while i < n
            invariant
                i <= n <= self.rows@.len(),
                rows@.len() == i,
                forall|l: int| 0 <= l < i ==> (#[trigger] rows@[l])@ == self.rows@[l]@,
            decreases n - i,
        {
            rows.push(copy_row(self.rows[i].as_slice()));
            i += 1;
        }
        let part: Self = Matrix { rows, ncols: self.ncols };
        assert(part@ =~= self@.take(n as int));
        assert forall|l: int| 0 <= l < part.rows@.len() implies (#[trigger] part.rows@[l])@.len()
            == part.ncols by {
            assert(part.rows@[l]@ == self.rows@[l]@);
        }
        part
    }

    /// Overwrites a row.
    pub fn set_row(&mut self, i: usize, row: &[T])
        requires
            old(self).wf(),
            i < old(self)@.len(),
            row@.len() == old(self).ncols,
        ensures
            final(self).wf(),
            final(self).ncols == old(self).ncols,
            final(self)@ == old(self)@.update(i as int, row@),
    {
        self.rows.set(i, copy_row(row));
        assert(self@ =~= old(self)@.update(i as int, row@));
    }

    /// The transpose.
    pub fn transposed(&self) -> (t: Self)
        requires
            self.wf(),
        ensures
            t.wf(),
            t.ncols == self@.len(),
            has_shape(t@, self.ncols as int, self@.len() as int),
            forall|c: int, r: int|
                0 <= c < self.ncols && 0 <= r < self@.len() ==> #[trigger] t@[c][r] == self@[r][c],
    {
        let mut rows: Vec<Vec<T>> = Vec::new();
        let mut c: usize = 0;
        while c < self.ncols
            invariant
                c <= self.ncols,
                self.wf(),
                rows@.len() == c,
                forall|l: int| 0 <= l < c ==> (#[trigger] rows@[l])@.len() == self.rows@.len(),
                forall|l: int, r: int|
                    0 <= l < c && 0 <= r < self.rows@.len() ==> #[trigger] rows@[l]@[r]
                        == self.rows@[r]@[l],
            decreases self.ncols - c,
        {
            let mut row: Vec<T> = Vec::new();
            let mut r: usize = 0;
            while r < self.rows.len()
                invariant
                    r <= self.rows@.len(),
                    c < self.ncols,
                    self.wf(),
                    row@.len() == r,
                    forall|l: int| 0 <= l < r ==> #[trigger] row@[l] == self.rows@[l]@[c as int],
                decreases self.rows@.len() - r,
            {
                row.push(self.rows[r][c]);
                r += 1;
            }
            rows.push(row);
            c += 1;
        }
        let t: Self = Matrix { rows, ncols: self.rows.len() };
        assert forall|c: int, r: int|
            0 <= c < self.ncols && 0 <= r < self@.len() implies #[trigger] t@[c][r]
            == self@[r][c] by {
            assert(t.rows@[c]@[r] == self.rows@[r]@[c]);
        }
        t
    }
}

impl<T: Scalar> Matrix<T> {
    /// A matrix of zeros.
    pub fn zeros(nrows: usize, ncols: usize) -> (a: Self)
        ensures
            a.wf(),
            a.ncols == ncols,
            has_shape(a@, nrows as int, ncols as int),
            forall|i: int, j: int|
                0 <= i < nrows && 0 <= j < ncols ==> is_zero(#[trigger] a@[i][j]),
    {
        let mut rows: Vec<Vec<T>> = Vec::new();
        let mut i: usize = 0;
        while i < nrows
            invariant
                i <= nrows,
                rows@.len() == i,
                forall|l: int| 0 <= l < i ==> (#[trigger] rows@[l])@.len() == ncols,
                forall|l: int, j: int|
                    0 <= l < i && 0 <= j < ncols ==> is_zero(#[trigger] rows@[l]@[j]),
            decreases nrows - i,
        {
            let mut row: Vec<T> = Vec::new();
            let mut j: usize = 0;
            while j < ncols
                invariant
                    j <= ncols,
                    row@.len() == j,
                    forall|l: int| 0 <= l < j ==> is_zero(#[trigger] row@[l]),
                decreases ncols - j,
            {
                row.push(T::zero());
                j += 1;
            }
            rows.push(row);
            i += 1;
        }
        let a: Self = Matrix { rows, ncols };
        assert forall|i: int, j: int| 0 <= i < nrows && 0 <= j < ncols implies is_zero(
            #[trigger] a@[i][j],
        ) by {
            assert(is_zero(a.rows@[i]@[j]));
        }
        a
    }

    /// The rows of `self`, projected on the first `m` rows and `k` columns of `p`.
    pub fn projected(&self, p: &Self, m: usize, k: usize) -> (z: Self)
        requires
            self.wf(),
            p.wf(),
            self@.len() > 0 ==> {
                &&& m <= self.ncols
                &&& k > 0 ==> m <= p@.len()
                &&& m > 0 ==> k <= p.ncols
            },
        ensures
            z.wf(),
            z.ncols == k,
            is_projection(self@, p@, m as int, k as int, z@),
    {
        let mut rows: Vec<Vec<T>> = Vec::new();
        let mut i: usize = 0;
        while i < self.rows.len()
            invariant
                i <= self.rows@.len(),
                self.wf(),
                p.wf(),
                self@.len() > 0 ==> {
                    &&& m <= self.ncols
                    &&& k > 0 ==> m <= p@.len()
                    &&& m > 0 ==> k <= p.ncols
                },
                rows@.len() == i,
                forall|l: int| 0 <= l < i ==> (#[trigger] rows@[l])@.len() == k,
                forall|l: int, r: int|
                    0 <= l < i && 0 <= r < k ==> is_dot(
                        self@[l].take(m as int),
                        column(p@, m as int, r),
                        #[trigger] rows@[l]@[r],
                    ),
            decreases self.rows@.len() - i,
        {
            assert(self@[i as int] == self.rows@[i as int]@);
            rows.push(project_row(self.rows[i].as_slice(), p, m, k));
            i += 1;
        }
        let z: Self = Matrix { rows, ncols: k };
        assert forall|l: int, r: int| 0 <= l < self@.len() && 0 <= r < k implies is_dot(
            self@[l].take(m as int),
            column(p@, m as int, r),
            #[trigger] z@[l][r],
        ) by {
            assert(z@[l][r] == z.rows@[l]@[r]);
        }
        z
    }
}

} // verus!
