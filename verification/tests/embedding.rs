use rand::rngs::StdRng;
use rand::{Rng, SeedableRng};
use skrub_rust::embed::{
    check_columns, compute_fd_embed, compute_fd_fit, compute_fd_transform, sign_columns,
};
use skrub_rust::fd::{fd_fit, fd_reduce, scaled_factor, shrink, sketch, FdError, Stage};
use skrub_rust::linalg::{LinearAlgebra, Svd};
use skrub_rust::matrix::{project_row, Matrix};
use skrub_rust::random::{chosen_seed, random_signs, signs_of, DEFAULT_SEED};
use skrub_rust::scalar::Scalar;
use skrub_rust::sparse::{csr_is_readable, csr_matmul_columns, csr_matmul_omega};
use std::cell::Cell;

#[derive(Clone, Copy, Debug, PartialEq)]
struct Num(f64);

impl Scalar for Num {
    fn zero() -> Self {
        Num(0.0)
    }
    fn one() -> Self {
        Num(1.0)
    }
    fn minus_one() -> Self {
        Num(-1.0)
    }
    fn from_count(count: u32) -> Self {
        Num(count as f64)
    }
    fn from_len(len: usize) -> Self {
        Num(len as f64)
    }
    fn plus(self, other: Self) -> Self {
        Num(self.0 + other.0)
    }
    fn minus(self, other: Self) -> Self {
        Num(self.0 - other.0)
    }
    fn times(self, other: Self) -> Self {
        Num(self.0 * other.0)
    }
    fn over(self, other: Self) -> Self {
        Num(self.0 / other.0)
    }
    fn sqrt(self) -> Self {
        Num(self.0.sqrt())
    }
    fn ln(self) -> Self {
        Num(self.0.ln())
    }
    fn exceeds(self, other: Self) -> bool {
        self.0 > other.0
    }
}

fn matrix(rows: &[&[f64]], ncols: usize) -> Matrix<Num> {
    Matrix {
        rows: rows.iter().map(|r| r.iter().map(|v| Num(*v)).collect()).collect(),
        ncols,
    }
}

fn nums(values: &[f64]) -> Vec<Num> {
    values.iter().map(|v| Num(*v)).collect()
}

fn close(a: f64, b: f64) -> bool {
    (a - b).abs() < 1e-9
}

fn multiply(a: &Matrix<Num>, b: &Matrix<Num>) -> Matrix<Num> {
    let rows = a
        .rows
        .iter()
        .map(|row| {
            (0..b.ncols)
                .map(|c| {
                    let mut sum = 0.0;
                    for (x, b_row) in row.iter().zip(b.rows.iter()) {
                        sum += x.0 * b_row[c].0;
                    }
                    Num(sum)
                })
                .collect()
        })
        .collect();
    Matrix { rows, ncols: b.ncols }
}

/// Decomposes by rotating pairs of columns until they are orthogonal.
struct Jacobi {
    decompositions: Cell<usize>,
}

impl Jacobi {
    fn new() -> Self {
        Jacobi { decompositions: Cell::new(0) }
    }
}

impl LinearAlgebra<Num> for Jacobi {
    fn svd(&self, a: &Matrix<Num>, want_u: bool, want_vt: bool) -> Result<Svd<Num>, String> {
        self.decompositions.set(self.decompositions.get() + 1);
        let n = a.rows.len();
        let m = a.ncols;
        let mut w: Vec<Vec<f64>> = (0..m)
            .map(|c| a.rows.iter().map(|r| r[c].0).collect())
            .collect();
        let mut v: Vec<Vec<f64>> = (0..m)
            .map(|c| (0..m).map(|r| if r == c { 1.0 } else { 0.0 }).collect())
            .collect();
        for _ in 0..60 {
            for p in 0..m {
                for q in p + 1..m {
                    let alpha: f64 = w[p].iter().map(|x| x * x).sum();
                    let beta: f64 = w[q].iter().map(|x| x * x).sum();
                    let gamma: f64 = w[p].iter().zip(w[q].iter()).map(|(x, y)| x * y).sum();
                    if gamma.abs() < 1e-14 {
                        continue;
                    }
                    let zeta = (beta - alpha) / (2.0 * gamma);
                    let t = zeta.signum() / (zeta.abs() + (1.0 + zeta * zeta).sqrt());
                    let t = if zeta == 0.0 { 1.0 } else { t };
                    let c = 1.0 / (1.0 + t * t).sqrt();
                    let s = c * t;
                    for r in 0..n {
                        let (x, y) = (w[p][r], w[q][r]);
                        w[p][r] = c * x - s * y;
                        w[q][r] = s * x + c * y;
                    }
                    for r in 0..m {
                        let (x, y) = (v[p][r], v[q][r]);
                        v[p][r] = c * x - s * y;
                        v[q][r] = s * x + c * y;
                    }
                }
            }
        }
        let mut order: Vec<(f64, usize)> = (0..m)
            .map(|c| (w[c].iter().map(|x| x * x).sum::<f64>().sqrt(), c))
            .collect();
        order.sort_by(|x, y| y.0.partial_cmp(&x.0).unwrap());
        let u = (0..n)
            .map(|r| {
                order
                    .iter()
                    .map(|(s, c)| Num(if *s > 0.0 { w[*c][r] / s } else { 0.0 }))
                    .collect()
            })
            .collect();
        let vt = order.iter().map(|(_, c)| nums(&v[*c])).collect();
        Ok(Svd {
            u: if want_u { Some(Matrix { rows: u, ncols: m }) } else { None },
            s: order.iter().map(|(s, _)| Num(*s)).collect(),
            vt: if want_vt { Some(Matrix { rows: vt, ncols: m }) } else { None },
        })
    }
    fn mat_mul(&self, a: &Matrix<Num>, b: &Matrix<Num>) -> Matrix<Num> {
        multiply(a, b)
    }
}

/// What a decomposition answers, whatever it is asked.
enum Reply {
    Fails,
    NoU,
    NoVt,
    Short,
}

struct Stub(Reply);

impl LinearAlgebra<Num> for Stub {
    fn svd(&self, a: &Matrix<Num>, _: bool, _: bool) -> Result<Svd<Num>, String> {
        let some = Some(matrix(&[], a.ncols));
        match self.0 {
            Reply::Fails => Err("no luck".to_string()),
            Reply::NoU => Ok(Svd { u: None, s: vec![], vt: some }),
            Reply::NoVt => Ok(Svd { u: some, s: vec![], vt: None }),
            Reply::Short => Ok(Svd { u: Some(matrix(&[], 0)), s: vec![], vt: some }),
        }
    }
    fn mat_mul(&self, a: &Matrix<Num>, b: &Matrix<Num>) -> Matrix<Num> {
        multiply(a, b)
    }
}

#[test]
fn k_must_be_between_one_and_the_width() {
    let y = matrix(&[&[1.0, 2.0]], 2);
    let la = Jacobi::new();
    assert!(matches!(fd_reduce(&y, 0, &la), Err(FdError::InvalidK)));
    assert!(matches!(fd_reduce(&y, 3, &la), Err(FdError::InvalidK)));
    assert!(matches!(fd_fit(&y, 0, &la), Err(FdError::InvalidK)));
    assert!(matches!(fd_fit(&y, 3, &la), Err(FdError::InvalidK)));
    assert!(fd_reduce(&y, 2, &la).is_ok());
    assert!(fd_fit(&y, 2, &la).is_ok());
    assert_eq!(FdError::InvalidK.message(), "Invalid k");
}

#[test]
fn reducing_tells_what_went_wrong() {
    // One row needs no shrinking where two are kept.
    let y = matrix(&[&[1.0, 2.0]], 2);
    let e = fd_reduce(&y, 2, &Stub(Reply::Fails)).err().unwrap();
    assert!(matches!(&e, FdError::SvdFailed(Stage::Reduce, r) if r == "no luck"));
    assert_eq!(e.message(), "SVD failed: no luck");
    let e = fd_reduce(&y, 2, &Stub(Reply::NoU)).err().unwrap();
    assert!(matches!(e, FdError::UMissing(Stage::Reduce)));
    assert_eq!(e.message(), "SVD: U missing");
    let e = fd_reduce(&y, 2, &Stub(Reply::NoVt)).err().unwrap();
    assert!(matches!(e, FdError::VtMissing(Stage::Reduce)));
    assert_eq!(e.message(), "SVD: VT missing");
    let e = fd_reduce(&y, 2, &Stub(Reply::Short)).err().unwrap();
    assert!(matches!(e, FdError::BadShape(Stage::Reduce)));
    assert_eq!(e.message(), "SVD: bad shape");
}

#[test]
fn fitting_tells_what_went_wrong() {
    let y = matrix(&[&[1.0, 2.0]], 2);
    let e = fd_fit(&y, 1, &Stub(Reply::Fails)).err().unwrap();
    assert!(matches!(&e, FdError::SvdFailed(Stage::Fit, r) if r == "no luck"));
    assert_eq!(e.message(), "Final SVD failed: no luck");
    let e = fd_fit(&y, 1, &Stub(Reply::NoVt)).err().unwrap();
    assert!(matches!(e, FdError::VtMissing(Stage::Fit)));
    assert_eq!(e.message(), "Final SVD: VT missing");
    // The left vectors are not asked for, so only the shape is wrong.
    let e = fd_fit(&y, 1, &Stub(Reply::NoU)).err().unwrap();
    assert!(matches!(e, FdError::BadShape(Stage::Fit)));
    assert_eq!(e.message(), "Final SVD: bad shape");
}

#[test]
fn shrinking_tells_what_went_wrong_and_keeps_the_sketch() {
    let mut b = matrix(&[&[1.0, 2.0]], 2);
    let e = shrink(&mut b, 1, &Stub(Reply::Fails)).err().unwrap();
    assert_eq!(e.message(), "SVD (shrink) failed: no luck");
    let e = shrink(&mut b, 1, &Stub(Reply::NoU)).err().unwrap();
    assert_eq!(e.message(), "SVD (shrink): U missing");
    let e = shrink(&mut b, 1, &Stub(Reply::NoVt)).err().unwrap();
    assert_eq!(e.message(), "SVD (shrink): VT missing");
    let e = shrink(&mut b, 1, &Stub(Reply::Short)).err().unwrap();
    assert_eq!(e.message(), "SVD (shrink): bad shape");
    assert_eq!(b.rows, vec![nums(&[1.0, 2.0])]);
}

#[test]
fn shrinking_takes_the_kth_square_off_every_square() {
    // Singular values 5, 4 and 3: the squares shrink by 16.
    let mut b = matrix(&[&[5.0, 0.0, 0.0], &[0.0, 4.0, 0.0], &[0.0, 0.0, 3.0]], 3);
    shrink(&mut b, 2, &Jacobi::new()).unwrap();
    assert!(close(b.rows[0][0].0, 3.0));
    for r in 0..3 {
        for c in 0..3 {
            if (r, c) != (0, 0) {
                assert!(close(b.rows[r][c].0, 0.0));
            }
        }
    }
}

#[test]
fn left_vectors_are_scaled_by_shrunk_values() {
    let u = matrix(&[&[2.0, 7.0, 1.0]], 3);
    // sqrt(25 - 16) = 3, and 16 does not exceed 16.
    let scaled = scaled_factor(&u, &nums(&[5.0, 4.0]), 2);
    assert_eq!(scaled.rows, vec![nums(&[6.0, 0.0])]);
    // There is no third singular value: nothing is taken off.
    let scaled = scaled_factor(&u, &nums(&[5.0, 4.0]), 3);
    assert_eq!(scaled.rows, vec![nums(&[10.0, 28.0])]);
    assert_eq!(scaled.ncols, 2);
}

#[test]
fn the_sketch_shrinks_when_full_and_every_seven_k_rows_after() {
    for (n, shrinks, filled) in
        [(0, 0, 0), (7, 0, 7), (8, 0, 8), (9, 1, 2), (15, 1, 8), (16, 2, 2), (23, 3, 2)]
    {
        let rows: Vec<Vec<f64>> = (0..n).map(|i| vec![1.0 + i as f64, 2.0]).collect();
        let refs: Vec<&[f64]> = rows.iter().map(|r| r.as_slice()).collect();
        let la = Jacobi::new();
        let (b, used) = sketch(&matrix(&refs, 2), 1, &la).unwrap();
        assert_eq!(la.decompositions.get(), shrinks);
        assert_eq!(used, filled);
        assert_eq!(b.rows.len(), 8);
    }
}

#[test]
fn rows_on_one_line_keep_their_lengths() {
    let y = matrix(&[&[3.0, 4.0, 0.0], &[6.0, 8.0, 0.0], &[-1.5, -2.0, 0.0]], 3);
    let (z, p) = fd_fit(&y, 1, &Jacobi::new()).unwrap();
    assert_eq!((z.rows.len(), z.ncols), (3, 1));
    assert_eq!((p.rows.len(), p.ncols), (3, 1));
    assert!(close(p.rows[0][0].0.abs(), 0.6));
    assert!(close(p.rows[1][0].0.abs(), 0.8));
    assert!(close(z.rows[0][0].0.abs(), 5.0));
    assert!(close(z.rows[1][0].0, 2.0 * z.rows[0][0].0));
    assert!(close(z.rows[2][0].0, -0.5 * z.rows[0][0].0));
    let z = fd_reduce(&y, 2, &Jacobi::new()).unwrap();
    assert_eq!((z.rows.len(), z.ncols), (3, 2));
    assert!(close(z.rows[1][0].0.abs(), 10.0));
    assert!(close(z.rows[1][1].0, 0.0));
}

#[test]
fn projecting_sums_along_columns() {
    let p = matrix(&[&[1.0, 2.0, 9.0], &[3.0, 4.0, 9.0], &[9.0, 9.0, 9.0]], 3);
    let row = nums(&[5.0, 6.0]);
    assert_eq!(project_row(&row, &p, 2, 2), nums(&[23.0, 34.0]));
    let y = matrix(&[&[5.0, 6.0], &[1.0, 0.0]], 2);
    let z = y.projected(&p, 2, 2);
    assert_eq!(z.rows, vec![nums(&[23.0, 34.0]), nums(&[1.0, 2.0])]);
}

#[test]
fn matrices_are_cut_turned_and_filled() {
    let mut a = matrix(&[&[1.0, 2.0], &[3.0, 4.0], &[5.0, 6.0]], 2);
    assert_eq!(a.top(2).rows, vec![nums(&[1.0, 2.0]), nums(&[3.0, 4.0])]);
    let t = a.transposed();
    assert_eq!(t.rows, vec![nums(&[1.0, 3.0, 5.0]), nums(&[2.0, 4.0, 6.0])]);
    assert_eq!(t.ncols, 3);
    a.set_row(1, &nums(&[7.0, 8.0]));
    assert_eq!(a.rows[1], nums(&[7.0, 8.0]));
    let z: Matrix<Num> = Matrix::zeros(2, 3);
    assert_eq!(z.rows, vec![nums(&[0.0, 0.0, 0.0]); 2]);
}

#[test]
fn sparse_rows_are_multiplied() {
    // Rows (2, 0, 3), () and (0, 1, 0).
    let data = nums(&[2.0, 3.0, 1.0]);
    let indices = [0, 2, 1];
    let indptr = [0, 2, 2, 3];
    let omega = nums(&[1.0, -1.0, 10.0, 20.0, 1.0, 1.0]);
    let y = csr_matmul_omega(&data, &indices, &indptr, 3, &omega, 2);
    let expected = vec![nums(&[5.0, 1.0]), nums(&[0.0, 0.0]), nums(&[10.0, 20.0])];
    assert_eq!(y.rows, expected);
    let omega_t = vec![nums(&[1.0, 10.0, 1.0]), nums(&[-1.0, 20.0, 1.0])];
    let y = csr_matmul_columns(&data, &indices, &indptr, 3, &omega_t, 3);
    assert_eq!(y.rows, expected);
}

#[test]
fn readability_is_checked() {
    assert!(csr_is_readable(3, &[0, 2, 1], &[0, 2, 2, 3], 3, 3, 2));
    // Column 2 is not below 2, but nothing is computed where the width is zero.
    assert!(!csr_is_readable(3, &[0, 2, 1], &[0, 2, 2, 3], 3, 2, 2));
    assert!(csr_is_readable(3, &[0, 2, 1], &[0, 2, 2, 3], 3, 2, 0));
    // A negative column, too few values, too few columns, too few boundaries.
    assert!(!csr_is_readable(1, &[-1], &[0, 1], 1, 3, 1));
    assert!(!csr_is_readable(1, &[0, 0], &[0, 2], 1, 3, 1));
    assert!(!csr_is_readable(2, &[0], &[0, 2], 1, 3, 1));
    assert!(!csr_is_readable(0, &[], &[0], 1, 3, 1));
    assert!(csr_is_readable(0, &[], &[], 0, 3, 1));
    // A row that ends before it starts is empty.
    assert!(csr_is_readable(0, &[], &[5, 2], 1, 3, 1));
}

#[test]
fn signs_come_from_the_seeded_generator() {
    let signs: Vec<Num> = random_signs(7, 100);
    let mut rng = StdRng::seed_from_u64(7);
    for sign in &signs {
        let expected = if rng.random::<bool>() { 1.0 } else { -1.0 };
        assert_eq!(sign.0, expected);
    }
    assert!(signs.contains(&Num(1.0)) && signs.contains(&Num(-1.0)));
    assert_ne!(random_signs::<Num>(8, 100), signs);
    assert_eq!(signs_of::<Num>(&[true, false]), nums(&[1.0, -1.0]));
}

#[test]
fn sign_columns_are_drawn_one_after_another() {
    let flat: Vec<Num> = random_signs(11, 12);
    let columns: Vec<Vec<Num>> = sign_columns(11, 4, 3);
    assert_eq!(columns.concat(), flat);
    assert!(columns.iter().all(|c| c.len() == 4));
}

#[test]
fn the_default_seed_is_used_where_none_is_given() {
    assert_eq!(chosen_seed(None), 0xC0FFEE);
    assert_eq!(DEFAULT_SEED, 12648430);
    assert_eq!(chosen_seed(Some(3)), 3);
}

#[test]
fn fitting_and_transforming_the_same_rows_agree() {
    let data = nums(&[1.0, 2.0, 3.0, 4.0]);
    let indices = [0, 1, 2, 0];
    let indptr = [0, 2, 3, 4];
    let la = Jacobi::new();
    let (model, z) = compute_fd_fit(&data, &indices, &indptr, 3, 3, 2, 1, None, &la).unwrap();
    assert_eq!((model.n_cols, model.k, model.oversample, model.m), (3, 2, 1, 3));
    assert_eq!(model.omega, random_signs::<Num>(0xC0FFEE, 9));
    assert_eq!((model.projection.rows.len(), model.projection.ncols), (3, 2));
    let again = compute_fd_transform(
        &model.projection,
        &model.omega,
        model.n_cols,
        model.m,
        &data,
        &indices,
        &indptr,
        3,
        3,
    )
    .unwrap();
    assert_eq!(again.rows, z.rows);
    assert_eq!(again.ncols, 2);
    let (same, _) =
        compute_fd_fit(&data, &indices, &indptr, 3, 3, 2, 1, Some(DEFAULT_SEED), &la).unwrap();
    assert_eq!(same.omega, model.omega);
    assert_eq!(same.projection.rows, model.projection.rows);
}

#[test]
fn embedding_reduces_the_mixed_rows() {
    let data = nums(&[1.0, 2.0, 3.0]);
    let indices = [0, 1, 1];
    let indptr = [0, 2, 3];
    let z = compute_fd_embed(&data, &indices, &indptr, 2, 2, 1, 2, Some(5), &Jacobi::new()).unwrap();
    assert_eq!((z.rows.len(), z.ncols), (2, 1));
    let omega_t: Vec<Vec<Num>> = sign_columns(5, 2, 3);
    let y = csr_matmul_columns(&data, &indices, &indptr, 2, &omega_t, 2);
    let expected = fd_reduce(&y, 1, &Jacobi::new()).unwrap();
    assert_eq!(z.rows, expected.rows);
}

#[test]
fn embedding_into_no_columns_is_refused() {
    let la = Jacobi::new();
    let r = compute_fd_embed::<Num, Jacobi>(&[], &[], &[0], 0, 2, 0, 4, None, &la);
    assert!(matches!(r, Err(FdError::InvalidK)));
    let r = compute_fd_fit::<Num, Jacobi>(&[], &[], &[0], 0, 2, 0, 4, None, &la);
    assert!(matches!(r, Err(FdError::InvalidK)));
}

#[test]
fn another_number_of_columns_is_refused() {
    let p = matrix(&[&[1.0]], 1);
    let e = compute_fd_transform(&p, &nums(&[1.0, 1.0]), 2, 1, &[], &[], &[0], 0, 10)
        .err()
        .unwrap();
    assert!(matches!(e, FdError::ColumnsMismatch { input: 10, model: 2 }));
    assert_eq!(e.message(), "n_cols mismatch: input n_cols=10 but model expects 2");
    assert!(check_columns(2, 2).is_ok());
    assert!(check_columns(2, 3).is_err());
}

#[test]
fn embedding_again_gives_the_same() {
    let data = nums(&[1.0, 2.0, 3.0, -1.0]);
    let indices = [0, 1, 1, 2];
    let indptr = [0, 2, 3, 4];
    let embed = |seed: Option<u64>, k: usize| {
        compute_fd_embed(&data, &indices, &indptr, 3, 3, k, 2, seed, &Jacobi::new())
    };
    let z = embed(None, 2).unwrap();
    assert_eq!((z.rows.len(), z.ncols), (3, 2));
    assert_eq!(embed(None, 2).unwrap().rows, z.rows);
    assert_eq!(embed(Some(0xC0FFEE), 2).unwrap().rows, z.rows);
    assert!(embed(None, 0).is_err());
}
