//! What the calls of the single steps return, over their arguments alone.

use ahash::AHashMap;
use vstd::prelude::*;

use crate::counting::{
    count_columns, count_tokens, countable, lemma_occurrences_len, lemma_short_is_countable,
    token_views,
};
use crate::documents::{column_docs, doc_freq, lemma_doc_freq_prefix, tallies, token_docs};
use crate::embed::{
    compute_fd_embed, compute_fd_fit, compute_fd_transform, sign_columns, FdEmbedModel,
};
use crate::embed_laws::law_model_reads_its_columns;
use crate::embedding_laws::{
    are_rows, draws, lemma_mixes_with_columns, lemma_mixes_with_omega, mixes, seed_given,
};
use crate::entry_laws::{
    are_boundaries, bucket_count, column_count, has_row_of, has_sorted_row_of,
    law_hashed_rows_by_entry, law_transform_by_entry, lemma_filter_is_occurrences,
    lemma_fit_limits, lemma_hashed_counts, lemma_hashed_limits, reads, slice_at, token_count,
};
use crate::fd::{fd_fit, fd_reduce, sketch, FdError};
use crate::hashed::Builder;
use crate::laws::{law_fit_agrees_with_transform, lemma_occurrences_is_count};
use crate::limits::{
    all_countable, column_doc_freqs_fit, column_docs_countable, token_doc_freqs_fit,
    token_docs_countable,
};
use crate::linalg::LinearAlgebra;
use crate::matrix::{column, project_row, Matrix};
use crate::mixing_laws::{adds_up, law_dot_adds_up, law_projection_adds_up};
use crate::random::{chosen_seed, random_signs};
use crate::scalar::{is_count, is_product, Scalar};
use crate::setting_laws::{
    law_parse_next, law_readable_stays_inside, law_settings, law_sparse_rows_are_readable,
};
use crate::sketch_laws::{
    law_newest_row_is_kept, law_sketch_is_shrunk_and_refilled, law_sketch_keeps_all_until_full,
};
use crate::sparse::{
    column_entry, csr_is_readable, csr_matmul_columns, csr_matmul_omega, flat_entry, gathered,
    row_end, row_start, sparse_row_times_columns, sparse_row_times_omega, stretch,
};
use crate::tables::{column_counts, token_counts, vocabulary};
use crate::text::parse_usize;
use crate::tfidf::Error;
use crate::threads::get_num_threads;
use crate::tokenize::{Analyzer, Tokenizer};
use crate::vocab::{
    all_tokens, known_columns, known_countable, lemma_known_len, token_tables, vocabulary_fits,
    TfidfModel, VocabBuilder,
};
use crate::weight_laws::{
    docs_in, docs_with, has_token, is_idf_of, law_build_weighs_by_documents,
    law_fit_weighs_by_documents, lemma_distinct_tokens, lemma_filter_is_doc_freq, lemma_idf_steps,
};
use crate::weights::{is_idf_at, smoothed_idf, smoothed_idfs, term_weight};

verus! {

/// A sketch keeps every row until it is full; after that its last row in use is still the last
/// row that entered, and every row in use below the first `k` is one that entered, in order.
pub proof fn law_sketch_call<T: Scalar, L: LinearAlgebra<T>>(
    y: &Matrix<T>,
    k: usize,
    la: &L,
    b: Matrix<T>,
    filled: usize,
)
    requires
        0 < k,
        call_ensures(sketch::<T, L>, (y, k, la), Ok((b, filled))),
    ensures
        b@.len() == 8 * k,
        b.ncols == y.ncols,
        y@.len() <= 8 * k ==> filled == y@.len() && b@.take(filled as int) == y@,
        y@.len() > 8 * k ==> k < filled <= 8 * k && forall|r: int|
            k <= r < filled ==> #[trigger] b@[r] == y@[y@.len() - filled + r],
        y@.len() > 0 ==> filled > 0 && b@[filled - 1] == y@[y@.len() - 1],
{
    let n = y@.len() as int;
    let m = y.ncols as int;
    if n <= 8 * k {
        law_sketch_keeps_all_until_full(la, y@, m, k as int, n, b@, filled as int);
        assert(b@.take(filled as int) =~= y@);
    } else {
        let _ = law_sketch_is_shrunk_and_refilled(la, y@, m, k as int, n, b@, filled as int);
    }
    if n > 0 {
        law_newest_row_is_kept(la, y@, m, k as int, n, b@, filled as int);
    }
}

/// Reducing and fitting fail with `InvalidK` where there are no directions, or more than the rows
/// have columns.
pub proof fn law_direction_limits<T: Scalar, L: LinearAlgebra<T>>(
    y: &Matrix<T>,
    k: usize,
    la: &L,
    r1: Result<Matrix<T>, FdError>,
    r2: Result<(Matrix<T>, Matrix<T>), FdError>,
)
    requires
        k == 0 || k > y.ncols,
        call_ensures(fd_reduce::<T, L>, (y, k, la), r1),
        call_ensures(fd_fit::<T, L>, (y, k, la), r2),
    ensures
        r1 == Err::<Matrix<T>, FdError>(FdError::InvalidK),
        r2 == Err::<(Matrix<T>, Matrix<T>), FdError>(FdError::InvalidK),
{
}

/// Every stored entry of a row counts, with a mixing matrix that is held row after row: entry `t`
/// adds up `data[p] * omega[indices[p] * m + t]` for every `p` between the row's boundaries.
pub proof fn law_row_times_omega_call<T: Scalar>(
    data: &[T],
    indices: &[i32],
    indptr: &[i64],
    row: usize,
    omega: &[T],
    m: usize,
    y_row: Vec<T>,
    t: int,
)
    requires
        call_ensures(sparse_row_times_omega::<T>, (data, indices, indptr, row, omega, m), y_row),
        0 <= t < m,
        0 <= indptr@[row as int] <= indptr@[row + 1] <= data@.len(),
        data@.len() == indices@.len() <= usize::MAX,
        forall|p: int| 0 <= p < indices@.len() ==> 0 <= #[trigger] indices@[p],
    ensures
        y_row@.len() == m,
        adds_up(
            indptr@[row + 1] - indptr@[row as int],
            |q: int| data@[indptr@[row as int] + q],
            |q: int| omega@[indices@[indptr@[row as int] + q] * m + t],
            y_row@[t],
        ),
{
    let start = indptr@[row as int];
    let xs = stretch(
        data@,
        row_start(indptr@, row as int),
        row_end(indptr@, row as int),
    );
    let columns = stretch(
        indices@,
        row_start(indptr@, row as int),
        row_end(indptr@, row as int),
    );
    let ws = gathered(columns, flat_entry(omega@, m as int), t);
    let w = |q: int| omega@[indices@[indptr@[row as int] + q] * m + t];
    assert forall|q: int| 0 <= q < xs.len() implies #[trigger] w(q) == ws[q] by {
        assert(columns[q] == indices@[start + q]);
        assert(0 <= indices@[start + q]);
    }
    law_dot_adds_up(xs, ws, |q: int| data@[indptr@[row as int] + q], w, y_row@[t]);
}

/// Every stored entry of a row counts, with a mixing matrix that is held by its columns: entry
/// `t` adds up `data[p] * omega_t[t][indices[p]]` for every `p` between the row's boundaries.
pub proof fn law_row_times_columns_call<T: Scalar>(
    data: &[T],
    indices: &[i32],
    indptr: &[i64],
    row: usize,
    omega_t: &[Vec<T>],
    n_cols: usize,
    y_row: Vec<T>,
    t: int,
)
    requires
        call_ensures(
            sparse_row_times_columns::<T>,
            (data, indices, indptr, row, omega_t, n_cols),
            y_row,
        ),
        0 <= t < omega_t@.len(),
        0 <= indptr@[row as int] <= indptr@[row + 1] <= data@.len(),
        data@.len() == indices@.len() <= usize::MAX,
        forall|p: int| 0 <= p < indices@.len() ==> 0 <= #[trigger] indices@[p],
    ensures
        y_row@.len() == omega_t@.len(),
        adds_up(
            indptr@[row + 1] - indptr@[row as int],
            |q: int| data@[indptr@[row as int] + q],
            |q: int| omega_t@[t]@[indices@[indptr@[row as int] + q] as int],
            y_row@[t],
        ),
{
    let start = indptr@[row as int];
    let xs = stretch(
        data@,
        row_start(indptr@, row as int),
        row_end(indptr@, row as int),
    );
    let columns = stretch(
        indices@,
        row_start(indptr@, row as int),
        row_end(indptr@, row as int),
    );
    let ws = gathered(columns, column_entry(omega_t@), t);
    let w = |q: int| omega_t@[t]@[indices@[indptr@[row as int] + q] as int];
    assert forall|q: int| 0 <= q < xs.len() implies #[trigger] w(q) == ws[q] by {
        assert(columns[q] == indices@[start + q]);
        assert(0 <= indices@[start + q]);
    }
    law_dot_adds_up(xs, ws, |q: int| data@[indptr@[row as int] + q], w, y_row@[t]);
}

/// Sparse rows times a mixing matrix that is held row after row.
pub proof fn law_matmul_omega_call<T: Scalar>(
    data: &[T],
    indices: &[i32],
    indptr: &[i64],
    n_rows: usize,
    omega: &[T],
    m: usize,
    y: Matrix<T>,
)
    requires
        are_rows(data@, indices@, indptr@, n_rows as int),
        call_ensures(csr_matmul_omega::<T>, (data, indices, indptr, n_rows, omega, m), y),
    ensures
        y.ncols == m,
        mixes(
            data@,
            indices@,
            indptr@,
            n_rows as int,
            |column: int, t: int| omega@[column * m + t],
            m as int,
            y@,
        ),
{
    lemma_mixes_with_omega(data@, indices@, indptr@, n_rows as int, omega@, m as int, y@);
}

/// Sparse rows times a mixing matrix that is held by its columns.
pub proof fn law_matmul_columns_call<T: Scalar>(
    data: &[T],
    indices: &[i32],
    indptr: &[i64],
    n_rows: usize,
    omega_t: &[Vec<T>],
    n_cols: usize,
    y: Matrix<T>,
)
    requires
        are_rows(data@, indices@, indptr@, n_rows as int),
        call_ensures(csr_matmul_columns::<T>, (data, indices, indptr, n_rows, omega_t, n_cols), y),
    ensures
        y.ncols == omega_t@.len(),
        mixes(
            data@,
            indices@,
            indptr@,
            n_rows as int,
            |column: int, t: int| omega_t@[t]@[column],
            omega_t@.len() as int,
            y@,
        ),
{
    lemma_mixes_with_columns(
        data@,
        indices@,
        indptr@,
        n_rows as int,
        omega_t@,
        omega_t@.len() as int,
        y@,
    );
}

/// A projected row adds up the row and each column of the projection.
pub proof fn law_project_row_call<T: Scalar>(
    y_row: &[T],
    p: &Matrix<T>,
    m: usize,
    k: usize,
    z_row: Vec<T>,
    r: int,
)
    requires
        m <= y_row@.len(),
        call_ensures(project_row::<T>, (y_row, p, m, k), z_row),
        0 <= r < k,
    ensures
        z_row@.len() == k,
        adds_up(m as int, |c: int| y_row@[c], |c: int| p@[c][r], z_row@[r]),
{
    law_dot_adds_up(
        y_row@.take(m as int),
        column(p@, m as int, r),
        |c: int| y_row@[c],
        |c: int| p@[c][r],
        z_row@[r],
    );
}

/// Random signs: draw `i` of the seed for entry `i`, and draw `t * n_cols + j` for entry `j` of
/// column `t`. Without a seed, the seed is `0xC0FFEE`.
pub proof fn law_signs_call<T: Scalar>(
    seed: u64,
    n: usize,
    signs: Vec<T>,
    n_cols: usize,
    width: usize,
    omega_t: Vec<Vec<T>>,
    given: Option<u64>,
    chosen: u64,
)
    requires
        call_ensures(random_signs::<T>, (seed, n), signs),
        call_ensures(sign_columns::<T>, (seed, n_cols, width), omega_t),
        call_ensures(chosen_seed, (given,), chosen),
    ensures
        signs@.len() == n,
        forall|i: int| 0 <= i < n ==> draws(seed, i, #[trigger] signs@[i]),
        omega_t@.len() == width,
        forall|t: int| 0 <= t < width ==> (#[trigger] omega_t@[t])@.len() == n_cols,
        forall|t: int, j: int|
            0 <= t < width && 0 <= j < n_cols ==> draws(
                seed,
                t * n_cols + j,
                #[trigger] omega_t@[t]@[j],
            ),
        chosen == seed_given(given),
{
}

/// Sparse rows whose columns exist can be embedded, fitted and transformed, as long as the sizes
/// fit into a machine word.
pub proof fn law_embedding_takes_sparse_rows<T: Scalar, L: LinearAlgebra<T>>(
    data: &[T],
    indices: &[i32],
    indptr: &[i64],
    n_rows: usize,
    n_cols: usize,
    k: usize,
    oversample: usize,
    seed: Option<u64>,
    la: &L,
)
    requires
        are_rows(data@, indices@, indptr@, n_rows as int),
        forall|p: int| 0 <= p < indices@.len() ==> #[trigger] indices@[p] < n_cols,
        k + oversample <= usize::MAX,
        n_cols * (k + oversample) <= isize::MAX,
        8 * k <= usize::MAX,
    ensures
        call_requires(
            compute_fd_embed::<T, L>,
            (data, indices, indptr, n_rows, n_cols, k, oversample, seed, la),
        ),
        call_requires(
            compute_fd_fit::<T, L>,
            (data, indices, indptr, n_rows, n_cols, k, oversample, seed, la),
        ),
{
    law_sparse_rows_are_readable(
        data@,
        indices@,
        indptr@,
        n_rows as int,
        n_cols as int,
        k + oversample,
    );
}

/// The weight of a term that `df` of `n_docs` documents hold is `ln((1 + n_docs) / (1 + df)) + 1`,
/// for one term and for many.
pub proof fn law_smoothed_idf_call<T: Scalar>(
    n_docs: usize,
    df: u32,
    r: T,
    dfs: &[u32],
    idf: Vec<T>,
)
    requires
        call_ensures(smoothed_idf::<T>, (n_docs, df), r),
        call_ensures(smoothed_idfs::<T>, (n_docs, dfs), idf),
    ensures
        is_idf_of(n_docs, df, r),
        idf@.len() == dfs@.len(),
        forall|j: int| 0 <= j < dfs@.len() ==> is_idf_of(n_docs, dfs@[j], #[trigger] idf@[j]),
{
    lemma_idf_steps(n_docs, df, r);
    assert forall|j: int| 0 <= j < dfs@.len() implies is_idf_of(
        n_docs,
        dfs@[j],
        #[trigger] idf@[j],
    ) by {
        lemma_idf_steps(n_docs, dfs@[j], idf@[j]);
    }
}

/// The weight of an item is its count times the weight of its column, which is zero where the
/// column has none.
pub proof fn law_term_weight_call<T: Scalar>(idf: &[T], c: usize, count: u32, r: T) -> (w: (T, T))
    requires
        call_ensures(term_weight::<T>, (idf, c, count), r),
    ensures
        call_ensures(T::from_count, (count,), w.0),
        c < idf@.len() ==> w.1 == idf@[c as int],
        c >= idf@.len() ==> call_ensures(T::zero, (), w.1),
        call_ensures(T::times, (w.0, w.1), r),
{
    let item = (c, count);
    choose|tf: T, w: T| #[trigger]
        is_count(item.1, tf) && is_idf_at(idf@, item.0, w)
            && #[trigger] is_product(tf, w, r)
}

/// A table of counts has exactly the columns of the document, each as often as it occurs.
pub proof fn law_count_columns_call(columns: &[usize], table: AHashMap<usize, u32>, c: usize)
    requires
        columns@.len() <= u32::MAX,
        call_ensures(count_columns, (columns,), table),
    ensures
        column_counts(table).dom().contains(c) <==> columns@.contains(c),
        columns@.contains(c) ==> column_counts(table)[c] == columns@.to_multiset().count(c),
{
    lemma_occurrences_is_count(columns@, c);
    lemma_occurrences_len(columns@, c);
}

/// A table of counts has exactly the tokens of the document, each as often as it occurs.
pub proof fn law_count_tokens_call(
    tokens: &[String],
    table: AHashMap<String, u32>,
    t: Seq<char>,
)
    requires
        tokens@.len() <= u32::MAX,
        call_ensures(count_tokens, (tokens,), table),
    ensures
        token_counts(table).dom().contains(t) <==> exists|j: int|
            0 <= j < tokens@.len() && (#[trigger] tokens@[j])@ == t,
        token_counts(table).dom().contains(t) ==> token_counts(table)[t] == tokens@.filter(
            |s: String| reads(s, t),
        ).len(),
{
    let views = token_views(tokens@);
    lemma_filter_is_occurrences(tokens@, |s: String| reads(s, t), views, t);
    lemma_occurrences_len(views, t);
    if views.contains(t) {
        let j = choose|j: int| 0 <= j < views.len() && views[j] == t;
        assert(tokens@[j]@ == t);
    }
    if exists|j: int| 0 <= j < tokens@.len() && (#[trigger] tokens@[j])@ == t {
        let j = choose|j: int| 0 <= j < tokens@.len() && (#[trigger] tokens@[j])@ == t;
        assert(views[j] == t);
    }
}

/// What learning from token lists returns: the vocabulary has exactly their tokens, a token
/// weighs `ln((1 + n) / (1 + d)) + 1` where `d` of the `n` lists have it, and the rows hold each
/// list's columns with the number of its tokens times the weight, scaled to unit length.
pub proof fn law_fit_csr_tokens_call<T: Scalar>(
    builder: &VocabBuilder,
    docs: &[Vec<String>],
    r: Result<(TfidfModel<T>, Vec<T>, Vec<i32>, Vec<i64>), Error>,
)
    requires
        forall|i: int| 0 <= i < docs@.len() ==> (#[trigger] docs@[i])@.len() <= u32::MAX,
        call_ensures(VocabBuilder::fit_csr_tokens::<T>, (builder, docs), r),
    ensures
        r matches Ok((model, data, indices, indptr)) && {
            &&& model.analyzer == builder.analyzer
            &&& model.nmin == builder.nmin
            &&& model.nmax == builder.nmax
            &&& forall|t: Seq<char>| #[trigger]
                vocabulary(model.vocab).dom().contains(t) <==> exists|i: int|
                    0 <= i < docs@.len() && has_token(#[trigger] docs@[i], t)
            &&& forall|t: Seq<char>| #[trigger]
                vocabulary(model.vocab).dom().contains(t) ==> is_idf_of(
                    docs@.len() as usize,
                    docs_with(docs@, t) as u32,
                    model.idf@[vocabulary(model.vocab)[t] as int],
                )
            &&& data@.len() <= i64::MAX ==> {
                &&& are_boundaries(indptr@, docs@.len() as int, data@.len() as int)
                &&& forall|i: int|
                    0 <= i < docs@.len() ==> has_row_of(
                        |c: usize|
                            column_count(
                                vocabulary(model.vocab),
                                model.n_cols,
                                #[trigger] docs@[i],
                                c,
                            ),
                        model.idf@,
                        slice_at(indices@, indptr@, i),
                        slice_at(data@, indptr@, i),
                    )
            }
        },
{
    let (model, data, indices, indptr) = r->Ok_0;
    law_fit_weighs_by_documents(docs@, model, data@, indices@, indptr@);
    assert forall|i: int| 0 <= i < docs@.len() implies countable(
        #[trigger] token_docs(docs@)[i],
    ) by {
        assert(docs@[i]@.len() <= u32::MAX);
        lemma_short_is_countable(token_docs(docs@)[i]);
    }
    law_fit_agrees_with_transform(token_docs(docs@), model, data@, indices@, indptr@);
    if data@.len() <= i64::MAX {
        law_transform_by_entry(
            docs@,
            vocabulary(model.vocab),
            model.n_cols,
            model.idf@,
            data@,
            indices@,
            indptr@,
        );
    }
}

/// What vectorising token lists with a model returns: the rows hold the columns of each list's
/// known tokens with the number of tokens times the weight, scaled to unit length.
pub proof fn law_transform_csr_tokens_call<T: Scalar>(
    model: &TfidfModel<T>,
    docs: &[Vec<String>],
    r: Result<(Vec<T>, Vec<i32>, Vec<i64>), Error>,
)
    requires
        known_countable(vocabulary(model.vocab), model.n_cols, token_docs(docs@)),
        call_ensures(TfidfModel::<T>::transform_csr_tokens, (model, docs), r),
    ensures
        r matches Ok((data, indices, indptr)) && (data@.len() <= i64::MAX ==> {
            &&& are_boundaries(indptr@, docs@.len() as int, data@.len() as int)
            &&& forall|i: int|
                0 <= i < docs@.len() ==> has_row_of(
                    |c: usize|
                        column_count(
                            vocabulary(model.vocab),
                            model.n_cols,
                            #[trigger] docs@[i],
                            c,
                        ),
                    model.idf@,
                    slice_at(indices@, indptr@, i),
                    slice_at(data@, indptr@, i),
                )
        }),
{
    let (data, indices, indptr) = r->Ok_0;
    if data@.len() <= i64::MAX {
        law_transform_by_entry(
            docs@,
            vocabulary(model.vocab),
            model.n_cols,
            model.idf@,
            data@,
            indices@,
            indptr@,
        );
    }
}

/// What vectorising bucket lists returns: a bucket weighs `ln((1 + n) / (1 + d)) + 1` where `d` of
/// the `n` lists have it, whatever the number of buckets, and the rows hold each list's buckets in
/// increasing order with their number times the weight, scaled to unit length.
pub proof fn law_build_csr_columns_call<T: Scalar>(
    builder: &Builder,
    docs: &[Vec<usize>],
    r: Result<(Vec<T>, Vec<i32>, Vec<i64>, Vec<T>), Error>,
)
    requires
        all_countable(column_docs(docs@)),
        call_ensures(Builder::build_csr_columns::<T>, (builder, docs), r),
    ensures
        r matches Ok((data, indices, indptr, idf)) && {
            &&& idf@.len() == builder.nfeat
            &&& forall|c: usize|
                c < builder.nfeat ==> is_idf_of(
                    docs@.len() as usize,
                    docs_in(docs@, c) as u32,
                    #[trigger] idf@[c as int],
                )
            &&& data@.len() <= i64::MAX ==> {
                &&& are_boundaries(indptr@, docs@.len() as int, data@.len() as int)
                &&& forall|i: int|
                    0 <= i < docs@.len() ==> has_sorted_row_of(
                        |c: usize| bucket_count(#[trigger] docs@[i], c),
                        idf@,
                        slice_at(indices@, indptr@, i),
                        slice_at(data@, indptr@, i),
                    )
            }
        },
{
    let (data, indices, indptr, idf) = r->Ok_0;
    law_build_weighs_by_documents(docs@, builder.nfeat, data@, indices@, indptr@, idf@);
    if data@.len() <= i64::MAX {
        law_hashed_rows_by_entry(docs@, idf@, data@, indices@, indptr@);
    }
}

/// What vectorising bucket lists with given weights returns: `Internal` where there is not one
/// weight for each bucket, and else the rows.
pub proof fn law_build_csr_columns_with_idf_call<T: Scalar>(
    builder: &Builder,
    docs: &[Vec<usize>],
    idf: &[T],
    r: Result<(Vec<T>, Vec<i32>, Vec<i64>), Error>,
)
    requires
        all_countable(column_docs(docs@)),
        call_ensures(Builder::build_csr_columns_with_idf::<T>, (builder, docs, idf), r),
    ensures
        idf@.len() != builder.nfeat ==> r == Err::<(Vec<T>, Vec<i32>, Vec<i64>), Error>(
            Error::Internal,
        ),
        idf@.len() == builder.nfeat ==> (r matches Ok((data, indices, indptr)) && (data@.len()
            <= i64::MAX ==> {
            &&& are_boundaries(indptr@, docs@.len() as int, data@.len() as int)
            &&& forall|i: int|
                0 <= i < docs@.len() ==> has_sorted_row_of(
                    |c: usize| bucket_count(#[trigger] docs@[i], c),
                    idf@,
                    slice_at(indices@, indptr@, i),
                    slice_at(data@, indptr@, i),
                )
        })),
{
    if idf@.len() == builder.nfeat {
        let (data, indices, indptr) = r->Ok_0;
        if data@.len() <= i64::MAX {
            law_hashed_rows_by_entry(docs@, idf@, data@, indices@, indptr@);
        }
    }
}

/// A vectoriser is made of the names `char` and `char_wb` and an n-gram range with a length from
/// one on in it, with the settings as given; else the name is refused first, and then the range.
pub proof fn law_new_call(
    name: &str,
    nmin: usize,
    nmax: usize,
    nfeat: usize,
    r1: Result<Builder, Error>,
    r2: Result<VocabBuilder, Error>,
)
    requires
        call_ensures(Builder::new, (name, nmin, nmax, nfeat), r1),
        call_ensures(VocabBuilder::new, (name, nmin, nmax), r2),
    ensures
        r1 is Ok <==> (name@ == seq!['c', 'h', 'a', 'r'] || name@ == seq![
            'c',
            'h',
            'a',
            'r',
            '_',
            'w',
            'b',
        ]) && 1 <= nmin <= nmax,
        r2 is Ok <==> r1 is Ok,
        r1 matches Ok(b) ==> {
            &&& b.nmin == nmin && b.nmax == nmax && b.nfeat == nfeat
            &&& b.analyzer == Analyzer::Char <==> name@ == seq!['c', 'h', 'a', 'r']
        },
        r2 matches Ok(b) ==> {
            &&& b.nmin == nmin && b.nmax == nmax
            &&& b.analyzer == Analyzer::Char <==> name@ == seq!['c', 'h', 'a', 'r']
        },
        r1 matches Err(e) ==> {
            &&& e != Error::Internal
            &&& r2 == Err::<VocabBuilder, Error>(e)
            &&& e == Error::InvalidNgramRange <==> (name@ == seq!['c', 'h', 'a', 'r'] || name@
                == seq!['c', 'h', 'a', 'r', '_', 'w', 'b'])
        },
{
    law_settings(name@, nmin, nmax);
    assert(seq!['c', 'h', 'a', 'r'].len() != seq!['c', 'h', 'a', 'r', '_', 'w', 'b'].len());
}

/// Reading one more digit gives ten times the number and the digit, as far as a machine word can
/// say it; one more character that is no digit leaves no number.
pub proof fn law_parse_calls(
    s: &str,
    longer: &str,
    c: char,
    r1: Option<usize>,
    r2: Option<usize>,
)
    requires
        s@.len() > 0,
        s@ != seq!['+'],
        longer@ == s@.push(c),
        call_ensures(parse_usize, (s,), r1),
        call_ensures(parse_usize, (longer,), r2),
    ensures
        r2 == if '0' <= c <= '9' && r1 is Some && r1->0 * 10 + (c as int - '0' as int)
            <= usize::MAX {
            Some((r1->0 * 10 + (c as int - '0' as int)) as usize)
        } else {
            None
        },
{
    law_parse_next(s@, c);
}

/// A setting asks for as many threads as it reads as, and else for none.
pub proof fn law_threads_call(
    setting: Option<&str>,
    n: usize,
    r: Option<usize>,
)
    requires
        call_ensures(get_num_threads, (setting,), n),
        setting matches Some(s) ==> call_ensures(parse_usize, (s,), r),
        setting is None ==> r is None,
    ensures
        n == match r {
            Some(v) => v,
            None => 0,
        },
{
}

/// A fitted model can transform all sparse rows whose columns are among those it was fitted to,
/// and every other number of columns is answered too.
pub proof fn law_model_takes_sparse_rows<T: Scalar, L: LinearAlgebra<T>>(
    fitted: (&[T], &[i32], &[i64], usize, usize, usize, usize, Option<u64>, &L),
    model: FdEmbedModel<T>,
    z: Matrix<T>,
    omega: &[T],
    data: &[T],
    indices: &[i32],
    indptr: &[i64],
    n_rows: usize,
    n_cols: usize,
)
    requires
        call_ensures(compute_fd_fit::<T, L>, fitted, Ok((model, z))),
        omega@ == model.omega@,
        n_cols == model.n_cols ==> {
            &&& are_rows(data@, indices@, indptr@, n_rows as int)
            &&& forall|p: int| 0 <= p < indices@.len() ==> #[trigger] indices@[p] < n_cols
        },
    ensures
        call_requires(
            compute_fd_transform::<T>,
            (
                &model.projection,
                omega,
                model.n_cols,
                model.m,
                data,
                indices,
                indptr,
                n_rows,
                n_cols,
            ),
        ),
{
    if n_cols == model.n_cols {
        law_sparse_rows_are_readable(
            data@,
            indices@,
            indptr@,
            n_rows as int,
            n_cols as int,
            model.m as int,
        );
        law_model_reads_its_columns(
            model,
            data@.len() as int,
            indices@,
            indptr@,
            n_rows as int,
        );
    }
}

/// Every list of documents can be handed to the vectorisers.
pub proof fn law_vectorisers_take_all_documents<T: Scalar, K: Tokenizer>(
    learner: &VocabBuilder,
    builder: &Builder,
    model: &TfidfModel<T>,
    docs: &[String],
    idf: &[T],
    tok: &K,
)
    ensures
        call_requires(VocabBuilder::fit_csr::<T, K>, (learner, docs, tok)),
        call_requires(TfidfModel::<T>::transform_csr::<K>, (model, docs, tok)),
        call_requires(Builder::build_csr::<T, K>, (builder, docs, tok)),
        call_requires(Builder::build_csr_with_idf::<T, K>, (builder, docs, idf, tok)),
{
}

/// Token lists can be learnt from where a count can say their lengths and their number, and there
/// are no more distinct tokens than column numbers; they can be vectorised whatever the tokens.
pub proof fn law_token_lists_are_taken<T: Scalar>(
    learner: &VocabBuilder,
    model: &TfidfModel<T>,
    docs: &[Vec<String>],
)
    requires
        docs@.len() <= u32::MAX,
        forall|i: int| 0 <= i < docs@.len() ==> (#[trigger] docs@[i])@.len() <= u32::MAX,
        Set::new(
            |t: Seq<char>|
                exists|i: int| 0 <= i < docs@.len() && has_token(#[trigger] docs@[i], t),
        ).len() <= 0x8000_0000,
    ensures
        call_requires(VocabBuilder::fit_csr_tokens::<T>, (learner, docs)),
        call_requires(TfidfModel::<T>::transform_csr_tokens, (model, docs)),
{
    let views = token_docs(docs@);
    let vocab = vocabulary(model.vocab);
    lemma_distinct_tokens(docs@);
    assert forall|i: int| 0 <= i < views.len() implies countable(#[trigger] views[i]) by {
        assert(docs@[i]@.len() <= u32::MAX);
        lemma_short_is_countable(views[i]);
    }
    assert forall|t: Seq<char>| #[trigger] doc_freq(tallies(views), t) <= u32::MAX by {
        lemma_doc_freq_prefix(tallies(views), views.len() as int, t);
    }
    assert forall|i: int| 0 <= i < views.len() implies countable(
        known_columns(vocab, model.n_cols, #[trigger] views[i]),
    ) by {
        assert(docs@[i]@.len() <= u32::MAX);
        lemma_known_len(vocab, model.n_cols, views[i]);
        lemma_short_is_countable(known_columns(vocab, model.n_cols, views[i]));
    }
}

/// Bucket lists can be vectorised where a count can say their lengths and their number, and every
/// bucket exists.
pub proof fn law_bucket_lists_are_taken<T: Scalar>(
    builder: &Builder,
    docs: &[Vec<usize>],
    idf: &[T],
)
    requires
        docs@.len() <= u32::MAX,
        forall|i: int| 0 <= i < docs@.len() ==> (#[trigger] docs@[i])@.len() <= u32::MAX,
        forall|i: int, j: int|
            0 <= i < docs@.len() && 0 <= j < docs@[i]@.len() ==> #[trigger] docs@[i]@[j]
                < builder.nfeat,
    ensures
        call_requires(Builder::build_csr_columns::<T>, (builder, docs)),
        call_requires(Builder::build_csr_columns_with_idf::<T>, (builder, docs, idf)),
{
    let columns = column_docs(docs@);
    assert forall|i: int| 0 <= i < columns.len() implies countable(#[trigger] columns[i]) by {
        assert(docs@[i]@.len() <= u32::MAX);
        lemma_short_is_countable(columns[i]);
    }
    assert forall|i: int, j: int|
        0 <= i < columns.len() && 0 <= j < columns[i].len() implies #[trigger] columns[i][j]
        < builder.nfeat by {
        assert(docs@[i]@[j] < builder.nfeat);
    }
    assert forall|c: usize| #[trigger] doc_freq(tallies(columns), c) <= u32::MAX by {
        lemma_doc_freq_prefix(tallies(columns), columns.len() as int, c);
    }
}

/// Rows of one length can be sketched, reduced and fitted, as long as the sketch's number of rows
/// fits into a machine word.
pub proof fn law_rows_can_be_sketched<T: Scalar, L: LinearAlgebra<T>>(
    y: &Matrix<T>,
    k: usize,
    la: &L,
)
    requires
        forall|i: int| 0 <= i < y@.len() ==> (#[trigger] y@[i]).len() == y.ncols,
        8 * k <= usize::MAX,
    ensures
        k > 0 ==> call_requires(sketch::<T, L>, (y, k, la)),
        call_requires(fd_reduce::<T, L>, (y, k, la)),
        call_requires(fd_fit::<T, L>, (y, k, la)),
{
    assert forall|i: int| 0 <= i < y.rows@.len() implies (#[trigger] y.rows@[i])@.len()
        == y.ncols by {
        assert(y@[i].len() == y.ncols);
    }
}

/// What learning from counted documents returns: the vocabulary has exactly the tokens that some
/// document counts, and a token weighs `ln((1 + n) / (1 + d)) + 1` where `d` of the `n` documents
/// count it, whatever the number of distinct tokens.
pub proof fn law_fit_counts_call<T: Scalar>(
    builder: &VocabBuilder,
    docs: &[AHashMap<String, u32>],
    r: Result<(TfidfModel<T>, Vec<T>, Vec<i32>, Vec<i64>), Error>,
)
    requires
        call_ensures(VocabBuilder::fit_counts::<T>, (builder, docs), r),
    ensures
        r matches Ok((model, data, indices, indptr)) && {
            &&& model.idf@.len() == model.n_cols
            &&& forall|t: Seq<char>| #[trigger]
                vocabulary(model.vocab).dom().contains(t) <==> exists|i: int|
                    0 <= i < docs@.len() && counts_token(#[trigger] docs@[i], t)
            &&& forall|t: Seq<char>| #[trigger]
                vocabulary(model.vocab).dom().contains(t) ==> {
                    &&& 0 <= vocabulary(model.vocab)[t] < model.n_cols
                    &&& is_idf_of(
                        docs@.len() as usize,
                        docs@.filter(
                            |doc: AHashMap<String, u32>| counts_token(doc, t),
                        ).len() as u32,
                        model.idf@[vocabulary(model.vocab)[t] as int],
                    )
                }
        },
{
    let (model, data, indices, indptr) = r->Ok_0;
    let tables = token_tables(docs@);
    let vocab = vocabulary(model.vocab);
    assert forall|t: Seq<char>| #[trigger] vocab.dom().contains(t) <==> exists|i: int|
        0 <= i < docs@.len() && counts_token(#[trigger] docs@[i], t) by {
        if vocab.dom().contains(t) {
            assert(all_tokens(tables).contains(t));
            let i = choose|i: int| 0 <= i < tables.len() && #[trigger] tables[i].dom().contains(t);
            assert(counts_token(docs@[i], t));
        }
        if exists|i: int| 0 <= i < docs@.len() && counts_token(#[trigger] docs@[i], t) {
            let i = choose|i: int| 0 <= i < docs@.len() && counts_token(#[trigger] docs@[i], t);
            assert(tables[i].dom().contains(t));
            assert(all_tokens(tables).contains(t));
        }
    }
    assert forall|t: Seq<char>| #[trigger] vocab.dom().contains(t) implies is_idf_of(
        docs@.len() as usize,
        docs@.filter(|doc: AHashMap<String, u32>| counts_token(doc, t)).len() as u32,
        model.idf@[vocab[t] as int],
    ) by {
        lemma_filter_is_doc_freq(
            docs@,
            |doc: AHashMap<String, u32>| counts_token(doc, t),
            tables,
            t,
        );
        lemma_idf_steps(
            docs@.len() as usize,
            doc_freq(tables, t) as u32,
            model.idf@[vocab[t] as int],
        );
    }
}

/// The document counts the token.
pub open spec fn counts_token(doc: AHashMap<String, u32>, t: Seq<char>) -> bool {
    token_counts(doc).dom().contains(t)
}

/// A transpose has rows for columns, the top of a matrix its first rows, and a matrix of zeros
/// nothing else.
pub proof fn law_matrix_calls<T: Scalar>(
    a: &Matrix<T>,
    t: Matrix<T>,
    n: usize,
    top: Matrix<T>,
    nrows: usize,
    ncols: usize,
    zeros: Matrix<T>,
)
    requires
        call_ensures(Matrix::<T>::transposed, (a,), t),
        call_ensures(Matrix::<T>::top, (a, n), top),
        call_ensures(Matrix::<T>::zeros, (nrows, ncols), zeros),
        n <= a@.len(),
    ensures
        t@.len() == a.ncols,
        t.ncols == a@.len(),
        forall|c: int, r: int|
            0 <= c < a.ncols && 0 <= r < a@.len() ==> #[trigger] t@[c][r] == a@[r][c],
        top@.len() == n,
        top.ncols == a.ncols,
        forall|i: int| 0 <= i < n ==> #[trigger] top@[i] == a@[i],
        zeros@.len() == nrows,
        zeros.ncols == ncols,
        forall|i: int, j: int|
            0 <= i < nrows && 0 <= j < ncols ==> call_ensures(
                T::zero,
                (),
                #[trigger] zeros@[i][j],
            ),
{
}

/// Every row of a projected matrix adds up with every column of the projection.
pub proof fn law_projected_call<T: Scalar>(
    y: &Matrix<T>,
    p: &Matrix<T>,
    m: usize,
    k: usize,
    z: Matrix<T>,
    i: int,
    r: int,
)
    requires
        call_ensures(Matrix::<T>::projected, (y, p, m, k), z),
        0 <= i < y@.len(),
        0 <= r < k,
        m <= y@[i].len(),
    ensures
        z@.len() == y@.len(),
        z.ncols == k,
        adds_up(m as int, |c: int| y@[i][c], |c: int| p@[c][r], z@[i][r]),
{
    law_projection_adds_up(y@, p@, m as int, k as int, z@, i, r);
}

/// A copied model is the same.
pub proof fn law_clone_call<T: Scalar>(model: &TfidfModel<T>, copy: TfidfModel<T>)
    requires
        call_ensures(TfidfModel::<T>::clone, (model,), copy),
    ensures
        copy.analyzer == model.analyzer,
        copy.nmin == model.nmin,
        copy.nmax == model.nmax,
        vocabulary(copy.vocab) == vocabulary(model.vocab),
        copy.idf@ == model.idf@,
        copy.n_cols == model.n_cols,
{
}

/// Which arrays are found readable: those with sparse rows whose columns exist, and none with a
/// stored entry that lies outside or in a column that does not exist.
pub proof fn law_readable_call<T>(
    data: &[T],
    indices: &[i32],
    indptr: &[i64],
    n_rows: usize,
    n_cols: usize,
    m: usize,
    readable: bool,
    row: int,
    p: int,
)
    requires
        data@.len() <= usize::MAX,
        call_ensures(
            csr_is_readable,
            (data@.len() as usize, indices, indptr, n_rows, n_cols, m),
            readable,
        ),
    ensures
        are_rows(data@, indices@, indptr@, n_rows as int) && (forall|q: int|
            0 <= q < indices@.len() ==> #[trigger] indices@[q] < n_cols) ==> readable,
        readable && m > 0 && 0 <= row < n_rows && (indptr@[row] as usize) <= p < (indptr@[row + 1]
            as usize) ==> {
            &&& p < data@.len()
            &&& p < indices@.len()
            &&& (indices@[p] as usize) < n_cols
        },
{
    if are_rows(data@, indices@, indptr@, n_rows as int) && (forall|q: int|
        0 <= q < indices@.len() ==> #[trigger] indices@[q] < n_cols) {
        law_sparse_rows_are_readable(
            data@,
            indices@,
            indptr@,
            n_rows as int,
            n_cols as int,
            m as int,
        );
    }
    if readable && m > 0 && 0 <= row < n_rows && (indptr@[row] as usize) <= p < (indptr@[row + 1]
        as usize) {
        law_readable_stays_inside(
            data@.len() as int,
            indices@,
            indptr@,
            n_rows as int,
            n_cols as int,
            m as int,
            row,
            p,
        );
    }
}

/// Which documents are found to be within the limits of a count.
pub proof fn law_limit_calls(
    columns: &[Vec<usize>],
    columns_fit: bool,
    column_freqs_fit: bool,
    tokens: &[Vec<String>],
    tokens_fit: bool,
    token_freqs_fit: bool,
    numbered: bool,
)
    requires
        call_ensures(column_docs_countable, (columns,), columns_fit),
        call_ensures(column_doc_freqs_fit, (columns,), column_freqs_fit),
        call_ensures(token_docs_countable, (tokens,), tokens_fit),
        call_ensures(token_doc_freqs_fit, (tokens,), token_freqs_fit),
        call_ensures(vocabulary_fits, (tokens,), numbered),
    ensures
        columns_fit <==> forall|i: int, c: usize|
            0 <= i < columns@.len() ==> #[trigger] bucket_count(columns@[i], c) <= u32::MAX,
        tokens_fit <==> forall|i: int, t: Seq<char>|
            0 <= i < tokens@.len() ==> #[trigger] token_count(tokens@[i], t) <= u32::MAX,
        column_freqs_fit <==> forall|c: usize| #[trigger] docs_in(columns@, c) <= u32::MAX,
        token_freqs_fit <==> forall|t: Seq<char>| #[trigger] docs_with(tokens@, t) <= u32::MAX,
        numbered <==> Set::new(
            |t: Seq<char>|
                exists|i: int| 0 <= i < tokens@.len() && has_token(#[trigger] tokens@[i], t),
        ).len() <= 0x8000_0000,
{
    lemma_distinct_tokens(tokens@);
    lemma_fit_limits(tokens@);
    lemma_hashed_counts(columns@);
    lemma_hashed_limits(columns@, 0);
}

} // verus!
