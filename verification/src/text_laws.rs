//! Vectorising the same texts again.

use vstd::prelude::*;

use crate::counting::token_views;
use crate::documents::{column_docs, tallies, token_docs};
use crate::hashed::{
    fit_columns, holds_sorted_rows, is_built, is_vectorised, is_vectorised_with_idf, Builder,
};
use crate::laws::{law_fit_agrees_with_transform, law_hashed_rows_are_determined};
use crate::limits::{all_countable, doc_freqs_fit};
use crate::row_laws::{
    law_transform_gives_fitted_rows, near_rows, normalises_within, same_rows,
};
use crate::rows::holds_rows;
use crate::scalar::{adds_in_any_order, functional, Scalar};
use crate::tables::vocabulary;
use crate::tfidf::Error;
use crate::tokenize::{is_bucketed, is_hashed, is_tokenized, is_tokens_of, reads_texts, Analyzer};
use crate::tokenize::Tokenizer;
use crate::vocab::{
    fit_vocabulary, is_fitted, is_learnt, is_transformed, known_countable, known_tables,
    TfidfModel, VocabBuilder,
};

verus! {

/// Equal texts have equal tokens, wherever they stand.
pub proof fn lemma_tokens_at<K: Tokenizer>(
    tok: &K,
    analyzer: Analyzer,
    nmin: usize,
    nmax: usize,
    docs1: Seq<String>,
    tokens1: Seq<Vec<String>>,
    i1: int,
    docs2: Seq<String>,
    tokens2: Seq<Vec<String>>,
    i2: int,
)
    requires
        reads_texts(tok),
        is_tokenized(tok, analyzer, nmin, nmax, docs1, tokens1),
        is_tokenized(tok, analyzer, nmin, nmax, docs2, tokens2),
        0 <= i1 < docs1.len(),
        0 <= i2 < docs2.len(),
        docs1[i1]@ == docs2[i2]@,
    ensures
        token_docs(tokens1)[i1] == token_docs(tokens2)[i2],
{
    assert(is_tokens_of(tok, analyzer, nmin, nmax, &docs1[i1], tokens1[i1]));
    assert(is_tokens_of(tok, analyzer, nmin, nmax, &docs2[i2], tokens2[i2]));
}

/// Equal tokens have equal buckets, wherever they stand.
pub proof fn lemma_buckets_at<K: Tokenizer>(
    tok: &K,
    n_features: usize,
    tokens1: Seq<Vec<String>>,
    columns1: Seq<Vec<usize>>,
    i1: int,
    tokens2: Seq<Vec<String>>,
    columns2: Seq<Vec<usize>>,
    i2: int,
)
    requires
        reads_texts(tok),
        is_hashed(tok, n_features, tokens1, columns1),
        is_hashed(tok, n_features, tokens2, columns2),
        0 <= i1 < tokens1.len(),
        0 <= i2 < tokens2.len(),
        token_docs(tokens1)[i1] == token_docs(tokens2)[i2],
    ensures
        column_docs(columns1)[i1] == column_docs(columns2)[i2],
{
    let s = tokens1[i1]@;
    let t = tokens2[i2]@;
    let c = columns1[i1]@;
    let d = columns2[i2]@;
    assert(is_bucketed(tok, n_features, s, c));
    assert(is_bucketed(tok, n_features, t, d));
    assert(token_views(s) == token_views(t));
    assert(token_views(s).len() == s.len() && token_views(t).len() == t.len());
    assert forall|j: int| 0 <= j < c.len() implies c[j] == d[j] by {
        assert(token_views(s)[j] == token_views(t)[j]);
        assert(call_ensures(K::bucket_id, (tok, &s[j], n_features), c[j]));
        assert(call_ensures(K::bucket_id, (tok, &t[j], n_features), d[j]));
    }
    assert(c =~= d);
}

/// Cutting the same texts again gives the same tokens.
proof fn lemma_tokens_again<K: Tokenizer>(
    tok: &K,
    analyzer: Analyzer,
    nmin: usize,
    nmax: usize,
    docs: Seq<String>,
    tokens1: Seq<Vec<String>>,
    tokens2: Seq<Vec<String>>,
)
    requires
        reads_texts(tok),
        is_tokenized(tok, analyzer, nmin, nmax, docs, tokens1),
        is_tokenized(tok, analyzer, nmin, nmax, docs, tokens2),
    ensures
        token_docs(tokens1) == token_docs(tokens2),
{
    assert forall|i: int| 0 <= i < docs.len() implies token_docs(tokens1)[i] == token_docs(
        tokens2,
    )[i] by {
        lemma_tokens_at(tok, analyzer, nmin, nmax, docs, tokens1, i, docs, tokens2, i);
    }
    assert(token_docs(tokens1) =~= token_docs(tokens2));
}

/// The tokens and buckets behind a result.
pub proof fn witness_with_idf<T: Scalar, K: Tokenizer>(
    builder: Builder,
    tok: &K,
    docs: Seq<String>,
    idf: Seq<T>,
    r: Result<(Vec<T>, Vec<i32>, Vec<i64>), Error>,
) -> (w: (Seq<Vec<String>>, Seq<Vec<usize>>))
    requires
        idf.len() == builder.nfeat,
        is_vectorised_with_idf(builder, tok, docs, idf, r),
    ensures
        is_tokenized(tok, builder.analyzer, builder.nmin, builder.nmax, docs, w.0),
        is_hashed(tok, builder.nfeat, w.0, w.1),
        r is Ok <==> fit_columns(column_docs(w.1), builder.nfeat),
        r matches Err(e) ==> e == Error::Internal,
        r matches Ok((data, indices, indptr)) ==> holds_sorted_rows(
            tallies(column_docs(w.1)),
            idf,
            data@,
            indices@,
            indptr@,
        ),
{
    choose|tokens: Seq<Vec<String>>, columns: Seq<Vec<usize>>|
        {
            &&& #[trigger] is_tokenized(
                tok,
                builder.analyzer,
                builder.nmin,
                builder.nmax,
                docs,
                tokens,
            )
            &&& #[trigger] is_hashed(tok, builder.nfeat, tokens, columns)
            &&& if fit_columns(column_docs(columns), builder.nfeat) {
                r matches Ok((data, indices, indptr)) && holds_sorted_rows(
                    tallies(column_docs(columns)),
                    idf,
                    data@,
                    indices@,
                    indptr@,
                )
            } else {
                r == Err::<(Vec<T>, Vec<i32>, Vec<i64>), Error>(Error::Internal)
            }
        }
}

/// The tokens behind a result.
pub proof fn witness_transformed<T: Scalar, K: Tokenizer>(
    model: TfidfModel<T>,
    tok: &K,
    docs: Seq<String>,
    r: Result<(Vec<T>, Vec<i32>, Vec<i64>), Error>,
) -> (tokens: Seq<Vec<String>>)
    requires
        is_transformed(model, tok, docs, r),
    ensures
        is_tokenized(tok, model.analyzer, model.nmin, model.nmax, docs, tokens),
        r is Ok <==> known_countable(vocabulary(model.vocab), model.n_cols, token_docs(tokens)),
        r matches Err(e) ==> e == Error::Internal,
        r matches Ok((data, indices, indptr)) ==> holds_rows(
            known_tables(vocabulary(model.vocab), model.n_cols, token_docs(tokens)),
            model.idf@,
            data@,
            indices@,
            indptr@,
        ),
{
    choose|tokens: Seq<Vec<String>>|
        {
            &&& #[trigger] is_tokenized(
                tok,
                model.analyzer,
                model.nmin,
                model.nmax,
                docs,
                tokens,
            )
            &&& if known_countable(vocabulary(model.vocab), model.n_cols, token_docs(tokens)) {
                r matches Ok((data, indices, indptr)) && holds_rows(
                    known_tables(vocabulary(model.vocab), model.n_cols, token_docs(tokens)),
                    model.idf@,
                    data@,
                    indices@,
                    indptr@,
                )
            } else {
                r == Err::<(Vec<T>, Vec<i32>, Vec<i64>), Error>(Error::Internal)
            }
        }
}

/// The tokens and buckets behind a result.
pub proof fn witness_vectorised<T: Scalar, K: Tokenizer>(
    builder: Builder,
    tok: &K,
    docs: Seq<String>,
    r: Result<(Vec<T>, Vec<i32>, Vec<i64>, Vec<T>), Error>,
) -> (w: (Seq<Vec<String>>, Seq<Vec<usize>>))
    requires
        is_vectorised(builder, tok, docs, r),
    ensures
        is_tokenized(tok, builder.analyzer, builder.nmin, builder.nmax, docs, w.0),
        is_hashed(tok, builder.nfeat, w.0, w.1),
        r is Ok <==> fit_columns(column_docs(w.1), builder.nfeat) && doc_freqs_fit(
            tallies(column_docs(w.1)),
        ),
        r matches Err(e) ==> e == Error::Internal,
        r matches Ok((data, indices, indptr, idf)) ==> is_built(
            column_docs(w.1),
            builder.nfeat,
            data@,
            indices@,
            indptr@,
            idf@,
        ),
{
    choose|tokens: Seq<Vec<String>>, columns: Seq<Vec<usize>>|
        {
            &&& #[trigger] is_tokenized(
                tok,
                builder.analyzer,
                builder.nmin,
                builder.nmax,
                docs,
                tokens,
            )
            &&& #[trigger] is_hashed(tok, builder.nfeat, tokens, columns)
            &&& if fit_columns(column_docs(columns), builder.nfeat) && doc_freqs_fit(
                tallies(column_docs(columns)),
            ) {
                r matches Ok((data, indices, indptr, idf)) && is_built(
                    column_docs(columns),
                    builder.nfeat,
                    data@,
                    indices@,
                    indptr@,
                    idf@,
                )
            } else {
                r == Err::<(Vec<T>, Vec<i32>, Vec<i64>, Vec<T>), Error>(Error::Internal)
            }
        }
}

/// The tokens behind a result.
pub proof fn witness_learnt<T: Scalar, K: Tokenizer>(
    builder: VocabBuilder,
    tok: &K,
    docs: Seq<String>,
    r: Result<(TfidfModel<T>, Vec<T>, Vec<i32>, Vec<i64>), Error>,
) -> (tokens: Seq<Vec<String>>)
    requires
        is_learnt(builder, tok, docs, r),
    ensures
        is_tokenized(tok, builder.analyzer, builder.nmin, builder.nmax, docs, tokens),
        r is Ok <==> all_countable(token_docs(tokens)) && fit_vocabulary(
            tallies(token_docs(tokens)),
        ),
        r matches Err(e) ==> e == Error::Internal,
        r matches Ok((model, data, indices, indptr)) ==> {
            &&& model.analyzer == builder.analyzer
            &&& model.nmin == builder.nmin
            &&& model.nmax == builder.nmax
            &&& is_fitted(tallies(token_docs(tokens)), model, data@, indices@, indptr@)
        },
{
    choose|tokens: Seq<Vec<String>>|
        {
            &&& #[trigger] is_tokenized(
                tok,
                builder.analyzer,
                builder.nmin,
                builder.nmax,
                docs,
                tokens,
            )
            &&& if all_countable(token_docs(tokens)) && fit_vocabulary(
                tallies(token_docs(tokens)),
            ) {
                r matches Ok((model, data, indices, indptr)) && {
                    &&& model.analyzer == builder.analyzer
                    &&& model.nmin == builder.nmin
                    &&& model.nmax == builder.nmax
                    &&& is_fitted(
                        tallies(token_docs(tokens)),
                        model,
                        data@,
                        indices@,
                        indptr@,
                    )
                }
            } else {
                r == Err::<(TfidfModel<T>, Vec<T>, Vec<i32>, Vec<i64>), Error>(Error::Internal)
            }
        }
}

/// Vectorising texts with the inverse document frequencies that `Builder::build_csr` returned
/// for them succeeds and gives its rows back, where the text functions depend on the texts
/// alone: the same columns and boundaries, and, where the operations are functions, the same
/// values.
pub proof fn law_build_csr_with_idf_gives_back<T: Scalar, K: Tokenizer>(
    builder: Builder,
    tok: &K,
    docs: Seq<String>,
    r1: (Vec<T>, Vec<i32>, Vec<i64>, Vec<T>),
    r2: Result<(Vec<T>, Vec<i32>, Vec<i64>), Error>,
)
    requires
        reads_texts(tok),
        is_vectorised(builder, tok, docs, Ok(r1)),
        is_vectorised_with_idf(builder, tok, docs, r1.3@, r2),
    ensures
        r2 matches Ok((data, indices, indptr)) && {
            &&& indices@ == r1.1@
            &&& indptr@ == r1.2@
            &&& functional::<T>() ==> data@ == r1.0@
        },
{
    let (tokens1, columns1) = witness_vectorised(builder, tok, docs, Ok(r1));
    let (tokens2, columns2) = witness_with_idf(builder, tok, docs, r1.3@, r2);
    lemma_tokens_again(
        tok,
        builder.analyzer,
        builder.nmin,
        builder.nmax,
        docs,
        tokens1,
        tokens2,
    );
    assert(column_docs(columns1) =~= column_docs(columns2)) by {
        assert forall|i: int| 0 <= i < docs.len() implies column_docs(columns1)[i] == column_docs(
            columns2,
        )[i] by {
            lemma_buckets_at(tok, builder.nfeat, tokens1, columns1, i, tokens2, columns2, i);
        }
    }
    let (data, indices, indptr) = r2->Ok_0;
    law_hashed_rows_are_determined(
        tallies(column_docs(columns1)),
        r1.3@,
        data@,
        indices@,
        indptr@,
        r1.0@,
        r1.1@,
        r1.2@,
    );
}

/// Transforming the texts that `VocabBuilder::fit_csr` learnt a model from succeeds and gives
/// its rows back, where the text functions depend on the texts alone: the same boundaries,
/// and, where the operations are functions, values in the same columns that differ by the
/// rounding of the norm alone.
pub proof fn law_transform_csr_gives_back<T: Scalar, K: Tokenizer>(
    builder: VocabBuilder,
    tok: &K,
    close: spec_fn(T, T) -> bool,
    docs: Seq<String>,
    r1: (TfidfModel<T>, Vec<T>, Vec<i32>, Vec<i64>),
    r2: Result<(Vec<T>, Vec<i32>, Vec<i64>), Error>,
)
    requires
        reads_texts(tok),
        is_learnt(builder, tok, docs, Ok(r1)),
        is_transformed(r1.0, tok, docs, r2),
        r1.1@.len() <= i64::MAX,
    ensures
        r2 matches Ok((data, indices, indptr)) && {
            &&& indptr@ == r1.3@
            &&& functional::<T>() && normalises_within(close) ==> near_rows(
                close,
                r1.1@,
                r1.2@,
                r1.3@,
                data@,
                indices@,
                indptr@,
            )
            &&& functional::<T>() && adds_in_any_order::<T>() ==> same_rows(
                r1.1@,
                r1.2@,
                r1.3@,
                data@,
                indices@,
                indptr@,
            )
        },
{
    let tokens1 = witness_learnt(builder, tok, docs, Ok(r1));
    let tokens2 = witness_transformed(r1.0, tok, docs, r2);
    lemma_tokens_again(
        tok,
        builder.analyzer,
        builder.nmin,
        builder.nmax,
        docs,
        tokens1,
        tokens2,
    );
    law_fit_agrees_with_transform(token_docs(tokens1), r1.0, r1.1@, r1.2@, r1.3@);
    let (data, indices, indptr) = r2->Ok_0;
    law_transform_gives_fitted_rows(
        token_docs(tokens1),
        r1.0,
        close,
        r1.1@,
        r1.2@,
        r1.3@,
        data@,
        indices@,
        indptr@,
    );
}

} // verus!
