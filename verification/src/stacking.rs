//! Vectorising one list of documents after another.

use vstd::prelude::*;
use vstd::seq_lib::lemma_flatten_concat;

use crate::counting::countable;
use crate::csr::{lays_out, lemma_flatten_lens};
use crate::documents::{column_docs, tallies, token_docs};
use crate::hashed::{
    fit_columns, holds_sorted_rows, is_sorted_row, is_vectorised_with_idf, Builder,
};
use crate::laws::law_hashed_rows_are_determined;
use crate::row_laws::{law_rows_agree, near_rows, normalises_within, same_rows};
use crate::rows::{holds_rows, is_row};
use crate::scalar::{adds_in_any_order, functional, Scalar};
use crate::tables::vocabulary;
use crate::tfidf::Error;
use crate::text_laws::{
    lemma_buckets_at, lemma_tokens_at, witness_transformed, witness_with_idf,
};
use crate::tokenize::{is_hashed, is_tokenized, reads_texts, Analyzer, Tokenizer};
use crate::vocab::{is_transformed, known_columns, known_tables, TfidfModel};

verus! {

/// The row boundaries `first`, which end at `len`, and after them the boundaries `second`.
pub open spec fn stacked(first: Seq<i64>, second: Seq<i64>, len: int) -> Seq<i64> {
    first + Seq::new((second.len() - 1) as nat, |i: int| (second[i + 1] + len) as i64)
}

/// Rows laid out one after another are laid out as one list.
proof fn lemma_lays_out_stacked<T>(
    data1: Seq<T>,
    indices1: Seq<i32>,
    indptr1: Seq<i64>,
    c1: Seq<Seq<i32>>,
    v1: Seq<Seq<T>>,
    data2: Seq<T>,
    indices2: Seq<i32>,
    indptr2: Seq<i64>,
    c2: Seq<Seq<i32>>,
    v2: Seq<Seq<T>>,
)
    requires
        lays_out(data1, indices1, indptr1, c1, v1),
        lays_out(data2, indices2, indptr2, c2, v2),
        data1.len() + data2.len() <= i64::MAX,
    ensures
        lays_out(
            data1 + data2,
            indices1 + indices2,
            stacked(indptr1, indptr2, data1.len() as int),
            c1 + c2,
            v1 + v2,
        ),
{
    let c = c1 + c2;
    let v = v1 + v2;
    let indptr = stacked(indptr1, indptr2, data1.len() as int);
    lemma_flatten_concat(c1, c2);
    lemma_flatten_concat(v1, v2);
    lemma_flatten_lens(c1, v1);
    lemma_flatten_lens(c2, v2);
    assert forall|i: int| 0 <= i < c.len() implies (#[trigger] c[i]).len() == (
    #[trigger] v[i]).len() by {
        if i < c1.len() {
            assert(c1[i].len() == v1[i].len());
        } else {
            assert(c2[i - c1.len()].len() == v2[i - c1.len()].len());
        }
    }
    assert forall|i: int| 0 <= i <= c.len() implies #[trigger] indptr[i] == c.take(
        i,
    ).flatten().len() as i64 by {
        if i <= c1.len() {
            assert(c.take(i) =~= c1.take(i));
            assert(indptr1[i] == c1.take(i).flatten().len() as i64);
        } else {
            let q = i - c1.len();
            assert(c.take(i) =~= c1 + c2.take(q));
            lemma_flatten_concat(c1, c2.take(q));
            lemma_flatten_concat(c2.take(q), c2.skip(q));
            assert(c2.take(q) + c2.skip(q) =~= c2);
            assert(indptr2[q] == c2.take(q).flatten().len() as i64);
            assert(indptr[i] == (indptr2[q] + data1.len()) as i64);
        }
    }
}

/// The rows of two lists of tables, one after the other, are the rows of both lists.
proof fn lemma_rows_stacked<T: Scalar>(
    tables1: Seq<Map<usize, u32>>,
    tables2: Seq<Map<usize, u32>>,
    idf: Seq<T>,
    data1: Seq<T>,
    indices1: Seq<i32>,
    indptr1: Seq<i64>,
    data2: Seq<T>,
    indices2: Seq<i32>,
    indptr2: Seq<i64>,
)
    requires
        holds_rows(tables1, idf, data1, indices1, indptr1),
        holds_rows(tables2, idf, data2, indices2, indptr2),
        data1.len() + data2.len() <= i64::MAX,
    ensures
        holds_rows(
            tables1 + tables2,
            idf,
            data1 + data2,
            indices1 + indices2,
            stacked(indptr1, indptr2, data1.len() as int),
        ),
{
    let (c1, v1) = choose|columns: Seq<Seq<i32>>, values: Seq<Seq<T>>|
        #![trigger lays_out(data1, indices1, indptr1, columns, values)]
        {
            &&& lays_out(data1, indices1, indptr1, columns, values)
            &&& columns.len() == tables1.len()
            &&& forall|i: int|
                0 <= i < tables1.len() ==> is_row(
                    #[trigger] tables1[i],
                    idf,
                    columns[i],
                    values[i],
                )
        };
    let (c2, v2) = choose|columns: Seq<Seq<i32>>, values: Seq<Seq<T>>|
        #![trigger lays_out(data2, indices2, indptr2, columns, values)]
        {
            &&& lays_out(data2, indices2, indptr2, columns, values)
            &&& columns.len() == tables2.len()
            &&& forall|i: int|
                0 <= i < tables2.len() ==> is_row(
                    #[trigger] tables2[i],
                    idf,
                    columns[i],
                    values[i],
                )
        };
    lemma_lays_out_stacked(
        data1, indices1, indptr1, c1, v1, data2, indices2, indptr2, c2, v2,
    );
    let tables = tables1 + tables2;
    assert forall|i: int| 0 <= i < tables.len() implies is_row(
        #[trigger] tables[i],
        idf,
        (c1 + c2)[i],
        (v1 + v2)[i],
    ) by {
        if i < tables1.len() {
            assert(tables[i] == tables1[i]);
        } else {
            assert(tables[i] == tables2[i - tables1.len()]);
        }
    }
}

/// The sorted rows of two lists of tables, one after the other, are the sorted rows of both
/// lists.
proof fn lemma_sorted_rows_stacked<T: Scalar>(
    tables1: Seq<Map<usize, u32>>,
    tables2: Seq<Map<usize, u32>>,
    idf: Seq<T>,
    data1: Seq<T>,
    indices1: Seq<i32>,
    indptr1: Seq<i64>,
    data2: Seq<T>,
    indices2: Seq<i32>,
    indptr2: Seq<i64>,
)
    requires
        holds_sorted_rows(tables1, idf, data1, indices1, indptr1),
        holds_sorted_rows(tables2, idf, data2, indices2, indptr2),
        data1.len() + data2.len() <= i64::MAX,
    ensures
        holds_sorted_rows(
            tables1 + tables2,
            idf,
            data1 + data2,
            indices1 + indices2,
            stacked(indptr1, indptr2, data1.len() as int),
        ),
{
    let (c1, v1) = choose|columns: Seq<Seq<i32>>, values: Seq<Seq<T>>|
        #![trigger lays_out(data1, indices1, indptr1, columns, values)]
        {
            &&& lays_out(data1, indices1, indptr1, columns, values)
            &&& columns.len() == tables1.len()
            &&& forall|i: int|
                0 <= i < tables1.len() ==> is_sorted_row(
                    #[trigger] tables1[i],
                    idf,
                    columns[i],
                    values[i],
                )
        };
    let (c2, v2) = choose|columns: Seq<Seq<i32>>, values: Seq<Seq<T>>|
        #![trigger lays_out(data2, indices2, indptr2, columns, values)]
        {
            &&& lays_out(data2, indices2, indptr2, columns, values)
            &&& columns.len() == tables2.len()
            &&& forall|i: int|
                0 <= i < tables2.len() ==> is_sorted_row(
                    #[trigger] tables2[i],
                    idf,
                    columns[i],
                    values[i],
                )
        };
    lemma_lays_out_stacked(
        data1, indices1, indptr1, c1, v1, data2, indices2, indptr2, c2, v2,
    );
    let tables = tables1 + tables2;
    assert forall|i: int| 0 <= i < tables.len() implies is_sorted_row(
        #[trigger] tables[i],
        idf,
        (c1 + c2)[i],
        (v1 + v2)[i],
    ) by {
        if i < tables1.len() {
            assert(tables[i] == tables1[i]);
        } else {
            assert(tables[i] == tables2[i - tables1.len()]);
        }
    }
}

/// The tokens of texts do not depend on the texts around them.
proof fn lemma_tokens_stacked<K: Tokenizer>(
    tok: &K,
    analyzer: Analyzer,
    nmin: usize,
    nmax: usize,
    docs1: Seq<String>,
    docs2: Seq<String>,
    tokens1: Seq<Vec<String>>,
    tokens2: Seq<Vec<String>>,
    tokens: Seq<Vec<String>>,
)
    requires
        reads_texts(tok),
        is_tokenized(tok, analyzer, nmin, nmax, docs1, tokens1),
        is_tokenized(tok, analyzer, nmin, nmax, docs2, tokens2),
        is_tokenized(tok, analyzer, nmin, nmax, docs1 + docs2, tokens),
    ensures
        token_docs(tokens) == token_docs(tokens1) + token_docs(tokens2),
{
    let docs = docs1 + docs2;
    assert forall|i: int| 0 <= i < docs.len() implies token_docs(tokens)[i] == (token_docs(tokens1)
        + token_docs(tokens2))[i] by {
        if i < docs1.len() {
            lemma_tokens_at(tok, analyzer, nmin, nmax, docs, tokens, i, docs1, tokens1, i);
        } else {
            let q = i - docs1.len();
            lemma_tokens_at(tok, analyzer, nmin, nmax, docs, tokens, i, docs2, tokens2, q);
        }
    }
    assert(token_docs(tokens) =~= token_docs(tokens1) + token_docs(tokens2));
}

/// The buckets of texts do not depend on the texts around them.
proof fn lemma_buckets_stacked<K: Tokenizer>(
    tok: &K,
    n_features: usize,
    tokens1: Seq<Vec<String>>,
    tokens2: Seq<Vec<String>>,
    tokens: Seq<Vec<String>>,
    columns1: Seq<Vec<usize>>,
    columns2: Seq<Vec<usize>>,
    columns: Seq<Vec<usize>>,
)
    requires
        reads_texts(tok),
        token_docs(tokens) == token_docs(tokens1) + token_docs(tokens2),
        is_hashed(tok, n_features, tokens1, columns1),
        is_hashed(tok, n_features, tokens2, columns2),
        is_hashed(tok, n_features, tokens, columns),
    ensures
        column_docs(columns) == column_docs(columns1) + column_docs(columns2),
{
    assert(token_docs(tokens).len() == tokens1.len() + tokens2.len());
    assert forall|i: int| 0 <= i < tokens.len() implies column_docs(columns)[i] == (column_docs(
        columns1,
    ) + column_docs(columns2))[i] by {
        if i < tokens1.len() {
            lemma_buckets_at(tok, n_features, tokens, columns, i, tokens1, columns1, i);
        } else {
            let q = i - tokens1.len();
            lemma_buckets_at(tok, n_features, tokens, columns, i, tokens2, columns2, q);
        }
    }
    assert(column_docs(columns) =~= column_docs(columns1) + column_docs(columns2));
}

/// With known inverse document frequencies, the rows of two lists of hashed documents, one
/// list after the other, are the rows of the first and then those of the second: no document
/// enters the row of another. (Of arrays whose length the type of a boundary can say; the
/// values where the operations are functions.)
pub proof fn law_hashed_rows_stack<T: Scalar>(
    docs1: Seq<Seq<usize>>,
    docs2: Seq<Seq<usize>>,
    idf: Seq<T>,
    data1: Seq<T>,
    indices1: Seq<i32>,
    indptr1: Seq<i64>,
    data2: Seq<T>,
    indices2: Seq<i32>,
    indptr2: Seq<i64>,
    data: Seq<T>,
    indices: Seq<i32>,
    indptr: Seq<i64>,
)
    requires
        holds_sorted_rows(tallies(docs1), idf, data1, indices1, indptr1),
        holds_sorted_rows(tallies(docs2), idf, data2, indices2, indptr2),
        holds_sorted_rows(tallies(docs1 + docs2), idf, data, indices, indptr),
        data1.len() + data2.len() <= i64::MAX,
    ensures
        indices == indices1 + indices2,
        indptr == stacked(indptr1, indptr2, data1.len() as int),
        functional::<T>() ==> data == data1 + data2,
{
    assert(tallies(docs1 + docs2) =~= tallies(docs1) + tallies(docs2));
    lemma_sorted_rows_stacked(
        tallies(docs1),
        tallies(docs2),
        idf,
        data1,
        indices1,
        indptr1,
        data2,
        indices2,
        indptr2,
    );
    law_hashed_rows_are_determined(
        tallies(docs1 + docs2),
        idf,
        data,
        indices,
        indptr,
        data1 + data2,
        indices1 + indices2,
        stacked(indptr1, indptr2, data1.len() as int),
    );
}

/// [`law_hashed_rows_stack`] for the results of `Builder::build_csr_with_idf` on texts, where
/// the text functions depend on the texts alone: two lists that can be vectorised can be
/// vectorised one after the other.
pub proof fn law_build_csr_with_idf_stacks<T: Scalar, K: Tokenizer>(
    builder: Builder,
    tok: &K,
    docs1: Seq<String>,
    docs2: Seq<String>,
    idf: Seq<T>,
    r1: (Vec<T>, Vec<i32>, Vec<i64>),
    r2: (Vec<T>, Vec<i32>, Vec<i64>),
    r: Result<(Vec<T>, Vec<i32>, Vec<i64>), Error>,
)
    requires
        reads_texts(tok),
        is_vectorised_with_idf(builder, tok, docs1, idf, Ok(r1)),
        is_vectorised_with_idf(builder, tok, docs2, idf, Ok(r2)),
        is_vectorised_with_idf(builder, tok, docs1 + docs2, idf, r),
        r1.0@.len() + r2.0@.len() <= i64::MAX,
    ensures
        r matches Ok((data, indices, indptr)) && {
            &&& functional::<T>() ==> data@ == r1.0@ + r2.0@
            &&& indices@ == r1.1@ + r2.1@
            &&& indptr@ == stacked(r1.2@, r2.2@, r1.0@.len() as int)
        },
{
    let (tokens1, columns1) = witness_with_idf(builder, tok, docs1, idf, Ok(r1));
    let (tokens2, columns2) = witness_with_idf(builder, tok, docs2, idf, Ok(r2));
    let (tokens, columns) = witness_with_idf(builder, tok, docs1 + docs2, idf, r);
    lemma_tokens_stacked(
        tok,
        builder.analyzer,
        builder.nmin,
        builder.nmax,
        docs1,
        docs2,
        tokens1,
        tokens2,
        tokens,
    );
    lemma_buckets_stacked(
        tok, builder.nfeat, tokens1, tokens2, tokens, columns1, columns2, columns,
    );
    lemma_fit_columns_stacked(column_docs(columns1), column_docs(columns2), builder.nfeat);
    let (data, indices, indptr) = r->Ok_0;
    law_hashed_rows_stack(
        column_docs(columns1),
        column_docs(columns2),
        idf,
        r1.0@,
        r1.1@,
        r1.2@,
        r2.0@,
        r2.1@,
        r2.2@,
        data@,
        indices@,
        indptr@,
    );
}

/// Documents that fit still fit one list after the other.
proof fn lemma_fit_columns_stacked(
    docs1: Seq<Seq<usize>>,
    docs2: Seq<Seq<usize>>,
    n_features: usize,
)
    requires
        fit_columns(docs1, n_features),
        fit_columns(docs2, n_features),
    ensures
        fit_columns(docs1 + docs2, n_features),
{
    let docs = docs1 + docs2;
    assert forall|i: int| 0 <= i < docs.len() implies countable(#[trigger] docs[i]) by {
        if i < docs1.len() {
            assert(countable(docs1[i]));
        } else {
            assert(countable(docs2[i - docs1.len()]));
        }
    }
    assert forall|i: int, j: int|
        0 <= i < docs.len() && 0 <= j < docs[i].len() implies #[trigger] docs[i][j]
        < n_features by {
        if i < docs1.len() {
            assert(docs1[i][j] < n_features);
        } else {
            assert(docs2[i - docs1.len()][j] < n_features);
        }
    }
}

/// The rows of two lists of documents, one list after the other, are the rows of the first
/// and then those of the second: a row depends on its own document and the model alone. The
/// boundaries are those of both lists, the rows of both are a result for the whole, and,
/// where the operations are functions, every result for the whole has values in the same
/// columns that differ by the rounding of the norm alone. (Of arrays whose length the type of
/// a boundary can say.)
pub proof fn law_known_rows_stack<T: Scalar>(
    vocab: Map<Seq<char>, i32>,
    n_cols: usize,
    docs1: Seq<Seq<Seq<char>>>,
    docs2: Seq<Seq<Seq<char>>>,
    idf: Seq<T>,
    close: spec_fn(T, T) -> bool,
    data1: Seq<T>,
    indices1: Seq<i32>,
    indptr1: Seq<i64>,
    data2: Seq<T>,
    indices2: Seq<i32>,
    indptr2: Seq<i64>,
    data: Seq<T>,
    indices: Seq<i32>,
    indptr: Seq<i64>,
)
    requires
        holds_rows(known_tables(vocab, n_cols, docs1), idf, data1, indices1, indptr1),
        holds_rows(known_tables(vocab, n_cols, docs2), idf, data2, indices2, indptr2),
        holds_rows(known_tables(vocab, n_cols, docs1 + docs2), idf, data, indices, indptr),
        data1.len() + data2.len() <= i64::MAX,
    ensures
        indptr == stacked(indptr1, indptr2, data1.len() as int),
        data.len() == data1.len() + data2.len(),
        holds_rows(
            known_tables(vocab, n_cols, docs1 + docs2),
            idf,
            data1 + data2,
            indices1 + indices2,
            indptr,
        ),
        functional::<T>() && normalises_within(close) ==> near_rows(
            close,
            data1 + data2,
            indices1 + indices2,
            indptr,
            data,
            indices,
            indptr,
        ),
        functional::<T>() && adds_in_any_order::<T>() ==> same_rows(
            data,
            indices,
            indptr,
            data1 + data2,
            indices1 + indices2,
            indptr,
        ),
{
    assert(known_tables(vocab, n_cols, docs1 + docs2) =~= known_tables(vocab, n_cols, docs1)
        + known_tables(vocab, n_cols, docs2));
    lemma_rows_stacked(
        known_tables(vocab, n_cols, docs1),
        known_tables(vocab, n_cols, docs2),
        idf,
        data1,
        indices1,
        indptr1,
        data2,
        indices2,
        indptr2,
    );
    law_rows_agree(
        known_tables(vocab, n_cols, docs1 + docs2),
        idf,
        close,
        data1 + data2,
        indices1 + indices2,
        stacked(indptr1, indptr2, data1.len() as int),
        data,
        indices,
        indptr,
    );
}

/// [`law_known_rows_stack`] for the results of `TfidfModel::transform_csr` on texts, where the
/// text functions depend on the texts alone: two lists that can be transformed can be
/// transformed one after the other.
pub proof fn law_transform_csr_stacks<T: Scalar, K: Tokenizer>(
    model: TfidfModel<T>,
    tok: &K,
    close: spec_fn(T, T) -> bool,
    docs1: Seq<String>,
    docs2: Seq<String>,
    r1: (Vec<T>, Vec<i32>, Vec<i64>),
    r2: (Vec<T>, Vec<i32>, Vec<i64>),
    r: Result<(Vec<T>, Vec<i32>, Vec<i64>), Error>,
)
    requires
        reads_texts(tok),
        is_transformed(model, tok, docs1, Ok(r1)),
        is_transformed(model, tok, docs2, Ok(r2)),
        is_transformed(model, tok, docs1 + docs2, r),
        r1.0@.len() + r2.0@.len() <= i64::MAX,
    ensures
        r matches Ok((data, indices, indptr)) && {
            &&& indptr@ == stacked(r1.2@, r2.2@, r1.0@.len() as int)
            &&& data@.len() == r1.0@.len() + r2.0@.len()
            &&& functional::<T>() && normalises_within(close) ==> near_rows(
                close,
                r1.0@ + r2.0@,
                r1.1@ + r2.1@,
                indptr@,
                data@,
                indices@,
                indptr@,
            )
            &&& functional::<T>() && adds_in_any_order::<T>() ==> same_rows(
                data@,
                indices@,
                indptr@,
                r1.0@ + r2.0@,
                r1.1@ + r2.1@,
                indptr@,
            )
        },
{
    let tokens1 = witness_transformed(model, tok, docs1, Ok(r1));
    let tokens2 = witness_transformed(model, tok, docs2, Ok(r2));
    let tokens = witness_transformed(model, tok, docs1 + docs2, r);
    lemma_tokens_stacked(
        tok,
        model.analyzer,
        model.nmin,
        model.nmax,
        docs1,
        docs2,
        tokens1,
        tokens2,
        tokens,
    );
    let docs = token_docs(tokens);
    assert forall|i: int| 0 <= i < docs.len() implies countable(
        known_columns(vocabulary(model.vocab), model.n_cols, #[trigger] docs[i]),
    ) by {
        if i < tokens1.len() {
            assert(docs[i] == token_docs(tokens1)[i]);
        } else {
            assert(docs[i] == token_docs(tokens2)[i - tokens1.len()]);
        }
    }
    let (data, indices, indptr) = r->Ok_0;
    law_known_rows_stack(
        vocabulary(model.vocab),
        model.n_cols,
        token_docs(tokens1),
        token_docs(tokens2),
        model.idf@,
        close,
        r1.0@,
        r1.1@,
        r1.2@,
        r2.0@,
        r2.1@,
        r2.2@,
        data@,
        indices@,
        indptr@,
    );
}

} // verus!
