//! Vectorising the same documents in another order.

use vstd::prelude::*;
use vstd::seq_lib::lemma_fold_left_permutation;

use crate::counting::countable;
use crate::csr::{lays_out, lemma_flatten_lens, stored_columns};
use crate::documents::{column_docs, doc_freq, tallies, token_docs};
use crate::hashed::{
    fit_columns, holds_sorted_rows, is_built, is_sorted_listing, is_sorted_row, is_vectorised,
    Builder,
};
use crate::laws::{law_row_values_are_determined, law_rows_are_slices};
use crate::laws::law_sorted_listing_is_unique;
use crate::limits::{all_countable, doc_freqs_fit};
use crate::scalar::{
    functional, is_count, is_len, is_ln, is_one, is_quotient, is_sum, Scalar,
};
use crate::tables::vocabulary;
use crate::text_laws::{
    lemma_buckets_at, lemma_tokens_at, witness_learnt, witness_vectorised,
};
use crate::tfidf::Error;
use crate::tokenize::{is_tokenized, reads_texts, Analyzer, Tokenizer};
use crate::vocab::{all_tokens, is_fitted, is_learnt, TfidfModel, VocabBuilder};
use crate::weights::{is_smoothed_idf, is_weighted_row};

verus! {

/// `order` lists the places `0` to `n - 1`, each once.
pub open spec fn is_permutation(order: Seq<int>, n: int) -> bool {
    &&& order.len() == n
    &&& order.no_duplicates()
    &&& forall|i: int| 0 <= i < n ==> 0 <= #[trigger] order[i] < n
    &&& forall|j: int| 0 <= j < n ==> #[trigger] order.contains(j)
}

/// The items at the given places.
pub open spec fn reordered<A>(items: Seq<A>, order: Seq<int>) -> Seq<A> {
    Seq::new(order.len(), |i: int| items[order[i]])
}

/// The entries of one row.
pub open spec fn row_of<A>(entries: Seq<A>, indptr: Seq<i64>, i: int) -> Seq<A> {
    entries.subrange(indptr[i] as int, indptr[i + 1] as int)
}

/// The places in their own order.
spec fn in_place(n: nat) -> Seq<int> {
    Seq::new(n, |i: int| i)
}

/// A permutation has the places that it permutes.
proof fn lemma_permutation_places(order: Seq<int>, n: nat)
    requires
        is_permutation(order, n as int),
    ensures
        order.to_multiset() == in_place(n).to_multiset(),
{
    broadcast use vstd::seq_lib::group_to_multiset_ensures;
    broadcast use vstd::multiset::group_multiset_axioms;

    let places = in_place(n);
    assert(places.no_duplicates());
    order.lemma_multiset_has_no_duplicates();
    places.lemma_multiset_has_no_duplicates();
    assert forall|x: int| order.to_multiset().count(x) == places.to_multiset().count(x) by {
        if order.contains(x) {
            let i = choose|i: int| 0 <= i < order.len() && order[i] == x;
            assert(places[x] == x);
        }
        if places.contains(x) {
            let i = choose|i: int| 0 <= i < places.len() && places[i] == x;
            assert(order.contains(x));
        }
        assert(order.to_multiset().contains(x) <==> order.contains(x));
        assert(places.to_multiset().contains(x) <==> places.contains(x));
    }
    assert(order.to_multiset() =~= places.to_multiset());
}

/// Adds what the item at a place counts for.
spec fn adding_at<A>(items: Seq<A>, size: spec_fn(A) -> nat) -> spec_fn(nat, int) -> nat {
    |sum: nat, i: int| (sum + size(items[i])) as nat
}

/// The sum over all items.
spec fn total<A>(items: Seq<A>, size: spec_fn(A) -> nat) -> nat
    decreases items.len(),
{
    if items.len() == 0 {
        0
    } else {
        total(items.drop_last(), size) + size(items.last())
    }
}

/// The sum over the items at given places, added up place by place.
proof fn lemma_total_fold<A>(items: Seq<A>, order: Seq<int>, size: spec_fn(A) -> nat)
    ensures
        total(reordered(items, order), size) == order.fold_left(0nat, adding_at(items, size)),
    decreases order.len(),
{
    let there = reordered(items, order);
    if order.len() > 0 {
        lemma_total_fold(items, order.drop_last(), size);
        assert(there.drop_last() =~= reordered(items, order.drop_last()));
        assert(there.last() == items[order.last()]);
    }
}

/// A sum does not depend on the order of the items.
proof fn lemma_total_reordered<A>(items: Seq<A>, order: Seq<int>, size: spec_fn(A) -> nat)
    requires
        is_permutation(order, items.len() as int),
    ensures
        total(reordered(items, order), size) == total(items, size),
{
    let places = in_place(items.len());
    lemma_permutation_places(order, items.len());
    lemma_total_fold(items, order, size);
    lemma_total_fold(items, places, size);
    assert(reordered(items, places) =~= items);
    lemma_fold_left_permutation(order, places, adding_at(items, size), 0nat);
}

/// Whether a table holds a thing, as a number.
spec fn holds<K>(k: K) -> spec_fn(Map<K, u32>) -> nat {
    |table: Map<K, u32>|
        if table.dom().contains(k) {
            1nat
        } else {
            0
        }
}

/// How many tables hold a thing, as a sum.
proof fn lemma_doc_freq_total<K>(tables: Seq<Map<K, u32>>, k: K)
    ensures
        doc_freq(tables, k) == total(tables, holds(k)),
    decreases tables.len(),
{
    if tables.len() > 0 {
        lemma_doc_freq_total(tables.drop_last(), k);
    }
}

/// How many documents hold a thing does not depend on their order.
pub proof fn law_doc_freq_ignores_order<K>(tables: Seq<Map<K, u32>>, order: Seq<int>, k: K)
    requires
        is_permutation(order, tables.len() as int),
    ensures
        doc_freq(reordered(tables, order), k) == doc_freq(tables, k),
{
    lemma_doc_freq_total(tables, k);
    lemma_doc_freq_total(reordered(tables, order), k);
    lemma_total_reordered(tables, order, holds(k));
}

/// The length of a row.
spec fn row_length<A>() -> spec_fn(Seq<A>) -> nat {
    |row: Seq<A>| row.len()
}

/// The length of all rows together, as a sum.
proof fn lemma_flatten_total<A>(rows: Seq<Seq<A>>)
    ensures
        rows.flatten().len() == total(rows, row_length()),
    decreases rows.len(),
{
    if rows.len() > 0 {
        let before = rows.drop_last();
        lemma_flatten_total(before);
        before.lemma_flatten_push(rows.last());
        assert(before.push(rows.last()) =~= rows);
    }
}

/// The distinct tokens do not depend on the order of the documents.
proof fn lemma_all_tokens_reordered(tables: Seq<Map<Seq<char>, u32>>, order: Seq<int>)
    requires
        is_permutation(order, tables.len() as int),
    ensures
        all_tokens(reordered(tables, order)) == all_tokens(tables),
{
    let there = reordered(tables, order);
    assert forall|t: Seq<char>| #[trigger] all_tokens(there).contains(t) <==> all_tokens(
        tables,
    ).contains(t) by {
        if all_tokens(there).contains(t) {
            let i = choose|i: int| 0 <= i < there.len() && #[trigger] there[i].dom().contains(t);
            assert(tables[order[i]].dom().contains(t));
        }
        if all_tokens(tables).contains(t) {
            let j = choose|j: int| 0 <= j < tables.len() && #[trigger] tables[j].dom().contains(t);
            assert(order.contains(j));
            let i = choose|i: int| 0 <= i < order.len() && order[i] == j;
            assert(there[i].dom().contains(t));
        }
    }
    assert(all_tokens(there) =~= all_tokens(tables));
}

/// Where the operations are functions, counts have one inverse document frequency.
proof fn lemma_idf_unique<T: Scalar>(n_docs: usize, df: u32, r1: T, r2: T)
    requires
        functional::<T>(),
        is_smoothed_idf(n_docs, df, r1),
        is_smoothed_idf(n_docs, df, r2),
    ensures
        r1 == r2,
{
    let w1 = witness_idf(n_docs, df, r1);
    let w2 = witness_idf(n_docs, df, r2);
    assert(w1.0 == w2.0 && w1.1 == w2.1);
    assert(w1.6 == w2.6 && w1.7 == w2.7 && w1.8 == w2.8);
    assert(w1.2 == w2.2 && w1.3 == w2.3);
    assert(w1.4 == w2.4);
    assert(w1.5 == w2.5);
}

/// The numbers behind an inverse document frequency.
proof fn witness_idf<T: Scalar>(n_docs: usize, df: u32, r: T) -> (w: (
    T,
    T,
    T,
    T,
    T,
    T,
    T,
    T,
    T,
))
    requires
        is_smoothed_idf(n_docs, df, r),
    ensures
        is_len(n_docs, w.0),
        is_count(df, w.1),
        is_one(w.6),
        is_one(w.7),
        is_one(w.8),
        is_sum(w.6, w.0, w.2),
        is_sum(w.7, w.1, w.3),
        is_quotient(w.2, w.3, w.4),
        is_ln(w.4, w.5),
        is_sum(w.5, w.8, r),
{
    choose|n: T, d: T, above: T, below: T, ratio: T, log: T, one1: T, one2: T, one3: T|
        #![trigger is_len(n_docs, n), is_count(df, d), is_sum(one1, n, above), is_sum(one2, d, below), is_quotient(above, below, ratio), is_ln(ratio, log), is_sum(log, one3, r)]
        {
            &&& is_len(n_docs, n)
            &&& is_count(df, d)
            &&& is_one(one1)
            &&& is_one(one2)
            &&& is_one(one3)
            &&& is_sum(one1, n, above)
            &&& is_sum(one2, d, below)
            &&& is_quotient(above, below, ratio)
            &&& is_ln(ratio, log)
            &&& is_sum(log, one3, r)
        }
}

/// Learning from the same documents in another order gives the same tokens, as many columns,
/// and, where the operations are functions, the same inverse document frequency for every
/// token. Only the columns of the tokens may differ.
pub proof fn law_fit_ignores_order<T: Scalar>(
    tables: Seq<Map<Seq<char>, u32>>,
    order: Seq<int>,
    model1: TfidfModel<T>,
    data1: Seq<T>,
    indices1: Seq<i32>,
    indptr1: Seq<i64>,
    model2: TfidfModel<T>,
    data2: Seq<T>,
    indices2: Seq<i32>,
    indptr2: Seq<i64>,
)
    requires
        is_permutation(order, tables.len() as int),
        is_fitted(tables, model1, data1, indices1, indptr1),
        is_fitted(reordered(tables, order), model2, data2, indices2, indptr2),
    ensures
        vocabulary(model2.vocab).dom() == vocabulary(model1.vocab).dom(),
        model2.n_cols == model1.n_cols,
        model2.idf@.len() == model1.idf@.len(),
        functional::<T>() ==> forall|t: Seq<char>| #[trigger]
            vocabulary(model1.vocab).dom().contains(t) ==> model2.idf@[vocabulary(
                model2.vocab,
            )[t] as int] == model1.idf@[vocabulary(model1.vocab)[t] as int],
{
    lemma_all_tokens_reordered(tables, order);
    let v1 = vocabulary(model1.vocab);
    let v2 = vocabulary(model2.vocab);
    if functional::<T>() {
        assert forall|t: Seq<char>| #[trigger] v1.dom().contains(t) implies model2.idf@[v2[t] as int]
            == model1.idf@[v1[t] as int] by {
            assert(v2.dom().contains(t));
            law_doc_freq_ignores_order(tables, order, t);
            lemma_idf_unique(
                tables.len() as usize,
                doc_freq(tables, t) as u32,
                model1.idf@[v1[t] as int],
                model2.idf@[v2[t] as int],
            );
        }
    }
}

/// The columns and values of every sorted row.
proof fn witness_sorted_rows<T: Scalar>(
    tables: Seq<Map<usize, u32>>,
    idf: Seq<T>,
    data: Seq<T>,
    indices: Seq<i32>,
    indptr: Seq<i64>,
) -> (w: (Seq<Seq<i32>>, Seq<Seq<T>>))
    requires
        holds_sorted_rows(tables, idf, data, indices, indptr),
    ensures
        lays_out(data, indices, indptr, w.0, w.1),
        w.0.len() == tables.len(),
        forall|i: int|
            0 <= i < tables.len() ==> is_sorted_row(#[trigger] tables[i], idf, w.0[i], w.1[i]),
{
    choose|columns: Seq<Seq<i32>>, values: Seq<Seq<T>>|
        #![trigger lays_out(data, indices, indptr, columns, values)]
        {
            &&& lays_out(data, indices, indptr, columns, values)
            &&& columns.len() == tables.len()
            &&& forall|i: int|
                0 <= i < tables.len() ==> is_sorted_row(
                    #[trigger] tables[i],
                    idf,
                    columns[i],
                    values[i],
                )
        }
}

/// A table has one sorted row: its columns, whatever the weights, and its values, where the
/// weights are the same and the operations are functions.
proof fn lemma_sorted_row_unique<T: Scalar>(
    table: Map<usize, u32>,
    idf1: Seq<T>,
    c1: Seq<i32>,
    v1: Seq<T>,
    idf2: Seq<T>,
    c2: Seq<i32>,
    v2: Seq<T>,
)
    requires
        is_sorted_row(table, idf1, c1, v1),
        is_sorted_row(table, idf2, c2, v2),
    ensures
        c1 == c2,
        functional::<T>() && idf1 == idf2 ==> v1 == v2,
{
    let i1 = choose|items: Seq<(usize, u32)>|
        is_sorted_listing(table, items) && c1 == stored_columns(items)
            && #[trigger] is_weighted_row(idf1, items, v1);
    let i2 = choose|items: Seq<(usize, u32)>|
        is_sorted_listing(table, items) && c2 == stored_columns(items)
            && #[trigger] is_weighted_row(idf2, items, v2);
    law_sorted_listing_is_unique(table, i1, i2);
    if functional::<T>() && idf1 == idf2 {
        law_row_values_are_determined(idf1, i1, v1, v2);
    }
}

/// Hashed vectorisation of the same documents in another order gives the same rows in that
/// order: the same columns, and, where the operations are functions, the same inverse document
/// frequencies and the same values. (Of arrays whose length the type of a boundary can say.)
pub proof fn law_build_ignores_order<T: Scalar>(
    docs: Seq<Seq<usize>>,
    order: Seq<int>,
    n_features: usize,
    data1: Seq<T>,
    indices1: Seq<i32>,
    indptr1: Seq<i64>,
    idf1: Seq<T>,
    data2: Seq<T>,
    indices2: Seq<i32>,
    indptr2: Seq<i64>,
    idf2: Seq<T>,
)
    requires
        is_permutation(order, docs.len() as int),
        is_built(docs, n_features, data1, indices1, indptr1, idf1),
        is_built(reordered(docs, order), n_features, data2, indices2, indptr2, idf2),
        data1.len() <= i64::MAX,
    ensures
        indptr2.len() == indptr1.len() == docs.len() + 1,
        data2.len() == data1.len(),
        functional::<T>() ==> idf2 == idf1,
        forall|i: int|
            0 <= i < docs.len() ==> #[trigger] row_of(indices2, indptr2, i) == row_of(
                indices1,
                indptr1,
                order[i],
            ),
        functional::<T>() ==> forall|i: int|
            0 <= i < docs.len() ==> #[trigger] row_of(data2, indptr2, i) == row_of(
                data1,
                indptr1,
                order[i],
            ),
{
    let tables = tallies(docs);
    assert(tallies(reordered(docs, order)) =~= reordered(tables, order));
    if functional::<T>() {
        assert forall|c: int| 0 <= c < n_features implies idf2[c] == idf1[c] by {
            let column = c as usize;
            law_doc_freq_ignores_order(tables, order, column);
            assert(idf1[column as int] == idf1[c] && idf2[column as int] == idf2[c]);
            lemma_idf_unique(
                docs.len() as usize,
                doc_freq(tables, column) as u32,
                idf1[c],
                idf2[c],
            );
        }
        assert(idf2 =~= idf1);
    }
    let (c1, v1) = witness_sorted_rows(tables, idf1, data1, indices1, indptr1);
    let (c2, v2) = witness_sorted_rows(reordered(tables, order), idf2, data2, indices2, indptr2);
    assert forall|i: int| 0 <= i < docs.len() implies c2[i] == c1[order[i]] && (functional::<T>()
        ==> v2[i] == v1[order[i]]) by {
        let table = reordered(tables, order)[i];
        assert(table == tables[order[i]]);
        lemma_sorted_row_unique(table, idf1, c1[order[i]], v1[order[i]], idf2, c2[i], v2[i]);
    }
    assert(c2 =~= reordered(c1, order));
    lemma_flatten_total(c1);
    lemma_flatten_total(c2);
    lemma_total_reordered(c1, order, row_length());
    lemma_flatten_lens(c1, v1);
    lemma_flatten_lens(c2, v2);
    law_rows_are_slices(data1, indices1, indptr1, c1, v1);
    law_rows_are_slices(data2, indices2, indptr2, c2, v2);
    assert forall|i: int| 0 <= i < docs.len() implies #[trigger] row_of(indices2, indptr2, i)
        == row_of(indices1, indptr1, order[i]) by {
        let j = order[i];
        assert(0 <= indptr2[i] <= indptr2[i + 1]);
        assert(0 <= indptr1[j] <= indptr1[j + 1]);
        assert(c2[i] == c1[j]);
    }
    if functional::<T>() {
        assert forall|i: int| 0 <= i < docs.len() implies #[trigger] row_of(data2, indptr2, i)
            == row_of(data1, indptr1, order[i]) by {
            let j = order[i];
            assert(0 <= indptr2[i] <= indptr2[i + 1]);
            assert(0 <= indptr1[j] <= indptr1[j + 1]);
            assert(c2[i] == c1[j]);
        }
    }
}

/// The texts at the given places.
pub open spec fn is_reordered(docs1: Seq<String>, order: Seq<int>, docs2: Seq<String>) -> bool {
    &&& is_permutation(order, docs1.len() as int)
    &&& docs2.len() == docs1.len()
    &&& forall|i: int| 0 <= i < docs2.len() ==> (#[trigger] docs2[i])@ == docs1[order[i]]@
}

/// Reordered texts have reordered tokens.
proof fn lemma_tokens_reordered<K: Tokenizer>(
    tok: &K,
    analyzer: Analyzer,
    nmin: usize,
    nmax: usize,
    docs1: Seq<String>,
    order: Seq<int>,
    docs2: Seq<String>,
    tokens1: Seq<Vec<String>>,
    tokens2: Seq<Vec<String>>,
)
    requires
        reads_texts(tok),
        is_reordered(docs1, order, docs2),
        is_tokenized(tok, analyzer, nmin, nmax, docs1, tokens1),
        is_tokenized(tok, analyzer, nmin, nmax, docs2, tokens2),
    ensures
        token_docs(tokens2) == reordered(token_docs(tokens1), order),
{
    assert forall|i: int| 0 <= i < docs2.len() implies token_docs(tokens2)[i] == token_docs(
        tokens1,
    )[order[i]] by {
        assert(docs2[i]@ == docs1[order[i]]@);
        lemma_tokens_at(tok, analyzer, nmin, nmax, docs2, tokens2, i, docs1, tokens1, order[i]);
    }
    assert(token_docs(tokens2) =~= reordered(token_docs(tokens1), order));
}

/// Countable documents are countable in any order.
proof fn lemma_countable_reordered<A>(docs: Seq<Seq<A>>, order: Seq<int>)
    requires
        is_permutation(order, docs.len() as int),
        all_countable(docs),
    ensures
        all_countable(reordered(docs, order)),
{
    let there = reordered(docs, order);
    assert forall|i: int| 0 <= i < there.len() implies countable(#[trigger] there[i]) by {
        assert(countable(docs[order[i]]));
    }
}

/// Counts of documents fit in any order.
proof fn lemma_doc_freqs_reordered<K>(tables: Seq<Map<K, u32>>, order: Seq<int>)
    requires
        is_permutation(order, tables.len() as int),
        doc_freqs_fit(tables),
    ensures
        doc_freqs_fit(reordered(tables, order)),
{
    assert forall|k: K| #[trigger] doc_freq(reordered(tables, order), k) <= u32::MAX by {
        law_doc_freq_ignores_order(tables, order, k);
        assert(doc_freq(tables, k) <= u32::MAX);
    }
}

/// [`law_fit_ignores_order`] for the results of `VocabBuilder::fit_csr` on texts, where the
/// text functions depend on the texts alone: what can be learnt from can be learnt from in any
/// order.
pub proof fn law_fit_csr_ignores_order<T: Scalar, K: Tokenizer>(
    builder: VocabBuilder,
    tok: &K,
    docs1: Seq<String>,
    order: Seq<int>,
    docs2: Seq<String>,
    r1: (TfidfModel<T>, Vec<T>, Vec<i32>, Vec<i64>),
    r2: Result<(TfidfModel<T>, Vec<T>, Vec<i32>, Vec<i64>), Error>,
)
    requires
        reads_texts(tok),
        is_reordered(docs1, order, docs2),
        is_learnt(builder, tok, docs1, Ok(r1)),
        is_learnt(builder, tok, docs2, r2),
    ensures
        r2 matches Ok((model, data, indices, indptr)) && {
            &&& vocabulary(model.vocab).dom() == vocabulary(r1.0.vocab).dom()
            &&& model.n_cols == r1.0.n_cols
            &&& functional::<T>() ==> forall|t: Seq<char>| #[trigger]
                vocabulary(r1.0.vocab).dom().contains(t) ==> model.idf@[vocabulary(
                    model.vocab,
                )[t] as int] == r1.0.idf@[vocabulary(r1.0.vocab)[t] as int]
        },
{
    let tokens1 = witness_learnt(builder, tok, docs1, Ok(r1));
    let tokens2 = witness_learnt(builder, tok, docs2, r2);
    lemma_tokens_reordered(
        tok,
        builder.analyzer,
        builder.nmin,
        builder.nmax,
        docs1,
        order,
        docs2,
        tokens1,
        tokens2,
    );
    let texts = token_docs(tokens1);
    let tables = tallies(texts);
    assert(tallies(token_docs(tokens2)) =~= reordered(tables, order));
    lemma_countable_reordered(texts, order);
    lemma_doc_freqs_reordered(tables, order);
    lemma_all_tokens_reordered(tables, order);
    let (model, data, indices, indptr) = r2->Ok_0;
    law_fit_ignores_order(
        tables,
        order,
        r1.0,
        r1.1@,
        r1.2@,
        r1.3@,
        model,
        data@,
        indices@,
        indptr@,
    );
}

/// [`law_build_ignores_order`] for the results of `Builder::build_csr` on texts, where the
/// text functions depend on the texts alone: what can be vectorised can be vectorised in any
/// order.
pub proof fn law_build_csr_ignores_order<T: Scalar, K: Tokenizer>(
    builder: Builder,
    tok: &K,
    docs1: Seq<String>,
    order: Seq<int>,
    docs2: Seq<String>,
    r1: (Vec<T>, Vec<i32>, Vec<i64>, Vec<T>),
    r2: Result<(Vec<T>, Vec<i32>, Vec<i64>, Vec<T>), Error>,
)
    requires
        reads_texts(tok),
        is_reordered(docs1, order, docs2),
        is_vectorised(builder, tok, docs1, Ok(r1)),
        is_vectorised(builder, tok, docs2, r2),
        r1.0@.len() <= i64::MAX,
    ensures
        r2 matches Ok((data, indices, indptr, idf)) && {
            &&& functional::<T>() ==> idf@ == r1.3@
            &&& indptr@.len() == docs1.len() + 1
            &&& forall|i: int|
                0 <= i < docs1.len() ==> #[trigger] row_of(indices@, indptr@, i) == row_of(
                    r1.1@,
                    r1.2@,
                    order[i],
                )
            &&& functional::<T>() ==> forall|i: int|
                0 <= i < docs1.len() ==> #[trigger] row_of(data@, indptr@, i) == row_of(
                    r1.0@,
                    r1.2@,
                    order[i],
                )
        },
{
    let (tokens1, columns1) = witness_vectorised(builder, tok, docs1, Ok(r1));
    let (tokens2, columns2) = witness_vectorised(builder, tok, docs2, r2);
    lemma_tokens_reordered(
        tok,
        builder.analyzer,
        builder.nmin,
        builder.nmax,
        docs1,
        order,
        docs2,
        tokens1,
        tokens2,
    );
    let docs = column_docs(columns1);
    assert(column_docs(columns2) =~= reordered(docs, order)) by {
        assert forall|i: int| 0 <= i < docs2.len() implies column_docs(columns2)[i]
            == docs[order[i]] by {
            assert(token_docs(tokens2)[i] == token_docs(tokens1)[order[i]]);
            lemma_buckets_at(
                tok,
                builder.nfeat,
                tokens2,
                columns2,
                i,
                tokens1,
                columns1,
                order[i],
            );
        }
    }
    let tables = tallies(docs);
    assert(tallies(column_docs(columns2)) =~= reordered(tables, order));
    lemma_countable_reordered(docs, order);
    lemma_doc_freqs_reordered(tables, order);
    assert(fit_columns(reordered(docs, order), builder.nfeat)) by {
        let there = reordered(docs, order);
        assert forall|i: int, j: int|
            0 <= i < there.len() && 0 <= j < there[i].len() implies #[trigger] there[i][j]
            < builder.nfeat by {
            assert(docs[order[i]][j] < builder.nfeat);
        }
    }
    let (data, indices, indptr, idf) = r2->Ok_0;
    law_build_ignores_order(
        docs,
        order,
        builder.nfeat,
        r1.0@,
        r1.1@,
        r1.2@,
        r1.3@,
        data@,
        indices@,
        indptr@,
        idf@,
    );
}

} // verus!
