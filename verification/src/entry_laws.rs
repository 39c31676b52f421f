//! What vectorisation returns, entry by entry, over the tokens and the arrays alone.

use vstd::prelude::*;

use crate::counting::{
    countable, lemma_occurrences_positive, occurrences, tally, token_views,
};
use crate::csr::{lays_out, stored_columns};
use crate::documents::{column_docs, doc_freq, tallies, token_docs};
use crate::hashed::{
    columns_below, fit_columns, holds_sorted_rows, is_sorted_listing, is_sorted_row, Builder,
};
use crate::laws::{
    law_fit_agrees_with_transform, law_rows_are_slices, lemma_occurrences_is_count,
};
use crate::limits::{all_countable, doc_freqs_fit};
use crate::rows::{holds_rows, is_row};
use crate::scalar::{
    is_count, is_dot, is_exceeds, is_one, is_product, is_quotient, is_sqrt, is_sum, is_zero,
    Scalar,
};
use crate::tables::{lists_entries, vocabulary};
use crate::text_laws::{
    witness_learnt, witness_transformed, witness_vectorised, witness_with_idf,
};
use crate::tfidf::Error;
use crate::tokenize::{is_bucketed, is_hashed, is_tokenized, is_tokens_of, Analyzer, Tokenizer};
use crate::vocab::{
    column_of, known_columns, known_countable, known_tables, TfidfModel, VocabBuilder,
};
use crate::weight_laws::{
    docs_in, docs_with, has_token, is_idf_of, law_build_weighs_by_documents,
    law_fit_weighs_by_documents, lemma_distinct_tokens, lemma_docs_in, lemma_docs_with_token,
    names_column,
};
use crate::weights::{
    is_idf_at, is_inverse_root, is_normalized, is_scaled, is_sum_of_squares, is_term_weight,
    is_weighted_row,
};

verus! {

/// A dot product is the last of a row of sums: the first is zero, and each next one adds one
/// more product, in order, with none left out.
pub proof fn law_dot_is_running_sum<T: Scalar>(xs: Seq<T>, ws: Seq<T>, r: T) -> (w: (
    Seq<T>,
    Seq<T>,
))
    requires
        xs.len() == ws.len(),
        is_dot(xs, ws, r),
    ensures
        w.0.len() == xs.len(),
        w.1.len() == xs.len() + 1,
        call_ensures(T::zero, (), w.1[0]),
        forall|j: int|
            0 <= j < xs.len() ==> call_ensures(T::times, (xs[j], ws[j]), #[trigger] w.0[j]),
        forall|j: int|
            0 <= j < xs.len() ==> call_ensures(
                T::plus,
                (w.1[j], #[trigger] w.0[j]),
                w.1[j + 1],
            ),
        w.1[xs.len() as int] == r,
    decreases xs.len(),
{
    if xs.len() == 0 {
        (Seq::empty(), seq![r])
    } else {
        let (acc, prod) = choose|acc: T, prod: T|
            is_dot(xs.drop_last(), ws.drop_last(), acc) && #[trigger] is_product(
                xs.last(),
                ws.last(),
                prod,
            ) && #[trigger] is_sum(acc, prod, r);
        let (products, sums) = law_dot_is_running_sum(xs.drop_last(), ws.drop_last(), acc);
        let products1 = products.push(prod);
        let sums1 = sums.push(r);
        assert forall|j: int| 0 <= j < xs.len() implies call_ensures(
            T::times,
            (xs[j], ws[j]),
            #[trigger] products1[j],
        ) by {
            if j < xs.len() - 1 {
                assert(products1[j] == products[j]);
                assert(xs.drop_last()[j] == xs[j] && ws.drop_last()[j] == ws[j]);
            }
        }
        assert forall|j: int| 0 <= j < xs.len() implies call_ensures(
            T::plus,
            (sums1[j], #[trigger] products1[j]),
            sums1[j + 1],
        ) by {
            if j < xs.len() - 1 {
                assert(products1[j] == products[j]);
                assert(sums1[j] == sums[j] && sums1[j + 1] == sums[j + 1]);
            }
        }
        (products1, sums1)
    }
}

/// `out` are the weights `counts[j] * weights[j]`, each times one over the square root of the
/// sum of their squares, where that sum is positive, and else the weights themselves: `tfs` are
/// the counts as numbers, `raw` the weights, `squares` their squares and `sums` the squares added
/// to zero one by one.
pub open spec fn is_unit_row_by<T: Scalar>(
    counts: Seq<u32>,
    weights: Seq<T>,
    out: Seq<T>,
    tfs: Seq<T>,
    raw: Seq<T>,
    squares: Seq<T>,
    sums: Seq<T>,
) -> bool {
    let n = counts.len() as int;
    &&& weights.len() == n && out.len() == n && raw.len() == n && squares.len() == n
    &&& tfs.len() == n && sums.len() == n + 1
    &&& forall|j: int|
        0 <= j < n ==> call_ensures(T::from_count, (counts[j],), #[trigger] tfs[j])
    &&& forall|j: int|
        0 <= j < n ==> call_ensures(T::times, (tfs[j], weights[j]), #[trigger] raw[j])
    &&& forall|j: int|
        0 <= j < n ==> call_ensures(T::times, (raw[j], raw[j]), #[trigger] squares[j])
    &&& call_ensures(T::zero, (), sums[0])
    &&& forall|j: int|
        0 <= j < n ==> call_ensures(T::plus, (sums[j], #[trigger] squares[j]), sums[j + 1])
    &&& exists|nought: T, positive: bool|
        call_ensures(T::zero, (), nought) && #[trigger] call_ensures(
            T::exceeds,
            (sums[n], nought),
            positive,
        ) && if positive {
            exists|one: T, root: T, scale: T|
                {
                    &&& call_ensures(T::one, (), one)
                    &&& #[trigger] call_ensures(T::sqrt, (sums[n],), root)
                    &&& #[trigger] call_ensures(T::over, (one, root), scale)
                    &&& forall|j: int|
                        0 <= j < n ==> call_ensures(T::times, (raw[j], scale), #[trigger] out[j])
                }
        } else {
            out == raw
        }
}

/// `out` is a row of the given term counts and weights, scaled to unit length.
pub open spec fn is_unit_row<T: Scalar>(counts: Seq<u32>, weights: Seq<T>, out: Seq<T>) -> bool {
    exists|tfs: Seq<T>, raw: Seq<T>, squares: Seq<T>, sums: Seq<T>| #[trigger]
        is_unit_row_by(counts, weights, out, tfs, raw, squares, sums)
}

/// The weights of the items of a row, zero where there is none.
proof fn lemma_weighted_row_is_unit<T: Scalar>(
    idf: Seq<T>,
    items: Seq<(usize, u32)>,
    values: Seq<T>,
) -> (weights: Seq<T>)
    requires
        is_weighted_row(idf, items, values),
    ensures
        values.len() == items.len(),
        weights.len() == items.len(),
        forall|j: int|
            0 <= j < items.len() ==> if items[j].0 < idf.len() {
                #[trigger] weights[j] == idf[items[j].0 as int]
            } else {
                call_ensures(T::zero, (), weights[j])
            },
        is_unit_row(Seq::new(items.len(), |j: int| items[j].1), weights, values),
{
    let counts = Seq::new(items.len(), |j: int| items[j].1);
    let raw = choose|raw: Seq<T>|
        {
            &&& raw.len() == items.len()
            &&& forall|j: int|
                0 <= j < items.len() ==> is_term_weight(idf, items[j], #[trigger] raw[j])
            &&& #[trigger] is_normalized(raw, values)
        };
    let pairs = Seq::new(
        items.len(),
        |j: int| choose|p: (T, T)| is_weight_of(idf, items[j], raw[j], p),
    );
    assert forall|j: int| 0 <= j < items.len() implies is_weight_of(
        idf,
        items[j],
        raw[j],
        #[trigger] pairs[j],
    ) by {
        assert(is_term_weight(idf, items[j], raw[j]));
        let (tf, w) = choose|tf: T, w: T| #[trigger]
            is_count(items[j].1, tf) && is_idf_at(idf, items[j].0, w)
                && #[trigger] is_product(tf, w, raw[j]);
        assert(is_weight_of(idf, items[j], raw[j], (tf, w)));
    }
    let tfs = Seq::new(items.len(), |j: int| pairs[j].0);
    let weights = Seq::new(items.len(), |j: int| pairs[j].1);
    assert forall|j: int| 0 <= j < items.len() implies is_weight_of(
        idf,
        items[j],
        raw[j],
        (#[trigger] tfs[j], weights[j]),
    ) by {
        assert(is_weight_of(idf, items[j], raw[j], pairs[j]));
    }
    let (norm, nought, positive) = choose|norm: T, nought: T, positive: bool|
        is_sum_of_squares(raw, norm) && is_zero(nought)
            && #[trigger] is_exceeds(norm, nought, positive) && if positive {
            exists|scale: T| is_inverse_root(norm, scale) && #[trigger] is_scaled(
                raw,
                scale,
                values,
            )
        } else {
            values == raw
        };
    let (squares, sums) = law_dot_is_running_sum(raw, raw, norm);
    assert forall|j: int| 0 <= j < items.len() implies call_ensures(
        T::times,
        (tfs[j], weights[j]),
        #[trigger] raw[j],
    ) by {
        assert(is_weight_of(idf, items[j], raw[j], (tfs[j], weights[j])));
    }
    if positive {
        let scale = choose|scale: T|
            is_inverse_root(norm, scale) && #[trigger] is_scaled(raw, scale, values);
        let (one, root) = choose|one: T, root: T|
            is_one(one) && #[trigger] is_sqrt(norm, root)
                && #[trigger] is_quotient(one, root, scale);
        assert(call_ensures(T::sqrt, (sums[items.len() as int],), root) && call_ensures(
            T::over,
            (one, root),
            scale,
        ));
        assert forall|j: int| 0 <= j < items.len() implies call_ensures(
            T::times,
            (raw[j], scale),
            #[trigger] values[j],
        ) by {
            assert(is_product(raw[j], scale, values[j]));
        }
    }
    assert(call_ensures(T::exceeds, (sums[items.len() as int], nought), positive));
    assert(is_unit_row_by(counts, weights, values, tfs, raw, squares, sums));
    assert forall|j: int| 0 <= j < items.len() implies if items[j].0 < idf.len() {
        #[trigger] weights[j] == idf[items[j].0 as int]
    } else {
        call_ensures(T::zero, (), weights[j])
    } by {
        assert(is_weight_of(idf, items[j], raw[j], (tfs[j], weights[j])));
    }
    weights
}

/// `p` are the count of an item as a number and the weight of its column, whose product is `raw`.
spec fn is_weight_of<T: Scalar>(idf: Seq<T>, item: (usize, u32), raw: T, p: (T, T)) -> bool {
    &&& if item.0 < idf.len() {
        p.1 == idf[item.0 as int]
    } else {
        call_ensures(T::zero, (), p.1)
    }
    &&& call_ensures(T::from_count, (item.1,), p.0)
    &&& call_ensures(T::times, p, raw)
}

/// One sparse row, between two boundaries: the columns `columns`, each once, are those that the
/// document has at least once by `count`, and the values are their counts times their weights,
/// scaled to unit length.
pub open spec fn is_row_of<T: Scalar>(
    count: spec_fn(usize) -> nat,
    idf: Seq<T>,
    columns: Seq<usize>,
    weights: Seq<T>,
    row_indices: Seq<i32>,
    row_data: Seq<T>,
) -> bool {
    let n = columns.len();
    &&& row_indices.len() == n && row_data.len() == n && weights.len() == n
    &&& forall|i: int, j: int| 0 <= i < j < n ==> #[trigger] columns[i] != #[trigger] columns[j]
    &&& forall|c: usize| #[trigger] columns.contains(c) <==> count(c) > 0
    &&& forall|j: int| 0 <= j < n ==> #[trigger] row_indices[j] == columns[j] as i32
    &&& forall|j: int|
        0 <= j < n ==> if columns[j] < idf.len() {
            #[trigger] weights[j] == idf[columns[j] as int]
        } else {
            call_ensures(T::zero, (), weights[j])
        }
    &&& forall|j: int| 0 <= j < n ==> count(#[trigger] columns[j]) <= u32::MAX
    &&& is_unit_row(Seq::new(n, |j: int| count(columns[j]) as u32), weights, row_data)
}

/// The listed items of counted columns, as a row.
proof fn lemma_listing_is_row<T: Scalar>(
    doc: Seq<usize>,
    count: spec_fn(usize) -> nat,
    idf: Seq<T>,
    items: Seq<(usize, u32)>,
    values: Seq<T>,
) -> (w: (Seq<usize>, Seq<T>))
    requires
        countable(doc),
        forall|c: usize| #[trigger] count(c) == occurrences(doc, c),
        lists_entries(items, tally(doc)),
        is_weighted_row(idf, items, values),
    ensures
        w.0 == Seq::new(items.len(), |j: int| items[j].0),
        is_row_of(count, idf, w.0, w.1, stored_columns(items), values),
{
    let columns = Seq::new(items.len(), |j: int| items[j].0);
    let weights = lemma_weighted_row_is_unit(idf, items, values);
    assert forall|c: usize| #[trigger] columns.contains(c) <==> count(c) > 0 by {
        lemma_occurrences_positive(doc, c);
        if columns.contains(c) {
            let j = choose|j: int| 0 <= j < columns.len() && columns[j] == c;
            assert(tally(doc).dom().contains(items[j].0));
        }
        if count(c) > 0 {
            assert(tally(doc).dom().contains(c));
            let j = choose|j: int| 0 <= j < items.len() && (#[trigger] items[j]).0 == c;
            assert(columns[j] == c);
        }
    }
    assert forall|i: int, j: int| 0 <= i < j < columns.len() implies #[trigger] columns[i]
        != #[trigger] columns[j] by {
        assert(items[i].0 != items[j].0);
    }
    assert forall|j: int| 0 <= j < columns.len() implies count(#[trigger] columns[j])
        <= u32::MAX by {
        assert(occurrences(doc, columns[j]) <= u32::MAX);
    }
    assert(Seq::new(columns.len(), |j: int| count(columns[j]) as u32) =~= Seq::new(
        items.len(),
        |j: int| items[j].1,
    )) by {
        assert forall|j: int| 0 <= j < items.len() implies count(columns[j]) as u32
            == items[j].1 by {
            assert(tally(doc)[items[j].0] == items[j].1);
            assert(tally(doc).dom().contains(items[j].0));
        }
    }
    (columns, weights)
}

/// The entries of a row between its boundaries.
pub open spec fn slice_at<A>(entries: Seq<A>, indptr: Seq<i64>, i: int) -> Seq<A> {
    entries.subrange(indptr[i] as int, indptr[i + 1] as int)
}

/// The row boundaries start at zero, never go down and end at the number of entries.
pub open spec fn are_boundaries(indptr: Seq<i64>, n_rows: int, len: int) -> bool {
    &&& indptr.len() == n_rows + 1
    &&& indptr[0] == 0
    &&& indptr[n_rows] == len
    &&& forall|i: int| 0 <= i < n_rows ==> 0 <= #[trigger] indptr[i] <= indptr[i + 1] <= len
}

/// What a row of a table is, over the counted columns.
proof fn lemma_rows_by_entry<T: Scalar>(
    docs: Seq<Seq<usize>>,
    idf: Seq<T>,
    data: Seq<T>,
    indices: Seq<i32>,
    indptr: Seq<i64>,
    i: int,
    count: spec_fn(usize) -> nat,
) -> (w: (Seq<usize>, Seq<T>))
    requires
        holds_rows(tallies(docs), idf, data, indices, indptr),
        data.len() <= i64::MAX,
        0 <= i < docs.len(),
        countable(docs[i]),
        forall|c: usize| #[trigger] count(c) == occurrences(docs[i], c),
    ensures
        is_row_of(
            count,
            idf,
            w.0,
            w.1,
            slice_at(indices, indptr, i),
            slice_at(data, indptr, i),
        ),
{
    let tables = tallies(docs);
    let (columns, values) = choose|columns: Seq<Seq<i32>>, values: Seq<Seq<T>>|
        #![trigger lays_out(data, indices, indptr, columns, values)]
        {
            &&& lays_out(data, indices, indptr, columns, values)
            &&& columns.len() == tables.len()
            &&& forall|i: int|
                0 <= i < tables.len() ==> is_row(#[trigger] tables[i], idf, columns[i], values[i])
        };
    law_rows_are_slices(data, indices, indptr, columns, values);
    let table = tables[i];
    let items = choose|items: Seq<(usize, u32)>|
        lists_entries(items, table) && columns[i] == stored_columns(items)
            && #[trigger] is_weighted_row(idf, items, values[i]);
    assert(0 <= indptr[i] <= indptr[i + 1]);
    lemma_listing_is_row(docs[i], count, idf, items, values[i])
}

/// Row boundaries of laid-out rows.
proof fn lemma_boundaries<T: Scalar>(
    tables: Seq<Map<usize, u32>>,
    idf: Seq<T>,
    data: Seq<T>,
    indices: Seq<i32>,
    indptr: Seq<i64>,
)
    requires
        holds_rows(tables, idf, data, indices, indptr),
        data.len() <= i64::MAX,
    ensures
        indices.len() == data.len(),
        are_boundaries(indptr, tables.len() as int, data.len() as int),
{
    let (columns, values) = choose|columns: Seq<Seq<i32>>, values: Seq<Seq<T>>|
        #![trigger lays_out(data, indices, indptr, columns, values)]
        {
            &&& lays_out(data, indices, indptr, columns, values)
            &&& columns.len() == tables.len()
            &&& forall|i: int|
                0 <= i < tables.len() ==> is_row(#[trigger] tables[i], idf, columns[i], values[i])
        };
    law_rows_are_slices(data, indices, indptr, columns, values);
}

/// How often an item occurs is how many items pass the test.
pub proof fn lemma_filter_is_occurrences<D, A>(
    items: Seq<D>,
    test: spec_fn(D) -> bool,
    views: Seq<A>,
    a: A,
)
    requires
        items.len() == views.len(),
        forall|i: int| 0 <= i < items.len() ==> (test(#[trigger] items[i]) <==> views[i] == a),
    ensures
        items.filter(test).len() == occurrences(views, a),
    decreases items.len(),
{
    reveal(Seq::filter);
    if items.len() > 0 {
        let n = items.len() - 1;
        assert(test(items[n]) <==> views[n] == a);
        assert forall|i: int| 0 <= i < n implies (test(#[trigger] items.drop_last()[i])
            <==> views.drop_last()[i] == a) by {
            assert(items.drop_last()[i] == items[i]);
        }
        lemma_filter_is_occurrences(items.drop_last(), test, views.drop_last(), a);
    }
}

/// How often a known column occurs is how many tokens have that column.
proof fn lemma_filter_is_known(
    vocab: Map<Seq<char>, i32>,
    n_cols: usize,
    items: Seq<String>,
    test: spec_fn(String) -> bool,
    views: Seq<Seq<char>>,
    c: usize,
)
    requires
        views.len() == items.len(),
        forall|i: int| 0 <= i < items.len() ==> #[trigger] views[i] == items[i]@,
        forall|i: int|
            0 <= i < items.len() ==> (test(#[trigger] items[i]) <==> vocab.dom().contains(
                items[i]@,
            ) && column_of(vocab[items[i]@]) == c && c < n_cols),
    ensures
        items.filter(test).len() == occurrences(known_columns(vocab, n_cols, views), c),
    decreases items.len(),
{
    reveal(Seq::filter);
    if items.len() > 0 {
        let n = items.len() - 1;
        let shorter = known_columns(vocab, n_cols, views.drop_last());
        assert(views[n] == items[n]@);
        assert(test(items[n]) <==> vocab.dom().contains(items[n]@) && column_of(
            vocab[items[n]@],
        ) == c && c < n_cols);
        assert forall|i: int| 0 <= i < n implies (test(#[trigger] items.drop_last()[i])
            <==> vocab.dom().contains(items.drop_last()[i]@) && column_of(
            vocab[items.drop_last()[i]@],
        ) == c && c < n_cols) by {
            assert(items.drop_last()[i] == items[i]);
        }
        lemma_filter_is_known(vocab, n_cols, items.drop_last(), test, views.drop_last(), c);
        let t = views.last();
        if vocab.dom().contains(t) && column_of(vocab[t]) < n_cols {
            assert(shorter.push(column_of(vocab[t])).drop_last() =~= shorter);
        }
    }
}

/// The token has the characters `t`.
pub open spec fn reads(token: String, t: Seq<char>) -> bool {
    token@ == t
}

/// How many tokens of a document have the characters `t`.
pub open spec fn token_count(doc: Vec<String>, t: Seq<char>) -> nat {
    doc@.filter(|s: String| reads(s, t)).len()
}

/// The token `t` has the column `c`, which exists. A negative number counts down from the top of
/// the machine word.
pub open spec fn has_number(
    vocab: Map<Seq<char>, i32>,
    n_cols: usize,
    t: Seq<char>,
    c: usize,
) -> bool {
    &&& vocab.dom().contains(t)
    &&& c < n_cols
    &&& vocab[t] >= 0 ==> vocab[t] == c
    &&& vocab[t] < 0 ==> vocab[t] == c - usize::MAX - 1
}

/// How many tokens of a document have the column `c`.
pub open spec fn column_count(
    vocab: Map<Seq<char>, i32>,
    n_cols: usize,
    doc: Vec<String>,
    c: usize,
) -> nat {
    doc@.filter(|s: String| has_number(vocab, n_cols, s@, c)).len()
}

/// How many tokens of a hashed document are in the bucket `c`.
pub open spec fn bucket_count(doc: Vec<usize>, c: usize) -> nat {
    doc@.to_multiset().count(c)
}

/// There is a row of the counted columns, as [`is_row_of`] says.
pub open spec fn has_row_of<T: Scalar>(
    count: spec_fn(usize) -> nat,
    idf: Seq<T>,
    row_indices: Seq<i32>,
    row_data: Seq<T>,
) -> bool {
    exists|columns: Seq<usize>, weights: Seq<T>| #[trigger]
        is_row_of(count, idf, columns, weights, row_indices, row_data)
}

/// There is a row of the counted columns, as [`is_row_of`] says, in increasing order.
pub open spec fn has_sorted_row_of<T: Scalar>(
    count: spec_fn(usize) -> nat,
    idf: Seq<T>,
    row_indices: Seq<i32>,
    row_data: Seq<T>,
) -> bool {
    exists|columns: Seq<usize>, weights: Seq<T>|
        {
            &&& #[trigger] is_row_of(count, idf, columns, weights, row_indices, row_data)
            &&& forall|i: int, j: int|
                0 <= i < j < columns.len() ==> #[trigger] columns[i] < #[trigger] columns[j]
        }
}

/// How many tokens have given characters.
proof fn lemma_token_count(doc: Vec<String>, t: Seq<char>)
    ensures
        token_count(doc, t) == occurrences(token_views(doc@), t),
{
    lemma_filter_is_occurrences(doc@, |s: String| reads(s, t), token_views(doc@), t);
}

/// How many tokens have a column.
proof fn lemma_column_count(
    vocab: Map<Seq<char>, i32>,
    n_cols: usize,
    doc: Vec<String>,
    c: usize,
)
    ensures
        column_count(vocab, n_cols, doc, c) == occurrences(
            known_columns(vocab, n_cols, token_views(doc@)),
            c,
        ),
{
    lemma_filter_is_known(
        vocab,
        n_cols,
        doc@,
        |s: String| has_number(vocab, n_cols, s@, c),
        token_views(doc@),
        c,
    );
}

/// How many tokens are in a bucket.
proof fn lemma_bucket_count(doc: Vec<usize>, c: usize)
    ensures
        bucket_count(doc, c) == occurrences(doc@, c),
{
    lemma_occurrences_is_count(doc@, c);
}

/// What a transform of token lists returns: the boundaries of one row for each document, and in
/// each row the columns that the document's tokens have, each once, with the number of tokens
/// that have it times its weight, scaled to unit length. A column without a weight weighs
/// nothing, and a token without a column is passed over.
pub proof fn law_transform_by_entry<T: Scalar>(
    tokens: Seq<Vec<String>>,
    vocab: Map<Seq<char>, i32>,
    n_cols: usize,
    idf: Seq<T>,
    data: Seq<T>,
    indices: Seq<i32>,
    indptr: Seq<i64>,
)
    requires
        known_countable(vocab, n_cols, token_docs(tokens)),
        holds_rows(known_tables(vocab, n_cols, token_docs(tokens)), idf, data, indices, indptr),
        data.len() <= i64::MAX,
    ensures
        indices.len() == data.len(),
        are_boundaries(indptr, tokens.len() as int, data.len() as int),
        forall|i: int|
            0 <= i < tokens.len() ==> has_row_of(
                |c: usize| column_count(vocab, n_cols, #[trigger] tokens[i], c),
                idf,
                slice_at(indices, indptr, i),
                slice_at(data, indptr, i),
            ),
{
    let docs = token_docs(tokens);
    let columns = Seq::new(docs.len(), |i: int| known_columns(vocab, n_cols, docs[i]));
    assert(known_tables(vocab, n_cols, docs) =~= tallies(columns));
    lemma_boundaries(tallies(columns), idf, data, indices, indptr);
    assert forall|i: int| 0 <= i < tokens.len() implies has_row_of(
        |c: usize| column_count(vocab, n_cols, #[trigger] tokens[i], c),
        idf,
        slice_at(indices, indptr, i),
        slice_at(data, indptr, i),
    ) by {
        let count = |c: usize| column_count(vocab, n_cols, tokens[i], c);
        assert(countable(known_columns(vocab, n_cols, docs[i])));
        assert forall|c: usize| #[trigger] count(c) == occurrences(columns[i], c) by {
            lemma_column_count(vocab, n_cols, tokens[i], c);
        }
        let (cols, weights) = lemma_rows_by_entry(columns, idf, data, indices, indptr, i, count);
        assert(is_row_of(
            count,
            idf,
            cols,
            weights,
            slice_at(indices, indptr, i),
            slice_at(data, indptr, i),
        ));
    }
}

/// What vectorising hashed documents returns, row by row: the boundaries of one row for each
/// document, and in each row the buckets of the document's tokens in increasing order, each with
/// the number of tokens in it times its weight, scaled to unit length.
pub proof fn law_hashed_rows_by_entry<T: Scalar>(
    columns: Seq<Vec<usize>>,
    idf: Seq<T>,
    data: Seq<T>,
    indices: Seq<i32>,
    indptr: Seq<i64>,
)
    requires
        all_countable(column_docs(columns)),
        holds_sorted_rows(tallies(column_docs(columns)), idf, data, indices, indptr),
        data.len() <= i64::MAX,
    ensures
        indices.len() == data.len(),
        are_boundaries(indptr, columns.len() as int, data.len() as int),
        forall|i: int|
            0 <= i < columns.len() ==> has_sorted_row_of(
                |c: usize| bucket_count(#[trigger] columns[i], c),
                idf,
                slice_at(indices, indptr, i),
                slice_at(data, indptr, i),
            ),
{
    let docs = column_docs(columns);
    let tables = tallies(docs);
    let (stored, values) = choose|stored: Seq<Seq<i32>>, values: Seq<Seq<T>>|
        #![trigger lays_out(data, indices, indptr, stored, values)]
        {
            &&& lays_out(data, indices, indptr, stored, values)
            &&& stored.len() == tables.len()
            &&& forall|i: int|
                0 <= i < tables.len() ==> is_sorted_row(
                    #[trigger] tables[i],
                    idf,
                    stored[i],
                    values[i],
                )
        };
    law_rows_are_slices(data, indices, indptr, stored, values);
    assert forall|i: int| 0 <= i < columns.len() implies has_sorted_row_of(
        |c: usize| bucket_count(#[trigger] columns[i], c),
        idf,
        slice_at(indices, indptr, i),
        slice_at(data, indptr, i),
    ) by {
        let count = |c: usize| bucket_count(columns[i], c);
        assert forall|c: usize| #[trigger] count(c) == occurrences(docs[i], c) by {
            lemma_bucket_count(columns[i], c);
        }
        let items = choose|items: Seq<(usize, u32)>|
            is_sorted_listing(tables[i], items) && stored[i] == stored_columns(items)
                && #[trigger] is_weighted_row(idf, items, values[i]);
        assert(is_sorted_row(tables[i], idf, stored[i], values[i]));
        assert(countable(docs[i]));
        let (cols, weights) = lemma_listing_is_row(docs[i], count, idf, items, values[i]);
        assert(0 <= indptr[i] <= indptr[i + 1]);
        assert forall|a: int, b: int| 0 <= a < b < cols.len() implies #[trigger] cols[a]
            < #[trigger] cols[b] by {
            assert(items[a].0 < items[b].0);
        }
        assert(is_row_of(
            count,
            idf,
            cols,
            weights,
            slice_at(indices, indptr, i),
            slice_at(data, indptr, i),
        ));
    }
}

/// What [`VocabBuilder::fit_csr`] returns. Every document is cut into tokens by the analyzer's
/// function. The fit fails, with `Internal`, exactly where a token occurs in a document, or in
/// documents, more often than a count can say, or there are more distinct tokens than column
/// numbers. Else the vocabulary has exactly the tokens of the documents, each with a column of
/// its own; the weight of a token is `ln((1 + n) / (1 + d)) + 1` for `n` documents of which `d`
/// have it; and the rows hold the columns of each document's tokens, each once, with the number
/// of tokens that have it times its weight, scaled to unit length.
pub proof fn law_fit_csr_by_entry<T: Scalar, K: Tokenizer>(
    builder: &VocabBuilder,
    tok: &K,
    docs: &[String],
    r: Result<(TfidfModel<T>, Vec<T>, Vec<i32>, Vec<i64>), Error>,
) -> (tokens: Seq<Vec<String>>)
    requires
        call_ensures(VocabBuilder::fit_csr::<T, K>, (builder, docs, tok), r),
    ensures
        tokens.len() == docs@.len(),
        forall|i: int|
            0 <= i < docs@.len() ==> match builder.analyzer {
                Analyzer::Char => call_ensures(
                    K::char_ngrams,
                    (tok, &docs@[i], builder.nmin, builder.nmax),
                    #[trigger] tokens[i],
                ),
                Analyzer::Char_wb => call_ensures(
                    K::char_wb_ngrams,
                    (tok, &docs@[i], builder.nmin, builder.nmax),
                    tokens[i],
                ),
            },
        r matches Err(e) ==> e == Error::Internal,
        r is Err <==> {
            ||| exists|i: int, t: Seq<char>|
                0 <= i < docs@.len() && #[trigger] token_count(tokens[i], t) > u32::MAX
            ||| exists|t: Seq<char>| #[trigger] docs_with(tokens, t) > u32::MAX
            ||| Set::new(
                |t: Seq<char>|
                    exists|i: int| 0 <= i < tokens.len() && has_token(#[trigger] tokens[i], t),
            ).len() > 0x8000_0000
        },
        r matches Ok((model, data, indices, indptr)) ==> {
            let vocab = vocabulary(model.vocab);
            &&& model.analyzer == builder.analyzer
            &&& model.nmin == builder.nmin
            &&& model.nmax == builder.nmax
            &&& model.idf@.len() == model.n_cols
            &&& forall|t: Seq<char>| #[trigger]
                vocab.dom().contains(t) <==> exists|i: int|
                    0 <= i < tokens.len() && has_token(#[trigger] tokens[i], t)
            &&& forall|t: Seq<char>| #[trigger]
                vocab.dom().contains(t) ==> {
                    &&& 0 <= vocab[t] < model.n_cols
                    &&& is_idf_of(
                        docs@.len() as usize,
                        docs_with(tokens, t) as u32,
                        model.idf@[vocab[t] as int],
                    )
                }
            &&& forall|t: Seq<char>, u: Seq<char>|
                vocab.dom().contains(t) && vocab.dom().contains(u) && #[trigger] vocab[t]
                    == #[trigger] vocab[u] ==> t == u
            &&& forall|c: int| 0 <= c < model.n_cols ==> #[trigger] names_column(vocab, c)
            &&& data@.len() <= i64::MAX ==> {
                &&& indices@.len() == data@.len()
                &&& are_boundaries(indptr@, docs@.len() as int, data@.len() as int)
                &&& forall|i: int|
                    0 <= i < docs@.len() ==> has_row_of(
                        |c: usize| column_count(vocab, model.n_cols, #[trigger] tokens[i], c),
                        model.idf@,
                        slice_at(indices@, indptr@, i),
                        slice_at(data@, indptr@, i),
                    )
            }
        },
{
    let tokens = witness_learnt(*builder, tok, docs@, r);
    let tables = tallies(token_docs(tokens));
    assert forall|i: int| 0 <= i < docs@.len() implies is_tokens_of(
        tok,
        builder.analyzer,
        builder.nmin,
        builder.nmax,
        &docs@[i],
        #[trigger] tokens[i],
    ) by {}
    lemma_distinct_tokens(tokens);
    lemma_fit_limits(tokens);
    if let Ok((model, data, indices, indptr)) = r {
        law_fit_weighs_by_documents(tokens, model, data@, indices@, indptr@);
        law_fit_agrees_with_transform(token_docs(tokens), model, data@, indices@, indptr@);
        if data@.len() <= i64::MAX {
            law_transform_by_entry(
                tokens,
                vocabulary(model.vocab),
                model.n_cols,
                model.idf@,
                data@,
                indices@,
                indptr@,
            );
        }
    }
    tokens
}

/// Which counts outgrow their type.
pub proof fn lemma_fit_limits(tokens: Seq<Vec<String>>)
    ensures
        all_countable(token_docs(tokens)) <==> !(exists|i: int, t: Seq<char>|
            0 <= i < tokens.len() && #[trigger] token_count(tokens[i], t) > u32::MAX),
        doc_freqs_fit(tallies(token_docs(tokens))) <==> !(exists|t: Seq<char>| #[trigger]
            docs_with(tokens, t) > u32::MAX),
{
    let docs = token_docs(tokens);
    let tables = tallies(docs);
    assert forall|i: int, t: Seq<char>| 0 <= i < tokens.len() implies #[trigger] token_count(
        tokens[i],
        t,
    ) == occurrences(docs[i], t) by {
        lemma_token_count(tokens[i], t);
    }
    assert forall|t: Seq<char>| #[trigger] docs_with(tokens, t) == doc_freq(tables, t) by {
        lemma_docs_with_token(tokens, t);
    }
    if all_countable(docs) {
        assert forall|i: int, t: Seq<char>| 0 <= i < tokens.len() implies #[trigger] token_count(
            tokens[i],
            t,
        ) <= u32::MAX by {
            assert(countable(docs[i]));
            assert(occurrences(docs[i], t) <= u32::MAX);
        }
    } else {
        let i = choose|i: int| 0 <= i < docs.len() && !countable(#[trigger] docs[i]);
        let t = choose|t: Seq<char>| #[trigger] occurrences(docs[i], t) > u32::MAX;
        assert(token_count(tokens[i], t) > u32::MAX);
    }
    if doc_freqs_fit(tables) {
        assert forall|t: Seq<char>| #[trigger] docs_with(tokens, t) <= u32::MAX by {
            assert(doc_freq(tables, t) <= u32::MAX);
        }
    } else {
        let t = choose|t: Seq<char>| #[trigger] doc_freq(tables, t) > u32::MAX;
        assert(docs_with(tokens, t) > u32::MAX);
    }
}

/// What [`TfidfModel::transform_csr`] returns. Every document is cut into tokens by the function
/// of the model's analyzer. The transform fails, with `Internal`, exactly where more tokens of a
/// document have one column than a count can say. Else the rows hold the columns of each
/// document's known tokens, each once, with the number of tokens that have it times its weight,
/// scaled to unit length.
pub proof fn law_transform_csr_by_entry<T: Scalar, K: Tokenizer>(
    model: &TfidfModel<T>,
    tok: &K,
    docs: &[String],
    r: Result<(Vec<T>, Vec<i32>, Vec<i64>), Error>,
) -> (tokens: Seq<Vec<String>>)
    requires
        call_ensures(TfidfModel::<T>::transform_csr::<K>, (model, docs, tok), r),
    ensures
        tokens.len() == docs@.len(),
        forall|i: int|
            0 <= i < docs@.len() ==> match model.analyzer {
                Analyzer::Char => call_ensures(
                    K::char_ngrams,
                    (tok, &docs@[i], model.nmin, model.nmax),
                    #[trigger] tokens[i],
                ),
                Analyzer::Char_wb => call_ensures(
                    K::char_wb_ngrams,
                    (tok, &docs@[i], model.nmin, model.nmax),
                    tokens[i],
                ),
            },
        r matches Err(e) ==> e == Error::Internal,
        r is Err <==> exists|i: int, c: usize|
            0 <= i < docs@.len() && #[trigger] column_count(
                vocabulary(model.vocab),
                model.n_cols,
                tokens[i],
                c,
            ) > u32::MAX,
        r matches Ok((data, indices, indptr)) ==> {
            data@.len() <= i64::MAX ==> {
                &&& indices@.len() == data@.len()
                &&& are_boundaries(indptr@, docs@.len() as int, data@.len() as int)
                &&& forall|i: int|
                    0 <= i < docs@.len() ==> has_row_of(
                        |c: usize|
                            column_count(
                                vocabulary(model.vocab),
                                model.n_cols,
                                #[trigger] tokens[i],
                                c,
                            ),
                        model.idf@,
                        slice_at(indices@, indptr@, i),
                        slice_at(data@, indptr@, i),
                    )
            }
        },
{
    let tokens = witness_transformed(*model, tok, docs@, r);
    let vocab = vocabulary(model.vocab);
    assert forall|i: int| 0 <= i < docs@.len() implies is_tokens_of(
        tok,
        model.analyzer,
        model.nmin,
        model.nmax,
        &docs@[i],
        #[trigger] tokens[i],
    ) by {}
    assert forall|i: int, c: usize| 0 <= i < docs@.len() implies #[trigger] column_count(
        vocab,
        model.n_cols,
        tokens[i],
        c,
    ) == occurrences(known_columns(vocab, model.n_cols, token_docs(tokens)[i]), c) by {
        lemma_column_count(vocab, model.n_cols, tokens[i], c);
    }
    if known_countable(vocab, model.n_cols, token_docs(tokens)) {
        assert forall|i: int, c: usize| 0 <= i < docs@.len() implies #[trigger] column_count(
            vocab,
            model.n_cols,
            tokens[i],
            c,
        ) <= u32::MAX by {
            let known = known_columns(vocab, model.n_cols, token_docs(tokens)[i]);
            assert(countable(known));
            assert(occurrences(known, c) <= u32::MAX);
        }
    } else {
        let i = choose|i: int|
            0 <= i < docs@.len() && !countable(
                known_columns(vocab, model.n_cols, #[trigger] token_docs(tokens)[i]),
            );
        let c = choose|c: usize| #[trigger]
            occurrences(known_columns(vocab, model.n_cols, token_docs(tokens)[i]), c) > u32::MAX;
        assert(column_count(vocab, model.n_cols, tokens[i], c) > u32::MAX);
    }
    if let Ok((data, indices, indptr)) = r {
        if data@.len() <= i64::MAX {
            law_transform_by_entry(
                tokens,
                vocab,
                model.n_cols,
                model.idf@,
                data@,
                indices@,
                indptr@,
            );
        }
    }
    tokens
}

/// Which hashed documents a count can say.
pub proof fn lemma_hashed_counts(columns: Seq<Vec<usize>>)
    ensures
        all_countable(column_docs(columns)) <==> !(exists|i: int, c: usize|
            0 <= i < columns.len() && #[trigger] bucket_count(columns[i], c) > u32::MAX),
{
    let docs = column_docs(columns);
    assert forall|i: int, c: usize| 0 <= i < columns.len() implies #[trigger] bucket_count(
        columns[i],
        c,
    ) == occurrences(docs[i], c) by {
        lemma_bucket_count(columns[i], c);
    }
    if all_countable(docs) {
        assert forall|i: int, c: usize| 0 <= i < columns.len() implies #[trigger] bucket_count(
            columns[i],
            c,
        ) <= u32::MAX by {
            assert(countable(docs[i]));
            assert(occurrences(docs[i], c) <= u32::MAX);
        }
    } else {
        let i = choose|i: int| 0 <= i < docs.len() && !countable(#[trigger] docs[i]);
        let c = choose|c: usize| #[trigger] occurrences(docs[i], c) > u32::MAX;
        assert(bucket_count(columns[i], c) > u32::MAX);
    }
}

/// Which hashed documents fit.
pub proof fn lemma_hashed_limits(columns: Seq<Vec<usize>>, n_features: usize)
    ensures
        fit_columns(column_docs(columns), n_features) <==> !({
            ||| exists|i: int, j: int|
                0 <= i < columns.len() && 0 <= j < columns[i]@.len() && #[trigger] columns[i]@[j]
                    >= n_features
            ||| exists|i: int, c: usize|
                0 <= i < columns.len() && #[trigger] bucket_count(columns[i], c) > u32::MAX
        }),
        doc_freqs_fit(tallies(column_docs(columns))) <==> !(exists|c: usize| #[trigger]
            docs_in(columns, c) > u32::MAX),
{
    let docs = column_docs(columns);
    let tables = tallies(docs);
    lemma_hashed_counts(columns);
    assert forall|c: usize| #[trigger] docs_in(columns, c) == doc_freq(tables, c) by {
        lemma_docs_in(columns, c);
    }
    if columns_below(docs, n_features) {
        assert forall|i: int, j: int|
            0 <= i < columns.len() && 0 <= j < columns[i]@.len() implies #[trigger] columns[i]@[j]
            < n_features by {
            assert(docs[i][j] < n_features);
        }
    } else {
        let (i, j) = choose|i: int, j: int|
            0 <= i < docs.len() && 0 <= j < docs[i].len() && #[trigger] docs[i][j] >= n_features;
        assert(columns[i]@[j] >= n_features);
    }
    if doc_freqs_fit(tables) {
        assert forall|c: usize| #[trigger] docs_in(columns, c) <= u32::MAX by {
            assert(doc_freq(tables, c) <= u32::MAX);
        }
    } else {
        let c = choose|c: usize| #[trigger] doc_freq(tables, c) > u32::MAX;
        assert(docs_in(columns, c) > u32::MAX);
    }
}

/// What [`Builder::build_csr`] returns. Every document is cut into tokens by the analyzer's
/// function, and every token is put into one of `nfeat` buckets. Vectorising fails, with
/// `Internal`, exactly where a bucket does not exist, or occurs in a document, or in documents,
/// more often than a count can say. Else the weight of a bucket is `ln((1 + n) / (1 + d)) + 1`
/// for `n` documents of which `d` have a token in it, whatever the number of buckets; and the
/// rows hold the buckets of each document's tokens in increasing order, each with the number of
/// tokens in it times its weight, scaled to unit length.
pub proof fn law_build_csr_by_entry<T: Scalar, K: Tokenizer>(
    builder: &Builder,
    tok: &K,
    docs: &[String],
    r: Result<(Vec<T>, Vec<i32>, Vec<i64>, Vec<T>), Error>,
) -> (w: (Seq<Vec<String>>, Seq<Vec<usize>>))
    requires
        call_ensures(Builder::build_csr::<T, K>, (builder, docs, tok), r),
    ensures
        w.0.len() == docs@.len(),
        forall|i: int|
            0 <= i < docs@.len() ==> match builder.analyzer {
                Analyzer::Char => call_ensures(
                    K::char_ngrams,
                    (tok, &docs@[i], builder.nmin, builder.nmax),
                    #[trigger] w.0[i],
                ),
                Analyzer::Char_wb => call_ensures(
                    K::char_wb_ngrams,
                    (tok, &docs@[i], builder.nmin, builder.nmax),
                    w.0[i],
                ),
            },
        w.1.len() == docs@.len(),
        forall|i: int|
            0 <= i < docs@.len() ==> (#[trigger] w.1[i])@.len() == w.0[i]@.len(),
        forall|i: int, j: int|
            0 <= i < docs@.len() && 0 <= j < w.1[i]@.len() ==> call_ensures(
                K::bucket_id,
                (tok, &w.0[i]@[j], builder.nfeat),
                #[trigger] w.1[i]@[j],
            ),
        r matches Err(e) ==> e == Error::Internal,
        r is Err <==> {
            ||| exists|i: int, j: int|
                0 <= i < docs@.len() && 0 <= j < w.1[i]@.len() && #[trigger] w.1[i]@[j]
                    >= builder.nfeat
            ||| exists|i: int, c: usize|
                0 <= i < docs@.len() && #[trigger] bucket_count(w.1[i], c) > u32::MAX
            ||| exists|c: usize| #[trigger] docs_in(w.1, c) > u32::MAX
        },
        r matches Ok((data, indices, indptr, idf)) ==> {
            &&& idf@.len() == builder.nfeat
            &&& forall|c: usize|
                c < builder.nfeat ==> is_idf_of(
                    docs@.len() as usize,
                    docs_in(w.1, c) as u32,
                    #[trigger] idf@[c as int],
                )
            &&& data@.len() <= i64::MAX ==> {
                &&& indices@.len() == data@.len()
                &&& are_boundaries(indptr@, docs@.len() as int, data@.len() as int)
                &&& forall|i: int|
                    0 <= i < docs@.len() ==> has_sorted_row_of(
                        |c: usize| bucket_count(#[trigger] w.1[i], c),
                        idf@,
                        slice_at(indices@, indptr@, i),
                        slice_at(data@, indptr@, i),
                    )
            }
        },
{
    let (tokens, columns) = witness_vectorised(*builder, tok, docs@, r);
    lemma_hashed_tokens(*builder, tok, docs@, tokens, columns);
    lemma_hashed_limits(columns, builder.nfeat);
    if let Ok((data, indices, indptr, idf)) = r {
        law_build_weighs_by_documents(
            columns,
            builder.nfeat,
            data@,
            indices@,
            indptr@,
            idf@,
        );
        if data@.len() <= i64::MAX {
            law_hashed_rows_by_entry(columns, idf@, data@, indices@, indptr@);
        }
    }
    (tokens, columns)
}

/// What [`Builder::build_csr_with_idf`] returns where there is one weight for each bucket: what
/// [`Builder::build_csr`] returns, with the given weights. It fails, with `Internal`, exactly
/// where a bucket does not exist, or occurs in a document more often than a count can say.
pub proof fn law_build_csr_with_idf_by_entry<T: Scalar, K: Tokenizer>(
    builder: &Builder,
    tok: &K,
    docs: &[String],
    idf: &[T],
    r: Result<(Vec<T>, Vec<i32>, Vec<i64>), Error>,
) -> (w: (Seq<Vec<String>>, Seq<Vec<usize>>))
    requires
        idf@.len() == builder.nfeat,
        call_ensures(Builder::build_csr_with_idf::<T, K>, (builder, docs, idf, tok), r),
    ensures
        w.0.len() == docs@.len(),
        forall|i: int|
            0 <= i < docs@.len() ==> match builder.analyzer {
                Analyzer::Char => call_ensures(
                    K::char_ngrams,
                    (tok, &docs@[i], builder.nmin, builder.nmax),
                    #[trigger] w.0[i],
                ),
                Analyzer::Char_wb => call_ensures(
                    K::char_wb_ngrams,
                    (tok, &docs@[i], builder.nmin, builder.nmax),
                    w.0[i],
                ),
            },
        w.1.len() == docs@.len(),
        forall|i: int|
            0 <= i < docs@.len() ==> (#[trigger] w.1[i])@.len() == w.0[i]@.len(),
        forall|i: int, j: int|
            0 <= i < docs@.len() && 0 <= j < w.1[i]@.len() ==> call_ensures(
                K::bucket_id,
                (tok, &w.0[i]@[j], builder.nfeat),
                #[trigger] w.1[i]@[j],
            ),
        r matches Err(e) ==> e == Error::Internal,
        r is Err <==> {
            ||| exists|i: int, j: int|
                0 <= i < docs@.len() && 0 <= j < w.1[i]@.len() && #[trigger] w.1[i]@[j]
                    >= builder.nfeat
            ||| exists|i: int, c: usize|
                0 <= i < docs@.len() && #[trigger] bucket_count(w.1[i], c) > u32::MAX
        },
        r matches Ok((data, indices, indptr)) ==> {
            data@.len() <= i64::MAX ==> {
                &&& indices@.len() == data@.len()
                &&& are_boundaries(indptr@, docs@.len() as int, data@.len() as int)
                &&& forall|i: int|
                    0 <= i < docs@.len() ==> has_sorted_row_of(
                        |c: usize| bucket_count(#[trigger] w.1[i], c),
                        idf@,
                        slice_at(indices@, indptr@, i),
                        slice_at(data@, indptr@, i),
                    )
            }
        },
{
    let (tokens, columns) = witness_with_idf(*builder, tok, docs@, idf@, r);
    lemma_hashed_tokens(*builder, tok, docs@, tokens, columns);
    lemma_hashed_limits(columns, builder.nfeat);
    if let Ok((data, indices, indptr)) = r {
        if data@.len() <= i64::MAX {
            law_hashed_rows_by_entry(columns, idf@, data@, indices@, indptr@);
        }
    }
    (tokens, columns)
}

/// Which calls the tokens and the buckets came from.
proof fn lemma_hashed_tokens<K: Tokenizer>(
    builder: Builder,
    tok: &K,
    docs: Seq<String>,
    tokens: Seq<Vec<String>>,
    columns: Seq<Vec<usize>>,
)
    requires
        is_tokenized(tok, builder.analyzer, builder.nmin, builder.nmax, docs, tokens),
        is_hashed(tok, builder.nfeat, tokens, columns),
    ensures
        tokens.len() == docs.len(),
        forall|i: int|
            0 <= i < docs.len() ==> match builder.analyzer {
                Analyzer::Char => call_ensures(
                    K::char_ngrams,
                    (tok, &docs[i], builder.nmin, builder.nmax),
                    #[trigger] tokens[i],
                ),
                Analyzer::Char_wb => call_ensures(
                    K::char_wb_ngrams,
                    (tok, &docs[i], builder.nmin, builder.nmax),
                    tokens[i],
                ),
            },
        columns.len() == docs.len(),
        forall|i: int|
            0 <= i < docs.len() ==> (#[trigger] columns[i])@.len() == tokens[i]@.len(),
        forall|i: int, j: int|
            0 <= i < docs.len() && 0 <= j < columns[i]@.len() ==> call_ensures(
                K::bucket_id,
                (tok, &tokens[i]@[j], builder.nfeat),
                #[trigger] columns[i]@[j],
            ),
{
    assert forall|i: int| 0 <= i < docs.len() implies is_tokens_of(
        tok,
        builder.analyzer,
        builder.nmin,
        builder.nmax,
        &docs[i],
        #[trigger] tokens[i],
    ) by {}
    assert forall|i: int, j: int|
        0 <= i < docs.len() && 0 <= j < columns[i]@.len() implies call_ensures(
        K::bucket_id,
        (tok, &tokens[i]@[j], builder.nfeat),
        #[trigger] columns[i]@[j],
    ) by {
        assert(is_bucketed(tok, builder.nfeat, tokens[i]@, columns[i]@));
    }
}

/// Where there is not one weight for each bucket, nothing is vectorised.
pub proof fn law_build_csr_with_idf_needs_every_weight<T: Scalar, K: Tokenizer>(
    builder: &Builder,
    tok: &K,
    docs: &[String],
    idf: &[T],
    r: Result<(Vec<T>, Vec<i32>, Vec<i64>), Error>,
)
    requires
        idf@.len() != builder.nfeat,
        call_ensures(Builder::build_csr_with_idf::<T, K>, (builder, docs, idf, tok), r),
    ensures
        r == Err::<(Vec<T>, Vec<i32>, Vec<i64>), Error>(Error::Internal),
{
}

} // verus!
