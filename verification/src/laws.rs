//! What holds of vectorisation as a whole.

use vstd::prelude::*;
use vstd::seq_lib::lemma_flatten_concat;

use crate::counting::{countable, lemma_occurrences_positive, occurrences, tally};
use crate::csr::{lays_out, lemma_flatten_lens, stored_columns};
use crate::documents::{doc_freq, lemma_doc_freq_prefix, tallies};
use crate::hashed::{holds_sorted_rows, is_sorted_listing, is_sorted_row};
use crate::limits::all_countable;
use crate::rows::holds_rows;
use crate::scalar::{functional, is_count, is_exceeds, is_one, is_product, is_quotient, is_sqrt};
use crate::scalar::{is_zero, lemma_dot_unique, Scalar};
use crate::tables::{lists_entries, vocabulary};
use crate::text::{decimal, decimal_value, is_digit, parsed_usize};
use crate::threads::threads_asked_for;
use crate::vocab::{
    all_tokens, is_fitted, is_numbering, is_recount, known_columns, known_countable, known_tables,
    TfidfModel,
};
use crate::weights::{
    is_idf_at, is_inverse_root, is_normalized, is_scaled, is_sum_of_squares, is_term_weight,
    is_weighted_row,
};

verus! {

/// The columns of the tokens of a document, where every token has one.
proof fn lemma_known_columns(
    vocab: Map<Seq<char>, i32>,
    n_cols: usize,
    doc: Seq<Seq<char>>,
)
    requires
        is_numbering(vocab, n_cols as nat),
        forall|i: int| 0 <= i < doc.len() ==> vocab.dom().contains(#[trigger] doc[i]),
    ensures
        known_columns(vocab, n_cols, doc) == Seq::new(
            doc.len(),
            |i: int| vocab[doc[i]] as usize,
        ),
    decreases doc.len(),
{
    let mapped = Seq::new(doc.len(), |i: int| vocab[doc[i]] as usize);
    if doc.len() == 0 {
        assert(known_columns(vocab, n_cols, doc) =~= mapped);
    } else {
        let shorter = doc.drop_last();
        assert forall|i: int| 0 <= i < shorter.len() implies vocab.dom().contains(
            #[trigger] shorter[i],
        ) by {
            assert(shorter[i] == doc[i]);
        }
        lemma_known_columns(vocab, n_cols, shorter);
        let t = doc.last();
        assert(t == doc[doc.len() - 1]);
        assert(vocab.dom().contains(t));
        assert(0 <= vocab[t] < n_cols);
        assert(known_columns(vocab, n_cols, doc) =~= mapped);
    }
}

/// A column occurs as often as its token.
proof fn lemma_known_occurrences(
    vocab: Map<Seq<char>, i32>,
    n_cols: usize,
    doc: Seq<Seq<char>>,
    t: Seq<char>,
)
    requires
        is_numbering(vocab, n_cols as nat),
        forall|i: int| 0 <= i < doc.len() ==> vocab.dom().contains(#[trigger] doc[i]),
        vocab.dom().contains(t),
    ensures
        occurrences(known_columns(vocab, n_cols, doc), vocab[t] as usize) == occurrences(doc, t),
    decreases doc.len(),
{
    if doc.len() > 0 {
        let shorter = doc.drop_last();
        assert forall|i: int| 0 <= i < shorter.len() implies vocab.dom().contains(
            #[trigger] shorter[i],
        ) by {
            assert(shorter[i] == doc[i]);
        }
        lemma_known_occurrences(vocab, n_cols, shorter, t);
        let u = doc.last();
        assert(u == doc[doc.len() - 1]);
        assert(vocab.dom().contains(u));
        assert(0 <= vocab[u] < n_cols && 0 <= vocab[t] < n_cols);
        let columns = known_columns(vocab, n_cols, doc);
        assert(columns.drop_last() =~= known_columns(vocab, n_cols, shorter));
        assert(columns.last() == vocab[u] as usize);
        if vocab[u] == vocab[t] {
            assert(u == t);
        }
    }
}

/// Recounting a document by columns is counting its columns.
proof fn lemma_recount_is_tally(
    vocab: Map<Seq<char>, i32>,
    n_cols: usize,
    doc: Seq<Seq<char>>,
    counts: Map<usize, u32>,
)
    requires
        is_numbering(vocab, n_cols as nat),
        forall|i: int| 0 <= i < doc.len() ==> vocab.dom().contains(#[trigger] doc[i]),
        is_recount(vocab, tally(doc), counts),
    ensures
        counts == tally(known_columns(vocab, n_cols, doc)),
{
    let columns = known_columns(vocab, n_cols, doc);
    lemma_known_columns(vocab, n_cols, doc);
    assert forall|c: usize| #[trigger] counts.dom().contains(c) <==> columns.contains(c) by {
        if counts.dom().contains(c) {
            let t = choose|t: Seq<char>| #[trigger]
                tally(doc).dom().contains(t) && vocab[t] == c;
            let i = choose|i: int| 0 <= i < doc.len() && doc[i] == t;
            assert(columns[i] == c);
        }
        if columns.contains(c) {
            let i = choose|i: int| 0 <= i < columns.len() && columns[i] == c;
            assert(vocab.dom().contains(doc[i]));
            assert(tally(doc).dom().contains(doc[i]));
        }
    }
    assert forall|c: usize| #[trigger] counts.dom().contains(c) implies counts[c] == occurrences(
        columns,
        c,
    ) as u32 by {
        let t = choose|t: Seq<char>| #[trigger] tally(doc).dom().contains(t) && vocab[t] == c;
        lemma_known_occurrences(vocab, n_cols, doc, t);
    }
    assert(counts =~= tally(columns));
}

/// Fitting and transforming agree: what fitting returns for its documents is what the fitted
/// model may return when it transforms them, and it accepts them.
pub proof fn law_fit_agrees_with_transform<T: Scalar>(
    docs: Seq<Seq<Seq<char>>>,
    model: TfidfModel<T>,
    data: Seq<T>,
    indices: Seq<i32>,
    indptr: Seq<i64>,
)
    requires
        is_fitted(tallies(docs), model, data, indices, indptr),
        all_countable(docs),
    ensures
        holds_rows(
            known_tables(vocabulary(model.vocab), model.n_cols, docs),
            model.idf@,
            data,
            indices,
            indptr,
        ),
        known_countable(vocabulary(model.vocab), model.n_cols, docs),
{
    let vocab = vocabulary(model.vocab);
    let n_cols = model.n_cols;
    let tables = tallies(docs);
    let counts = choose|counts: Seq<Map<usize, u32>>|
        {
            &&& counts.len() == tables.len()
            &&& forall|i: int|
                0 <= i < tables.len() ==> is_recount(vocab, tables[i], #[trigger] counts[i])
            &&& #[trigger] holds_rows(counts, model.idf@, data, indices, indptr)
        };
    assert forall|i: int, j: int|
        0 <= i < docs.len() && 0 <= j < docs[i].len() implies vocab.dom().contains(
        #[trigger] docs[i][j],
    ) by {
        assert(tables[i].dom().contains(docs[i][j]));
        assert(all_tokens(tables).contains(docs[i][j]));
    }
    assert forall|i: int| 0 <= i < docs.len() implies #[trigger] counts[i] == tally(
        known_columns(vocab, n_cols, docs[i]),
    ) by {
        assert(is_recount(vocab, tables[i], counts[i]));
        lemma_recount_is_tally(vocab, n_cols, docs[i], counts[i]);
    }
    assert(counts =~= known_tables(vocab, n_cols, docs));
    assert forall|i: int| 0 <= i < docs.len() implies countable(
        known_columns(vocab, n_cols, #[trigger] docs[i]),
    ) by {
        let doc = docs[i];
        let columns = known_columns(vocab, n_cols, doc);
        lemma_known_columns(vocab, n_cols, doc);
        assert forall|c: usize| #[trigger] occurrences(columns, c) <= u32::MAX by {
            lemma_occurrences_positive(columns, c);
            if columns.contains(c) {
                let j = choose|j: int| 0 <= j < columns.len() && columns[j] == c;
                assert(vocab.dom().contains(docs[i][j]));
                lemma_known_occurrences(vocab, n_cols, doc, doc[j]);
                assert(occurrences(doc, doc[j]) <= u32::MAX);
            }
        }
    }
}

/// A token of the documents is in at least one of them, and in no more than there are.
pub proof fn law_doc_freq_range<K>(tables: Seq<Map<K, u32>>, i: int, k: K)
    requires
        0 <= i < tables.len(),
        tables[i].dom().contains(k),
    ensures
        1 <= doc_freq(tables, k) <= tables.len(),
    decreases tables.len(),
{
    lemma_doc_freq_prefix(tables, tables.len() as int, k);
    if i < tables.len() - 1 {
        let shorter = tables.drop_last();
        assert(shorter[i] == tables[i]);
        law_doc_freq_range(shorter, i, k);
    }
}

/// Counts do not depend on the order of a document: two documents with the same items the
/// same number of times have the same counts.
pub proof fn law_counts_ignore_order<A>(a: Seq<A>, b: Seq<A>)
    requires
        a.to_multiset() == b.to_multiset(),
    ensures
        tally(a) == tally(b),
{
    assert forall|x: A| #[trigger] occurrences(a, x) == occurrences(b, x) by {
        lemma_occurrences_is_count(a, x);
        lemma_occurrences_is_count(b, x);
    }
    assert forall|x: A| #[trigger] a.contains(x) <==> b.contains(x) by {
        lemma_occurrences_positive(a, x);
        lemma_occurrences_positive(b, x);
        assert(occurrences(a, x) == occurrences(b, x));
    }
    assert(tally(a) =~= tally(b));
}

/// Occurrences are what a multiset counts.
pub proof fn lemma_occurrences_is_count<A>(s: Seq<A>, a: A)
    ensures
        occurrences(s, a) == s.to_multiset().count(a),
    decreases s.len(),
{
    broadcast use vstd::seq_lib::group_to_multiset_ensures;
    broadcast use vstd::multiset::group_multiset_axioms;

    if s.len() > 0 {
        lemma_occurrences_is_count(s.drop_last(), a);
        assert(s =~= s.drop_last().push(s.last()));
    } else {
        assert(!s.contains(a));
        assert(s.to_multiset().count(a) == 0);
    }
}

/// Tokens without a column are passed over: leaving them out changes nothing.
pub proof fn law_unknown_tokens_are_ignored(
    vocab: Map<Seq<char>, i32>,
    n_cols: usize,
    doc: Seq<Seq<char>>,
)
    ensures
        known_columns(vocab, n_cols, doc) == known_columns(
            vocab,
            n_cols,
            doc.filter(|t: Seq<char>| vocab.dom().contains(t)),
        ),
    decreases doc.len(),
{
    reveal(Seq::filter);
    let known = |t: Seq<char>| vocab.dom().contains(t);
    if doc.len() > 0 {
        let shorter = doc.drop_last();
        law_unknown_tokens_are_ignored(vocab, n_cols, shorter);
        let t = doc.last();
        if known(t) {
            assert(doc.filter(known) == shorter.filter(known).push(t));
            assert(doc.filter(known).drop_last() =~= shorter.filter(known));
        }
    }
}

/// Every column that a transform stores is below the number of columns.
pub proof fn law_columns_in_range(
    vocab: Map<Seq<char>, i32>,
    n_cols: usize,
    doc: Seq<Seq<char>>,
    items: Seq<(usize, u32)>,
)
    requires
        lists_entries(items, tally(known_columns(vocab, n_cols, doc))),
        n_cols <= 0x8000_0000,
    ensures
        forall|j: int|
            0 <= j < items.len() ==> 0 <= #[trigger] stored_columns(items)[j] < n_cols,
{
    assert forall|j: int| 0 <= j < items.len() implies 0 <= #[trigger] stored_columns(items)[j]
        < n_cols by {
        let columns = known_columns(vocab, n_cols, doc);
        assert(columns.contains(items[j].0));
        lemma_known_below(vocab, n_cols, doc, items[j].0);
    }
}

/// A known column is below the number of columns.
proof fn lemma_known_below(
    vocab: Map<Seq<char>, i32>,
    n_cols: usize,
    doc: Seq<Seq<char>>,
    c: usize,
)
    requires
        known_columns(vocab, n_cols, doc).contains(c),
    ensures
        c < n_cols,
    decreases doc.len(),
{
    if doc.len() > 0 {
        let columns = known_columns(vocab, n_cols, doc);
        let before = known_columns(vocab, n_cols, doc.drop_last());
        let j = choose|j: int| 0 <= j < columns.len() && columns[j] == c;
        if j < before.len() {
            assert(before[j] == c);
            lemma_known_below(vocab, n_cols, doc.drop_last(), c);
        }
    }
}

/// The rows up to one more are those before it, and then it.
proof fn lemma_flatten_take<A>(rows: Seq<Seq<A>>, i: int)
    requires
        0 <= i < rows.len(),
    ensures
        rows.take(i + 1).flatten() == rows.take(i).flatten() + rows[i],
        rows.flatten() == rows.take(i + 1).flatten() + rows.skip(i + 1).flatten(),
{
    rows.take(i).lemma_flatten_push(rows[i]);
    assert(rows.take(i).push(rows[i]) =~= rows.take(i + 1));
    lemma_flatten_concat(rows.take(i + 1), rows.skip(i + 1));
    assert(rows.take(i + 1) + rows.skip(i + 1) =~= rows);
}

/// The row boundaries start at zero, never go down and end at the number of entries, and
/// between two neighbours stand the columns and the values of one row. (Of arrays whose
/// length the type of a boundary can say.)
pub proof fn law_rows_are_slices<T>(
    data: Seq<T>,
    indices: Seq<i32>,
    indptr: Seq<i64>,
    columns: Seq<Seq<i32>>,
    values: Seq<Seq<T>>,
)
    requires
        lays_out(data, indices, indptr, columns, values),
        data.len() <= i64::MAX,
    ensures
        data.len() == indices.len(),
        indptr[0] == 0,
        indptr[columns.len() as int] == data.len(),
        forall|i: int|
            0 <= i < columns.len() ==> {
                &&& 0 <= #[trigger] indptr[i] <= indptr[i + 1] <= data.len()
                &&& indices.subrange(indptr[i] as int, indptr[i + 1] as int) == columns[i]
                &&& data.subrange(indptr[i] as int, indptr[i + 1] as int) == values[i]
            },
{
    lemma_flatten_lens(columns, values);
    assert(columns.take(0) =~= Seq::empty());
    assert(columns.take(columns.len() as int) =~= columns);
    assert(indptr[0] == columns.take(0).flatten().len() as i64);
    assert(indptr[columns.len() as int] == columns.take(columns.len() as int).flatten().len()
        as i64);
    assert forall|i: int| 0 <= i < columns.len() implies {
        &&& 0 <= #[trigger] indptr[i] <= indptr[i + 1] <= data.len()
        &&& indices.subrange(indptr[i] as int, indptr[i + 1] as int) == columns[i]
        &&& data.subrange(indptr[i] as int, indptr[i + 1] as int) == values[i]
    } by {
        lemma_flatten_take(columns, i);
        lemma_flatten_take(values, i);
        assert forall|l: int| 0 <= l < i implies (#[trigger] columns.take(i)[l]).len() == (
        #[trigger] values.take(i)[l]).len() by {
            assert(columns[l].len() == values[l].len());
        }
        lemma_flatten_lens(columns.take(i), values.take(i));
        assert(columns[i].len() == values[i].len());
        let start = columns.take(i).flatten().len() as int;
        let end = columns.take(i + 1).flatten().len() as int;
        assert(indptr[i] == start as i64);
        assert(indptr[i + 1] == end as i64);
        assert(indices.subrange(start, end) =~= columns[i]);
        assert(data.subrange(start, end) =~= values[i]);
    }
}

/// Two sorted listings of one table agree on their first `n` columns.
proof fn lemma_sorted_listings_agree(
    table: Map<usize, u32>,
    a: Seq<(usize, u32)>,
    b: Seq<(usize, u32)>,
    n: int,
)
    requires
        is_sorted_listing(table, a),
        is_sorted_listing(table, b),
        0 <= n <= a.len(),
    ensures
        n <= b.len(),
        forall|l: int| 0 <= l < n ==> a[l] == b[l],
    decreases n,
{
    if n > 0 {
        lemma_sorted_listings_agree(table, a, b, n - 1);
        let i = n - 1;
        assert(table.dom().contains(a[i].0));
        let j = choose|j: int| 0 <= j < b.len() && (#[trigger] b[j]).0 == a[i].0;
        if j < i {
            assert(a[j].0 < a[i].0);
            assert(a[j] == b[j]);
        }
        assert(table.dom().contains(b[i].0));
        let q = choose|q: int| 0 <= q < a.len() && (#[trigger] a[q]).0 == b[i].0;
        if q < i {
            assert(a[q] == b[q]);
            assert(b[q].0 < b[i].0);
        }
        assert(a[i].0 <= b[i].0) by {
            if i < q {
                assert(a[i].0 < a[q].0);
            }
        }
        assert(b[i].0 <= a[i].0) by {
            if i < j {
                assert(b[i].0 < b[j].0);
            }
        }
    }
}

/// A table has one sorted listing.
pub proof fn law_sorted_listing_is_unique(
    table: Map<usize, u32>,
    a: Seq<(usize, u32)>,
    b: Seq<(usize, u32)>,
)
    requires
        is_sorted_listing(table, a),
        is_sorted_listing(table, b),
    ensures
        a == b,
{
    lemma_sorted_listings_agree(table, a, b, a.len() as int);
    lemma_sorted_listings_agree(table, b, a, b.len() as int);
    assert(a =~= b);
}

/// Where the operations are functions, an item has one weight.
pub proof fn lemma_term_weight_unique<T: Scalar>(idf: Seq<T>, item: (usize, u32), r1: T, r2: T)
    requires
        functional::<T>(),
        is_term_weight(idf, item, r1),
        is_term_weight(idf, item, r2),
    ensures
        r1 == r2,
{
    let (tf1, w1) = choose|tf: T, w: T| #[trigger]
        is_count(item.1, tf) && is_idf_at(idf, item.0, w) && #[trigger] is_product(tf, w, r1);
    let (tf2, w2) = choose|tf: T, w: T| #[trigger]
        is_count(item.1, tf) && is_idf_at(idf, item.0, w) && #[trigger] is_product(tf, w, r2);
    assert(tf1 == tf2);
    assert(w1 == w2);
}

/// Where the operations are functions, two rows with one sum of squares normalise equal
/// entries alike.
pub proof fn lemma_normalized_alike<T: Scalar>(
    raw1: Seq<T>,
    raw2: Seq<T>,
    a: Seq<T>,
    b: Seq<T>,
    j1: int,
    j2: int,
)
    requires
        functional::<T>(),
        forall|m: T, n: T| #[trigger]
            is_sum_of_squares(raw1, m) && #[trigger] is_sum_of_squares(raw2, n) ==> m == n,
        is_normalized(raw1, a),
        is_normalized(raw2, b),
        0 <= j1 < raw1.len(),
        0 <= j2 < raw2.len(),
        raw1[j1] == raw2[j2],
    ensures
        a.len() == raw1.len(),
        b.len() == raw2.len(),
        a[j1] == b[j2],
{
    let (n1, z1, p1) = choose|norm: T, nought: T, positive: bool|
        is_sum_of_squares(raw1, norm) && is_zero(nought) && #[trigger] is_exceeds(
            norm,
            nought,
            positive,
        ) && if positive {
            exists|scale: T| is_inverse_root(norm, scale) && #[trigger] is_scaled(raw1, scale, a)
        } else {
            a == raw1
        };
    let (n2, z2, p2) = choose|norm: T, nought: T, positive: bool|
        is_sum_of_squares(raw2, norm) && is_zero(nought) && #[trigger] is_exceeds(
            norm,
            nought,
            positive,
        ) && if positive {
            exists|scale: T| is_inverse_root(norm, scale) && #[trigger] is_scaled(raw2, scale, b)
        } else {
            b == raw2
        };
    assert(n1 == n2);
    assert(z1 == z2);
    assert(p1 == p2);
    if p1 {
        let s1 = choose|scale: T|
            is_inverse_root(n1, scale) && #[trigger] is_scaled(raw1, scale, a);
        let s2 = choose|scale: T|
            is_inverse_root(n2, scale) && #[trigger] is_scaled(raw2, scale, b);
        let (o1, r1) = choose|one: T, root: T|
            is_one(one) && #[trigger] is_sqrt(n1, root) && #[trigger] is_quotient(one, root, s1);
        let (o2, r2) = choose|one: T, root: T|
            is_one(one) && #[trigger] is_sqrt(n2, root) && #[trigger] is_quotient(one, root, s2);
        assert(o1 == o2);
        assert(r1 == r2);
        assert(s1 == s2);
        assert(is_product(raw1[j1], s1, a[j1]));
        assert(is_product(raw2[j2], s2, b[j2]));
    }
}

/// A normalised row is as long as before.
pub proof fn lemma_normalized_len<T: Scalar>(raw: Seq<T>, out: Seq<T>)
    requires
        is_normalized(raw, out),
    ensures
        out.len() == raw.len(),
{
}

/// Where the operations are functions, the items of a row determine its values.
pub proof fn law_row_values_are_determined<T: Scalar>(
    idf: Seq<T>,
    items: Seq<(usize, u32)>,
    a: Seq<T>,
    b: Seq<T>,
)
    requires
        functional::<T>(),
        is_weighted_row(idf, items, a),
        is_weighted_row(idf, items, b),
    ensures
        a == b,
{
    let raw1 = choose|raw: Seq<T>|
        {
            &&& raw.len() == items.len()
            &&& forall|j: int|
                0 <= j < items.len() ==> is_term_weight(idf, items[j], #[trigger] raw[j])
            &&& #[trigger] is_normalized(raw, a)
        };
    let raw2 = choose|raw: Seq<T>|
        {
            &&& raw.len() == items.len()
            &&& forall|j: int|
                0 <= j < items.len() ==> is_term_weight(idf, items[j], #[trigger] raw[j])
            &&& #[trigger] is_normalized(raw, b)
        };
    assert forall|j: int| 0 <= j < items.len() implies raw1[j] == raw2[j] by {
        lemma_term_weight_unique(idf, items[j], raw1[j], raw2[j]);
    }
    assert(raw1 =~= raw2);
    lemma_normalized_len(raw1, a);
    lemma_normalized_len(raw2, b);
    assert forall|m: T, n: T| #[trigger] is_sum_of_squares(raw1, m) && #[trigger] is_sum_of_squares(
        raw2,
        n,
    ) implies m == n by {
        lemma_dot_unique(raw1, raw1, m, n);
    }
    assert forall|j: int| 0 <= j < a.len() implies a[j] == b[j] by {
        lemma_normalized_alike(raw1, raw2, a, b, j, j);
    }
    assert(a =~= b);
}

/// Hashed vectorisation is reproducible: the documents and the inverse document frequencies
/// determine the columns and the row boundaries, and, where the operations are functions,
/// the values. So vectorising again with the frequencies that a first run returned gives
/// back what the first run gave.
pub proof fn law_hashed_rows_are_determined<T: Scalar>(
    tables: Seq<Map<usize, u32>>,
    idf: Seq<T>,
    data1: Seq<T>,
    indices1: Seq<i32>,
    indptr1: Seq<i64>,
    data2: Seq<T>,
    indices2: Seq<i32>,
    indptr2: Seq<i64>,
)
    requires
        holds_sorted_rows(tables, idf, data1, indices1, indptr1),
        holds_sorted_rows(tables, idf, data2, indices2, indptr2),
    ensures
        indices1 == indices2,
        indptr1 == indptr2,
        functional::<T>() ==> data1 == data2,
{
    let (c1, v1) = choose|columns: Seq<Seq<i32>>, values: Seq<Seq<T>>|
        #![trigger lays_out(data1, indices1, indptr1, columns, values)]
        {
            &&& lays_out(data1, indices1, indptr1, columns, values)
            &&& columns.len() == tables.len()
            &&& forall|i: int|
                0 <= i < tables.len() ==> is_sorted_row(
                    #[trigger] tables[i],
                    idf,
                    columns[i],
                    values[i],
                )
        };
    let (c2, v2) = choose|columns: Seq<Seq<i32>>, values: Seq<Seq<T>>|
        #![trigger lays_out(data2, indices2, indptr2, columns, values)]
        {
            &&& lays_out(data2, indices2, indptr2, columns, values)
            &&& columns.len() == tables.len()
            &&& forall|i: int|
                0 <= i < tables.len() ==> is_sorted_row(
                    #[trigger] tables[i],
                    idf,
                    columns[i],
                    values[i],
                )
        };
    assert forall|i: int| 0 <= i < tables.len() implies c1[i] == c2[i] && (functional::<T>()
        ==> v1[i] == v2[i]) by {
        let table = tables[i];
        let i1 = choose|items: Seq<(usize, u32)>|
            is_sorted_listing(table, items) && c1[i] == stored_columns(items)
                && #[trigger] is_weighted_row(idf, items, v1[i]);
        let i2 = choose|items: Seq<(usize, u32)>|
            is_sorted_listing(table, items) && c2[i] == stored_columns(items)
                && #[trigger] is_weighted_row(idf, items, v2[i]);
        law_sorted_listing_is_unique(table, i1, i2);
        if functional::<T>() {
            law_row_values_are_determined(idf, i1, v1[i], v2[i]);
        }
    }
    assert(c1 =~= c2);
    assert forall|i: int| 0 <= i < indptr1.len() implies indptr1[i] == indptr2[i] by {
        assert(indptr1[i] == c1.take(i).flatten().len() as i64);
        assert(indptr2[i] == c2.take(i).flatten().len() as i64);
    }
    assert(indptr1 =~= indptr2);
    if functional::<T>() {
        assert forall|i: int| 0 <= i < tables.len() implies v1[i] == v2[i] by {
            assert(c1[i] == c2[i]);
        }
        assert(v1 =~= v2);
    }
}

/// A number in decimal is made of digits, and they write the number.
proof fn lemma_decimal_digits(n: nat)
    ensures
        decimal(n).len() > 0,
        forall|i: int| 0 <= i < decimal(n).len() ==> is_digit(#[trigger] decimal(n)[i]),
        decimal_value(decimal(n)) == n,
    decreases n,
{
    let d = decimal(n);
    if n < 10 {
        assert(d.drop_last() =~= Seq::empty());
        assert(decimal_value(d.drop_last()) == 0);
    } else {
        lemma_decimal_digits(n / 10);
        let before = decimal(n / 10);
        assert(d.drop_last() =~= before);
        assert forall|i: int| 0 <= i < d.len() implies is_digit(#[trigger] d[i]) by {
            if i < before.len() {
                assert(d[i] == before[i]);
            }
        }
    }
}

/// Writing a number in decimal and reading it gives the number back.
pub proof fn law_decimal_is_read_back(n: usize)
    ensures
        parsed_usize(decimal(n as nat)) == Some(n),
        threads_asked_for(Some(decimal(n as nat))) == n,
{
    lemma_decimal_digits(n as nat);
    assert(is_digit(decimal(n as nat)[0]));
}

} // verus!
