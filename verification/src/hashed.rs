//! TF-IDF over hashed columns: a document is the list of the buckets of its tokens.

use ahash::AHashMap;
use vstd::prelude::*;
use vstd::string::StringExecFns;

use crate::counting::{count_columns, tally};
use crate::csr::{lays_out, lemma_lays_out_push, stored_columns, CsrParts};
use crate::documents::{
    column_docs, doc_freq, lemma_doc_freq_prefix, lemma_doc_freq_step, tallies,
};
use crate::limits::{
    all_countable, column_doc_freqs_fit, column_docs_countable, doc_freqs_fit,
};
use crate::rows::column_tables;
use crate::scalar::Scalar;
use crate::tables::{column_counts, columns_items, lists_entries};
use crate::tfidf::{check_settings, checked_settings, Error};
use crate::text::{decimal, push_decimal};
use crate::tokenize::{bucket_documents, is_hashed, is_tokenized, tokenize_documents};
use crate::tokenize::{Analyzer, Tokenizer};
use crate::weights::{is_smoothed_idf, is_weighted_row, smoothed_idfs};

verus! {

/// `items` are the entries of a table in increasing order of their columns.
pub open spec fn is_sorted_listing(table: Map<usize, u32>, items: Seq<(usize, u32)>) -> bool {
    &&& lists_entries(items, table)
    &&& forall|i: int, j: int|
        0 <= i < j < items.len() ==> (#[trigger] items[i]).0 < (#[trigger] items[j]).0
}

/// One sparse row: the sorted columns of a table and their normalised weights.
pub open spec fn is_sorted_row<T: Scalar>(
    table: Map<usize, u32>,
    idf: Seq<T>,
    columns: Seq<i32>,
    values: Seq<T>,
) -> bool {
    exists|items: Seq<(usize, u32)>|
        is_sorted_listing(table, items) && columns == stored_columns(items)
            && #[trigger] is_weighted_row(idf, items, values)
}

/// The three arrays hold one row for each table.
pub open spec fn holds_sorted_rows<T: Scalar>(
    tables: Seq<Map<usize, u32>>,
    idf: Seq<T>,
    data: Seq<T>,
    indices: Seq<i32>,
    indptr: Seq<i64>,
) -> bool {
    exists|columns: Seq<Seq<i32>>, values: Seq<Seq<T>>|
        #![trigger lays_out(data, indices, indptr, columns, values)]
        {
            &&& lays_out(data, indices, indptr, columns, values)
            &&& columns.len() == tables.len()
            &&& forall|i: int|
                0 <= i < tables.len() ==> is_sorted_row(
                    #[trigger] tables[i],
                    idf,
                    columns[i],
                    values[i],
                )
        }
}

/// Every column of every document exists.
pub open spec fn columns_below(docs: Seq<Seq<usize>>, n_features: usize) -> bool {
    forall|i: int, j: int|
        0 <= i < docs.len() && 0 <= j < docs[i].len() ==> #[trigger] docs[i][j] < n_features
}

/// The documents fit: every column exists, and no count outgrows its type.
pub open spec fn fit_columns(docs: Seq<Seq<usize>>, n_features: usize) -> bool {
    columns_below(docs, n_features) && all_countable(docs)
}

/// What vectorising the documents gives: the smoothed inverse document frequency of every
/// column, and one sparse row for each document.
pub open spec fn is_built<T: Scalar>(
    docs: Seq<Seq<usize>>,
    n_features: usize,
    data: Seq<T>,
    indices: Seq<i32>,
    indptr: Seq<i64>,
    idf: Seq<T>,
) -> bool {
    &&& idf.len() == n_features
    &&& forall|c: usize|
        c < n_features ==> is_smoothed_idf(
            docs.len() as usize,
            doc_freq(tallies(docs), c) as u32,
            #[trigger] idf[c as int],
        )
    &&& holds_sorted_rows(tallies(docs), idf, data, indices, indptr)
}

/// Whether a column is among the items.
pub open spec fn has_column(items: Seq<(usize, u32)>, column: usize) -> bool {
    exists|l: int| 0 <= l < items.len() && (#[trigger] items[l]).0 == column
}

/// `slice::sort_by_key` with the column as the key: the same items, ordered by column.
#[verifier::external_body]
fn sort_by_column(items: &mut Vec<(usize, u32)>)
    ensures
        final(items)@.to_multiset() == old(items)@.to_multiset(),
        forall|i: int, j: int|
            0 <= i < j < final(items)@.len() ==> (#[trigger] final(items)@[i]).0 <= (
            #[trigger] final(items)@[j]).0,
{
    items.sort_by_key(|item| item.0);
}

/// A reordered list of entries still lists them.
proof fn lemma_reordered_entries<K, V>(a: Seq<(K, V)>, b: Seq<(K, V)>, m: Map<K, V>)
    requires
        lists_entries(a, m),
        a.to_multiset() == b.to_multiset(),
    ensures
        lists_entries(b, m),
        b.len() == a.len(),
{
    broadcast use vstd::seq_lib::group_to_multiset_ensures;

    assert(a.no_duplicates());
    a.lemma_multiset_has_no_duplicates();
    b.lemma_multiset_has_no_duplicates_conv();
    assert(a.to_multiset().len() == a.len());
    assert(b.to_multiset().len() == b.len());
    assert forall|i: int| 0 <= i < b.len() implies m.dom().contains((#[trigger] b[i]).0)
        && m[b[i].0] == b[i].1 by {
        assert(b.contains(b[i]));
        assert(b.to_multiset().count(b[i]) > 0);
        assert(a.contains(b[i]));
        let l = choose|l: int| 0 <= l < a.len() && a[l] == b[i];
        assert(m.dom().contains(a[l].0));
    }
    assert forall|i: int, j: int| 0 <= i < j < b.len() implies (#[trigger] b[i]).0 != (
    #[trigger] b[j]).0 by {
        if b[i].0 == b[j].0 {
            assert(b[i] == b[j]);
        }
    }
    assert forall|k: K| #[trigger] m.dom().contains(k) implies exists|i: int|
        0 <= i < b.len() && (#[trigger] b[i]).0 == k by {
        let l = choose|l: int| 0 <= l < a.len() && (#[trigger] a[l]).0 == k;
        assert(a.contains(a[l]));
        assert(a.to_multiset().count(a[l]) > 0);
        assert(b.contains(a[l]));
        let i = choose|i: int| 0 <= i < b.len() && b[i] == a[l];
        assert(b[i].0 == k);
    }
}

/// The entries of a table in increasing order of their columns.
pub fn sorted_items(table: &AHashMap<usize, u32>) -> (items: Vec<(usize, u32)>)
    ensures
        is_sorted_listing(column_counts(*table), items@),
{
    let mut items: Vec<(usize, u32)> = columns_items(table);
    let ghost unsorted = items@;
    sort_by_column(&mut items);
    proof {
        lemma_reordered_entries(unsorted, items@, column_counts(*table));
    }
    items
}

/// Counts one more document for every column among its items.
fn count_document(df: &mut Vec<u32>, items: &[(usize, u32)])
    requires
        forall|l: int|
            0 <= l < items@.len() ==> (#[trigger] items@[l]).0 < old(df)@.len()
                && old(df)@[items@[l].0 as int] < u32::MAX,
        forall|i: int, j: int|
            0 <= i < j < items@.len() ==> (#[trigger] items@[i]).0 != (#[trigger] items@[j]).0,
    ensures
        final(df)@.len() == old(df)@.len(),
        forall|c: usize|
            c < old(df)@.len() ==> #[trigger] final(df)@[c as int] == old(df)@[c as int] + (
            if has_column(items@, c) {
                1int
            } else {
                0
            }),
{
    let mut l: usize = 0;
    while l < items.len()
        invariant
            l <= items@.len(),
            df@.len() == old(df)@.len(),
            forall|l: int|
                0 <= l < items@.len() ==> (#[trigger] items@[l]).0 < old(df)@.len()
                    && old(df)@[items@[l].0 as int] < u32::MAX,
            forall|i: int, j: int|
                0 <= i < j < items@.len() ==> (#[trigger] items@[i]).0 != (#[trigger] items@[j]).0,
            forall|c: usize|
                c < df@.len() ==> #[trigger] df@[c as int] == old(df)@[c as int] + if has_column(
                    items@.take(l as int),
                    c,
                ) {
                    1int
                } else {
                    0
                },
        decreases items@.len() - l,
    {
        let column: usize = items[l].0;
        let ghost before = df@;
        proof {
            assert(items@[l as int].0 == column);
            assert forall|c: usize| #[trigger]
                has_column(items@.take(l + 1), c) <==> has_column(items@.take(l as int), c) || c
                    == column by {
                let shorter = items@.take(l as int);
                let longer = items@.take(l + 1);
                if has_column(shorter, c) {
                    let q = choose|q: int| 0 <= q < shorter.len() && (#[trigger] shorter[q]).0 == c;
                    assert(longer[q].0 == c);
                }
                if has_column(longer, c) {
                    let q = choose|q: int| 0 <= q < longer.len() && (#[trigger] longer[q]).0 == c;
                    if q < l {
                        assert(shorter[q].0 == c);
                    }
                }
                if c == column {
                    assert(longer[l as int].0 == c);
                }
            }
            assert(!has_column(items@.take(l as int), column)) by {
                if has_column(items@.take(l as int), column) {
                    let q = choose|q: int|
                        0 <= q < items@.take(l as int).len() && (#[trigger] items@.take(
                            l as int,
                        )[q]).0 == column;
                    assert(items@[q].0 == column);
                }
            }
            assert(df@[column as int] == old(df)@[column as int]);
        }
        let seen: u32 = df[column];
        df.set(column, seen + 1);
        l += 1;
        proof {
            assert forall|c: usize| c < df@.len() implies #[trigger] df@[c as int] == old(
                df,
            )@[c as int] + if has_column(items@.take(l as int), c) {
                1int
            } else {
                0
            } by {
                if c != column {
                    assert(df@[c as int] == before[c as int]);
                }
            }
        }
    }
    assert(items@.take(l as int) =~= items@);
}

/// TF-IDF over a fixed number of hashed columns.
pub struct Builder {
    /// How documents are cut into tokens.
    pub analyzer: Analyzer,
    /// The length of the shortest n-grams.
    pub nmin: usize,
    /// The length of the longest n-grams.
    pub nmax: usize,
    /// The number of columns.
    pub nfeat: usize,
}

impl Builder {
    /// A vectoriser with the given settings. Fails with `InvalidAnalyzer` where the analyzer
    /// has no such name, and else with `InvalidNgramRange` where the lengths are empty or
    /// reversed.
    pub fn new(analyzer: &str, nmin: usize, nmax: usize, nfeat: usize) -> (r: Result<Self, Error>)
        ensures
            match checked_settings(analyzer@, nmin, nmax) {
                Ok(a) => r == Ok::<Self, Error>(Builder { analyzer: a, nmin, nmax, nfeat }),
                Err(e) => r == Err::<Self, Error>(e),
            },
    {
        match check_settings(analyzer, nmin, nmax) {
            Ok(a) => Ok(Builder { analyzer: a, nmin, nmax, nfeat }),
            Err(e) => Err(e),
        }
    }

    /// Counts the columns of every document.
    fn count_all(docs: &[Vec<usize>]) -> (per_doc: Vec<AHashMap<usize, u32>>)
        requires
            all_countable(column_docs(docs@)),
        ensures
            column_tables(per_doc@) == tallies(column_docs(docs@)),
    {
        let mut per_doc: Vec<AHashMap<usize, u32>> = Vec::new();
        let mut i: usize = 0;
        while i < docs.len()
            invariant
                i <= docs@.len(),
                per_doc@.len() == i,
                all_countable(column_docs(docs@)),
                forall|l: int|
                    0 <= l < i ==> column_counts(#[trigger] per_doc@[l]) == tally(
                        column_docs(docs@)[l],
                    ),
            decreases docs@.len() - i,
        {
            assert(column_docs(docs@)[i as int] == docs@[i as int]@);
            per_doc.push(count_columns(docs[i].as_slice()));
            i += 1;
        }
        assert(column_tables(per_doc@) =~= tallies(column_docs(docs@)));
        per_doc
    }

    /// How many documents hold each column.
    fn count_documents(&self, per_doc: &[AHashMap<usize, u32>]) -> (df: Vec<u32>)
        requires
            forall|i: int, c: usize|
                0 <= i < per_doc@.len() && #[trigger] column_counts(per_doc@[i]).dom().contains(c)
                    ==> c < self.nfeat,
            doc_freqs_fit(column_tables(per_doc@)),
        ensures
            df@.len() == self.nfeat,
            forall|c: usize|
                c < self.nfeat ==> #[trigger] df@[c as int] == doc_freq(
                    column_tables(per_doc@),
                    c,
                ),
    {
        let ghost tables = column_tables(per_doc@);
        let mut df: Vec<u32> = Vec::new();
        let mut c: usize = 0;
        while c < self.nfeat
            invariant
                c <= self.nfeat,
                df@.len() == c,
                forall|l: int| 0 <= l < c ==> #[trigger] df@[l] == 0,
            decreases self.nfeat - c,
        {
            df.push(0);
            c += 1;
        }
        let mut i: usize = 0;
        while i < per_doc.len()
            invariant
                i <= per_doc@.len(),
                df@.len() == self.nfeat,
                tables == column_tables(per_doc@),
                forall|i: int, c: usize|
                    0 <= i < per_doc@.len() && #[trigger] column_counts(
                        per_doc@[i],
                    ).dom().contains(c) ==> c < self.nfeat,
                doc_freqs_fit(tables),
                forall|c: usize|
                    c < self.nfeat ==> #[trigger] df@[c as int] == doc_freq(
                        tables.take(i as int),
                        c,
                    ),
            decreases per_doc@.len() - i,
        {
            let items: Vec<(usize, u32)> = columns_items(&per_doc[i]);
            let ghost table = tables[i as int];
            let ghost before = df@;
            proof {
                assert(table == column_counts(per_doc@[i as int]));
                assert forall|l: int| 0 <= l < items@.len() implies (#[trigger] items@[l]).0
                    < df@.len() && df@[items@[l].0 as int] < u32::MAX by {
                    let column = items@[l].0;
                    assert(column_counts(per_doc@[i as int]).dom().contains(column));
                    lemma_doc_freq_step(tables, i as int, column);
                    lemma_doc_freq_prefix(tables, i + 1, column);
                    assert(doc_freq(tables, column) <= u32::MAX);
                }
            }
            count_document(&mut df, items.as_slice());
            proof {
                assert forall|c: usize| c < self.nfeat implies #[trigger] df@[c as int]
                    == doc_freq(tables.take(i + 1), c) by {
                    assert(before[c as int] == doc_freq(tables.take(i as int), c));
                    lemma_doc_freq_step(tables, i as int, c);
                    if table.dom().contains(c) {
                        assert(has_column(items@, c));
                    }
                }
            }
            i += 1;
        }
        assert(tables.take(i as int) =~= tables);
        df
    }

    /// Turns every table into a sparse row.
    fn weigh_all<T: Scalar>(per_doc: &[AHashMap<usize, u32>], idf: &[T]) -> (parts: CsrParts<T>)
        ensures
            holds_sorted_rows(
                column_tables(per_doc@),
                idf@,
                parts.data@,
                parts.indices@,
                parts.indptr@,
            ),
    {
        let ghost tables = column_tables(per_doc@);
        let mut parts: CsrParts<T> = CsrParts::new();
        let ghost mut columns: Seq<Seq<i32>> = Seq::empty();
        let ghost mut values: Seq<Seq<T>> = Seq::empty();
        let mut i: usize = 0;
        while i < per_doc.len()
            invariant
                i <= per_doc@.len(),
                tables == column_tables(per_doc@),
                columns.len() == i,
                parts.holds(columns, values),
                forall|l: int|
                    0 <= l < i ==> is_sorted_row(
                        #[trigger] tables[l],
                        idf@,
                        columns[l],
                        values[l],
                    ),
            decreases per_doc@.len() - i,
        {
            let items: Vec<(usize, u32)> = sorted_items(&per_doc[i]);
            let ghost before = parts;
            parts.push_row(items.as_slice(), idf);
            proof {
                let row = choose|row: Seq<T>|
                    #![trigger is_weighted_row(idf@, items@, row)]
                    {
                        &&& is_weighted_row(idf@, items@, row)
                        &&& row.len() == items@.len()
                        &&& parts.data@ == before.data@ + row
                    };
                lemma_lays_out_push(
                    before.data@,
                    before.indices@,
                    before.indptr@,
                    columns,
                    values,
                    stored_columns(items@),
                    row,
                );
                let columns0 = columns;
                let values0 = values;
                columns = columns.push(stored_columns(items@));
                values = values.push(row);
                assert(is_sorted_listing(tables[i as int], items@));
                assert forall|l: int| 0 <= l < i + 1 implies is_sorted_row(
                    #[trigger] tables[l],
                    idf@,
                    columns[l],
                    values[l],
                ) by {
                    if l < i {
                        assert(columns[l] == columns0[l] && values[l] == values0[l]);
                    }
                }
            }
            i += 1;
        }
        parts
    }

    /// Vectorises documents given as bucket lists: values, columns and row boundaries of the
    /// sparse rows, and the inverse document frequency of every column.
    pub fn build_csr_columns<T: Scalar>(&self, docs: &[Vec<usize>]) -> (r: Result<
        (Vec<T>, Vec<i32>, Vec<i64>, Vec<T>),
        Error,
    >)
        requires
            fit_columns(column_docs(docs@), self.nfeat),
            doc_freqs_fit(tallies(column_docs(docs@))),
        ensures
            r matches Ok((data, indices, indptr, idf)) && is_built(
                column_docs(docs@),
                self.nfeat,
                data@,
                indices@,
                indptr@,
                idf@,
            ),
    {
        let per_doc: Vec<AHashMap<usize, u32>> = Self::count_all(docs);
        let ghost tables = tallies(column_docs(docs@));
        assert(column_tables(per_doc@).len() == tables.len());
        assert forall|i: int, c: usize|
            0 <= i < per_doc@.len() && #[trigger] column_counts(
                per_doc@[i],
            ).dom().contains(c) implies c < self.nfeat by {
            let doc = column_docs(docs@)[i];
            assert(column_tables(per_doc@)[i] == tally(doc));
            let q = choose|q: int| 0 <= q < doc.len() && doc[q] == c;
            assert(column_docs(docs@)[i][q] < self.nfeat);
        }
        let df: Vec<u32> = self.count_documents(per_doc.as_slice());
        let idf: Vec<T> = smoothed_idfs(docs.len(), df.as_slice());
        assert forall|c: usize| c < self.nfeat implies is_smoothed_idf(
            docs@.len() as usize,
            doc_freq(tables, c) as u32,
            #[trigger] idf@[c as int],
        ) by {
            assert(df@[c as int] == doc_freq(tables, c));
        }
        let parts: CsrParts<T> = Self::weigh_all(per_doc.as_slice(), idf.as_slice());
        Ok((parts.data, parts.indices, parts.indptr, idf))
    }

    /// Vectorises documents given as bucket lists with known inverse document frequencies.
    /// Fails with `Internal` where there is not one for every column.
    pub fn build_csr_columns_with_idf<T: Scalar>(
        &self,
        docs: &[Vec<usize>],
        idf: &[T],
    ) -> (r: Result<(Vec<T>, Vec<i32>, Vec<i64>), Error>)
        requires
            idf@.len() == self.nfeat ==> fit_columns(column_docs(docs@), self.nfeat),
        ensures
            idf@.len() != self.nfeat ==> r == Err::<(Vec<T>, Vec<i32>, Vec<i64>), Error>(
                Error::Internal,
            ),
            idf@.len() == self.nfeat ==> (r matches Ok((data, indices, indptr))
                && holds_sorted_rows(
                tallies(column_docs(docs@)),
                idf@,
                data@,
                indices@,
                indptr@,
            )),
    {
        if idf.len() != self.nfeat {
            return Err(Error::Internal);
        }
        let per_doc: Vec<AHashMap<usize, u32>> = Self::count_all(docs);
        let parts: CsrParts<T> = Self::weigh_all(per_doc.as_slice(), idf);
        Ok((parts.data, parts.indices, parts.indptr))
    }

    /// Whether every column exists.
    fn columns_exist(&self, docs: &[Vec<usize>]) -> (r: bool)
        ensures
            r == columns_below(column_docs(docs@), self.nfeat),
    {
        let mut i: usize = 0;
        while i < docs.len()
            invariant
                i <= docs@.len(),
                forall|l: int, j: int|
                    0 <= l < i && 0 <= j < column_docs(docs@)[l].len()
                        ==> #[trigger] column_docs(docs@)[l][j] < self.nfeat,
            decreases docs@.len() - i,
        {
            let mut j: usize = 0;
            while j < docs[i].len()
                invariant
                    i < docs@.len(),
                    j <= docs@[i as int]@.len(),
                    forall|l: int| 0 <= l < j ==> #[trigger] docs@[i as int]@[l] < self.nfeat,
                decreases docs@[i as int]@.len() - j,
            {
                if docs[i][j] >= self.nfeat {
                    assert(column_docs(docs@)[i as int][j as int] >= self.nfeat);
                    return false;
                }
                j += 1;
            }
            i += 1;
        }
        true
    }

    /// Cuts documents into tokens, hashes the tokens, and vectorises the documents: values,
    /// columns and row boundaries of the sparse rows, and the inverse document frequency of
    /// every column. Fails with `Internal` exactly where a bucket is no column, or where a
    /// token occurs in a document, or in documents, more often than a count can say.
    pub fn build_csr<T: Scalar, K: Tokenizer>(&self, docs: &[String], tok: &K) -> (r: Result<
        (Vec<T>, Vec<i32>, Vec<i64>, Vec<T>),
        Error,
    >)
        ensures
            is_vectorised(*self, tok, docs@, r),
    {
        let tokens: Vec<Vec<String>> = tokenize_documents(
            tok,
            self.analyzer,
            self.nmin,
            self.nmax,
            docs,
        );
        let columns: Vec<Vec<usize>> = bucket_documents(tok, self.nfeat, tokens.as_slice());
        proof {
            assert(is_tokenized(tok, self.analyzer, self.nmin, self.nmax, docs@, tokens@));
            assert(is_hashed(tok, self.nfeat, tokens@, columns@));
        }
        if !self.columns_exist(columns.as_slice()) || !column_docs_countable(columns.as_slice())
            || !column_doc_freqs_fit(columns.as_slice()) {
            return Err(Error::Internal);
        }
        self.build_csr_columns(columns.as_slice())
    }

    /// Cuts documents into tokens, hashes the tokens, and vectorises the documents with known
    /// inverse document frequencies. Fails with `Internal` exactly where there is not one for
    /// every column, where a bucket is no column, or where a token occurs in a document more
    /// often than a count can say.
    pub fn build_csr_with_idf<T: Scalar, K: Tokenizer>(
        &self,
        docs: &[String],
        idf: &[T],
        tok: &K,
    ) -> (r: Result<(Vec<T>, Vec<i32>, Vec<i64>), Error>)
        ensures
            is_vectorised_with_idf(*self, tok, docs@, idf@, r),
    {
        if idf.len() != self.nfeat {
            return Err(Error::Internal);
        }
        let tokens: Vec<Vec<String>> = tokenize_documents(
            tok,
            self.analyzer,
            self.nmin,
            self.nmax,
            docs,
        );
        let columns: Vec<Vec<usize>> = bucket_documents(tok, self.nfeat, tokens.as_slice());
        proof {
            assert(is_tokenized(tok, self.analyzer, self.nmin, self.nmax, docs@, tokens@));
            assert(is_hashed(tok, self.nfeat, tokens@, columns@));
        }
        if !self.columns_exist(columns.as_slice()) || !column_docs_countable(columns.as_slice()) {
            return Err(Error::Internal);
        }
        self.build_csr_columns_with_idf(columns.as_slice(), idf)
    }
}

/// What vectorising texts returns.
pub open spec fn is_vectorised<T: Scalar, K: Tokenizer>(
    builder: Builder,
    tok: &K,
    docs: Seq<String>,
    r: Result<(Vec<T>, Vec<i32>, Vec<i64>, Vec<T>), Error>,
) -> bool {
    exists|tokens: Seq<Vec<String>>, columns: Seq<Vec<usize>>|
        {
            &&& #[trigger] is_tokenized(
                tok,
                builder.analyzer,
                builder.nmin,
                builder.nmax,
                docs,
                tokens,
            )
            &&& #[trigger] is_hashed(tok, builder.nfeat, tokens, columns)
            &&& if fit_columns(column_docs(columns), builder.nfeat) && doc_freqs_fit(
                tallies(column_docs(columns)),
            ) {
                r matches Ok((data, indices, indptr, idf)) && is_built(
                    column_docs(columns),
                    builder.nfeat,
                    data@,
                    indices@,
                    indptr@,
                    idf@,
                )
            } else {
                r == Err::<(Vec<T>, Vec<i32>, Vec<i64>, Vec<T>), Error>(Error::Internal)
            }
        }
}

/// What vectorising texts with known inverse document frequencies returns.
pub open spec fn is_vectorised_with_idf<T: Scalar, K: Tokenizer>(
    builder: Builder,
    tok: &K,
    docs: Seq<String>,
    idf: Seq<T>,
    r: Result<(Vec<T>, Vec<i32>, Vec<i64>), Error>,
) -> bool {
    if idf.len() != builder.nfeat {
        r == Err::<(Vec<T>, Vec<i32>, Vec<i64>), Error>(Error::Internal)
    } else {
        exists|tokens: Seq<Vec<String>>, columns: Seq<Vec<usize>>|
            {
                &&& #[trigger] is_tokenized(
                    tok,
                    builder.analyzer,
                    builder.nmin,
                    builder.nmax,
                    docs,
                    tokens,
                )
                &&& #[trigger] is_hashed(tok, builder.nfeat, tokens, columns)
                &&& if fit_columns(column_docs(columns), builder.nfeat) {
                    r matches Ok((data, indices, indptr)) && holds_sorted_rows(
                        tallies(column_docs(columns)),
                        idf,
                        data@,
                        indices@,
                        indptr@,
                    )
                } else {
                    r == Err::<(Vec<T>, Vec<i32>, Vec<i64>), Error>(Error::Internal)
                }
            }
    }
}

/// What is reported where the number of inverse document frequencies is not the number of
/// columns, and `None` where it is.
pub fn idf_length_error(idf_len: usize, n_features: usize) -> (r: Option<String>)
    ensures
        idf_len == n_features ==> r is None,
        idf_len != n_features ==> (r matches Some(msg) && msg@ == "IDF length "@ + decimal(
            idf_len as nat,
        ) + " does not match n_features "@ + decimal(n_features as nat)),
{
    if idf_len == n_features {
        return None;
    }
    let mut msg: String = String::from_str("IDF length ");
    push_decimal(&mut msg, idf_len as u128);
    msg.append(" does not match n_features ");
    push_decimal(&mut msg, n_features as u128);
    Some(msg)
}

} // verus!
