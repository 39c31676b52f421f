//! TF-IDF over a vocabulary that is learnt from the documents: every distinct token gets a
//! column of its own.

use ahash::AHashMap;
use vstd::prelude::*;
use vstd::set_lib::lemma_len_subset;

use crate::counting::{
    count_columns, count_tokens, countable, lemma_short_is_countable, tally, token_views,
};
use crate::csr::CsrParts;
use crate::documents::{
    doc_freq, lemma_doc_freq_prefix, lemma_doc_freq_step, tallies, token_docs,
};
use crate::limits::{
    all_countable, columns_countable, doc_freqs_fit, token_doc_freqs_fit, token_docs_countable,
};
use crate::rows::{column_tables, holds_rows, weigh_tables};
use crate::scalar::Scalar;
use crate::tables::{
    column_counts, columns_get, columns_insert, columns_new, is_among, lists_entries,
    token_counts, token_items_view, tokens_get, tokens_insert, tokens_items, tokens_new,
    vocabulary, vocabulary_clone, vocabulary_get, vocabulary_insert, vocabulary_new,
};
use crate::tfidf::{check_settings, checked_settings, Error};
use crate::tokenize::{is_tokenized, tokenize_documents, Analyzer, Tokenizer};
use crate::weights::{is_smoothed_idf, smoothed_idfs};

verus! {

/// The distinct tokens of all documents.
pub open spec fn all_tokens(tables: Seq<Map<Seq<char>, u32>>) -> Set<Seq<char>> {
    Set::new(
        |t: Seq<char>|
            exists|i: int| 0 <= i < tables.len() && #[trigger] tables[i].dom().contains(t),
    )
}

/// What the token tables of all documents hold.
pub open spec fn token_tables(per_doc: Seq<AHashMap<String, u32>>) -> Seq<Map<Seq<char>, u32>> {
    Seq::new(per_doc.len(), |i: int| token_counts(per_doc[i]))
}

/// Some token has the column `c`.
pub open spec fn is_given_out(vocab: Map<Seq<char>, i32>, c: int) -> bool {
    exists|t: Seq<char>| #[trigger] vocab.dom().contains(t) && vocab[t] == c
}

/// The columns `0` to `n - 1` are given out, each to one token.
pub open spec fn is_numbering(vocab: Map<Seq<char>, i32>, n: nat) -> bool {
    &&& forall|t: Seq<char>| #[trigger] vocab.dom().contains(t) ==> 0 <= vocab[t] < n
    &&& forall|t: Seq<char>, u: Seq<char>|
        vocab.dom().contains(t) && vocab.dom().contains(u) && #[trigger] vocab[t]
            == #[trigger] vocab[u] ==> t == u
    &&& forall|c: int| 0 <= c < n ==> #[trigger] is_given_out(vocab, c)
}

/// The tokens of earlier documents have smaller columns than those that only later
/// documents hold.
pub open spec fn numbers_in_order(
    vocab: Map<Seq<char>, i32>,
    tables: Seq<Map<Seq<char>, u32>>,
) -> bool {
    forall|p: int, t: Seq<char>|
        0 <= p <= tables.len() && #[trigger] all_tokens(tables.take(p)).contains(t) ==> vocab[t]
            < all_tokens(tables.take(p)).len()
}

/// `counts` are the counts of `table` with every token replaced by its column.
pub open spec fn is_recount(
    vocab: Map<Seq<char>, i32>,
    table: Map<Seq<char>, u32>,
    counts: Map<usize, u32>,
) -> bool {
    &&& forall|t: Seq<char>| #[trigger]
        table.dom().contains(t) ==> {
            &&& vocab.dom().contains(t)
            &&& vocab[t] >= 0
            &&& counts.dom().contains(vocab[t] as usize)
            &&& counts[vocab[t] as usize] == table[t]
        }
    &&& forall|c: usize| #[trigger]
        counts.dom().contains(c) ==> exists|t: Seq<char>| #[trigger]
            table.dom().contains(t) && vocab[t] == c
}

/// The column of a token: a negative number counts down from the top of the machine word.
pub open spec fn column_of(id: i32) -> usize {
    if id >= 0 {
        id as usize
    } else {
        (usize::MAX + 1 + id) as usize
    }
}

/// The columns of those tokens of a document that have one below `n_cols`, in the order of
/// the document.
pub open spec fn known_columns(
    vocab: Map<Seq<char>, i32>,
    n_cols: usize,
    doc: Seq<Seq<char>>,
) -> Seq<usize>
    decreases doc.len(),
{
    if doc.len() == 0 {
        Seq::empty()
    } else {
        let before = known_columns(vocab, n_cols, doc.drop_last());
        let t = doc.last();
        if vocab.dom().contains(t) && column_of(vocab[t]) < n_cols {
            before.push(column_of(vocab[t]))
        } else {
            before
        }
    }
}

/// The known columns of every document, counted.
pub open spec fn known_tables(
    vocab: Map<Seq<char>, i32>,
    n_cols: usize,
    docs: Seq<Seq<Seq<char>>>,
) -> Seq<Map<usize, u32>> {
    Seq::new(docs.len(), |i: int| tally(known_columns(vocab, n_cols, docs[i])))
}

/// The known columns of every document are countable.
pub open spec fn known_countable(
    vocab: Map<Seq<char>, i32>,
    n_cols: usize,
    docs: Seq<Seq<Seq<char>>>,
) -> bool {
    forall|i: int|
        0 <= i < docs.len() ==> countable(known_columns(vocab, n_cols, #[trigger] docs[i]))
}

/// A fitted vectoriser.
pub struct TfidfModel<T> {
    /// How documents are cut into tokens.
    pub analyzer: Analyzer,
    /// The length of the shortest n-grams.
    pub nmin: usize,
    /// The length of the longest n-grams.
    pub nmax: usize,
    /// The column of each token.
    pub vocab: AHashMap<String, i32>,
    /// The inverse document frequency of each column.
    pub idf: Vec<T>,
    /// The number of columns.
    pub n_cols: usize,
}

/// Turns the number of a token into a column.
pub fn column_index(id: i32) -> (column: usize)
    ensures
        column == column_of(id),
{
    if id >= 0 {
        id as usize
    } else {
        usize::MAX - (-(id + 1)) as usize
    }
}

impl<T: Scalar> Clone for TfidfModel<T> {
    fn clone(&self) -> (copy: Self)
        ensures
            copy.analyzer == self.analyzer,
            copy.nmin == self.nmin,
            copy.nmax == self.nmax,
            vocabulary(copy.vocab) == vocabulary(self.vocab),
            copy.idf@ == self.idf@,
            copy.n_cols == self.n_cols,
    {
        let mut idf: Vec<T> = Vec::new();
        let mut i: usize = 0;
        while i < self.idf.len()
            invariant
                i <= self.idf@.len(),
                idf@ == self.idf@.take(i as int),
            decreases self.idf@.len() - i,
        {
            idf.push(self.idf[i]);
            i += 1;
            assert(self.idf@.take(i as int) =~= self.idf@.take(i - 1).push(self.idf@[i - 1]));
        }
        assert(self.idf@.take(i as int) =~= self.idf@);
        TfidfModel {
            analyzer: self.analyzer,
            nmin: self.nmin,
            nmax: self.nmax,
            vocab: vocabulary_clone(&self.vocab),
            idf,
            n_cols: self.n_cols,
        }
    }
}

impl<T: Scalar> TfidfModel<T> {
    /// The known columns of one document.
    fn columns_of_document(&self, tokens: &[String]) -> (columns: Vec<usize>)
        ensures
            columns@ == known_columns(
                vocabulary(self.vocab),
                self.n_cols,
                token_views(tokens@),
            ),
    {
        let ghost views = token_views(tokens@);
        let mut columns: Vec<usize> = Vec::new();
        let mut i: usize = 0;
        while i < tokens.len()
            invariant
                i <= tokens@.len(),
                views == token_views(tokens@),
                columns@ == known_columns(
                    vocabulary(self.vocab),
                    self.n_cols,
                    views.take(i as int),
                ),
            decreases tokens@.len() - i,
        {
            proof {
                assert(views.take(i + 1).drop_last() =~= views.take(i as int));
                assert(views.take(i + 1).last() == tokens@[i as int]@);
            }
            if let Some(id) = vocabulary_get(&self.vocab, tokens[i].as_str()) {
                let column: usize = column_index(id);
                if column < self.n_cols {
                    columns.push(column);
                }
            }
            i += 1;
        }
        assert(views.take(i as int) =~= views);
        columns
    }

    /// Vectorises documents given as token lists with the learnt columns and inverse
    /// document frequencies: values, columns and row boundaries of the sparse rows. Tokens
    /// without a column are passed over.
    pub fn transform_csr_tokens(&self, docs: &[Vec<String>]) -> (r: Result<
        (Vec<T>, Vec<i32>, Vec<i64>),
        Error,
    >)
        requires
            known_countable(vocabulary(self.vocab), self.n_cols, token_docs(docs@)),
        ensures
            r matches Ok((data, indices, indptr)) && holds_rows(
                known_tables(vocabulary(self.vocab), self.n_cols, token_docs(docs@)),
                self.idf@,
                data@,
                indices@,
                indptr@,
            ),
    {
        let ghost vocab = vocabulary(self.vocab);
        let mut per_doc: Vec<AHashMap<usize, u32>> = Vec::new();
        let mut i: usize = 0;
        while i < docs.len()
            invariant
                i <= docs@.len(),
                vocab == vocabulary(self.vocab),
                per_doc@.len() == i,
                known_countable(vocab, self.n_cols, token_docs(docs@)),
                forall|l: int|
                    0 <= l < i ==> column_counts(#[trigger] per_doc@[l]) == tally(
                        known_columns(vocab, self.n_cols, token_docs(docs@)[l]),
                    ),
            decreases docs@.len() - i,
        {
            assert(token_docs(docs@)[i as int] == token_views(docs@[i as int]@));
            let columns: Vec<usize> = self.columns_of_document(docs[i].as_slice());
            per_doc.push(count_columns(columns.as_slice()));
            i += 1;
        }
        assert(column_tables(per_doc@) =~= known_tables(vocab, self.n_cols, token_docs(docs@)));
        let parts: CsrParts<T> = weigh_tables(per_doc.as_slice(), self.idf.as_slice());
        Ok((parts.data, parts.indices, parts.indptr))
    }

    /// Whether the known columns of every document are countable.
    fn columns_are_countable(&self, docs: &[Vec<String>]) -> (r: bool)
        ensures
            r == known_countable(vocabulary(self.vocab), self.n_cols, token_docs(docs@)),
    {
        let ghost vocab = vocabulary(self.vocab);
        let mut i: usize = 0;
        while i < docs.len()
            invariant
                i <= docs@.len(),
                vocab == vocabulary(self.vocab),
                forall|l: int|
                    0 <= l < i ==> countable(
                        known_columns(vocab, self.n_cols, #[trigger] token_docs(docs@)[l]),
                    ),
            decreases docs@.len() - i,
        {
            let ghost doc = token_docs(docs@)[i as int];
            assert(doc == token_views(docs@[i as int]@));
            if docs[i].len() as u64 <= u32::MAX as u64 {
                proof {
                    lemma_known_len(vocab, self.n_cols, doc);
                    lemma_short_is_countable(known_columns(vocab, self.n_cols, doc));
                }
            } else {
                let columns: Vec<usize> = self.columns_of_document(docs[i].as_slice());
                if !columns_countable(columns.as_slice()) {
                    return false;
                }
            }
            i += 1;
        }
        true
    }

    /// Cuts documents into tokens and vectorises them with the learnt columns and inverse
    /// document frequencies: values, columns and row boundaries of the sparse rows. Fails with
    /// `Internal` exactly where a column occurs in a document more often than a count can say.
    pub fn transform_csr<K: Tokenizer>(&self, docs: &[String], tok: &K) -> (r: Result<
        (Vec<T>, Vec<i32>, Vec<i64>),
        Error,
    >)
        ensures
            is_transformed(*self, tok, docs@, r),
    {
        let tokens: Vec<Vec<String>> = tokenize_documents(
            tok,
            self.analyzer,
            self.nmin,
            self.nmax,
            docs,
        );
        assert(is_tokenized(tok, self.analyzer, self.nmin, self.nmax, docs@, tokens@));
        if !self.columns_are_countable(tokens.as_slice()) {
            return Err(Error::Internal);
        }
        self.transform_csr_tokens(tokens.as_slice())
    }
}

/// What transforming texts with a model returns.
pub open spec fn is_transformed<T: Scalar, K: Tokenizer>(
    model: TfidfModel<T>,
    tok: &K,
    docs: Seq<String>,
    r: Result<(Vec<T>, Vec<i32>, Vec<i64>), Error>,
) -> bool {
    exists|tokens: Seq<Vec<String>>|
        {
            &&& #[trigger] is_tokenized(
                tok,
                model.analyzer,
                model.nmin,
                model.nmax,
                docs,
                tokens,
            )
            &&& if known_countable(vocabulary(model.vocab), model.n_cols, token_docs(tokens)) {
                r matches Ok((data, indices, indptr)) && holds_rows(
                    known_tables(vocabulary(model.vocab), model.n_cols, token_docs(tokens)),
                    model.idf@,
                    data@,
                    indices@,
                    indptr@,
                )
            } else {
                r == Err::<(Vec<T>, Vec<i32>, Vec<i64>), Error>(Error::Internal)
            }
        }
}

/// A document has no more known columns than tokens.
pub proof fn lemma_known_len(vocab: Map<Seq<char>, i32>, n_cols: usize, doc: Seq<Seq<char>>)
    ensures
        known_columns(vocab, n_cols, doc).len() <= doc.len(),
    decreases doc.len(),
{
    if doc.len() > 0 {
        lemma_known_len(vocab, n_cols, doc.drop_last());
    }
}

/// The column of a token. A token without one gets the next column, which no document is
/// counted for yet.
pub fn get_or_insert_col(
    vocab: &mut AHashMap<String, i32>,
    df: &mut Vec<u32>,
    token: &str,
) -> (column: i32)
    ensures
        vocabulary(*old(vocab)).dom().contains(token@) ==> {
            &&& column == vocabulary(*old(vocab))[token@]
            &&& vocabulary(*final(vocab)) == vocabulary(*old(vocab))
            &&& final(df)@ == old(df)@
        },
        !vocabulary(*old(vocab)).dom().contains(token@) ==> {
            &&& column == old(df)@.len() as i32
            &&& vocabulary(*final(vocab)) == vocabulary(*old(vocab)).insert(token@, column)
            &&& final(df)@ == old(df)@.push(0)
        },
{
    if let Some(column) = vocabulary_get(vocab, token) {
        return column;
    }
    let next: usize = df.len();
    let column: i32 = #[verifier::truncate]
    (next as i32);
    vocabulary_insert(vocab, token.to_owned(), column);
    df.push(0);
    column
}

/// [`get_or_insert_col`] for a token that is held as a `String`.
pub fn get_or_insert_col_owned(
    vocab: &mut AHashMap<String, i32>,
    df: &mut Vec<u32>,
    token: &String,
) -> (column: i32)
    ensures
        vocabulary(*old(vocab)).dom().contains(token@) ==> {
            &&& column == vocabulary(*old(vocab))[token@]
            &&& vocabulary(*final(vocab)) == vocabulary(*old(vocab))
            &&& final(df)@ == old(df)@
        },
        !vocabulary(*old(vocab)).dom().contains(token@) ==> {
            &&& column == old(df)@.len() as i32
            &&& vocabulary(*final(vocab)) == vocabulary(*old(vocab)).insert(token@, column)
            &&& final(df)@ == old(df)@.push(0)
        },
{
    get_or_insert_col(vocab, df, token.as_str())
}

/// Vectorisation over a learnt vocabulary.
pub struct VocabBuilder {
    /// How documents are cut into tokens.
    pub analyzer: Analyzer,
    /// The length of the shortest n-grams.
    pub nmin: usize,
    /// The length of the longest n-grams.
    pub nmax: usize,
}

/// How many documents a token was counted for, by the numbers of its column.
spec fn counted(vocab: Map<Seq<char>, i32>, df: Seq<u32>, t: Seq<char>) -> int {
    if vocab.dom().contains(t) {
        df[vocab[t] as int] as int
    } else {
        0
    }
}

/// A new token takes the next column.
proof fn lemma_number_next(vocab: Map<Seq<char>, i32>, n: nat, t: Seq<char>)
    requires
        is_numbering(vocab, n),
        !vocab.dom().contains(t),
        n <= i32::MAX,
    ensures
        is_numbering(vocab.insert(t, n as i32), n + 1),
{
    let longer = vocab.insert(t, n as i32);
    assert forall|c: int| 0 <= c < n + 1 implies #[trigger] is_given_out(longer, c) by {
        if c == n {
            assert(longer.dom().contains(t) && longer[t] == c);
        } else {
            assert(is_given_out(vocab, c));
            let u = choose|u: Seq<char>| #[trigger] vocab.dom().contains(u) && vocab[u] == c;
            assert(longer.dom().contains(u) && longer[u] == c);
        }
    }
}

/// Counts one more document: gives its new tokens columns, counts the document for each of
/// its tokens, and returns its counts by column.
fn merge_document(
    vocab: &mut AHashMap<String, i32>,
    df: &mut Vec<u32>,
    table: &AHashMap<String, u32>,
    Ghost(bound): Ghost<Set<Seq<char>>>,
) -> (counts: AHashMap<usize, u32>)
    requires
        is_numbering(vocabulary(*old(vocab)), old(df)@.len()),
        vocabulary(*old(vocab)).dom().finite(),
        vocabulary(*old(vocab)).dom().len() == old(df)@.len(),
        bound.finite(),
        bound.len() <= 0x8000_0000,
        vocabulary(*old(vocab)).dom().subset_of(bound),
        token_counts(*table).dom().subset_of(bound),
        forall|t: Seq<char>| #[trigger]
            token_counts(*table).dom().contains(t) ==> counted(
                vocabulary(*old(vocab)),
                old(df)@,
                t,
            ) < u32::MAX,
    ensures
        is_numbering(vocabulary(*final(vocab)), final(df)@.len()),
        vocabulary(*final(vocab)).dom().finite(),
        vocabulary(*final(vocab)).dom().len() == final(df)@.len(),
        vocabulary(*old(vocab)).submap_of(vocabulary(*final(vocab))),
        vocabulary(*final(vocab)).dom() == vocabulary(*old(vocab)).dom().union(
            token_counts(*table).dom(),
        ),
        forall|t: Seq<char>| #[trigger]
            vocabulary(*final(vocab)).dom().contains(t) ==> counted(
                vocabulary(*final(vocab)),
                final(df)@,
                t,
            ) == counted(vocabulary(*old(vocab)), old(df)@, t) + if token_counts(
                *table,
            ).dom().contains(t) {
                1int
            } else {
                0
            },
        is_recount(vocabulary(*final(vocab)), token_counts(*table), column_counts(counts)),
{
    let ghost v0 = vocabulary(*vocab);
    let ghost df0 = df@;
    let ghost m = token_counts(*table);
    let items: Vec<(&String, u32)> = tokens_items(table);
    let ghost pairs = token_items_view(items@);
    let mut counts: AHashMap<usize, u32> = columns_new();
    let mut j: usize = 0;
    while j < items.len()
        invariant
            j <= items@.len(),
            pairs == token_items_view(items@),
            lists_entries(pairs, m),
            bound.finite(),
            bound.len() <= 0x8000_0000,
            v0.dom().subset_of(bound),
            m.dom().subset_of(bound),
            forall|t: Seq<char>| #[trigger]
                m.dom().contains(t) ==> counted(v0, df0, t) < u32::MAX,
            is_numbering(vocabulary(*vocab), df@.len()),
            vocabulary(*vocab).dom().finite(),
            vocabulary(*vocab).dom().len() == df@.len(),
            v0.submap_of(vocabulary(*vocab)),
            forall|t: Seq<char>| #[trigger]
                vocabulary(*vocab).dom().contains(t) <==> v0.dom().contains(t) || is_among(
                    pairs,
                    j as int,
                    t,
                ),
            forall|t: Seq<char>| #[trigger]
                vocabulary(*vocab).dom().contains(t) ==> counted(vocabulary(*vocab), df@, t)
                    == counted(v0, df0, t) + if is_among(pairs, j as int, t) {
                    1int
                } else {
                    0
                },
            forall|l: int|
                0 <= l < j ==> {
                    let c = vocabulary(*vocab)[(#[trigger] pairs[l]).0] as usize;
                    column_counts(counts).dom().contains(c) && column_counts(counts)[c]
                        == pairs[l].1
                },
            forall|c: usize| #[trigger]
                column_counts(counts).dom().contains(c) ==> exists|l: int|
                    0 <= l < j && vocabulary(*vocab)[(#[trigger] pairs[l]).0] == c,
        decreases items@.len() - j,
    {
        let ghost v1 = vocabulary(*vocab);
        let ghost df1 = df@;
        let ghost counts1 = column_counts(counts);
        let ghost t = pairs[j as int].0;
        let token: &String = items[j].0;
        let count: u32 = items[j].1;
        proof {
            assert(t == token@ && count == pairs[j as int].1);
            assert(m.dom().contains(t));
            assert(v1.dom().subset_of(bound)) by {
                assert forall|u: Seq<char>| v1.dom().contains(u) implies bound.contains(u) by {
                    if is_among(pairs, j as int, u) {
                        let l = choose|l: int| 0 <= l < j && (#[trigger] pairs[l]).0 == u;
                        assert(m.dom().contains(pairs[l].0));
                    }
                }
            }
            if !v1.dom().contains(t) {
                let longer = v1.dom().insert(t);
                assert(longer.subset_of(bound));
                lemma_len_subset(longer, bound);
                lemma_number_next(v1, df1.len(), t);
            }
            assert(!is_among(pairs, j as int, t)) by {
                if is_among(pairs, j as int, t) {
                    let l = choose|l: int| 0 <= l < j && (#[trigger] pairs[l]).0 == t;
                    assert(pairs[l].0 != pairs[j as int].0);
                }
            }
        }
        let id: i32 = get_or_insert_col(vocab, df, token.as_str());
        let ghost v2 = vocabulary(*vocab);
        let ghost df2 = df@;
        proof {
            assert(v1.submap_of(v2));
            assert(v2.dom() =~= v1.dom().insert(t));
            assert(v2.dom().contains(t) && v2[t] == id);
            assert(counted(v2, df2, t) == counted(v0, df0, t));
        }
        let column: usize = id as usize;
        let seen: u32 = match columns_get(&counts, column) {
            Some(seen) => seen,
            None => 0,
        };
        proof {
            if counts1.dom().contains(column) {
                let l = choose|l: int| 0 <= l < j && v1[(#[trigger] pairs[l]).0] == column;
                assert(is_among(pairs, j as int, pairs[l].0));
                assert(v1.dom().contains(pairs[l].0));
                assert(v2[pairs[l].0] == v2[t]);
                assert(false);
            }
            assert(seen == 0);
        }
        if seen == 0 {
            let docs_so_far: u32 = df[column];
            df.set(column, docs_so_far + 1);
        }
        columns_insert(&mut counts, column, seen + count);
        proof {
            assert forall|u: Seq<char>| #[trigger] v2.dom().contains(u) <==> v0.dom().contains(u)
                || is_among(pairs, j + 1, u) by {
                if is_among(pairs, j as int, u) {
                    let l = choose|l: int| 0 <= l < j && (#[trigger] pairs[l]).0 == u;
                    assert(is_among(pairs, j + 1, u));
                }
                if is_among(pairs, j + 1, u) {
                    let l = choose|l: int| 0 <= l < j + 1 && (#[trigger] pairs[l]).0 == u;
                    if l < j {
                        assert(is_among(pairs, j as int, u));
                    }
                }
                if u == t {
                    assert(pairs[j as int].0 == u);
                }
                assert(v1.dom().contains(u) <==> v0.dom().contains(u) || is_among(
                    pairs,
                    j as int,
                    u,
                ));
            }
            assert forall|u: Seq<char>| #[trigger] v2.dom().contains(u) implies counted(v2, df@, u)
                == counted(v0, df0, u) + if is_among(pairs, j + 1, u) {
                1int
            } else {
                0
            } by {
                if u == t {
                    assert(pairs[j as int].0 == u);
                } else {
                    assert(v1.dom().contains(u));
                    assert(v2[u] != v2[t]);
                    assert(counted(v2, df@, u) == counted(v1, df1, u));
                    if is_among(pairs, j as int, u) {
                        let l = choose|l: int| 0 <= l < j && (#[trigger] pairs[l]).0 == u;
                        assert(is_among(pairs, j + 1, u));
                    }
                    if is_among(pairs, j + 1, u) {
                        let l = choose|l: int| 0 <= l < j + 1 && (#[trigger] pairs[l]).0 == u;
                        assert(l < j);
                        assert(is_among(pairs, j as int, u));
                    }
                }
            }
            assert forall|l: int| 0 <= l < j + 1 implies {
                let c = v2[(#[trigger] pairs[l]).0] as usize;
                column_counts(counts).dom().contains(c) && column_counts(counts)[c] == pairs[l].1
            } by {
                if l < j {
                    assert(is_among(pairs, j as int, pairs[l].0));
                    assert(v1.dom().contains(pairs[l].0));
                    assert(pairs[l].0 != pairs[j as int].0);
                    assert(v2[pairs[l].0] != v2[t]);
                }
            }
            assert forall|c: usize| #[trigger]
                column_counts(counts).dom().contains(c) implies exists|l: int|
                0 <= l < j + 1 && v2[(#[trigger] pairs[l]).0] == c by {
                if c == column {
                    assert(v2[pairs[j as int].0] == c);
                } else {
                    assert(counts1.dom().contains(c));
                    let l = choose|l: int| 0 <= l < j && v1[(#[trigger] pairs[l]).0] == c;
                    assert(is_among(pairs, j as int, pairs[l].0));
                    assert(v1.dom().contains(pairs[l].0));
                    assert(v2[pairs[l].0] == c);
                }
            }
        }
        j += 1;
    }
    proof {
        let v = vocabulary(*vocab);
        assert forall|t: Seq<char>| #[trigger] m.dom().contains(t) <==> is_among(
            pairs,
            j as int,
            t,
        ) by {
            if m.dom().contains(t) {
                let l = choose|l: int| 0 <= l < pairs.len() && (#[trigger] pairs[l]).0 == t;
                assert(is_among(pairs, j as int, t));
            }
            if is_among(pairs, j as int, t) {
                let l = choose|l: int| 0 <= l < j && (#[trigger] pairs[l]).0 == t;
                assert(m.dom().contains(pairs[l].0));
            }
        }
        assert(v.dom() =~= v0.dom().union(m.dom()));
        assert forall|t: Seq<char>| #[trigger] m.dom().contains(t) implies {
            &&& v.dom().contains(t)
            &&& v[t] >= 0
            &&& column_counts(counts).dom().contains(v[t] as usize)
            &&& column_counts(counts)[v[t] as usize] == m[t]
        } by {
            let l = choose|l: int| 0 <= l < pairs.len() && (#[trigger] pairs[l]).0 == t;
            assert(is_among(pairs, j as int, t));
            assert(v.dom().contains(t));
        }
        assert forall|c: usize| #[trigger]
            column_counts(counts).dom().contains(c) implies exists|t: Seq<char>| #[trigger]
            m.dom().contains(t) && v[t] == c by {
            let l = choose|l: int| 0 <= l < j && v[(#[trigger] pairs[l]).0] == c;
            assert(m.dom().contains(pairs[l].0));
        }
    }
    counts
}

/// One more document adds its tokens.
proof fn lemma_all_tokens_step(tables: Seq<Map<Seq<char>, u32>>, n: int)
    requires
        0 <= n < tables.len(),
    ensures
        all_tokens(tables.take(n + 1)) == all_tokens(tables.take(n)).union(tables[n].dom()),
{
    let shorter = tables.take(n);
    let longer = tables.take(n + 1);
    assert forall|t: Seq<char>| #[trigger]
        all_tokens(longer).contains(t) <==> all_tokens(shorter).contains(t)
            || tables[n].dom().contains(t) by {
        if all_tokens(longer).contains(t) {
            let i = choose|i: int| 0 <= i < longer.len() && #[trigger] longer[i].dom().contains(t);
            if i < n {
                assert(shorter[i].dom().contains(t));
            }
        }
        if all_tokens(shorter).contains(t) {
            let i = choose|i: int|
                0 <= i < shorter.len() && #[trigger] shorter[i].dom().contains(t);
            assert(longer[i].dom().contains(t));
        }
        if tables[n].dom().contains(t) {
            assert(longer[n].dom().contains(t));
        }
    }
    assert(all_tokens(longer) =~= all_tokens(shorter).union(tables[n].dom()));
}

/// The tokens of some of the documents are tokens of all of them.
proof fn lemma_all_tokens_prefix(tables: Seq<Map<Seq<char>, u32>>, n: int)
    requires
        0 <= n <= tables.len(),
    ensures
        all_tokens(tables.take(n)).subset_of(all_tokens(tables)),
{
    assert forall|t: Seq<char>| all_tokens(tables.take(n)).contains(t) implies all_tokens(
        tables,
    ).contains(t) by {
        let i = choose|i: int|
            0 <= i < tables.take(n).len() && #[trigger] tables.take(n)[i].dom().contains(t);
        assert(tables[i].dom().contains(t));
    }
}

/// Token lists have finitely many distinct tokens.
pub proof fn lemma_all_tokens_finite(docs: Seq<Seq<Seq<char>>>)
    ensures
        all_tokens(tallies(docs)).finite(),
    decreases docs.len(),
{
    let tables = tallies(docs);
    if docs.len() == 0 {
        assert(all_tokens(tables) =~= Set::empty());
    } else {
        let n = docs.len() - 1;
        lemma_all_tokens_finite(docs.drop_last());
        assert(tallies(docs.drop_last()) =~= tables.take(n));
        assert(tables.take(n + 1) =~= tables);
        lemma_all_tokens_step(tables, n);
        vstd::seq_lib::seq_to_set_is_finite(docs[n]);
        assert(tables[n].dom() =~= docs[n].to_set());
    }
}

/// What fitting returns: the learnt model and the sparse rows of the documents that it was
/// learnt from, whose counts are `tables`.
pub open spec fn is_fitted<T: Scalar>(
    tables: Seq<Map<Seq<char>, u32>>,
    model: TfidfModel<T>,
    data: Seq<T>,
    indices: Seq<i32>,
    indptr: Seq<i64>,
) -> bool {
    let vocab = vocabulary(model.vocab);
    &&& vocab.dom() == all_tokens(tables)
    &&& is_numbering(vocab, model.n_cols as nat)
    &&& model.n_cols == all_tokens(tables).len()
    &&& numbers_in_order(vocab, tables)
    &&& model.idf@.len() == model.n_cols
    &&& forall|t: Seq<char>| #[trigger]
        vocab.dom().contains(t) ==> is_smoothed_idf(
            tables.len() as usize,
            doc_freq(tables, t) as u32,
            model.idf@[vocab[t] as int],
        )
    &&& exists|counts: Seq<Map<usize, u32>>|
        {
            &&& counts.len() == tables.len()
            &&& forall|i: int|
                0 <= i < tables.len() ==> is_recount(vocab, tables[i], #[trigger] counts[i])
            &&& #[trigger] holds_rows(counts, model.idf@, data, indices, indptr)
        }
}

/// The documents fit: every distinct token can have a column, and no number of documents
/// outgrows its type.
pub open spec fn fit_vocabulary(tables: Seq<Map<Seq<char>, u32>>) -> bool {
    &&& all_tokens(tables).len() <= 0x8000_0000
    &&& doc_freqs_fit(tables)
}

impl VocabBuilder {
    /// A vectoriser with the given settings. Fails with `InvalidAnalyzer` where the analyzer
    /// has no such name, and else with `InvalidNgramRange` where the lengths are empty or
    /// reversed.
    pub fn new(analyzer: &str, nmin: usize, nmax: usize) -> (r: Result<Self, Error>)
        ensures
            match checked_settings(analyzer@, nmin, nmax) {
                Ok(a) => r == Ok::<Self, Error>(VocabBuilder { analyzer: a, nmin, nmax }),
                Err(e) => r == Err::<Self, Error>(e),
            },
    {
        match check_settings(analyzer, nmin, nmax) {
            Ok(a) => Ok(VocabBuilder { analyzer: a, nmin, nmax }),
            Err(e) => Err(e),
        }
    }

    /// Learns a vocabulary from documents whose tokens are counted, and vectorises them.
    pub fn fit_counts<T: Scalar>(&self, per_doc_tokens: &[AHashMap<String, u32>]) -> (r: Result<
        (TfidfModel<T>, Vec<T>, Vec<i32>, Vec<i64>),
        Error,
    >)
        requires
            all_tokens(token_tables(per_doc_tokens@)).finite(),
            fit_vocabulary(token_tables(per_doc_tokens@)),
        ensures
            r matches Ok((model, data, indices, indptr)) && {
                &&& model.analyzer == self.analyzer
                &&& model.nmin == self.nmin
                &&& model.nmax == self.nmax
                &&& is_fitted(
                    token_tables(per_doc_tokens@),
                    model,
                    data@,
                    indices@,
                    indptr@,
                )
            },
    {
        let ghost tables = token_tables(per_doc_tokens@);
        let ghost bound = all_tokens(tables);
        let mut vocab: AHashMap<String, i32> = vocabulary_new();
        let mut df: Vec<u32> = Vec::new();
        let mut per_doc: Vec<AHashMap<usize, u32>> = Vec::new();
        let mut i: usize = 0;
        assert(vocabulary(vocab).dom() =~= all_tokens(tables.take(0)));
        while i < per_doc_tokens.len()
            invariant
                i <= per_doc_tokens@.len(),
                tables == token_tables(per_doc_tokens@),
                bound == all_tokens(tables),
                bound.finite(),
                fit_vocabulary(tables),
                is_numbering(vocabulary(vocab), df@.len()),
                vocabulary(vocab).dom().finite(),
                vocabulary(vocab).dom().len() == df@.len(),
                vocabulary(vocab).dom() == all_tokens(tables.take(i as int)),
                forall|t: Seq<char>| #[trigger]
                    vocabulary(vocab).dom().contains(t) ==> df@[vocabulary(vocab)[t] as int]
                        == doc_freq(tables.take(i as int), t),
                forall|t: Seq<char>|
                    !vocabulary(vocab).dom().contains(t) ==> #[trigger] doc_freq(
                        tables.take(i as int),
                        t,
                    ) == 0,
                per_doc@.len() == i,
                forall|l: int|
                    0 <= l < i ==> is_recount(
                        vocabulary(vocab),
                        tables[l],
                        column_counts(#[trigger] per_doc@[l]),
                    ),
                forall|p: int, t: Seq<char>|
                    0 <= p <= i && #[trigger] all_tokens(tables.take(p)).contains(t)
                        ==> vocabulary(vocab).dom().contains(t) && vocabulary(vocab)[t]
                        < all_tokens(tables.take(p)).len(),
            decreases per_doc_tokens@.len() - i,
        {
            let ghost v0 = vocabulary(vocab);
            let ghost df0 = df@;
            let ghost per_doc0 = per_doc@;
            let ghost table = tables[i as int];
            proof {
                assert(table == token_counts(per_doc_tokens@[i as int]));
                lemma_all_tokens_prefix(tables, i as int);
                lemma_all_tokens_step(tables, i as int);
                lemma_all_tokens_prefix(tables, i + 1);
                assert(table.dom().subset_of(bound)) by {
                    assert forall|t: Seq<char>| table.dom().contains(t) implies bound.contains(
                        t,
                    ) by {
                        assert(all_tokens(tables.take(i + 1)).contains(t));
                    }
                }
                assert forall|t: Seq<char>| #[trigger] table.dom().contains(t) implies counted(
                    v0,
                    df0,
                    t,
                ) < u32::MAX by {
                    lemma_doc_freq_step(tables, i as int, t);
                    lemma_doc_freq_prefix(tables, i + 1, t);
                    assert(doc_freq(tables, t) <= u32::MAX);
                }
            }
            let counts: AHashMap<usize, u32> = merge_document(
                &mut vocab,
                &mut df,
                &per_doc_tokens[i],
                Ghost(bound),
            );
            per_doc.push(counts);
            proof {
                let v1 = vocabulary(vocab);
                assert forall|t: Seq<char>| #[trigger] v1.dom().contains(t) implies df@[v1[t] as int]
                    == doc_freq(tables.take(i + 1), t) by {
                    assert(counted(v1, df@, t) == df@[v1[t] as int]);
                    lemma_doc_freq_step(tables, i as int, t);
                }
                assert forall|t: Seq<char>| !v1.dom().contains(t) implies #[trigger] doc_freq(
                    tables.take(i + 1),
                    t,
                ) == 0 by {
                    assert(!v0.dom().contains(t));
                    assert(doc_freq(tables.take(i as int), t) == 0);
                    lemma_doc_freq_step(tables, i as int, t);
                }
                assert forall|l: int| 0 <= l < i + 1 implies is_recount(
                    v1,
                    tables[l],
                    column_counts(#[trigger] per_doc@[l]),
                ) by {
                    if l < i {
                        assert(per_doc@[l] == per_doc0[l]);
                        lemma_recount_extends(v0, v1, tables[l], column_counts(per_doc0[l]));
                    }
                }
                assert forall|p: int, t: Seq<char>|
                    0 <= p <= i + 1 && #[trigger] all_tokens(tables.take(p)).contains(
                        t,
                    ) implies v1.dom().contains(t) && v1[t] < all_tokens(tables.take(p)).len() by {
                    if p <= i {
                        assert(v0.dom().contains(t));
                        assert(v1.dom().contains(t));
                    }
                }
            }
            i += 1;
        }
        proof {
            assert(tables.take(i as int) =~= tables);
        }
        let n_cols: usize = df.len();
        let idf: Vec<T> = smoothed_idfs(per_doc_tokens.len(), df.as_slice());
        let parts: CsrParts<T> = weigh_tables(per_doc.as_slice(), idf.as_slice());
        let model: TfidfModel<T> = TfidfModel {
            analyzer: self.analyzer,
            nmin: self.nmin,
            nmax: self.nmax,
            vocab,
            idf,
            n_cols,
        };
        proof {
            let counts = column_tables(per_doc@);
            assert forall|l: int| 0 <= l < tables.len() implies is_recount(
                vocabulary(model.vocab),
                tables[l],
                #[trigger] counts[l],
            ) by {
                assert(counts[l] == column_counts(per_doc@[l]));
            }
            assert forall|t: Seq<char>| #[trigger]
                vocabulary(model.vocab).dom().contains(t) implies is_smoothed_idf(
                tables.len() as usize,
                doc_freq(tables, t) as u32,
                model.idf@[vocabulary(model.vocab)[t] as int],
            ) by {
                assert(df@[vocabulary(model.vocab)[t] as int] == doc_freq(tables, t));
            }
            assert(numbers_in_order(vocabulary(model.vocab), tables));
            assert(counts.len() == tables.len());
            assert(holds_rows(counts, model.idf@, parts.data@, parts.indices@, parts.indptr@));
        }
        Ok((model, parts.data, parts.indices, parts.indptr))
    }

    /// Learns a vocabulary from documents given as token lists, and vectorises them.
    pub fn fit_csr_tokens<T: Scalar>(&self, docs: &[Vec<String>]) -> (r: Result<
        (TfidfModel<T>, Vec<T>, Vec<i32>, Vec<i64>),
        Error,
    >)
        requires
            all_countable(token_docs(docs@)),
            fit_vocabulary(tallies(token_docs(docs@))),
        ensures
            r matches Ok((model, data, indices, indptr)) && {
                &&& model.analyzer == self.analyzer
                &&& model.nmin == self.nmin
                &&& model.nmax == self.nmax
                &&& is_fitted(
                    tallies(token_docs(docs@)),
                    model,
                    data@,
                    indices@,
                    indptr@,
                )
            },
    {
        let mut per_doc_tokens: Vec<AHashMap<String, u32>> = Vec::new();
        let mut i: usize = 0;
        while i < docs.len()
            invariant
                i <= docs@.len(),
                per_doc_tokens@.len() == i,
                all_countable(token_docs(docs@)),
                forall|l: int|
                    0 <= l < i ==> token_counts(#[trigger] per_doc_tokens@[l]) == tally(
                        token_docs(docs@)[l],
                    ),
            decreases docs@.len() - i,
        {
            assert(token_docs(docs@)[i as int] == token_views(docs@[i as int]@));
            per_doc_tokens.push(count_tokens(docs[i].as_slice()));
            i += 1;
        }
        proof {
            assert(token_tables(per_doc_tokens@) =~= tallies(token_docs(docs@)));
            lemma_all_tokens_finite(token_docs(docs@));
        }
        self.fit_counts(per_doc_tokens.as_slice())
    }

    /// Cuts documents into tokens, learns a vocabulary from them, and vectorises them. Fails
    /// with `Internal` exactly where a token occurs in a document, or in documents, more often
    /// than a count can say, or where there are more distinct tokens than column numbers.
    pub fn fit_csr<T: Scalar, K: Tokenizer>(&self, docs: &[String], tok: &K) -> (r: Result<
        (TfidfModel<T>, Vec<T>, Vec<i32>, Vec<i64>),
        Error,
    >)
        ensures
            is_learnt(*self, tok, docs@, r),
    {
        let tokens: Vec<Vec<String>> = tokenize_documents(
            tok,
            self.analyzer,
            self.nmin,
            self.nmax,
            docs,
        );
        assert(is_tokenized(tok, self.analyzer, self.nmin, self.nmax, docs@, tokens@));
        if !token_docs_countable(tokens.as_slice()) || !token_doc_freqs_fit(tokens.as_slice())
            || !vocabulary_fits(tokens.as_slice()) {
            return Err(Error::Internal);
        }
        self.fit_csr_tokens(tokens.as_slice())
    }
}

/// What learning a vocabulary from texts returns.
pub open spec fn is_learnt<T: Scalar, K: Tokenizer>(
    builder: VocabBuilder,
    tok: &K,
    docs: Seq<String>,
    r: Result<(TfidfModel<T>, Vec<T>, Vec<i32>, Vec<i64>), Error>,
) -> bool {
    exists|tokens: Seq<Vec<String>>|
        {
            &&& #[trigger] is_tokenized(
                tok,
                builder.analyzer,
                builder.nmin,
                builder.nmax,
                docs,
                tokens,
            )
            &&& if all_countable(token_docs(tokens)) && fit_vocabulary(
                tallies(token_docs(tokens)),
            ) {
                r matches Ok((model, data, indices, indptr)) && {
                    &&& model.analyzer == builder.analyzer
                    &&& model.nmin == builder.nmin
                    &&& model.nmax == builder.nmax
                    &&& is_fitted(
                        tallies(token_docs(tokens)),
                        model,
                        data@,
                        indices@,
                        indptr@,
                    )
                }
            } else {
                r == Err::<(TfidfModel<T>, Vec<T>, Vec<i32>, Vec<i64>), Error>(Error::Internal)
            }
        }
}

/// Whether every distinct token can have a column.
pub fn vocabulary_fits(docs: &[Vec<String>]) -> (r: bool)
    ensures
        r == (all_tokens(tallies(token_docs(docs@))).len() <= 0x8000_0000),
{
    let ghost tables = tallies(token_docs(docs@));
    let ghost all = all_tokens(tables);
    proof {
        lemma_all_tokens_finite(token_docs(docs@));
    }
    let mut seen: AHashMap<String, u32> = tokens_new();
    let mut n: u64 = 0;
    let mut i: usize = 0;
    while i < docs.len()
        invariant
            i <= docs@.len(),
            tables == tallies(token_docs(docs@)),
            all == all_tokens(tables),
            all.finite(),
            token_counts(seen).dom().finite(),
            token_counts(seen).dom().len() == n,
            n <= 0x8000_0000,
            token_counts(seen).dom().subset_of(all),
            forall|l: int, j: int|
                0 <= l < i && 0 <= j < docs@[l]@.len() ==> token_counts(seen).dom().contains(
                    (#[trigger] docs@[l]@[j])@,
                ),
        decreases docs@.len() - i,
    {
        let mut j: usize = 0;
        while j < docs[i].len()
            invariant
                i < docs@.len(),
                j <= docs@[i as int]@.len(),
                tables == tallies(token_docs(docs@)),
                all == all_tokens(tables),
                all.finite(),
                token_counts(seen).dom().finite(),
                token_counts(seen).dom().len() == n,
                n <= 0x8000_0000,
                token_counts(seen).dom().subset_of(all),
                forall|l: int, q: int|
                    0 <= l < i && 0 <= q < docs@[l]@.len() ==> token_counts(seen).dom().contains(
                        (#[trigger] docs@[l]@[q])@,
                    ),
                forall|q: int|
                    0 <= q < j ==> token_counts(seen).dom().contains(
                        (#[trigger] docs@[i as int]@[q])@,
                    ),
            decreases docs@[i as int]@.len() - j,
        {
            let token: &String = &docs[i][j];
            let ghost before = token_counts(seen).dom();
            proof {
                let doc = token_docs(docs@)[i as int];
                assert(doc[j as int] == token@);
                assert(tables[i as int].dom().contains(token@));
                assert(all.contains(token@));
            }
            if tokens_get(&seen, token.as_str()).is_none() {
                if n == 0x8000_0000 {
                    proof {
                        let longer = before.insert(token@);
                        assert(longer.subset_of(all));
                        lemma_len_subset(longer, all);
                    }
                    return false;
                }
                tokens_insert(&mut seen, token.clone(), 1);
                n = n + 1;
                assert(token_counts(seen).dom() =~= before.insert(token@));
            }
            j += 1;
        }
        i += 1;
    }
    proof {
        assert forall|t: Seq<char>| all.contains(t) implies token_counts(seen).dom().contains(
            t,
        ) by {
            let l = choose|l: int| 0 <= l < tables.len() && #[trigger] tables[l].dom().contains(t);
            let doc = token_docs(docs@)[l];
            let q = choose|q: int| 0 <= q < doc.len() && doc[q] == t;
            assert(docs@[l]@[q]@ == t);
        }
        assert(token_counts(seen).dom() =~= all);
    }
    true
}

/// A longer vocabulary recounts a document as the shorter one did.
proof fn lemma_recount_extends(
    shorter: Map<Seq<char>, i32>,
    longer: Map<Seq<char>, i32>,
    table: Map<Seq<char>, u32>,
    counts: Map<usize, u32>,
)
    requires
        shorter.submap_of(longer),
        is_recount(shorter, table, counts),
    ensures
        is_recount(longer, table, counts),
{
    assert forall|t: Seq<char>| #[trigger] table.dom().contains(t) implies {
        &&& longer.dom().contains(t)
        &&& longer[t] >= 0
        &&& counts.dom().contains(longer[t] as usize)
        &&& counts[longer[t] as usize] == table[t]
    } by {
        assert(shorter.dom().contains(t));
        assert(longer.dom().contains(t));
    }
    assert forall|c: usize| #[trigger] counts.dom().contains(c) implies exists|t: Seq<char>|
        #[trigger] table.dom().contains(t) && longer[t] == c by {
        let t = choose|t: Seq<char>| #[trigger] table.dom().contains(t) && shorter[t] == c;
        assert(shorter.dom().contains(t));
        assert(longer.dom().contains(t));
    }
}

} // verus!
