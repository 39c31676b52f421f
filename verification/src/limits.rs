//! Whether counts stay within their type.

use ahash::AHashMap;
use vstd::prelude::*;

use crate::counting::{
    count_columns, count_tokens, countable, lemma_occurrences_positive, lemma_occurrences_prefix,
    lemma_short_is_countable, lemma_tally_step, occurrences, tally, token_views,
};
use crate::documents::{
    column_docs, doc_freq, lemma_doc_freq_prefix, lemma_doc_freq_step, tallies, token_docs,
};
use crate::tables::{
    column_counts, columns_get, columns_insert, columns_items, columns_new, is_among,
    lists_entries, token_counts, token_items_view, tokens_get, tokens_insert, tokens_items, tokens_new,
};

verus! {

/// Every document is countable.
pub open spec fn all_countable<A>(docs: Seq<Seq<A>>) -> bool {
    forall|i: int| 0 <= i < docs.len() ==> countable(#[trigger] docs[i])
}

/// A count can say how many documents hold a thing, whatever it is.
pub open spec fn doc_freqs_fit<K>(tables: Seq<Map<K, u32>>) -> bool {
    forall|k: K| #[trigger] doc_freq(tables, k) <= u32::MAX
}

/// The count of a key, which is zero where there is no entry.
pub open spec fn count_of<K>(m: Map<K, u32>, k: K) -> u32 {
    if m.dom().contains(k) {
        m[k]
    } else {
        0
    }
}

/// One more item adds its key.
proof fn lemma_among_step<K>(items: Seq<(K, u32)>, n: int, k: K)
    requires
        0 <= n < items.len(),
    ensures
        is_among(items, n + 1, k) <==> is_among(items, n, k) || items[n].0 == k,
{
    if is_among(items, n, k) {
        let l = choose|l: int| 0 <= l < n && (#[trigger] items[l]).0 == k;
        assert(0 <= l < n + 1 && items[l].0 == k);
    }
    if items[n].0 == k {
        assert(0 <= n < n + 1 && items[n].0 == k);
    }
    if is_among(items, n + 1, k) {
        let l = choose|l: int| 0 <= l < n + 1 && (#[trigger] items[l]).0 == k;
        if l < n {
            assert(0 <= l < n && items[l].0 == k);
        }
    }
}

/// Appending an item raises its count by one, where the count can say so.
proof fn lemma_tally_push<A>(s: Seq<A>, a: A)
    requires
        countable(s),
    ensures
        count_of(tally(s), a) == occurrences(s, a),
        forall|b: A| #[trigger]
            occurrences(s.push(a), b) == occurrences(s, b) + if b == a {
                1nat
            } else {
                0
            },
        occurrences(s, a) < u32::MAX ==> {
            &&& countable(s.push(a))
            &&& tally(s.push(a)) == tally(s).insert(a, (occurrences(s, a) + 1) as u32)
        },
{
    let longer = s.push(a);
    assert(longer.drop_last() =~= s);
    lemma_occurrences_positive(s, a);
    assert(occurrences(s, a) <= u32::MAX);
    if occurrences(s, a) < u32::MAX {
        assert forall|b: A| #[trigger] occurrences(longer, b) <= u32::MAX by {
            assert(occurrences(s, b) <= u32::MAX);
        }
        lemma_tally_step(longer, s.len() as int);
        assert(longer.take(s.len() as int) =~= s);
        assert(longer.take(s.len() as int + 1) =~= longer);
    }
}

/// Raises the count of a column by one. Returns false, and changes nothing, where the count
/// cannot grow.
fn bump_column(table: &mut AHashMap<usize, u32>, column: usize) -> (r: bool)
    ensures
        r == (count_of(column_counts(*old(table)), column) < u32::MAX),
        column_counts(*final(table)) == if r {
            column_counts(*old(table)).insert(
                column,
                (count_of(column_counts(*old(table)), column) + 1) as u32,
            )
        } else {
            column_counts(*old(table))
        },
{
    let count: u32 = match columns_get(table, column) {
        Some(count) => count,
        None => 0,
    };
    if count == u32::MAX {
        return false;
    }
    columns_insert(table, column, count + 1);
    true
}

/// Raises the count of a token by one. Returns false, and changes nothing, where the count
/// cannot grow.
fn bump_token(table: &mut AHashMap<String, u32>, token: &String) -> (r: bool)
    ensures
        r == (count_of(token_counts(*old(table)), token@) < u32::MAX),
        token_counts(*final(table)) == if r {
            token_counts(*old(table)).insert(
                token@,
                (count_of(token_counts(*old(table)), token@) + 1) as u32,
            )
        } else {
            token_counts(*old(table))
        },
{
    let count: u32 = match tokens_get(table, token.as_str()) {
        Some(count) => count,
        None => 0,
    };
    if count == u32::MAX {
        return false;
    }
    tokens_insert(table, token.clone(), count + 1);
    true
}

/// Whether a document, given by its columns, is countable.
pub fn columns_countable(columns: &[usize]) -> (r: bool)
    ensures
        r == countable(columns@),
{
    if columns.len() as u64 <= u32::MAX as u64 {
        proof {
            lemma_short_is_countable(columns@);
        }
        return true;
    }
    let mut table: AHashMap<usize, u32> = columns_new();
    let mut i: usize = 0;
    proof {
        assert(column_counts(table) =~= tally(columns@.take(0)));
        lemma_short_is_countable(columns@.take(0));
    }
    while i < columns.len()
        invariant
            i <= columns@.len(),
            countable(columns@.take(i as int)),
            column_counts(table) == tally(columns@.take(i as int)),
        decreases columns@.len() - i,
    {
        let column: usize = columns[i];
        proof {
            let seen = columns@.take(i as int);
            lemma_tally_push(seen, column);
            assert(columns@.take(i + 1) =~= seen.push(column));
        }
        if !bump_column(&mut table, column) {
            proof {
                lemma_occurrences_prefix(columns@, i + 1, column);
                assert(occurrences(columns@, column) > u32::MAX);
            }
            return false;
        }
        i += 1;
    }
    assert(columns@.take(i as int) =~= columns@);
    true
}

/// Whether a document, given by its tokens, is countable.
pub fn tokens_countable(tokens: &[String]) -> (r: bool)
    ensures
        r == countable(token_views(tokens@)),
{
    let ghost views = token_views(tokens@);
    if tokens.len() as u64 <= u32::MAX as u64 {
        proof {
            lemma_short_is_countable(views);
        }
        return true;
    }
    let mut table: AHashMap<String, u32> = tokens_new();
    let mut i: usize = 0;
    proof {
        assert(token_counts(table) =~= tally(views.take(0)));
        lemma_short_is_countable(views.take(0));
    }
    while i < tokens.len()
        invariant
            i <= tokens@.len(),
            views == token_views(tokens@),
            countable(views.take(i as int)),
            token_counts(table) == tally(views.take(i as int)),
        decreases tokens@.len() - i,
    {
        let token: &String = &tokens[i];
        proof {
            let seen = views.take(i as int);
            lemma_tally_push(seen, token@);
            assert(views.take(i + 1) =~= seen.push(token@));
        }
        if !bump_token(&mut table, token) {
            proof {
                lemma_occurrences_prefix(views, i + 1, token@);
                assert(occurrences(views, token@) > u32::MAX);
            }
            return false;
        }
        i += 1;
    }
    assert(views.take(i as int) =~= views);
    true
}

/// Whether every document, given by its columns, is countable.
pub fn column_docs_countable(docs: &[Vec<usize>]) -> (r: bool)
    ensures
        r == all_countable(column_docs(docs@)),
{
    let mut i: usize = 0;
    while i < docs.len()
        invariant
            i <= docs@.len(),
            forall|l: int| 0 <= l < i ==> countable(#[trigger] column_docs(docs@)[l]),
        decreases docs@.len() - i,
    {
        assert(column_docs(docs@)[i as int] == docs@[i as int]@);
        if !columns_countable(docs[i].as_slice()) {
            return false;
        }
        i += 1;
    }
    true
}

/// Whether every document, given by its tokens, is countable.
pub fn token_docs_countable(docs: &[Vec<String>]) -> (r: bool)
    ensures
        r == all_countable(token_docs(docs@)),
{
    let mut i: usize = 0;
    while i < docs.len()
        invariant
            i <= docs@.len(),
            forall|l: int| 0 <= l < i ==> countable(#[trigger] token_docs(docs@)[l]),
        decreases docs@.len() - i,
    {
        assert(token_docs(docs@)[i as int] == token_views(docs@[i as int]@));
        if !tokens_countable(docs[i].as_slice()) {
            return false;
        }
        i += 1;
    }
    true
}

/// No more documents hold a thing than there are.
proof fn lemma_few_documents<K>(tables: Seq<Map<K, u32>>)
    requires
        tables.len() <= u32::MAX,
    ensures
        doc_freqs_fit(tables),
{
    assert forall|k: K| #[trigger] doc_freq(tables, k) <= u32::MAX by {
        lemma_doc_freq_prefix(tables, tables.len() as int, k);
    }
}

/// Whether a count can say how many documents, given by their columns, hold a column.
pub fn column_doc_freqs_fit(docs: &[Vec<usize>]) -> (r: bool)
    requires
        all_countable(column_docs(docs@)),
    ensures
        r == doc_freqs_fit(tallies(column_docs(docs@))),
{
    let ghost tables = tallies(column_docs(docs@));
    if docs.len() as u64 <= u32::MAX as u64 {
        proof {
            lemma_few_documents(tables);
        }
        return true;
    }
    let mut freqs: AHashMap<usize, u32> = columns_new();
    let ghost mut stream: Seq<usize> = Seq::empty();
    let mut i: usize = 0;
    proof {
        assert(column_counts(freqs) =~= tally(stream));
        lemma_short_is_countable(stream);
    }
    while i < docs.len()
        invariant
            i <= docs@.len(),
            tables == tallies(column_docs(docs@)),
            all_countable(column_docs(docs@)),
            countable(stream),
            column_counts(freqs) == tally(stream),
            forall|c: usize| #[trigger]
                occurrences(stream, c) == doc_freq(tables.take(i as int), c),
        decreases docs@.len() - i,
    {
        assert(column_docs(docs@)[i as int] == docs@[i as int]@);
        let table: AHashMap<usize, u32> = count_columns(docs[i].as_slice());
        let items: Vec<(usize, u32)> = columns_items(&table);
        let mut j: usize = 0;
        while j < items.len()
            invariant
                j <= items@.len(),
                i < docs@.len(),
                tables == tallies(column_docs(docs@)),
                lists_entries(items@, tables[i as int]),
                countable(stream),
                column_counts(freqs) == tally(stream),
                forall|c: usize| #[trigger]
                    occurrences(stream, c) == doc_freq(tables.take(i as int), c) + if is_among(
                        items@,
                        j as int,
                        c,
                    ) {
                        1nat
                    } else {
                        0
                    },
            decreases items@.len() - j,
        {
            let column: usize = items[j].0;
            proof {
                assert(items@[j as int].0 == column);
                assert(!is_among(items@, j as int, column)) by {
                    if is_among(items@, j as int, column) {
                        let l = choose|l: int| 0 <= l < j && (#[trigger] items@[l]).0 == column;
                        assert(items@[l].0 != items@[j as int].0);
                    }
                }
                lemma_tally_push(stream, column);
            }
            if !bump_column(&mut freqs, column) {
                proof {
                    lemma_doc_freq_step(tables, i as int, column);
                    lemma_doc_freq_prefix(tables, i + 1, column);
                    assert(doc_freq(tables, column) > u32::MAX);
                }
                return false;
            }
            proof {
                let before = stream;
                stream = stream.push(column);
                assert forall|c: usize| #[trigger]
                    occurrences(stream, c) == doc_freq(tables.take(i as int), c) + if is_among(
                        items@,
                        j + 1,
                        c,
                    ) {
                        1nat
                    } else {
                        0
                    } by {
                    assert(occurrences(before.push(column), c) == occurrences(before, c) + if c
                        == column {
                        1nat
                    } else {
                        0
                    });
                    lemma_among_step(items@, j as int, c);
                }
            }
            j += 1;
        }
        proof {
            assert forall|c: usize| #[trigger]
                occurrences(stream, c) == doc_freq(tables.take(i + 1), c) by {
                lemma_doc_freq_step(tables, i as int, c);
                if tables[i as int].dom().contains(c) {
                    let l = choose|l: int| 0 <= l < items@.len() && (#[trigger] items@[l]).0 == c;
                    assert(is_among(items@, j as int, c));
                }
                if is_among(items@, j as int, c) {
                    let l = choose|l: int| 0 <= l < j && (#[trigger] items@[l]).0 == c;
                    assert(tables[i as int].dom().contains(items@[l].0));
                }
            }
        }
        i += 1;
    }
    proof {
        assert(tables.take(i as int) =~= tables);
        assert forall|c: usize| #[trigger] doc_freq(tables, c) <= u32::MAX by {
            assert(occurrences(stream, c) <= u32::MAX);
        }
    }
    true
}

/// Whether a count can say how many documents, given by their tokens, hold a token.
pub fn token_doc_freqs_fit(docs: &[Vec<String>]) -> (r: bool)
    requires
        all_countable(token_docs(docs@)),
    ensures
        r == doc_freqs_fit(tallies(token_docs(docs@))),
{
    let ghost tables = tallies(token_docs(docs@));
    if docs.len() as u64 <= u32::MAX as u64 {
        proof {
            lemma_few_documents(tables);
        }
        return true;
    }
    let mut freqs: AHashMap<String, u32> = tokens_new();
    let ghost mut stream: Seq<Seq<char>> = Seq::empty();
    let mut i: usize = 0;
    proof {
        assert(token_counts(freqs) =~= tally(stream));
        lemma_short_is_countable(stream);
    }
    while i < docs.len()
        invariant
            i <= docs@.len(),
            tables == tallies(token_docs(docs@)),
            all_countable(token_docs(docs@)),
            countable(stream),
            token_counts(freqs) == tally(stream),
            forall|t: Seq<char>| #[trigger]
                occurrences(stream, t) == doc_freq(tables.take(i as int), t),
        decreases docs@.len() - i,
    {
        assert(token_docs(docs@)[i as int] == token_views(docs@[i as int]@));
        let table: AHashMap<String, u32> = count_tokens(docs[i].as_slice());
        let items: Vec<(&String, u32)> = tokens_items(&table);
        let ghost pairs = token_items_view(items@);
        let mut j: usize = 0;
        while j < items.len()
            invariant
                j <= items@.len(),
                i < docs@.len(),
                tables == tallies(token_docs(docs@)),
                pairs == token_items_view(items@),
                lists_entries(pairs, tables[i as int]),
                countable(stream),
                token_counts(freqs) == tally(stream),
                forall|t: Seq<char>| #[trigger]
                    occurrences(stream, t) == doc_freq(tables.take(i as int), t) + if is_among(
                        pairs,
                        j as int,
                        t,
                    ) {
                        1nat
                    } else {
                        0
                    },
            decreases items@.len() - j,
        {
            let token: &String = items[j].0;
            proof {
                assert(pairs[j as int].0 == token@);
                assert(!is_among(pairs, j as int, token@)) by {
                    if is_among(pairs, j as int, token@) {
                        let l = choose|l: int| 0 <= l < j && (#[trigger] pairs[l]).0 == token@;
                        assert(pairs[l].0 != pairs[j as int].0);
                    }
                }
                lemma_tally_push(stream, token@);
            }
            if !bump_token(&mut freqs, token) {
                proof {
                    lemma_doc_freq_step(tables, i as int, token@);
                    lemma_doc_freq_prefix(tables, i + 1, token@);
                    assert(doc_freq(tables, token@) > u32::MAX);
                }
                return false;
            }
            proof {
                let before = stream;
                stream = stream.push(token@);
                assert forall|t: Seq<char>| #[trigger]
                    occurrences(stream, t) == doc_freq(tables.take(i as int), t) + if is_among(
                        pairs,
                        j + 1,
                        t,
                    ) {
                        1nat
                    } else {
                        0
                    } by {
                    assert(occurrences(before.push(token@), t) == occurrences(before, t) + if t
                        == token@ {
                        1nat
                    } else {
                        0
                    });
                    lemma_among_step(pairs, j as int, t);
                }
            }
            j += 1;
        }
        proof {
            assert forall|t: Seq<char>| #[trigger]
                occurrences(stream, t) == doc_freq(tables.take(i + 1), t) by {
                lemma_doc_freq_step(tables, i as int, t);
                if tables[i as int].dom().contains(t) {
                    let l = choose|l: int| 0 <= l < pairs.len() && (#[trigger] pairs[l]).0 == t;
                    assert(is_among(pairs, j as int, t));
                }
                if is_among(pairs, j as int, t) {
                    let l = choose|l: int| 0 <= l < j && (#[trigger] pairs[l]).0 == t;
                    assert(tables[i as int].dom().contains(pairs[l].0));
                }
            }
        }
        i += 1;
    }
    proof {
        assert(tables.take(i as int) =~= tables);
        assert forall|t: Seq<char>| #[trigger] doc_freq(tables, t) <= u32::MAX by {
            assert(occurrences(stream, t) <= u32::MAX);
        }
    }
    true
}

} // verus!
