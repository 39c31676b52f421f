//! Documents as the counts of what they hold, and how many documents hold a thing.

use vstd::prelude::*;

use crate::counting::{tally, token_views};

verus! {

/// The documents as sequences of columns.
pub open spec fn column_docs(docs: Seq<Vec<usize>>) -> Seq<Seq<usize>> {
    Seq::new(docs.len(), |i: int| docs[i]@)
}

/// The documents as sequences of tokens, each token by its characters.
pub open spec fn token_docs(docs: Seq<Vec<String>>) -> Seq<Seq<Seq<char>>> {
    Seq::new(docs.len(), |i: int| token_views(docs[i]@))
}

/// The counts of every document.
pub open spec fn tallies<A>(docs: Seq<Seq<A>>) -> Seq<Map<A, u32>> {
    Seq::new(docs.len(), |i: int| tally(docs[i]))
}

/// How many of the documents hold `k`.
pub open spec fn doc_freq<K>(tables: Seq<Map<K, u32>>, k: K) -> nat
    decreases tables.len(),
{
    if tables.len() == 0 {
        0
    } else {
        doc_freq(tables.drop_last(), k) + if tables.last().dom().contains(k) {
            1nat
        } else {
            0
        }
    }
}

/// One more document: it is counted for what it holds, and for nothing else.
pub proof fn lemma_doc_freq_step<K>(tables: Seq<Map<K, u32>>, n: int, k: K)
    requires
        0 <= n < tables.len(),
    ensures
        doc_freq(tables.take(n + 1), k) == doc_freq(tables.take(n), k)
            + if tables[n].dom().contains(k) {
            1nat
        } else {
            0
        },
{
    assert(tables.take(n + 1).drop_last() =~= tables.take(n));
}

/// No more documents hold a thing than there are, and a prefix has no more of them than
/// the whole.
pub proof fn lemma_doc_freq_prefix<K>(tables: Seq<Map<K, u32>>, n: int, k: K)
    requires
        0 <= n <= tables.len(),
    ensures
        doc_freq(tables.take(n), k) <= doc_freq(tables, k) <= tables.len(),
    decreases tables.len(),
{
    if tables.len() > 0 {
        let shorter = tables.drop_last();
        if n < tables.len() {
            lemma_doc_freq_prefix(shorter, n, k);
            assert(shorter.take(n) =~= tables.take(n));
        } else {
            lemma_doc_freq_prefix(shorter, n - 1, k);
            assert(tables.take(n) =~= tables);
        }
    } else {
        assert(tables.take(n) =~= tables);
    }
}

} // verus!
