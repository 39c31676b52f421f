//! Counting how often each item of a sequence occurs.

use ahash::AHashMap;
use vstd::prelude::*;

use crate::tables::{
    columns_get, columns_insert, columns_new, tokens_get, tokens_insert, tokens_new,
};

verus! {

/// How often `a` occurs in `s`.
pub open spec fn occurrences<A>(s: Seq<A>, a: A) -> nat
    decreases s.len(),
{
    if s.len() == 0 {
        0
    } else {
        occurrences(s.drop_last(), a) + if s.last() == a {
            1nat
        } else {
            0
        }
    }
}

/// Every item of `s` occurs at most as often as a count can say.
pub open spec fn countable<A>(s: Seq<A>) -> bool {
    forall|a: A| #[trigger] occurrences(s, a) <= u32::MAX
}

/// The items of `s`, each with its number of occurrences.
pub open spec fn tally<A>(s: Seq<A>) -> Map<A, u32> {
    Map::new(|a: A| s.contains(a), |a: A| occurrences(s, a) as u32)
}

/// The characters of each token of a document.
pub open spec fn token_views(doc: Seq<String>) -> Seq<Seq<char>> {
    Seq::new(doc.len(), |i: int| doc[i]@)
}

/// An item occurs at least once exactly if the sequence contains it.
pub proof fn lemma_occurrences_positive<A>(s: Seq<A>, a: A)
    ensures
        occurrences(s, a) > 0 <==> s.contains(a),
    decreases s.len(),
{
    if s.len() > 0 {
        lemma_occurrences_positive(s.drop_last(), a);
        if s.contains(a) && s.last() != a {
            let i = choose|i: int| 0 <= i < s.len() && s[i] == a;
            assert(s.drop_last()[i] == a);
        }
        if s.drop_last().contains(a) {
            let i = choose|i: int| 0 <= i < s.drop_last().len() && s.drop_last()[i] == a;
            assert(s[i] == a);
        }
        if s.last() == a {
            assert(s[s.len() - 1] == a);
        }
    }
}

/// A prefix holds no more of an item than the whole.
pub proof fn lemma_occurrences_prefix<A>(s: Seq<A>, n: int, a: A)
    requires
        0 <= n <= s.len(),
    ensures
        occurrences(s.take(n), a) <= occurrences(s, a),
    decreases s.len(),
{
    if n == s.len() {
        assert(s.take(n) =~= s);
    } else {
        lemma_occurrences_prefix(s.drop_last(), n, a);
        assert(s.drop_last().take(n) =~= s.take(n));
    }
}

/// An item occurs no more often than there are items.
pub proof fn lemma_occurrences_len<A>(s: Seq<A>, a: A)
    ensures
        occurrences(s, a) <= s.len(),
    decreases s.len(),
{
    if s.len() > 0 {
        lemma_occurrences_len(s.drop_last(), a);
    }
}

/// A sequence whose length a count can say is countable.
pub proof fn lemma_short_is_countable<A>(s: Seq<A>)
    requires
        s.len() <= u32::MAX,
    ensures
        countable(s),
{
    assert forall|a: A| #[trigger] occurrences(s, a) <= u32::MAX by {
        lemma_occurrences_len(s, a);
    }
}

/// One more item: its count grows by one, and no other count changes.
pub proof fn lemma_tally_step<A>(s: Seq<A>, n: int)
    requires
        0 <= n < s.len(),
        countable(s),
    ensures
        occurrences(s.take(n), s[n]) < u32::MAX,
        !s.take(n).contains(s[n]) ==> occurrences(s.take(n), s[n]) == 0,
        tally(s.take(n + 1)) == tally(s.take(n)).insert(
            s[n],
            (occurrences(s.take(n), s[n]) + 1) as u32,
        ),
{
    let before = s.take(n);
    let after = s.take(n + 1);
    assert(after.drop_last() =~= before);
    assert(after.last() == s[n]);
    lemma_occurrences_positive(before, s[n]);
    lemma_occurrences_prefix(s, n + 1, s[n]);
    assert(occurrences(s, s[n]) <= u32::MAX);
    assert forall|a: A| #[trigger]
        after.contains(a) <==> before.contains(a) || a == s[n] by {
        lemma_occurrences_positive(before, a);
        lemma_occurrences_positive(after, a);
    }
    assert(tally(after) =~= tally(before).insert(
        s[n],
        (occurrences(before, s[n]) + 1) as u32,
    ));
}

/// Counts the columns of a document.
pub fn count_columns(columns: &[usize]) -> (table: AHashMap<usize, u32>)
    requires
        countable(columns@),
    ensures
        crate::tables::column_counts(table) == tally(columns@),
{
    let mut table: AHashMap<usize, u32> = columns_new();
    let mut i: usize = 0;
    assert(crate::tables::column_counts(table) =~= tally(columns@.take(0)));
    while i < columns.len()
        invariant
            i <= columns@.len(),
            countable(columns@),
            crate::tables::column_counts(table) == tally(columns@.take(i as int)),
        decreases columns@.len() - i,
    {
        let column: usize = columns[i];
        proof {
            lemma_tally_step(columns@, i as int);
        }
        let count: u32 = match columns_get(&table, column) {
            Some(count) => count,
            None => 0,
        };
        columns_insert(&mut table, column, count + 1);
        i += 1;
    }
    assert(columns@.take(i as int) =~= columns@);
    table
}

/// Counts the tokens of a document.
pub fn count_tokens(tokens: &[String]) -> (table: AHashMap<String, u32>)
    requires
        countable(token_views(tokens@)),
    ensures
        crate::tables::token_counts(table) == tally(token_views(tokens@)),
{
    let ghost views = token_views(tokens@);
    let mut table: AHashMap<String, u32> = tokens_new();
    let mut i: usize = 0;
    assert(crate::tables::token_counts(table) =~= tally(views.take(0)));
    while i < tokens.len()
        invariant
            i <= tokens@.len(),
            views == token_views(tokens@),
            countable(views),
            crate::tables::token_counts(table) == tally(views.take(i as int)),
        decreases tokens@.len() - i,
    {
        let token: &String = &tokens[i];
        proof {
            lemma_tally_step(views, i as int);
        }
        let count: u32 = match tokens_get(&table, token.as_str()) {
            Some(count) => count,
            None => 0,
        };
        tokens_insert(&mut table, token.clone(), count + 1);
        i += 1;
    }
    assert(views.take(i as int) =~= views);
    table
}

} // verus!
