//! The hash tables, and what is taken on trust of them.
//!
//! Three tables of the `ahash` crate are used: from a column to its count, from a
//! token to its count, and from a token to its column (the vocabulary). What each
//! holds is named as a map; the wrappers below say over those maps what the methods
//! of `ahash::AHashMap` do. The order in which a table is walked is left open.

use ahash::AHashMap;
use vstd::prelude::*;

verus! {

/// The hasher that `ahash::AHashMap` is built with.
#[verifier::external_type_specification]
#[verifier::external_body]
pub struct ExRandomState(ahash::RandomState);

/// The hash table of the `ahash` crate.
#[verifier::external_type_specification]
#[verifier::external_body]
#[verifier::reject_recursive_types(K)]
#[verifier::reject_recursive_types(V)]
#[verifier::reject_recursive_types(S)]
pub struct ExAHashMap<K, V, S>(ahash::AHashMap<K, V, S>);

/// What a table from columns to counts holds.
pub uninterp spec fn column_counts(table: AHashMap<usize, u32>) -> Map<usize, u32>;

/// What a table from tokens to counts holds, each token by its characters.
pub uninterp spec fn token_counts(table: AHashMap<String, u32>) -> Map<Seq<char>, u32>;

/// What a table from tokens to columns holds, each token by its characters.
pub uninterp spec fn vocabulary(table: AHashMap<String, i32>) -> Map<Seq<char>, i32>;

/// `items` lists the entries of `m`, each once, in some order.
pub open spec fn lists_entries<K, V>(items: Seq<(K, V)>, m: Map<K, V>) -> bool {
    &&& forall|i: int|
        0 <= i < items.len() ==> m.dom().contains((#[trigger] items[i]).0) && m[items[i].0]
            == items[i].1
    &&& forall|i: int, j: int|
        0 <= i < j < items.len() ==> (#[trigger] items[i]).0 != (#[trigger] items[j]).0
    &&& forall|k: K| #[trigger]
        m.dom().contains(k) ==> exists|i: int| 0 <= i < items.len() && (#[trigger] items[i]).0 == k
}

/// Whether a key is among the first `n` items.
pub open spec fn is_among<K, V>(items: Seq<(K, V)>, n: int, k: K) -> bool {
    exists|l: int| 0 <= l < n && (#[trigger] items[l]).0 == k
}

/// The entries of a token table as they are handed out, each token by its characters.
pub open spec fn token_items_view(items: Seq<(&String, u32)>) -> Seq<(Seq<char>, u32)> {
    Seq::new(items.len(), |i: int| (items[i].0@, items[i].1))
}

/// `AHashMap::new` for column counts: the table is empty.
#[verifier::external_body]
pub(crate) fn columns_new() -> (table: AHashMap<usize, u32>)
    ensures
        (column_counts(table) == Map::<usize, u32>::empty()),
{
    AHashMap::new()
}

/// `AHashMap::get` for column counts: the value of the key, where the key is present.
#[verifier::external_body]
pub(crate) fn columns_get(table: &AHashMap<usize, u32>, column: usize) -> (count: Option<u32>)
    ensures
        count == column_counts(*table).get(column),
{
    table.get(&column).copied()
}

/// `AHashMap::insert` for column counts: the key now has this value, and nothing else
/// changes.
#[verifier::external_body]
pub(crate) fn columns_insert(table: &mut AHashMap<usize, u32>, column: usize, count: u32)
    ensures
        column_counts(*final(table)) == column_counts(*old(table)).insert(column, count),
{
    table.insert(column, count);
}

/// The iterator of `&AHashMap` for column counts: every entry once, in an order that is
/// left open.
#[verifier::external_body]
pub(crate) fn columns_items(table: &AHashMap<usize, u32>) -> (items: Vec<(usize, u32)>)
    ensures
        lists_entries(items@, column_counts(*table)),
{
    table.into_iter().map(|(column, count)| (*column, *count)).collect()
}

/// `AHashMap::new` for token counts: the table is empty.
#[verifier::external_body]
pub(crate) fn tokens_new() -> (table: AHashMap<String, u32>)
    ensures
        (token_counts(table) == Map::<Seq<char>, u32>::empty()),
{
    AHashMap::new()
}

/// `AHashMap::get` for token counts: the value of the key, where the key is present.
#[verifier::external_body]
pub(crate) fn tokens_get(table: &AHashMap<String, u32>, token: &str) -> (count: Option<u32>)
    ensures
        count == token_counts(*table).get(token@),
{
    table.get(token).copied()
}

/// `AHashMap::insert` for token counts: the key now has this value, and nothing else
/// changes.
#[verifier::external_body]
pub(crate) fn tokens_insert(table: &mut AHashMap<String, u32>, token: String, count: u32)
    ensures
        token_counts(*final(table)) == token_counts(*old(table)).insert(token@, count),
{
    table.insert(token, count);
}

/// The iterator of `&AHashMap` for token counts: every entry once, in an order that is
/// left open.
#[verifier::external_body]
pub(crate) fn tokens_items(table: &AHashMap<String, u32>) -> (items: Vec<(&String, u32)>)
    ensures
        lists_entries(token_items_view(items@), token_counts(*table)),
{
    table.into_iter().map(|(token, count)| (token, *count)).collect()
}

/// `AHashMap::new` for the vocabulary: the table is empty.
#[verifier::external_body]
pub(crate) fn vocabulary_new() -> (table: AHashMap<String, i32>)
    ensures
        (vocabulary(table) == Map::<Seq<char>, i32>::empty()),
{
    AHashMap::new()
}

/// `AHashMap::get` for the vocabulary: the value of the key, where the key is present.
#[verifier::external_body]
pub(crate) fn vocabulary_get(table: &AHashMap<String, i32>, token: &str) -> (column: Option<i32>)
    ensures
        column == vocabulary(*table).get(token@),
{
    table.get(token).copied()
}

/// `AHashMap::insert` for the vocabulary: the key now has this value, and nothing else
/// changes.
#[verifier::external_body]
pub(crate) fn vocabulary_insert(table: &mut AHashMap<String, i32>, token: String, column: i32)
    ensures
        vocabulary(*final(table)) == vocabulary(*old(table)).insert(token@, column),
{
    table.insert(token, column);
}

/// `AHashMap::clone` for the vocabulary: the copy holds the same entries.
#[verifier::external_body]
pub(crate) fn vocabulary_clone(table: &AHashMap<String, i32>) -> (copy: AHashMap<String, i32>)
    ensures
        vocabulary(copy) == vocabulary(*table),
{
    table.clone()
}

} // verus!
