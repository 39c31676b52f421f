//! Sparse rows as maps from columns to values.

use vstd::multiset::Multiset;
use vstd::prelude::*;
use vstd::seq_lib::lemma_fold_left_permutation;

use crate::csr::{lays_out, lemma_flatten_lens, stored_columns};
use crate::documents::tallies;
use crate::laws::{law_fit_agrees_with_transform, law_rows_are_slices};
use crate::laws::{lemma_normalized_alike, lemma_term_weight_unique};
use crate::limits::all_countable;
use crate::rows::{holds_rows, is_row};
use crate::scalar::{
    adds_in_any_order, functional, is_dot, is_exact_plus, is_product, is_sum, is_zero, Scalar,
};
use crate::tables::{lists_entries, vocabulary};
use crate::vocab::{is_fitted, known_tables, TfidfModel};
use crate::weights::{is_normalized, is_sum_of_squares, is_term_weight, is_weighted_row};

verus! {

/// Row `i` of the sparse rows has the value `v` in column `c`.
pub open spec fn row_has<T>(
    data: Seq<T>,
    indices: Seq<i32>,
    indptr: Seq<i64>,
    i: int,
    c: i32,
    v: T,
) -> bool {
    exists|p: int|
        indptr[i] <= p < indptr[i + 1] && #[trigger] indices[p] == c && data[p] == v
}

/// Every row has the same values in the same columns, in whatever order they are stored.
pub open spec fn same_rows<T>(
    data1: Seq<T>,
    indices1: Seq<i32>,
    indptr1: Seq<i64>,
    data2: Seq<T>,
    indices2: Seq<i32>,
    indptr2: Seq<i64>,
) -> bool {
    &&& indptr1.len() == indptr2.len()
    &&& forall|i: int, c: i32, v: T|
        0 <= i < indptr1.len() - 1 ==> (#[trigger] row_has(data1, indices1, indptr1, i, c, v)
            <==> row_has(data2, indices2, indptr2, i, c, v))
}

/// Every row has values in the same columns, each close to the other's, in whatever order
/// they are stored.
pub open spec fn near_rows<T>(
    close: spec_fn(T, T) -> bool,
    data1: Seq<T>,
    indices1: Seq<i32>,
    indptr1: Seq<i64>,
    data2: Seq<T>,
    indices2: Seq<i32>,
    indptr2: Seq<i64>,
) -> bool {
    &&& indptr1.len() == indptr2.len()
    &&& forall|i: int, c: i32, v: T|
        0 <= i < indptr1.len() - 1 && #[trigger] row_has(data1, indices1, indptr1, i, c, v)
            ==> exists|w: T| #[trigger] row_has(data2, indices2, indptr2, i, c, w) && close(v, w)
    &&& forall|i: int, c: i32, w: T|
        0 <= i < indptr1.len() - 1 && #[trigger] row_has(data2, indices2, indptr2, i, c, w)
            ==> exists|v: T| #[trigger] row_has(data1, indices1, indptr1, i, c, v) && close(v, w)
}

/// `v` and `w` are the normalised values of one weight in two rows of the same weights, which
/// stand in whatever order: the weight times the inverse roots of two sums of the same
/// squares. So they differ by the rounding of those sums and of what follows from them.
#[verifier::opaque]
pub open spec fn differ_by_order<T: Scalar>(v: T, w: T) -> bool {
    exists|raw1: Seq<T>, raw2: Seq<T>, out1: Seq<T>, out2: Seq<T>, j1: int, j2: int|
        {
            &&& #[trigger] is_normalized(raw1, out1)
            &&& #[trigger] is_normalized(raw2, out2)
            &&& raw1.to_multiset() == raw2.to_multiset()
            &&& 0 <= j1 < raw1.len()
            &&& 0 <= j2 < raw2.len()
            &&& raw1[j1] == raw2[j2]
            &&& #[trigger] out1[j1] == v
            &&& #[trigger] out2[j2] == w
        }
}

/// Normalising the same weights in another order changes a value by no more than `close` lets
/// pass as rounding. The tightest such bound is [`differ_by_order`] itself.
pub open spec fn normalises_within<T: Scalar>(close: spec_fn(T, T) -> bool) -> bool {
    forall|v: T, w: T| #[trigger] differ_by_order(v, w) ==> close(v, w)
}

/// A sum of squares is what adding the squares to zero from the left gives.
proof fn lemma_squares_fold<A, T: Scalar>(
    items: Seq<A>,
    f: spec_fn(A) -> T,
    plus: spec_fn(T, T) -> T,
    nought: T,
    r: T,
)
    requires
        functional::<T>(),
        is_exact_plus(plus),
        is_zero(nought),
        is_sum_of_squares(items.map_values(f), r),
    ensures
        r == items.fold_left(nought, adding_square_of(f, plus)),
    decreases items.len(),
{
    if items.len() > 0 {
        let xs = items.map_values(f);
        let x = items.last();
        let (acc, prod) = choose|acc: T, prod: T|
            is_dot(xs.drop_last(), xs.drop_last(), acc) && #[trigger] is_product(
                xs.last(),
                xs.last(),
                prod,
            ) && #[trigger] is_sum(acc, prod, r);
        assert(xs.drop_last() =~= items.drop_last().map_values(f));
        lemma_squares_fold(items.drop_last(), f, plus, nought, acc);
        assert(xs.last() == f(x));
        assert(is_product(f(x), f(x), square_of(f(x))));
        assert(prod == square_of(f(x)));
    }
}

/// The square of a number.
spec fn square_of<T: Scalar>(x: T) -> T {
    choose|r: T| is_product(x, x, r)
}

/// Adds the square of what an item stands for.
spec fn adding_square_of<A, T: Scalar>(
    f: spec_fn(A) -> T,
    plus: spec_fn(T, T) -> T,
) -> spec_fn(T, A) -> T {
    |acc: T, item: A| plus(acc, square_of(f(item)))
}

/// A sum of squares does not depend on the order of its terms.
proof fn lemma_squares_reordered<A, T: Scalar>(
    a: Seq<A>,
    b: Seq<A>,
    f: spec_fn(A) -> T,
    m: T,
    n: T,
)
    requires
        functional::<T>(),
        adds_in_any_order::<T>(),
        a.to_multiset() == b.to_multiset(),
        is_sum_of_squares(a.map_values(f), m),
        is_sum_of_squares(b.map_values(f), n),
    ensures
        m == n,
{
    let plus = choose|plus: spec_fn(T, T) -> T| is_exact_plus(plus);
    lemma_dot_has_zero(a.map_values(f), a.map_values(f), m);
    let nought = choose|nought: T| is_zero(nought);
    lemma_squares_fold(a, f, plus, nought, m);
    lemma_squares_fold(b, f, plus, nought, n);
    lemma_fold_left_permutation(a, b, adding_square_of(f, plus), nought);
}

/// A dot product starts from zero.
proof fn lemma_dot_has_zero<T: Scalar>(xs: Seq<T>, ws: Seq<T>, r: T)
    requires
        is_dot(xs, ws, r),
    ensures
        exists|nought: T| is_zero(nought),
    decreases xs.len(),
{
    if xs.len() > 0 {
        let (acc, prod) = choose|acc: T, prod: T|
            is_dot(xs.drop_last(), ws.drop_last(), acc) && #[trigger] is_product(
                xs.last(),
                ws.last(),
                prod,
            ) && #[trigger] is_sum(acc, prod, r);
        lemma_dot_has_zero(xs.drop_last(), ws.drop_last(), acc);
    }
}

/// Two listings of one table have the same items.
proof fn lemma_listings_have_same_items(
    table: Map<usize, u32>,
    a: Seq<(usize, u32)>,
    b: Seq<(usize, u32)>,
)
    requires
        lists_entries(a, table),
        lists_entries(b, table),
    ensures
        a.to_multiset() == b.to_multiset(),
        a.len() == b.len(),
{
    broadcast use vstd::seq_lib::group_to_multiset_ensures;
    broadcast use vstd::multiset::group_multiset_axioms;

    assert(a.no_duplicates());
    assert(b.no_duplicates());
    a.lemma_multiset_has_no_duplicates();
    b.lemma_multiset_has_no_duplicates();
    assert forall|x: (usize, u32)| a.to_multiset().count(x) == b.to_multiset().count(x) by {
        if a.contains(x) {
            let i = choose|i: int| 0 <= i < a.len() && a[i] == x;
            assert(table.dom().contains(a[i].0));
            let j = choose|j: int| 0 <= j < b.len() && (#[trigger] b[j]).0 == x.0;
            assert(b[j] == x);
        }
        if b.contains(x) {
            let i = choose|i: int| 0 <= i < b.len() && b[i] == x;
            assert(table.dom().contains(b[i].0));
            let j = choose|j: int| 0 <= j < a.len() && (#[trigger] a[j]).0 == x.0;
            assert(a[j] == x);
        }
        assert(a.to_multiset().contains(x) <==> a.contains(x));
        assert(b.to_multiset().contains(x) <==> b.contains(x));
    }
    assert(a.to_multiset() =~= b.to_multiset());
    assert(a.to_multiset().len() == a.len());
    assert(b.to_multiset().len() == b.len());
}

/// Reordered items stand for reordered values.
proof fn lemma_reordered_values<A, T>(a: Seq<A>, b: Seq<A>, f: spec_fn(A) -> T)
    requires
        a.to_multiset() == b.to_multiset(),
    ensures
        a.map_values(f).to_multiset() == b.map_values(f).to_multiset(),
{
    let none = Multiset::<T>::empty();
    let insert = |m: Multiset<T>, x: A| m.insert(f(x));
    assert forall|x: A, y: A, m: Multiset<T>| #[trigger] insert(insert(m, x), y) == insert(
        insert(m, y),
        x,
    ) by {
        assert(m.insert(f(x)).insert(f(y)) =~= m.insert(f(y)).insert(f(x)));
    }
    lemma_values_fold(a, f);
    lemma_values_fold(b, f);
    lemma_fold_left_permutation(a, b, insert, none);
}

/// The values of items, put together one by one.
proof fn lemma_values_fold<A, T>(items: Seq<A>, f: spec_fn(A) -> T)
    ensures
        items.map_values(f).to_multiset() == items.fold_left(
            Multiset::<T>::empty(),
            |m: Multiset<T>, x: A| m.insert(f(x)),
        ),
    decreases items.len(),
{
    broadcast use vstd::seq_lib::group_to_multiset_ensures;

    let values = items.map_values(f);
    if items.len() == 0 {
        assert(values =~= Seq::empty());
        assert(values.to_multiset() =~= Multiset::<T>::empty());
    } else {
        lemma_values_fold(items.drop_last(), f);
        assert(values =~= items.drop_last().map_values(f).push(f(items.last())));
    }
}

/// Two rows of one table, whatever the order of their items, have values at equal columns
/// that differ by that order alone, where the operations are functions.
proof fn lemma_weighted_rows_alike<T: Scalar>(
    table: Map<usize, u32>,
    idf: Seq<T>,
    items1: Seq<(usize, u32)>,
    values1: Seq<T>,
    items2: Seq<(usize, u32)>,
    values2: Seq<T>,
    j1: int,
    j2: int,
)
    requires
        functional::<T>(),
        lists_entries(items1, table),
        lists_entries(items2, table),
        is_weighted_row(idf, items1, values1),
        is_weighted_row(idf, items2, values2),
        0 <= j1 < items1.len(),
        0 <= j2 < items2.len(),
        items1[j1].0 == items2[j2].0,
    ensures
        differ_by_order(values1[j1], values2[j2]),
{
    let raw1 = choose|raw: Seq<T>|
        {
            &&& raw.len() == items1.len()
            &&& forall|j: int|
                0 <= j < items1.len() ==> is_term_weight(idf, items1[j], #[trigger] raw[j])
            &&& #[trigger] is_normalized(raw, values1)
        };
    let raw2 = choose|raw: Seq<T>|
        {
            &&& raw.len() == items2.len()
            &&& forall|j: int|
                0 <= j < items2.len() ==> is_term_weight(idf, items2[j], #[trigger] raw[j])
            &&& #[trigger] is_normalized(raw, values2)
        };
    let f = |item: (usize, u32)| choose|r: T| is_term_weight(idf, item, r);
    assert(raw1 =~= items1.map_values(f)) by {
        assert forall|j: int| 0 <= j < items1.len() implies raw1[j] == f(items1[j]) by {
            assert(is_term_weight(idf, items1[j], raw1[j]));
            lemma_term_weight_unique(idf, items1[j], raw1[j], f(items1[j]));
        }
    }
    assert(raw2 =~= items2.map_values(f)) by {
        assert forall|j: int| 0 <= j < items2.len() implies raw2[j] == f(items2[j]) by {
            assert(is_term_weight(idf, items2[j], raw2[j]));
            lemma_term_weight_unique(idf, items2[j], raw2[j], f(items2[j]));
        }
    }
    lemma_listings_have_same_items(table, items1, items2);
    lemma_reordered_values(items1, items2, f);
    assert(items1[j1] == items2[j2]);
    lemma_differ(raw1, raw2, values1, values2, j1, j2);
}

/// One weight in two rows of the same weights.
proof fn lemma_differ<T: Scalar>(
    raw1: Seq<T>,
    raw2: Seq<T>,
    out1: Seq<T>,
    out2: Seq<T>,
    j1: int,
    j2: int,
)
    requires
        is_normalized(raw1, out1),
        is_normalized(raw2, out2),
        raw1.to_multiset() == raw2.to_multiset(),
        0 <= j1 < raw1.len(),
        0 <= j2 < raw2.len(),
        raw1[j1] == raw2[j2],
    ensures
        differ_by_order(out1[j1], out2[j2]),
{
    reveal(differ_by_order);
    let v = out1[j1];
    let w = out2[j2];
    assert(is_normalized(raw1, out1) && is_normalized(raw2, out2) && out1[j1] == v && out2[j2]
        == w);
}

/// The rows behind two values that differ by order.
proof fn witness_differ<T: Scalar>(v: T, w: T) -> (r: (
    Seq<T>,
    Seq<T>,
    Seq<T>,
    Seq<T>,
    int,
    int,
))
    requires
        differ_by_order(v, w),
    ensures
        is_normalized(r.0, r.2),
        is_normalized(r.1, r.3),
        r.0.to_multiset() == r.1.to_multiset(),
        0 <= r.4 < r.0.len(),
        0 <= r.5 < r.1.len(),
        r.0[r.4] == r.1[r.5],
        r.2[r.4] == v,
        r.3[r.5] == w,
{
    reveal(differ_by_order);
    choose|raw1: Seq<T>, raw2: Seq<T>, out1: Seq<T>, out2: Seq<T>, j1: int, j2: int|
        {
            &&& #[trigger] is_normalized(raw1, out1)
            &&& #[trigger] is_normalized(raw2, out2)
            &&& raw1.to_multiset() == raw2.to_multiset()
            &&& 0 <= j1 < raw1.len()
            &&& 0 <= j2 < raw2.len()
            &&& raw1[j1] == raw2[j2]
            &&& #[trigger] out1[j1] == v
            &&& #[trigger] out2[j2] == w
        }
}

/// Values that differ by order differ by it either way.
proof fn lemma_differ_either_way<T: Scalar>(v: T, w: T)
    requires
        differ_by_order(v, w),
    ensures
        differ_by_order(w, v),
{
    let (raw1, raw2, out1, out2, j1, j2) = witness_differ(v, w);
    lemma_differ(raw2, raw1, out2, out1, j2, j1);
}

/// Where terms can be added in any order, the order of the weights changes no value.
pub proof fn law_order_does_not_round<T: Scalar>()
    requires
        functional::<T>(),
        adds_in_any_order::<T>(),
    ensures
        normalises_within(|v: T, w: T| v == w),
{
    assert forall|v: T, w: T| #[trigger] differ_by_order(v, w) implies v == w by {
        let (raw1, raw2, out1, out2, j1, j2) = witness_differ(v, w);
        let same = |x: T| x;
        assert(raw1.map_values(same) =~= raw1);
        assert(raw2.map_values(same) =~= raw2);
        assert forall|m: T, n: T| #[trigger]
            is_sum_of_squares(raw1, m) && #[trigger] is_sum_of_squares(raw2, n) implies m
            == n by {
            lemma_squares_reordered(raw1, raw2, same, m, n);
        }
        lemma_normalized_alike(raw1, raw2, out1, out2, j1, j2);
    }
}

/// The rows of one table have the same length.
proof fn lemma_row_lengths<T: Scalar>(
    table: Map<usize, u32>,
    idf: Seq<T>,
    columns1: Seq<i32>,
    values1: Seq<T>,
    columns2: Seq<i32>,
    values2: Seq<T>,
)
    requires
        is_row(table, idf, columns1, values1),
        is_row(table, idf, columns2, values2),
    ensures
        columns1.len() == columns2.len(),
{
    let items1 = choose|items: Seq<(usize, u32)>|
        lists_entries(items, table) && columns1 == stored_columns(items)
            && #[trigger] is_weighted_row(idf, items, values1);
    let items2 = choose|items: Seq<(usize, u32)>|
        lists_entries(items, table) && columns2 == stored_columns(items)
            && #[trigger] is_weighted_row(idf, items, values2);
    lemma_listings_have_same_items(table, items1, items2);
}

/// Where one row of a table has a value, every other row of it has one that differs by the
/// order of the row alone.
proof fn lemma_row_entry<T: Scalar>(
    table: Map<usize, u32>,
    idf: Seq<T>,
    columns1: Seq<i32>,
    values1: Seq<T>,
    columns2: Seq<i32>,
    values2: Seq<T>,
    j1: int,
) -> (j2: int)
    requires
        functional::<T>(),
        is_row(table, idf, columns1, values1),
        is_row(table, idf, columns2, values2),
        0 <= j1 < columns1.len(),
    ensures
        0 <= j2 < columns2.len(),
        columns1[j1] == columns2[j2],
        differ_by_order(values1[j1], values2[j2]),
{
    let items1 = choose|items: Seq<(usize, u32)>|
        lists_entries(items, table) && columns1 == stored_columns(items)
            && #[trigger] is_weighted_row(idf, items, values1);
    let items2 = choose|items: Seq<(usize, u32)>|
        lists_entries(items, table) && columns2 == stored_columns(items)
            && #[trigger] is_weighted_row(idf, items, values2);
    assert(table.dom().contains(items1[j1].0));
    let j2 = choose|j2: int| 0 <= j2 < items2.len() && (#[trigger] items2[j2]).0 == items1[j1].0;
    lemma_weighted_rows_alike(table, idf, items1, values1, items2, values2, j1, j2);
    j2
}

/// Row lengths determine row boundaries.
proof fn lemma_same_boundaries(c1: Seq<Seq<i32>>, c2: Seq<Seq<i32>>, i: int)
    requires
        c1.len() == c2.len(),
        forall|l: int| 0 <= l < c1.len() ==> (#[trigger] c1[l]).len() == (#[trigger] c2[l]).len(),
        0 <= i <= c1.len(),
    ensures
        c1.take(i).flatten().len() == c2.take(i).flatten().len(),
{
    assert forall|l: int| 0 <= l < i implies (#[trigger] c1.take(i)[l]).len() == (#[trigger] c2.take(
        i,
    )[l]).len() by {
        assert(c1[l].len() == c2[l].len());
    }
    lemma_flatten_lens(c1.take(i), c2.take(i));
}

/// One direction of [`law_rows_agree`].
proof fn lemma_row_has<T: Scalar>(
    tables: Seq<Map<usize, u32>>,
    idf: Seq<T>,
    data1: Seq<T>,
    indices1: Seq<i32>,
    data2: Seq<T>,
    indices2: Seq<i32>,
    indptr: Seq<i64>,
    c1: Seq<Seq<i32>>,
    v1: Seq<Seq<T>>,
    c2: Seq<Seq<i32>>,
    v2: Seq<Seq<T>>,
    i: int,
    c: i32,
    v: T,
) -> (w: T)
    requires
        functional::<T>(),
        data1.len() <= i64::MAX,
        data2.len() <= i64::MAX,
        lays_out(data1, indices1, indptr, c1, v1),
        lays_out(data2, indices2, indptr, c2, v2),
        c1.len() == tables.len(),
        c2.len() == tables.len(),
        0 <= i < tables.len(),
        is_row(tables[i], idf, c1[i], v1[i]),
        is_row(tables[i], idf, c2[i], v2[i]),
        row_has(data1, indices1, indptr, i, c, v),
    ensures
        row_has(data2, indices2, indptr, i, c, w),
        differ_by_order(v, w),
{
    law_rows_are_slices(data1, indices1, indptr, c1, v1);
    law_rows_are_slices(data2, indices2, indptr, c2, v2);
    let start = indptr[i] as int;
    let end = indptr[i + 1] as int;
    let p = choose|p: int|
        indptr[i] <= p < indptr[i + 1] && #[trigger] indices1[p] == c && data1[p] == v;
    assert(indices1.subrange(start, end)[p - start] == c);
    assert(data1.subrange(start, end)[p - start] == v);
    let j2 = lemma_row_entry(tables[i], idf, c1[i], v1[i], c2[i], v2[i], p - start);
    let w = v2[i][j2];
    assert(indices2.subrange(start, end)[j2] == c);
    assert(data2.subrange(start, end)[j2] == w);
    assert(indices2[start + j2] == c && data2[start + j2] == w);
    w
}

/// The columns and values of every row.
proof fn witness_rows<T: Scalar>(
    tables: Seq<Map<usize, u32>>,
    idf: Seq<T>,
    data: Seq<T>,
    indices: Seq<i32>,
    indptr: Seq<i64>,
) -> (w: (Seq<Seq<i32>>, Seq<Seq<T>>))
    requires
        holds_rows(tables, idf, data, indices, indptr),
    ensures
        lays_out(data, indices, indptr, w.0, w.1),
        w.0.len() == tables.len(),
        forall|i: int| 0 <= i < tables.len() ==> is_row(#[trigger] tables[i], idf, w.0[i], w.1[i]),
{
    choose|columns: Seq<Seq<i32>>, values: Seq<Seq<T>>|
        #![trigger lays_out(data, indices, indptr, columns, values)]
        {
            &&& lays_out(data, indices, indptr, columns, values)
            &&& columns.len() == tables.len()
            &&& forall|i: int|
                0 <= i < tables.len() ==> is_row(#[trigger] tables[i], idf, columns[i], values[i])
        }
}

/// Sparse rows of the same tables have the same boundaries.
proof fn lemma_boundaries_agree<T: Scalar>(
    tables: Seq<Map<usize, u32>>,
    idf: Seq<T>,
    data1: Seq<T>,
    indices1: Seq<i32>,
    indptr1: Seq<i64>,
    data2: Seq<T>,
    indices2: Seq<i32>,
    indptr2: Seq<i64>,
)
    requires
        holds_rows(tables, idf, data1, indices1, indptr1),
        holds_rows(tables, idf, data2, indices2, indptr2),
    ensures
        indptr1 == indptr2,
        indptr1.len() == tables.len() + 1,
        data1.len() == data2.len(),
{
    let (c1, v1) = witness_rows(tables, idf, data1, indices1, indptr1);
    let (c2, v2) = witness_rows(tables, idf, data2, indices2, indptr2);
    assert forall|i: int| 0 <= i < c1.len() implies (#[trigger] c1[i]).len() == (
    #[trigger] c2[i]).len() by {
        let table = tables[i];
        lemma_row_lengths(table, idf, c1[i], v1[i], c2[i], v2[i]);
    }
    assert forall|i: int| 0 <= i < indptr1.len() implies indptr1[i] == indptr2[i] by {
        lemma_same_boundaries(c1, c2, i);
        assert(indptr1[i] == c1.take(i).flatten().len() as i64);
        assert(indptr2[i] == c2.take(i).flatten().len() as i64);
    }
    assert(indptr1 =~= indptr2);
    lemma_same_boundaries(c1, c2, c1.len() as int);
    assert(c1.take(c1.len() as int) =~= c1);
    assert(c2.take(c2.len() as int) =~= c2);
    lemma_flatten_lens(c1, v1);
    lemma_flatten_lens(c2, v2);
}

/// Where one of two results has a value, the other has one that differs by order alone.
proof fn lemma_value_beside<T: Scalar>(
    tables: Seq<Map<usize, u32>>,
    idf: Seq<T>,
    data1: Seq<T>,
    indices1: Seq<i32>,
    data2: Seq<T>,
    indices2: Seq<i32>,
    indptr: Seq<i64>,
    i: int,
    c: i32,
    v: T,
) -> (w: T)
    requires
        functional::<T>(),
        holds_rows(tables, idf, data1, indices1, indptr),
        holds_rows(tables, idf, data2, indices2, indptr),
        data1.len() <= i64::MAX,
        data2.len() <= i64::MAX,
        0 <= i < tables.len(),
        row_has(data1, indices1, indptr, i, c, v),
    ensures
        row_has(data2, indices2, indptr, i, c, w),
        differ_by_order(v, w),
{
    let (c1, v1) = witness_rows(tables, idf, data1, indices1, indptr);
    let (c2, v2) = witness_rows(tables, idf, data2, indices2, indptr);
    let table = tables[i];
    lemma_row_has(tables, idf, data1, indices1, data2, indices2, indptr, c1, v1, c2, v2, i, c, v)
}

/// Sparse rows of the same tables have values in the same columns that differ by the order of
/// the rows alone, and so are as close as normalisation keeps them.
proof fn lemma_rows_near<T: Scalar>(
    tables: Seq<Map<usize, u32>>,
    idf: Seq<T>,
    close: spec_fn(T, T) -> bool,
    data1: Seq<T>,
    indices1: Seq<i32>,
    data2: Seq<T>,
    indices2: Seq<i32>,
    indptr: Seq<i64>,
)
    requires
        functional::<T>(),
        normalises_within(close),
        holds_rows(tables, idf, data1, indices1, indptr),
        holds_rows(tables, idf, data2, indices2, indptr),
        data1.len() <= i64::MAX,
        data2.len() <= i64::MAX,
        indptr.len() == tables.len() + 1,
    ensures
        near_rows(close, data1, indices1, indptr, data2, indices2, indptr),
{
    assert forall|i: int, c: i32, v: T|
        0 <= i < indptr.len() - 1 && #[trigger] row_has(data1, indices1, indptr, i, c, v)
        implies exists|w: T| #[trigger] row_has(data2, indices2, indptr, i, c, w) && close(
        v,
        w,
    ) by {
        let w = lemma_value_beside(
            tables, idf, data1, indices1, data2, indices2, indptr, i, c, v,
        );
        assert(row_has(data2, indices2, indptr, i, c, w) && close(v, w));
    }
    assert forall|i: int, c: i32, w: T|
        0 <= i < indptr.len() - 1 && #[trigger] row_has(data2, indices2, indptr, i, c, w)
        implies exists|v: T| #[trigger] row_has(data1, indices1, indptr, i, c, v) && close(
        v,
        w,
    ) by {
        let v = lemma_value_beside(
            tables, idf, data2, indices2, data1, indices1, indptr, i, c, w,
        );
        lemma_differ_either_way(w, v);
        assert(row_has(data1, indices1, indptr, i, c, v) && close(v, w));
    }
}

/// Rows whose values are close where they are equal are the same.
proof fn lemma_equal_rows<T>(
    data1: Seq<T>,
    indices1: Seq<i32>,
    data2: Seq<T>,
    indices2: Seq<i32>,
    indptr: Seq<i64>,
)
    requires
        near_rows(|v: T, w: T| v == w, data1, indices1, indptr, data2, indices2, indptr),
    ensures
        same_rows(data1, indices1, indptr, data2, indices2, indptr),
{
    assert forall|i: int, c: i32, v: T| 0 <= i < indptr.len() - 1 implies (#[trigger] row_has(
        data1,
        indices1,
        indptr,
        i,
        c,
        v,
    ) <==> row_has(data2, indices2, indptr, i, c, v)) by {
        if row_has(data2, indices2, indptr, i, c, v) {
            let x = choose|x: T| #[trigger]
                row_has(data1, indices1, indptr, i, c, x) && x == v;
            assert(x == v);
        }
        if row_has(data1, indices1, indptr, i, c, v) {
            let x = choose|x: T| #[trigger]
                row_has(data2, indices2, indptr, i, c, x) && v == x;
            assert(x == v);
        }
    }
}

/// Sparse rows of the same tables have the same boundaries, and, where the operations are
/// functions, values in the same columns that differ by rounding alone: by nothing where terms
/// can be added in any order, and else within whatever bounds the normalisation of a row in
/// another order. (Of arrays whose length the type of a boundary can say.)
pub proof fn law_rows_agree<T: Scalar>(
    tables: Seq<Map<usize, u32>>,
    idf: Seq<T>,
    close: spec_fn(T, T) -> bool,
    data1: Seq<T>,
    indices1: Seq<i32>,
    indptr1: Seq<i64>,
    data2: Seq<T>,
    indices2: Seq<i32>,
    indptr2: Seq<i64>,
)
    requires
        holds_rows(tables, idf, data1, indices1, indptr1),
        holds_rows(tables, idf, data2, indices2, indptr2),
        data1.len() <= i64::MAX,
    ensures
        indptr1 == indptr2,
        data1.len() == data2.len(),
        functional::<T>() && normalises_within(close) ==> near_rows(
            close,
            data1,
            indices1,
            indptr1,
            data2,
            indices2,
            indptr2,
        ),
        functional::<T>() && adds_in_any_order::<T>() ==> same_rows(
            data1,
            indices1,
            indptr1,
            data2,
            indices2,
            indptr2,
        ),
{
    lemma_boundaries_agree(
        tables, idf, data1, indices1, indptr1, data2, indices2, indptr2,
    );
    if functional::<T>() && normalises_within(close) {
        lemma_rows_near(tables, idf, close, data1, indices1, data2, indices2, indptr1);
    }
    if functional::<T>() && adds_in_any_order::<T>() {
        let equal = |v: T, w: T| v == w;
        law_order_does_not_round::<T>();
        lemma_rows_near(tables, idf, equal, data1, indices1, data2, indices2, indptr1);
        lemma_equal_rows(data1, indices1, data2, indices2, indptr1);
    }
}

/// Transforming the documents that a model was fitted to gives the rows that fitting gave:
/// the same boundaries, and, where the operations are functions, values in the same columns
/// that differ by the rounding of the norm alone.
pub proof fn law_transform_gives_fitted_rows<T: Scalar>(
    docs: Seq<Seq<Seq<char>>>,
    model: TfidfModel<T>,
    close: spec_fn(T, T) -> bool,
    data1: Seq<T>,
    indices1: Seq<i32>,
    indptr1: Seq<i64>,
    data2: Seq<T>,
    indices2: Seq<i32>,
    indptr2: Seq<i64>,
)
    requires
        is_fitted(tallies(docs), model, data1, indices1, indptr1),
        all_countable(docs),
        holds_rows(
            known_tables(vocabulary(model.vocab), model.n_cols, docs),
            model.idf@,
            data2,
            indices2,
            indptr2,
        ),
        data1.len() <= i64::MAX,
    ensures
        indptr1 == indptr2,
        functional::<T>() && normalises_within(close) ==> near_rows(
            close,
            data1,
            indices1,
            indptr1,
            data2,
            indices2,
            indptr2,
        ),
        functional::<T>() && adds_in_any_order::<T>() ==> same_rows(
            data1,
            indices1,
            indptr1,
            data2,
            indices2,
            indptr2,
        ),
{
    law_fit_agrees_with_transform(docs, model, data1, indices1, indptr1);
    law_rows_agree(
        known_tables(vocabulary(model.vocab), model.n_cols, docs),
        model.idf@,
        close,
        data1,
        indices1,
        indptr1,
        data2,
        indices2,
        indptr2,
    );
}

} // verus!
