//! What a token or a bucket weighs, over the documents that have it.

use vstd::prelude::*;
use vstd::set_lib::{lemma_int_range, lemma_map_size, lemma_subset_equality, set_int_range};

use crate::counting::token_views;
use crate::documents::{column_docs, doc_freq, tallies, token_docs};
use crate::hashed::is_built;
use crate::scalar::{
    functional, is_count, is_len, is_ln, is_one, is_quotient, is_sum, Scalar,
};
use crate::tables::vocabulary;
use crate::vocab::{all_tokens, is_fitted, is_given_out, lemma_all_tokens_finite, TfidfModel};
use crate::weights::is_smoothed_idf;

verus! {

/// The steps of `ln((1 + n_docs) / (1 + d)) + 1`.
pub open spec fn idf_steps<T: Scalar>(
    n_docs: usize,
    d: u32,
    n: T,
    df: T,
    ones: (T, T, T),
    above: T,
    below: T,
    ratio: T,
    log: T,
    r: T,
) -> bool {
    &&& call_ensures(T::from_len, (n_docs,), n)
    &&& call_ensures(T::from_count, (d,), df)
    &&& call_ensures(T::one, (), ones.0)
    &&& call_ensures(T::one, (), ones.1)
    &&& call_ensures(T::one, (), ones.2)
    &&& call_ensures(T::plus, (ones.0, n), above)
    &&& call_ensures(T::plus, (ones.1, df), below)
    &&& call_ensures(T::over, (above, below), ratio)
    &&& call_ensures(T::ln, (ratio,), log)
    &&& call_ensures(T::plus, (log, ones.2), r)
}

/// `r` is the inverse document frequency of what `d` of `n_docs` documents hold.
pub open spec fn is_idf_of<T: Scalar>(n_docs: usize, d: u32, r: T) -> bool {
    exists|n: T, df: T, ones: (T, T, T), above: T, below: T, ratio: T, log: T| #[trigger]
        idf_steps(n_docs, d, n, df, ones, above, below, ratio, log, r)
}

/// The formula of the inverse document frequency, step by step.
pub proof fn lemma_idf_steps<T: Scalar>(n_docs: usize, d: u32, r: T)
    requires
        is_smoothed_idf(n_docs, d, r),
    ensures
        is_idf_of(n_docs, d, r),
{
    let (n, df, above, below, ratio, log, one1, one2, one3) = choose|
        n: T,
        d_: T,
        above: T,
        below: T,
        ratio: T,
        log: T,
        one1: T,
        one2: T,
        one3: T,
    |
        #![trigger is_len(n_docs, n), is_count(d, d_), is_sum(one1, n, above), is_sum(one2, d_, below), is_quotient(above, below, ratio), is_ln(ratio, log), is_sum(log, one3, r)]
        {
            &&& is_len(n_docs, n)
            &&& is_count(d, d_)
            &&& is_one(one1)
            &&& is_one(one2)
            &&& is_one(one3)
            &&& is_sum(one1, n, above)
            &&& is_sum(one2, d_, below)
            &&& is_quotient(above, below, ratio)
            &&& is_ln(ratio, log)
            &&& is_sum(log, one3, r)
        };
    assert(idf_steps(n_docs, d, n, df, (one1, one2, one3), above, below, ratio, log, r));
}

/// Some token of a document has the characters `t`.
pub open spec fn has_token(doc: Vec<String>, t: Seq<char>) -> bool {
    exists|j: int| 0 <= j < doc@.len() && (#[trigger] doc@[j])@ == t
}

/// Some token has the column.
pub open spec fn names_column(vocab: Map<Seq<char>, i32>, c: int) -> bool {
    exists|t: Seq<char>| #[trigger] vocab.dom().contains(t) && vocab[t] == c
}

/// How many of the documents have the token.
pub open spec fn docs_with(tokens: Seq<Vec<String>>, t: Seq<char>) -> nat {
    tokens.filter(|doc: Vec<String>| has_token(doc, t)).len()
}

/// How many documents are counted is how many pass the test.
pub proof fn lemma_filter_is_doc_freq<D, K>(
    docs: Seq<D>,
    test: spec_fn(D) -> bool,
    tables: Seq<Map<K, u32>>,
    k: K,
)
    requires
        docs.len() == tables.len(),
        forall|i: int|
            0 <= i < docs.len() ==> (test(#[trigger] docs[i]) <==> tables[i].dom().contains(k)),
    ensures
        docs.filter(test).len() == doc_freq(tables, k),
    decreases docs.len(),
{
    reveal(Seq::filter);
    if docs.len() > 0 {
        let n = docs.len() - 1;
        assert(test(docs[n]) <==> tables[n].dom().contains(k));
        assert forall|i: int| 0 <= i < n implies (test(#[trigger] docs.drop_last()[i])
            <==> tables.drop_last()[i].dom().contains(k)) by {
            assert(docs.drop_last()[i] == docs[i]);
        }
        lemma_filter_is_doc_freq(docs.drop_last(), test, tables.drop_last(), k);
    }
}

/// A token stands in a document exactly if the document's counts have it.
pub proof fn lemma_has_token(tokens: Seq<Vec<String>>, i: int, t: Seq<char>)
    requires
        0 <= i < tokens.len(),
    ensures
        has_token(tokens[i], t) <==> tallies(token_docs(tokens))[i].dom().contains(t),
{
    let views = token_views(tokens[i]@);
    assert(token_docs(tokens)[i] == views);
    if has_token(tokens[i], t) {
        let j = choose|j: int| 0 <= j < tokens[i]@.len() && (#[trigger] tokens[i]@[j])@ == t;
        assert(views[j] == t);
    }
    if views.contains(t) {
        let j = choose|j: int| 0 <= j < views.len() && views[j] == t;
        assert(tokens[i]@[j]@ == t);
    }
}

/// How many of the documents have a token.
pub proof fn lemma_docs_with_token(tokens: Seq<Vec<String>>, t: Seq<char>)
    ensures
        docs_with(tokens, t) == doc_freq(
            tallies(token_docs(tokens)),
            t,
        ),
{
    let test = |doc: Vec<String>| has_token(doc, t);
    let tables = tallies(token_docs(tokens));
    assert forall|i: int| 0 <= i < tokens.len() implies (test(#[trigger] tokens[i])
        <==> tables[i].dom().contains(t)) by {
        lemma_has_token(tokens, i, t);
    }
    lemma_filter_is_doc_freq(tokens, test, tables, t);
}

/// What a fit learns from token lists. The vocabulary has exactly the tokens of the documents,
/// with the columns `0` to `n_cols - 1`, each given out once. The weight of a token is
/// `ln((1 + n) / (1 + d)) + 1` for `n` documents of which `d` have the token.
pub proof fn law_fit_weighs_by_documents<T: Scalar>(
    tokens: Seq<Vec<String>>,
    model: TfidfModel<T>,
    data: Seq<T>,
    indices: Seq<i32>,
    indptr: Seq<i64>,
)
    requires
        is_fitted(tallies(token_docs(tokens)), model, data, indices, indptr),
    ensures
        model.idf@.len() == model.n_cols,
        forall|t: Seq<char>| #[trigger]
            vocabulary(model.vocab).dom().contains(t) <==> exists|i: int|
                0 <= i < tokens.len() && has_token(#[trigger] tokens[i], t),
        forall|t: Seq<char>| #[trigger]
            vocabulary(model.vocab).dom().contains(t) ==> {
                &&& 0 <= vocabulary(model.vocab)[t] < model.n_cols
                &&& is_idf_of(
                    tokens.len() as usize,
                    docs_with(tokens, t) as u32,
                    model.idf@[vocabulary(model.vocab)[t] as int],
                )
            },
        forall|t: Seq<char>, u: Seq<char>|
            vocabulary(model.vocab).dom().contains(t) && vocabulary(model.vocab).dom().contains(u)
                && #[trigger] vocabulary(model.vocab)[t] == #[trigger] vocabulary(model.vocab)[u]
                ==> t == u,
        forall|c: int|
            0 <= c < model.n_cols ==> #[trigger] names_column(vocabulary(model.vocab), c),
{
    let vocab = vocabulary(model.vocab);
    let tables = tallies(token_docs(tokens));
    assert forall|t: Seq<char>| #[trigger] vocab.dom().contains(t) <==> exists|i: int|
        0 <= i < tokens.len() && has_token(#[trigger] tokens[i], t) by {
        if vocab.dom().contains(t) {
            assert(all_tokens(tables).contains(t));
            let i = choose|i: int| 0 <= i < tables.len() && #[trigger] tables[i].dom().contains(t);
            lemma_has_token(tokens, i, t);
            assert(has_token(tokens[i], t));
        }
        if exists|i: int| 0 <= i < tokens.len() && has_token(#[trigger] tokens[i], t) {
            let i = choose|i: int| 0 <= i < tokens.len() && has_token(#[trigger] tokens[i], t);
            lemma_has_token(tokens, i, t);
            assert(tables[i].dom().contains(t));
            assert(all_tokens(tables).contains(t));
        }
    }
    assert forall|t: Seq<char>| #[trigger] vocab.dom().contains(t) implies {
        &&& 0 <= vocab[t] < model.n_cols
        &&& is_idf_of(
            tokens.len() as usize,
            docs_with(tokens, t) as u32,
            model.idf@[vocab[t] as int],
        )
    } by {
        lemma_docs_with_token(tokens, t);
        lemma_idf_steps(
            tokens.len() as usize,
            doc_freq(tables, t) as u32,
            model.idf@[vocab[t] as int],
        );
    }
    assert forall|c: int| 0 <= c < model.n_cols implies #[trigger] names_column(vocab, c) by {
        assert(is_given_out(vocab, c));
    }
}

/// The distinct tokens of documents.
pub proof fn lemma_distinct_tokens(tokens: Seq<Vec<String>>)
    ensures
        Set::new(
            |t: Seq<char>|
                exists|i: int| 0 <= i < tokens.len() && has_token(#[trigger] tokens[i], t),
        ) == all_tokens(tallies(token_docs(tokens))),
{
    let tables = tallies(token_docs(tokens));
    let all = Set::new(
        |t: Seq<char>|
            exists|i: int| 0 <= i < tokens.len() && has_token(#[trigger] tokens[i], t),
    );
    assert forall|t: Seq<char>| all.contains(t) <==> all_tokens(tables).contains(t) by {
        if all.contains(t) {
            let i = choose|i: int| 0 <= i < tokens.len() && has_token(#[trigger] tokens[i], t);
            lemma_has_token(tokens, i, t);
            assert(tables[i].dom().contains(t));
        }
        if all_tokens(tables).contains(t) {
            let i = choose|i: int| 0 <= i < tables.len() && #[trigger] tables[i].dom().contains(t);
            lemma_has_token(tokens, i, t);
            assert(has_token(tokens[i], t));
        }
    }
    assert(all =~= all_tokens(tables));
}

/// A token of one document is numbered before every token that only later documents have.
pub proof fn law_columns_in_document_order<T: Scalar>(
    tokens: Seq<Vec<String>>,
    model: TfidfModel<T>,
    data: Seq<T>,
    indices: Seq<i32>,
    indptr: Seq<i64>,
    i: int,
    t: Seq<char>,
    u: Seq<char>,
)
    requires
        is_fitted(tallies(token_docs(tokens)), model, data, indices, indptr),
        0 <= i < tokens.len(),
        has_token(tokens[i], t),
        vocabulary(model.vocab).dom().contains(u),
        forall|l: int| 0 <= l <= i ==> !has_token(#[trigger] tokens[l], u),
    ensures
        vocabulary(model.vocab)[t] < vocabulary(model.vocab)[u],
{
    let vocab = vocabulary(model.vocab);
    let tables = tallies(token_docs(tokens));
    let first = tables.take(i + 1);
    let all = all_tokens(first);
    lemma_has_token(tokens, i, t);
    assert(first[i].dom().contains(t));
    assert(all.contains(t));
    assert(first =~= tallies(token_docs(tokens).take(i + 1)));
    lemma_all_tokens_finite(token_docs(tokens).take(i + 1));
    assert forall|v: Seq<char>| all.contains(v) implies vocab.dom().contains(v) by {
        let l = choose|l: int| 0 <= l < first.len() && #[trigger] first[l].dom().contains(v);
        assert(tables[l].dom().contains(v));
        assert(all_tokens(tables).contains(v));
    }
    let number = |v: Seq<char>| vocab[v] as int;
    let numbers = all.map(number);
    assert(vstd::relations::injective_on(number, all)) by {
        assert forall|v: Seq<char>, w: Seq<char>|
            all.contains(v) && all.contains(w) && #[trigger] number(v) == #[trigger] number(
                w,
            ) implies v == w by {
            assert(vocab[v] == vocab[w]);
        }
    }
    lemma_map_size(all, numbers, number);
    lemma_int_range(0, all.len() as int);
    assert forall|c: int| numbers.contains(c) implies set_int_range(
        0,
        all.len() as int,
    ).contains(c) by {
        let v = choose|v: Seq<char>| all.contains(v) && number(v) == c;
        assert(all_tokens(tables.take(i + 1)).contains(v));
        assert(vocab.dom().contains(v));
    }
    lemma_subset_equality(numbers, set_int_range(0, all.len() as int));
    if vocab[u] < all.len() {
        assert(numbers.contains(vocab[u] as int));
        let v = choose|v: Seq<char>| all.contains(v) && number(v) == vocab[u] as int;
        assert(vocab[v] == vocab[u]);
        let l = choose|l: int| 0 <= l < first.len() && #[trigger] first[l].dom().contains(u);
        lemma_has_token(tokens, l, u);
        assert(has_token(tokens[l], u));
    }
}

/// How many of the hashed documents have a token in the bucket `c`.
pub open spec fn docs_in(columns: Seq<Vec<usize>>, c: usize) -> nat {
    columns.filter(|doc: Vec<usize>| doc@.contains(c)).len()
}

/// How many documents have a token in a bucket.
pub proof fn lemma_docs_in(columns: Seq<Vec<usize>>, c: usize)
    ensures
        docs_in(columns, c) == doc_freq(tallies(column_docs(columns)), c),
{
    let test = |doc: Vec<usize>| doc@.contains(c);
    let tables = tallies(column_docs(columns));
    assert forall|i: int| 0 <= i < columns.len() implies (test(#[trigger] columns[i])
        <==> tables[i].dom().contains(c)) by {
        assert(column_docs(columns)[i] == columns[i]@);
    }
    lemma_filter_is_doc_freq(columns, test, tables, c);
}

/// The weights of vectorised hashed documents: one for each bucket, `ln((1 + n) / (1 + d)) + 1`
/// for `n` documents of which `d` have a token in the bucket.
pub proof fn law_build_weighs_by_documents<T: Scalar>(
    columns: Seq<Vec<usize>>,
    n_features: usize,
    data: Seq<T>,
    indices: Seq<i32>,
    indptr: Seq<i64>,
    idf: Seq<T>,
)
    requires
        is_built(column_docs(columns), n_features, data, indices, indptr, idf),
    ensures
        idf.len() == n_features,
        forall|c: usize|
            c < n_features ==> is_idf_of(
                columns.len() as usize,
                docs_in(columns, c) as u32,
                #[trigger] idf[c as int],
            ),
{
    assert forall|c: usize| c < n_features implies is_idf_of(
        columns.len() as usize,
        docs_in(columns, c) as u32,
        #[trigger] idf[c as int],
    ) by {
        lemma_docs_in(columns, c);
        lemma_idf_steps(
            columns.len() as usize,
            doc_freq(tallies(column_docs(columns)), c) as u32,
            idf[c as int],
        );
    }
}

/// One number of documents gives one weight.
proof fn lemma_idf_of_unique<T: Scalar>(n_docs: usize, d: u32, r1: T, r2: T)
    requires
        functional::<T>(),
        is_idf_of(n_docs, d, r1),
        is_idf_of(n_docs, d, r2),
    ensures
        r1 == r2,
{
    let (n1, df1, ones1, above1, below1, ratio1, log1) = choose|
        n: T,
        df: T,
        ones: (T, T, T),
        above: T,
        below: T,
        ratio: T,
        log: T,
    | #[trigger] idf_steps(n_docs, d, n, df, ones, above, below, ratio, log, r1);
    let (n2, df2, ones2, above2, below2, ratio2, log2) = choose|
        n: T,
        df: T,
        ones: (T, T, T),
        above: T,
        below: T,
        ratio: T,
        log: T,
    | #[trigger] idf_steps(n_docs, d, n, df, ones, above, below, ratio, log, r2);
    assert(is_len(n_docs, n1) && is_len(n_docs, n2));
    assert(is_count(d, df1) && is_count(d, df2));
    assert(is_one(ones1.0) && is_one(ones1.1) && is_one(ones1.2));
    assert(is_one(ones2.0) && is_one(ones2.1) && is_one(ones2.2));
    assert(is_sum(ones1.0, n1, above1) && is_sum(ones2.0, n2, above2));
    assert(is_sum(ones1.1, df1, below1) && is_sum(ones2.1, df2, below2));
    assert(is_quotient(above1, below1, ratio1) && is_quotient(above2, below2, ratio2));
    assert(is_ln(ratio1, log1) && is_ln(ratio2, log2));
    assert(is_sum(log1, ones1.2, r1) && is_sum(log2, ones2.2, r2));
}

/// Equally many documents pass equal tests.
proof fn lemma_filter_len_same<A, B>(
    a: Seq<A>,
    p: spec_fn(A) -> bool,
    b: Seq<B>,
    q: spec_fn(B) -> bool,
)
    requires
        a.len() == b.len(),
        forall|i: int| 0 <= i < a.len() ==> (p(#[trigger] a[i]) <==> q(b[i])),
    ensures
        a.filter(p).len() == b.filter(q).len(),
    decreases a.len(),
{
    reveal(Seq::filter);
    if a.len() > 0 {
        let n = a.len() - 1;
        assert(p(a[n]) <==> q(b[n]));
        assert forall|i: int| 0 <= i < n implies (p(#[trigger] a.drop_last()[i])
            <==> q(b.drop_last()[i])) by {
            assert(a.drop_last()[i] == a[i]);
        }
        lemma_filter_len_same(a.drop_last(), p, b.drop_last(), q);
    }
}

/// The weight of a bucket depends on which documents have a token in it, and on nothing else:
/// neither the number of buckets nor what else the documents have changes it.
pub proof fn law_bucket_weight_by_its_documents<T: Scalar>(
    columns1: Seq<Vec<usize>>,
    n_features1: usize,
    data1: Seq<T>,
    indices1: Seq<i32>,
    indptr1: Seq<i64>,
    idf1: Seq<T>,
    c1: usize,
    columns2: Seq<Vec<usize>>,
    n_features2: usize,
    data2: Seq<T>,
    indices2: Seq<i32>,
    indptr2: Seq<i64>,
    idf2: Seq<T>,
    c2: usize,
)
    requires
        functional::<T>(),
        is_built(column_docs(columns1), n_features1, data1, indices1, indptr1, idf1),
        is_built(column_docs(columns2), n_features2, data2, indices2, indptr2, idf2),
        c1 < n_features1,
        c2 < n_features2,
        columns1.len() == columns2.len(),
        forall|i: int|
            0 <= i < columns1.len() ==> ((#[trigger] columns1[i])@.contains(c1)
                <==> columns2[i]@.contains(c2)),
    ensures
        idf1[c1 as int] == idf2[c2 as int],
{
    law_build_weighs_by_documents(columns1, n_features1, data1, indices1, indptr1, idf1);
    law_build_weighs_by_documents(columns2, n_features2, data2, indices2, indptr2, idf2);
    lemma_filter_len_same(
        columns1,
        |doc: Vec<usize>| doc@.contains(c1),
        columns2,
        |doc: Vec<usize>| doc@.contains(c2),
    );
    lemma_idf_of_unique(
        columns1.len() as usize,
        docs_in(columns1, c1) as u32,
        idf1[c1 as int],
        idf2[c2 as int],
    );
}

/// The weight of a token depends on which documents have it, and on nothing else: neither the
/// number of distinct tokens nor what else the documents have changes it.
pub proof fn law_token_weight_by_its_documents<T: Scalar>(
    tokens1: Seq<Vec<String>>,
    model1: TfidfModel<T>,
    data1: Seq<T>,
    indices1: Seq<i32>,
    indptr1: Seq<i64>,
    t1: Seq<char>,
    tokens2: Seq<Vec<String>>,
    model2: TfidfModel<T>,
    data2: Seq<T>,
    indices2: Seq<i32>,
    indptr2: Seq<i64>,
    t2: Seq<char>,
)
    requires
        functional::<T>(),
        is_fitted(tallies(token_docs(tokens1)), model1, data1, indices1, indptr1),
        is_fitted(tallies(token_docs(tokens2)), model2, data2, indices2, indptr2),
        vocabulary(model1.vocab).dom().contains(t1),
        vocabulary(model2.vocab).dom().contains(t2),
        tokens1.len() == tokens2.len(),
        forall|i: int|
            0 <= i < tokens1.len() ==> (has_token(#[trigger] tokens1[i], t1) <==> has_token(
                tokens2[i],
                t2,
            )),
    ensures
        model1.idf@[vocabulary(model1.vocab)[t1] as int] == model2.idf@[vocabulary(
            model2.vocab,
        )[t2] as int],
{
    law_fit_weighs_by_documents(tokens1, model1, data1, indices1, indptr1);
    law_fit_weighs_by_documents(tokens2, model2, data2, indices2, indptr2);
    lemma_filter_len_same(
        tokens1,
        |doc: Vec<String>| has_token(doc, t1),
        tokens2,
        |doc: Vec<String>| has_token(doc, t2),
    );
    lemma_idf_of_unique(
        tokens1.len() as usize,
        docs_with(tokens1, t1) as u32,
        model1.idf@[vocabulary(model1.vocab)[t1] as int],
        model2.idf@[vocabulary(model2.vocab)[t2] as int],
    );
}

/// A count is one number however it is converted; one more than a count, over itself, is one; the
/// logarithm of one is zero; and zero and one make one. Rounded numbers have this too.
pub open spec fn keeps_units<T: Scalar>() -> bool {
    &&& forall|n: u32, a: T, b: T| #[trigger]
        call_ensures(T::from_len, (n as usize,), a) && #[trigger] call_ensures(
            T::from_count,
            (n,),
            b,
        ) ==> a == b
    &&& forall|n: u32, a: T, one: T, above: T, r: T| #[trigger]
        call_ensures(T::from_count, (n,), a) && call_ensures(T::one, (), one)
            && #[trigger] call_ensures(T::plus, (one, a), above) && #[trigger] call_ensures(
            T::over,
            (above, above),
            r,
        ) ==> r == one
    &&& forall|one: T, l: T|
        call_ensures(T::one, (), one) && #[trigger] call_ensures(T::ln, (one,), l)
            ==> call_ensures(T::zero, (), l)
    &&& forall|zero: T, one: T, r: T|
        call_ensures(T::zero, (), zero) && call_ensures(T::one, (), one)
            && #[trigger] call_ensures(T::plus, (zero, one), r) ==> r == one
}

/// What every document has weighs one.
proof fn lemma_weight_of_all<T: Scalar>(n: u32, r: T)
    requires
        functional::<T>(),
        keeps_units::<T>(),
        is_idf_of(n as usize, n, r),
    ensures
        call_ensures(T::one, (), r),
{
    let (a, df, ones, above, below, ratio, log) = choose|
        a: T,
        df: T,
        ones: (T, T, T),
        above: T,
        below: T,
        ratio: T,
        log: T,
    | #[trigger] idf_steps(n as usize, n, a, df, ones, above, below, ratio, log, r);
    assert(a == df);
    assert(is_one(ones.0) && is_one(ones.1) && is_one(ones.2));
    assert(is_sum(ones.0, a, above) && is_sum(ones.1, df, below));
    assert(above == below);
    assert(ratio == ones.0);
}

/// A token that every document has weighs one.
pub proof fn law_token_of_every_document_weighs_one<T: Scalar>(
    tokens: Seq<Vec<String>>,
    model: TfidfModel<T>,
    data: Seq<T>,
    indices: Seq<i32>,
    indptr: Seq<i64>,
    t: Seq<char>,
)
    requires
        functional::<T>(),
        keeps_units::<T>(),
        is_fitted(tallies(token_docs(tokens)), model, data, indices, indptr),
        0 < tokens.len() <= u32::MAX,
        forall|i: int| 0 <= i < tokens.len() ==> has_token(#[trigger] tokens[i], t),
    ensures
        vocabulary(model.vocab).dom().contains(t),
        call_ensures(T::one, (), model.idf@[vocabulary(model.vocab)[t] as int]),
{
    law_fit_weighs_by_documents(tokens, model, data, indices, indptr);
    assert(has_token(tokens[0], t));
    assert(vocabulary(model.vocab).dom().contains(t));
    lemma_filter_all(tokens, |doc: Vec<String>| has_token(doc, t));
    lemma_weight_of_all(tokens.len() as u32, model.idf@[vocabulary(model.vocab)[t] as int]);
}

/// A bucket that every document has a token in weighs one.
pub proof fn law_bucket_of_every_document_weighs_one<T: Scalar>(
    columns: Seq<Vec<usize>>,
    n_features: usize,
    data: Seq<T>,
    indices: Seq<i32>,
    indptr: Seq<i64>,
    idf: Seq<T>,
    c: usize,
)
    requires
        functional::<T>(),
        keeps_units::<T>(),
        is_built(column_docs(columns), n_features, data, indices, indptr, idf),
        c < n_features,
        columns.len() <= u32::MAX,
        forall|i: int| 0 <= i < columns.len() ==> (#[trigger] columns[i])@.contains(c),
    ensures
        call_ensures(T::one, (), idf[c as int]),
{
    law_build_weighs_by_documents(columns, n_features, data, indices, indptr, idf);
    lemma_filter_all(columns, |doc: Vec<usize>| doc@.contains(c));
    lemma_weight_of_all(columns.len() as u32, idf[c as int]);
}

/// Where every item passes, none is left out.
proof fn lemma_filter_all<A>(s: Seq<A>, p: spec_fn(A) -> bool)
    requires
        forall|i: int| 0 <= i < s.len() ==> p(#[trigger] s[i]),
    ensures
        s.filter(p).len() == s.len(),
    decreases s.len(),
{
    reveal(Seq::filter);
    if s.len() > 0 {
        assert(p(s[s.len() - 1]));
        assert forall|i: int| 0 <= i < s.len() - 1 implies p(#[trigger] s.drop_last()[i]) by {
            assert(s.drop_last()[i] == s[i]);
        }
        lemma_filter_all(s.drop_last(), p);
    }
}

} // verus!
