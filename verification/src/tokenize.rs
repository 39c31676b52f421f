//! How documents are cut into tokens, and tokens are hashed.

use vstd::prelude::*;

use crate::counting::token_views;

verus! {

/// Which character n-grams a document is cut into.
#[allow(non_camel_case_types)]
#[derive(Clone, Copy, Debug, PartialEq, Eq, Structural)]
pub enum Analyzer {
    /// N-grams over the whole text.
    Char,
    /// N-grams inside word boundaries.
    Char_wb,
}

/// The analyzer of a name.
pub open spec fn analyzer_named(name: Seq<char>) -> Option<Analyzer> {
    if name == "char"@ {
        Some(Analyzer::Char)
    } else if name == "char_wb"@ {
        Some(Analyzer::Char_wb)
    } else {
        None
    }
}

/// Looks an analyzer up by its name.
pub fn parse_analyzer(name: &str) -> (r: Option<Analyzer>)
    ensures
        r == analyzer_named(name@),
{
    let name: String = name.to_owned();
    if name == "char".to_owned() {
        Some(Analyzer::Char)
    } else if name == "char_wb".to_owned() {
        Some(Analyzer::Char_wb)
    } else {
        None
    }
}

/// The text functions that vectorisation calls. Nothing is promised of what they return.
pub trait Tokenizer {
    /// The n-grams of a text, of every length from `nmin` to `nmax`.
    fn char_ngrams(&self, doc: &String, nmin: usize, nmax: usize) -> Vec<String>;

    /// The n-grams inside the words of a text, of every length from `nmin` to `nmax`.
    fn char_wb_ngrams(&self, doc: &String, nmin: usize, nmax: usize) -> Vec<String>;

    /// The bucket of a token among `n_features` buckets.
    fn bucket_id(&self, token: &String, n_features: usize) -> usize;
}

/// What the text functions return depends on the characters of their texts alone.
pub open spec fn reads_texts<K: Tokenizer>(tok: &K) -> bool {
    &&& forall|a: &String, b: &String, nmin: usize, nmax: usize, s: Vec<String>, t: Vec<String>|
        #[trigger] call_ensures(K::char_ngrams, (tok, a, nmin, nmax), s) && #[trigger] call_ensures(
            K::char_ngrams,
            (tok, b, nmin, nmax),
            t,
        ) && a@ == b@ ==> token_views(s@) == token_views(t@)
    &&& forall|a: &String, b: &String, nmin: usize, nmax: usize, s: Vec<String>, t: Vec<String>|
        #[trigger] call_ensures(K::char_wb_ngrams, (tok, a, nmin, nmax), s)
            && #[trigger] call_ensures(K::char_wb_ngrams, (tok, b, nmin, nmax), t) && a@ == b@
            ==> token_views(s@) == token_views(t@)
    &&& forall|a: &String, b: &String, n_features: usize, c: usize, d: usize|
        #[trigger] call_ensures(K::bucket_id, (tok, a, n_features), c) && #[trigger] call_ensures(
            K::bucket_id,
            (tok, b, n_features),
            d,
        ) && a@ == b@ ==> c == d
}

/// `tokens` is what the analyzer's function returned for `doc`.
pub open spec fn is_tokens_of<K: Tokenizer>(
    tok: &K,
    analyzer: Analyzer,
    nmin: usize,
    nmax: usize,
    doc: &String,
    tokens: Vec<String>,
) -> bool {
    match analyzer {
        Analyzer::Char => call_ensures(K::char_ngrams, (tok, doc, nmin, nmax), tokens),
        Analyzer::Char_wb => call_ensures(K::char_wb_ngrams, (tok, doc, nmin, nmax), tokens),
    }
}

/// `tokens` holds the tokens of every document.
pub open spec fn is_tokenized<K: Tokenizer>(
    tok: &K,
    analyzer: Analyzer,
    nmin: usize,
    nmax: usize,
    docs: Seq<String>,
    tokens: Seq<Vec<String>>,
) -> bool {
    &&& tokens.len() == docs.len()
    &&& forall|i: int|
        0 <= i < docs.len() ==> is_tokens_of(
            tok,
            analyzer,
            nmin,
            nmax,
            &docs[i],
            #[trigger] tokens[i],
        )
}

/// `columns` holds the bucket of every token of a document.
pub open spec fn is_bucketed<K: Tokenizer>(
    tok: &K,
    n_features: usize,
    tokens: Seq<String>,
    columns: Seq<usize>,
) -> bool {
    &&& columns.len() == tokens.len()
    &&& forall|j: int|
        0 <= j < tokens.len() ==> call_ensures(
            K::bucket_id,
            (tok, &tokens[j], n_features),
            #[trigger] columns[j],
        )
}

/// `columns` holds the bucket of every token of every document.
pub open spec fn is_hashed<K: Tokenizer>(
    tok: &K,
    n_features: usize,
    tokens: Seq<Vec<String>>,
    columns: Seq<Vec<usize>>,
) -> bool {
    &&& columns.len() == tokens.len()
    &&& forall|i: int|
        0 <= i < tokens.len() ==> is_bucketed(tok, n_features, tokens[i]@, (#[trigger] columns[i])@)
}

/// Cuts a document into tokens, with the function that the analyzer names.
pub fn tokenize_document<K: Tokenizer>(
    tok: &K,
    analyzer: Analyzer,
    nmin: usize,
    nmax: usize,
    doc: &String,
) -> (tokens: Vec<String>)
    ensures
        is_tokens_of(tok, analyzer, nmin, nmax, doc, tokens),
{
    match analyzer {
        Analyzer::Char => tok.char_ngrams(doc, nmin, nmax),
        Analyzer::Char_wb => tok.char_wb_ngrams(doc, nmin, nmax),
    }
}

/// Cuts every document into tokens.
pub fn tokenize_documents<K: Tokenizer>(
    tok: &K,
    analyzer: Analyzer,
    nmin: usize,
    nmax: usize,
    docs: &[String],
) -> (tokens: Vec<Vec<String>>)
    ensures
        is_tokenized(tok, analyzer, nmin, nmax, docs@, tokens@),
{
    let mut tokens: Vec<Vec<String>> = Vec::new();
    let mut i: usize = 0;
    while i < docs.len()
        invariant
            i <= docs@.len(),
            tokens@.len() == i,
            forall|l: int|
                0 <= l < i ==> is_tokens_of(
                    tok,
                    analyzer,
                    nmin,
                    nmax,
                    &docs@[l],
                    #[trigger] tokens@[l],
                ),
        decreases docs@.len() - i,
    {
        tokens.push(tokenize_document(tok, analyzer, nmin, nmax, &docs[i]));
        i += 1;
    }
    tokens
}

/// Hashes every token of a document.
pub fn bucket_document<K: Tokenizer>(tok: &K, n_features: usize, tokens: &[String]) -> (columns: Vec<
    usize,
>)
    ensures
        is_bucketed(tok, n_features, tokens@, columns@),
{
    let mut columns: Vec<usize> = Vec::new();
    let mut j: usize = 0;
    while j < tokens.len()
        invariant
            j <= tokens@.len(),
            columns@.len() == j,
            forall|l: int|
                0 <= l < j ==> call_ensures(
                    K::bucket_id,
                    (tok, &tokens@[l], n_features),
                    #[trigger] columns@[l],
                ),
        decreases tokens@.len() - j,
    {
        let column: usize = tok.bucket_id(&tokens[j], n_features);
        columns.push(column);
        j += 1;
    }
    columns
}

/// Hashes every token of every document.
pub fn bucket_documents<K: Tokenizer>(
    tok: &K,
    n_features: usize,
    tokens: &[Vec<String>],
) -> (columns: Vec<Vec<usize>>)
    ensures
        is_hashed(tok, n_features, tokens@, columns@),
{
    let mut columns: Vec<Vec<usize>> = Vec::new();
    let mut i: usize = 0;
    while i < tokens.len()
        invariant
            i <= tokens@.len(),
            columns@.len() == i,
            forall|l: int|
                0 <= l < i ==> is_bucketed(
                    tok,
                    n_features,
                    tokens@[l]@,
                    (#[trigger] columns@[l])@,
                ),
        decreases tokens@.len() - i,
    {
        columns.push(bucket_document(tok, n_features, tokens[i].as_slice()));
        i += 1;
    }
    columns
}

} // verus!
