use ahash::AHashMap;
use skrub_rust::limits::{
    column_doc_freqs_fit, column_docs_countable, token_doc_freqs_fit, token_docs_countable,
};
use skrub_rust::scalar::Scalar;
use skrub_rust::tfidf::{Error, TfidfModel, VocabBuilder};
use skrub_rust::tokenize::{Analyzer, Tokenizer};
use skrub_rust::vocab::{column_index, get_or_insert_col, get_or_insert_col_owned, vocabulary_fits};
use std::collections::BTreeMap;

#[derive(Clone, Copy, Debug, PartialEq)]
struct Num(f32);

impl Scalar for Num {
    fn zero() -> Self {
        Num(0.0)
    }
    fn one() -> Self {
        Num(1.0)
    }
    fn minus_one() -> Self {
        Num(-1.0)
    }
    fn from_count(count: u32) -> Self {
        Num(count as f32)
    }
    fn from_len(len: usize) -> Self {
        Num(len as f32)
    }
    fn plus(self, other: Self) -> Self {
        Num(self.0 + other.0)
    }
    fn minus(self, other: Self) -> Self {
        Num(self.0 - other.0)
    }
    fn times(self, other: Self) -> Self {
        Num(self.0 * other.0)
    }
    fn over(self, other: Self) -> Self {
        Num(self.0 / other.0)
    }
    fn sqrt(self) -> Self {
        Num(self.0.sqrt())
    }
    fn ln(self) -> Self {
        Num(self.0.ln())
    }
    fn exceeds(self, other: Self) -> bool {
        self.0 > other.0
    }
}

struct Words;

impl Tokenizer for Words {
    fn char_ngrams(&self, doc: &String, nmin: usize, _nmax: usize) -> Vec<String> {
        let chars: Vec<char> = doc.chars().collect();
        chars.windows(nmin).map(|w| w.iter().collect()).collect()
    }
    fn char_wb_ngrams(&self, doc: &String, _nmin: usize, _nmax: usize) -> Vec<String> {
        doc.split_whitespace().map(|w| w.to_string()).collect()
    }
    fn bucket_id(&self, _token: &String, _n_features: usize) -> usize {
        0
    }
}

fn docs(texts: &[&str]) -> Vec<String> {
    texts.iter().map(|t| t.to_string()).collect()
}

fn tokens(texts: &[&str]) -> Vec<Vec<String>> {
    texts
        .iter()
        .map(|t| t.split_whitespace().map(|w| w.to_string()).collect())
        .collect()
}

/// The rows as maps from columns to values.
fn rows(data: &[Num], indices: &[i32], indptr: &[i64]) -> Vec<BTreeMap<i32, f32>> {
    assert_eq!(data.len(), indices.len());
    assert_eq!(indptr[0], 0);
    assert_eq!(*indptr.last().unwrap(), data.len() as i64);
    indptr
        .windows(2)
        .map(|w| {
            let span = w[0] as usize..w[1] as usize;
            let map: BTreeMap<i32, f32> = indices[span.clone()]
                .iter()
                .copied()
                .zip(data[span.clone()].iter().map(|v| v.0))
                .collect();
            assert_eq!(map.len(), span.len());
            map
        })
        .collect()
}

fn close(a: f32, b: f32) -> bool {
    (a - b).abs() < 1e-6
}

#[test]
fn vocab_builder_checks_its_settings() {
    assert!(matches!(VocabBuilder::new("chars", 1, 1), Err(Error::InvalidAnalyzer)));
    assert!(matches!(VocabBuilder::new("char_wb", 0, 1), Err(Error::InvalidNgramRange)));
    assert!(matches!(VocabBuilder::new("char_wb", 3, 2), Err(Error::InvalidNgramRange)));
    let b = VocabBuilder::new("char", 3, 3).unwrap();
    assert_eq!((b.analyzer, b.nmin, b.nmax), (Analyzer::Char, 3, 3));
}

#[test]
fn fitting_numbers_the_tokens() {
    let b = VocabBuilder::new("char_wb", 1, 1).unwrap();
    let texts = docs(&["red green red", "green blue", ""]);
    let (model, data, indices, indptr) = b.fit_csr::<Num, Words>(&texts, &Words).unwrap();
    assert_eq!(model.n_cols, 3);
    let mut ids: Vec<i32> = ["red", "green", "blue"].iter().map(|t| model.vocab[*t]).collect();
    // The tokens of the first document come first.
    assert_eq!(ids[2], 2);
    ids.sort();
    assert_eq!(ids, vec![0, 1, 2]);
    assert_eq!(model.idf.len(), 3);
    let red = model.idf[model.vocab["red"] as usize].0;
    let green = model.idf[model.vocab["green"] as usize].0;
    assert!(close(red, (4.0f32 / 2.0).ln() + 1.0));
    assert!(close(green, (4.0f32 / 3.0).ln() + 1.0));
    let rows = rows(&data, &indices, &indptr);
    assert_eq!(rows.len(), 3);
    let norm = ((2.0 * red) * (2.0 * red) + green * green).sqrt();
    assert!(close(rows[0][&model.vocab["red"]], 2.0 * red / norm));
    assert!(close(rows[0][&model.vocab["green"]], green / norm));
    assert_eq!(rows[1].len(), 2);
    assert!(rows[2].is_empty());
}

#[test]
fn transforming_the_fitted_documents_gives_the_fitted_rows() {
    let b = VocabBuilder::new("char", 2, 2).unwrap();
    let texts = docs(&["banana", "bandana", "cabana", "x"]);
    let (model, data, indices, indptr) = b.fit_csr::<Num, Words>(&texts, &Words).unwrap();
    let (data2, indices2, indptr2) = model.transform_csr(&texts, &Words).unwrap();
    assert_eq!(indptr, indptr2);
    let fitted = rows(&data, &indices, &indptr);
    let transformed = rows(&data2, &indices2, &indptr2);
    for (a, b) in fitted.iter().zip(transformed.iter()) {
        assert_eq!(a.keys().collect::<Vec<_>>(), b.keys().collect::<Vec<_>>());
        for (column, value) in a {
            assert!(close(*value, b[column]));
        }
    }
}

#[test]
fn unknown_tokens_are_passed_over() {
    let b = VocabBuilder::new("char_wb", 1, 1).unwrap();
    let (model, _, _, _) = b.fit_csr_tokens::<Num>(&tokens(&["red green"])).unwrap();
    let (data, indices, indptr) =
        model.transform_csr_tokens(&tokens(&["violet red violet", "violet"])).unwrap();
    assert_eq!(indices, vec![model.vocab["red"]]);
    assert_eq!(indptr, vec![0, 1, 1]);
    assert_eq!(data, vec![Num(1.0)]);
}

#[test]
fn fitting_counts_is_fitting_tokens() {
    let b = VocabBuilder::new("char_wb", 1, 1).unwrap();
    let texts = tokens(&["a b a", "c"]);
    let tables: Vec<AHashMap<String, u32>> =
        texts.iter().map(|d| skrub_rust::counting::count_tokens(d)).collect();
    assert_eq!(tables[0]["a"], 2);
    assert_eq!(tables[0]["b"], 1);
    let (model, data, indices, indptr) = b.fit_counts::<Num>(&tables).unwrap();
    assert_eq!(model.n_cols, 3);
    assert_eq!(model.vocab["c"], 2);
    assert_eq!(indptr, vec![0, 2, 3]);
    assert_eq!(rows(&data, &indices, &indptr)[1][&2], 1.0);
}

#[test]
fn columns_outside_the_model_are_passed_over() {
    let mut vocab: AHashMap<String, i32> = AHashMap::new();
    vocab.insert("low".to_string(), 0);
    vocab.insert("high".to_string(), 7);
    vocab.insert("negative".to_string(), -1);
    let model = TfidfModel {
        analyzer: Analyzer::Char_wb,
        nmin: 1,
        nmax: 1,
        vocab,
        idf: vec![],
        n_cols: 2,
    };
    let (data, indices, indptr): (Vec<Num>, Vec<i32>, Vec<i64>) =
        model.transform_csr_tokens(&tokens(&["low high negative low"])).unwrap();
    // There is no inverse document frequency for the column, so its weight is zero.
    assert_eq!((data, indices, indptr), (vec![Num(0.0)], vec![0], vec![0, 1]));
}

#[test]
fn negative_numbers_count_down_from_the_top() {
    assert_eq!(column_index(0), 0);
    assert_eq!(column_index(i32::MAX), i32::MAX as usize);
    assert_eq!(column_index(-1), usize::MAX);
    assert_eq!(column_index(i32::MIN), i32::MIN as usize);
}

#[test]
fn new_tokens_get_the_next_column() {
    let mut vocab: AHashMap<String, i32> = AHashMap::new();
    let mut df: Vec<u32> = Vec::new();
    assert_eq!(get_or_insert_col(&mut vocab, &mut df, "a"), 0);
    assert_eq!(get_or_insert_col_owned(&mut vocab, &mut df, &"b".to_string()), 1);
    assert_eq!(get_or_insert_col(&mut vocab, &mut df, "a"), 0);
    assert_eq!(get_or_insert_col_owned(&mut vocab, &mut df, &"b".to_string()), 1);
    assert_eq!(df, vec![0, 0]);
    assert_eq!(vocab.len(), 2);
}

#[test]
fn a_model_can_be_cloned() {
    let b = VocabBuilder::new("char_wb", 1, 2).unwrap();
    let (model, _, _, _) = b.fit_csr_tokens::<Num>(&tokens(&["x y", "x"])).unwrap();
    let copy = model.clone();
    assert_eq!(copy.vocab, model.vocab);
    assert_eq!(copy.idf, model.idf);
    assert_eq!(copy.n_cols, model.n_cols);
    assert_eq!((copy.analyzer, copy.nmin, copy.nmax), (Analyzer::Char_wb, 1, 2));
}

#[test]
fn small_vocabularies_fit() {
    assert!(vocabulary_fits(&tokens(&["a b", "b c", ""])));
    assert!(vocabulary_fits(&[]));
}

#[test]
fn fitting_no_documents_gives_an_empty_model() {
    let b = VocabBuilder::new("char", 1, 1).unwrap();
    let (model, data, indices, indptr) = b.fit_csr::<Num, Words>(&[], &Words).unwrap();
    assert_eq!(model.n_cols, 0);
    assert!(data.is_empty() && indices.is_empty());
    assert_eq!(indptr, vec![0]);
}

#[test]
fn ordinary_documents_are_countable() {
    let texts = tokens(&["a b a", "", "b"]);
    assert!(token_docs_countable(&texts));
    assert!(token_doc_freqs_fit(&texts));
    let columns = vec![vec![0, 5, 0], vec![], vec![5]];
    assert!(column_docs_countable(&columns));
    assert!(column_doc_freqs_fit(&columns));
}

#[test]
fn transformed_rows_stack() {
    let b = VocabBuilder::new("char", 1, 1).unwrap();
    let (model, _, _, _) = b.fit_csr::<Num, Words>(&docs(&["banana", "cab"]), &Words).unwrap();
    let (d1, i1, p1) = model.transform_csr(&docs(&["nab", ""]), &Words).unwrap();
    let (d2, i2, p2) = model.transform_csr(&docs(&["cabanas", "zzz", "bb"]), &Words).unwrap();
    let (d, i, p) =
        model.transform_csr(&docs(&["nab", "", "cabanas", "zzz", "bb"]), &Words).unwrap();
    let shifted: Vec<i64> = p2[1..].iter().map(|q| q + d1.len() as i64).collect();
    assert_eq!(p, [p1, shifted].concat());
    let apart = rows(&[d1, d2].concat(), &[i1, i2].concat(), &p);
    let together = rows(&d, &i, &p);
    assert_eq!(apart.len(), 5);
    for (x, y) in apart.iter().zip(together.iter()) {
        assert_eq!(x.keys().collect::<Vec<_>>(), y.keys().collect::<Vec<_>>());
        for (column, value) in x {
            assert!(close(*value, y[column]));
        }
    }
}

#[test]
fn reordering_documents_keeps_tokens_and_idf() {
    let b = VocabBuilder::new("char_wb", 1, 1).unwrap();
    let (m1, _, _, _) =
        b.fit_csr::<Num, Words>(&docs(&["red green", "blue", "green red red"]), &Words).unwrap();
    let (m2, _, _, _) =
        b.fit_csr::<Num, Words>(&docs(&["blue", "green red red", "red green"]), &Words).unwrap();
    assert_eq!((m1.n_cols, m2.n_cols), (3, 3));
    for token in ["red", "green", "blue"] {
        let idf1 = m1.idf[m1.vocab[token] as usize];
        let idf2 = m2.idf[m2.vocab[token] as usize];
        assert_eq!(idf1, idf2);
    }
    assert_eq!(m2.vocab["blue"], 0);
}
