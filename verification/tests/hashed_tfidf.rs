use skrub_rust::hashed::idf_length_error;
use skrub_rust::scalar::Scalar;
use skrub_rust::tfidf::{Builder, Error};
use skrub_rust::tokenize::{parse_analyzer, Analyzer, Tokenizer};

#[derive(Clone, Copy, Debug, PartialEq)]
struct Num(f32);

impl Scalar for Num {
    fn zero() -> Self {
        Num(0.0)
    }
    fn one() -> Self {
        Num(1.0)
    }
    fn minus_one() -> Self {
        Num(-1.0)
    }
    fn from_count(count: u32) -> Self {
        Num(count as f32)
    }
    fn from_len(len: usize) -> Self {
        Num(len as f32)
    }
    fn plus(self, other: Self) -> Self {
        Num(self.0 + other.0)
    }
    fn minus(self, other: Self) -> Self {
        Num(self.0 - other.0)
    }
    fn times(self, other: Self) -> Self {
        Num(self.0 * other.0)
    }
    fn over(self, other: Self) -> Self {
        Num(self.0 / other.0)
    }
    fn sqrt(self) -> Self {
        Num(self.0.sqrt())
    }
    fn ln(self) -> Self {
        Num(self.0.ln())
    }
    fn exceeds(self, other: Self) -> bool {
        self.0 > other.0
    }
}

/// Characters as tokens; whole words inside word boundaries; the first byte as the bucket.
struct Letters;

impl Tokenizer for Letters {
    fn char_ngrams(&self, doc: &String, nmin: usize, nmax: usize) -> Vec<String> {
        let chars: Vec<char> = doc.chars().collect();
        let mut out = Vec::new();
        for n in nmin..=nmax {
            for w in chars.windows(n) {
                out.push(w.iter().collect());
            }
        }
        out
    }
    fn char_wb_ngrams(&self, doc: &String, _nmin: usize, _nmax: usize) -> Vec<String> {
        doc.split_whitespace().map(|w| w.to_string()).collect()
    }
    fn bucket_id(&self, token: &String, _n_features: usize) -> usize {
        (token.as_bytes()[0] - b'a') as usize
    }
}

fn close(a: f32, b: f32) -> bool {
    (a - b).abs() < 1e-6
}

#[test]
fn analyzers_have_names() {
    assert_eq!(parse_analyzer("char"), Some(Analyzer::Char));
    assert_eq!(parse_analyzer("char_wb"), Some(Analyzer::Char_wb));
    assert_eq!(parse_analyzer("Char"), None);
    assert_eq!(parse_analyzer(""), None);
}

#[test]
fn builder_checks_the_analyzer_before_the_range() {
    assert!(matches!(Builder::new("word", 0, 0, 4), Err(Error::InvalidAnalyzer)));
    assert!(matches!(Builder::new("char", 0, 3, 4), Err(Error::InvalidNgramRange)));
    assert!(matches!(Builder::new("char", 4, 3, 4), Err(Error::InvalidNgramRange)));
    let b = Builder::new("char_wb", 2, 2, 4).unwrap();
    assert_eq!(b.analyzer, Analyzer::Char_wb);
    assert_eq!((b.nmin, b.nmax, b.nfeat), (2, 2, 4));
}

#[test]
fn errors_have_messages() {
    assert_eq!(Error::InvalidAnalyzer.message(), "Invalid analyzer");
    assert_eq!(Error::InvalidNgramRange.message(), "Invalid ngram_range");
    assert_eq!(Error::Internal.message(), "Internal error");
}

#[test]
fn hashed_rows_are_sorted_weighted_and_normalised() {
    let b = Builder::new("char", 1, 1, 3).unwrap();
    let (data, indices, indptr, idf) =
        b.build_csr_columns::<Num>(&[vec![1, 1, 0], vec![1], vec![]]).unwrap();
    // Three documents: column 0 in one of them, column 1 in two, column 2 in none.
    assert!(close(idf[0].0, (4.0f32 / 2.0).ln() + 1.0));
    assert!(close(idf[1].0, (4.0f32 / 3.0).ln() + 1.0));
    assert!(close(idf[2].0, 4.0f32.ln() + 1.0));
    assert_eq!(indices, vec![0, 1, 1]);
    assert_eq!(indptr, vec![0, 2, 3, 3]);
    let raw = [1.0 * idf[0].0, 2.0 * idf[1].0];
    let norm = (raw[0] * raw[0] + raw[1] * raw[1]).sqrt();
    assert!(close(data[0].0, raw[0] / norm));
    assert!(close(data[1].0, raw[1] / norm));
    assert!(close(data[2].0, 1.0));
}

#[test]
fn smoothed_idf_of_one_in_three() {
    // ln((1 + 3) / (1 + 1)) + 1 = ln 2 + 1
    let idf: Num = skrub_rust::weights::smoothed_idf(3, 1);
    assert!(close(idf.0, 1.693_147_2));
}

#[test]
fn hashed_rows_are_reproduced_with_known_idf() {
    let b = Builder::new("char", 1, 2, 26).unwrap();
    let docs: Vec<String> = vec!["cab".to_string(), "bad".to_string(), "".to_string()];
    let (data, indices, indptr, idf) = b.build_csr::<Num, Letters>(&docs, &Letters).unwrap();
    let again = b.build_csr_with_idf(&docs, &idf, &Letters).unwrap();
    assert_eq!((data, indices, indptr), again);
}

#[test]
fn text_is_tokenised_with_the_named_analyzer() {
    let docs: Vec<String> = vec!["ab ab".to_string()];
    let words = Builder::new("char_wb", 1, 1, 26).unwrap();
    let (_, indices, indptr, _) = words.build_csr::<Num, Letters>(&docs, &Letters).unwrap();
    assert_eq!((indices, indptr), (vec![0], vec![0, 1]));
    let grams = Builder::new("char", 1, 1, 26).unwrap();
    let docs: Vec<String> = vec!["abab".to_string()];
    let (_, indices, indptr, _) = grams.build_csr::<Num, Letters>(&docs, &Letters).unwrap();
    assert_eq!((indices, indptr), (vec![0, 1], vec![0, 2]));
}

#[test]
fn wrong_number_of_idf_is_an_internal_error() {
    let b = Builder::new("char", 1, 1, 3).unwrap();
    let docs: Vec<String> = vec!["a".to_string()];
    assert_eq!(
        b.build_csr_with_idf(&docs, &[Num(1.0)], &Letters),
        Err(Error::Internal)
    );
    assert_eq!(
        b.build_csr_columns_with_idf(&[vec![99]], &[Num(1.0)]),
        Err(Error::Internal)
    );
}

#[test]
fn a_bucket_outside_the_columns_is_an_internal_error() {
    let b = Builder::new("char", 1, 1, 3).unwrap();
    let docs: Vec<String> = vec!["d".to_string()];
    assert_eq!(b.build_csr::<Num, Letters>(&docs, &Letters), Err(Error::Internal));
    assert_eq!(
        b.build_csr_with_idf(&docs, &[Num(1.0), Num(1.0), Num(1.0)], &Letters),
        Err(Error::Internal)
    );
}

#[test]
fn idf_length_is_reported() {
    assert_eq!(idf_length_error(5, 5), None);
    assert_eq!(
        idf_length_error(0, 1024).as_deref(),
        Some("IDF length 0 does not match n_features 1024")
    );
}

#[test]
fn a_row_of_zero_weights_is_left_alone() {
    let b = Builder::new("char", 1, 1, 2).unwrap();
    let (data, indices, indptr) = b
        .build_csr_columns_with_idf(&[vec![0, 1]], &[Num(0.0), Num(0.0)])
        .unwrap();
    assert_eq!(data, vec![Num(0.0), Num(0.0)]);
    assert_eq!((indices, indptr), (vec![0, 1], vec![0, 2]));
}

#[test]
fn order_of_columns_in_a_document_does_not_matter() {
    let b = Builder::new("char", 1, 1, 4).unwrap();
    let one = b.build_csr_columns::<Num>(&[vec![3, 0, 3, 2]]).unwrap();
    let two = b.build_csr_columns::<Num>(&[vec![2, 3, 3, 0]]).unwrap();
    assert_eq!(one, two);
}

#[test]
fn rows_with_known_idf_stack() {
    let b = Builder::new("char", 1, 2, 26).unwrap();
    let idf: Vec<Num> = (0..26).map(|i| Num(1.0 + i as f32)).collect();
    let first: Vec<String> = vec!["cab".to_string(), "".to_string()];
    let second: Vec<String> = vec!["add".to_string(), "bee".to_string()];
    let all: Vec<String> = first.iter().chain(second.iter()).cloned().collect();
    let (d1, i1, p1) = b.build_csr_with_idf(&first, &idf, &Letters).unwrap();
    let (d2, i2, p2) = b.build_csr_with_idf(&second, &idf, &Letters).unwrap();
    let (d, i, p) = b.build_csr_with_idf(&all, &idf, &Letters).unwrap();
    let shifted: Vec<i64> = p2[1..].iter().map(|q| q + d1.len() as i64).collect();
    assert_eq!(p, [p1, shifted].concat());
    assert_eq!(i, [i1, i2].concat());
    assert_eq!(d, [d1, d2].concat());
}

#[test]
fn reordering_documents_reorders_the_rows() {
    let b = Builder::new("char", 1, 1, 26).unwrap();
    let texts = ["cab", "", "add", "bee"];
    let order = [2usize, 0, 3, 1];
    let docs: Vec<String> = texts.iter().map(|t| t.to_string()).collect();
    let moved: Vec<String> = order.iter().map(|i| texts[*i].to_string()).collect();
    let (d1, i1, p1, idf1) = b.build_csr::<Num, Letters>(&docs, &Letters).unwrap();
    let (d2, i2, p2, idf2) = b.build_csr::<Num, Letters>(&moved, &Letters).unwrap();
    assert_eq!(idf1, idf2);
    for (i, j) in order.iter().enumerate() {
        let here = p2[i] as usize..p2[i + 1] as usize;
        let there = p1[*j] as usize..p1[*j + 1] as usize;
        assert_eq!(i2[here.clone()], i1[there.clone()]);
        assert_eq!(d2[here], d1[there]);
    }
}
