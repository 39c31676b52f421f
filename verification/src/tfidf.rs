//! TF-IDF: settings and errors that both vectorisers share.

use vstd::prelude::*;

pub use crate::hashed::Builder;
use crate::tokenize::{analyzer_named, parse_analyzer, Analyzer};
pub use crate::vocab::{TfidfModel, VocabBuilder};

verus! {

/// Why a vectoriser refuses its input.
#[derive(Clone, Copy, Debug, PartialEq, Eq, Structural)]
pub enum Error {
    /// The analyzer has no such name.
    InvalidAnalyzer,
    /// The n-gram lengths are empty or reversed.
    InvalidNgramRange,
    /// The input cannot be vectorised: there is not one weight for every column, a bucket is
    /// no column, a count would outgrow its type, or there are more tokens than column numbers.
    Internal,
}

impl Error {
    /// What is reported of the error.
    pub fn message(&self) -> (msg: &'static str)
        ensures
            msg@ == match *self {
                Error::InvalidAnalyzer => "Invalid analyzer"@,
                Error::InvalidNgramRange => "Invalid ngram_range"@,
                Error::Internal => "Internal error"@,
            },
    {
        match *self {
            Error::InvalidAnalyzer => "Invalid analyzer",
            Error::InvalidNgramRange => "Invalid ngram_range",
            Error::Internal => "Internal error",
        }
    }
}

/// What comes of an analyzer's name and an n-gram range: the name is looked up first.
pub open spec fn checked_settings(name: Seq<char>, nmin: usize, nmax: usize) -> Result<
    Analyzer,
    Error,
> {
    match analyzer_named(name) {
        None => Err(Error::InvalidAnalyzer),
        Some(a) => if nmin == 0 || nmin > nmax {
            Err(Error::InvalidNgramRange)
        } else {
            Ok(a)
        },
    }
}

/// Checks an analyzer's name and an n-gram range.
pub fn check_settings(name: &str, nmin: usize, nmax: usize) -> (r: Result<Analyzer, Error>)
    ensures
        r == checked_settings(name@, nmin, nmax),
{
    match parse_analyzer(name) {
        None => Err(Error::InvalidAnalyzer),
        Some(a) => if nmin == 0 || nmin > nmax {
            Err(Error::InvalidNgramRange)
        } else {
            Ok(a)
        },
    }
}

} // verus!
