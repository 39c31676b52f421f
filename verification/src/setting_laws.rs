//! What settings and numbers read as text mean, and which arrays can be read.

use vstd::arithmetic::div_mod::lemma_div_denominator;
use vstd::arithmetic::power::{lemma_pow_positive, pow};
use vstd::prelude::*;

use crate::embedding_laws::are_rows;
use crate::fd::{FdError, Stage};
use crate::sparse::{is_readable, is_readable_row, row_end, row_start};
use crate::text::{after_plus, decimal, decimal_value, digit_char, is_digit, parsed_usize};
use crate::tfidf::{checked_settings, Error};
use crate::threads::threads_asked_for;
use crate::tokenize::Analyzer;

verus! {

/// The names `char` and `char_wb` are accepted, and no other; a wrong name is reported before a
/// wrong range. The range is accepted exactly where it has a length from one on in it.
pub proof fn law_settings(name: Seq<char>, nmin: usize, nmax: usize)
    ensures
        name == seq!['c', 'h', 'a', 'r'] && 1 <= nmin <= nmax ==> checked_settings(
            name,
            nmin,
            nmax,
        ) == Ok::<Analyzer, Error>(Analyzer::Char),
        name == seq!['c', 'h', 'a', 'r', '_', 'w', 'b'] && 1 <= nmin <= nmax ==> checked_settings(
            name,
            nmin,
            nmax,
        ) == Ok::<Analyzer, Error>(Analyzer::Char_wb),
        name != seq!['c', 'h', 'a', 'r'] && name != seq!['c', 'h', 'a', 'r', '_', 'w', 'b']
            ==> checked_settings(name, nmin, nmax) == Err::<Analyzer, Error>(
            Error::InvalidAnalyzer,
        ),
        (name == seq!['c', 'h', 'a', 'r'] || name == seq!['c', 'h', 'a', 'r', '_', 'w', 'b']) && !(1
            <= nmin <= nmax) ==> checked_settings(name, nmin, nmax) == Err::<Analyzer, Error>(
            Error::InvalidNgramRange,
        ),
{
    reveal_strlit("char");
    reveal_strlit("char_wb");
    assert("char"@ =~= seq!['c', 'h', 'a', 'r']);
    assert("char_wb"@ =~= seq!['c', 'h', 'a', 'r', '_', 'w', 'b']);
    assert(seq!['c', 'h', 'a', 'r'].len() != seq!['c', 'h', 'a', 'r', '_', 'w', 'b'].len());
}

/// One digit reads as itself; no text, and a plus sign alone, read as no number.
pub proof fn law_parse_one(c: char)
    ensures
        '0' <= c <= '9' ==> parsed_usize(seq![c]) == Some((c as int - '0' as int) as usize),
        !('0' <= c <= '9') ==> parsed_usize(seq![c]) is None,
        parsed_usize(Seq::empty()) is None,
{
    let s = seq![c];
    if c == '+' {
        assert(after_plus(s) =~= Seq::empty());
    } else {
        assert(after_plus(s) == s);
        assert(s.drop_last() =~= Seq::empty());
        assert(decimal_value(s.drop_last()) == 0);
        assert(s[0] == c);
    }
}

/// One more digit makes ten times the number and the digit of it, as far as a machine word can
/// say it. One more character that is no digit leaves no number.
pub proof fn law_parse_next(s: Seq<char>, c: char)
    requires
        s.len() > 0,
        s != seq!['+'],
    ensures
        '0' <= c <= '9' ==> match parsed_usize(s) {
            Some(v) => if v * 10 + (c as int - '0' as int) <= usize::MAX {
                parsed_usize(s.push(c)) == Some((v * 10 + (c as int - '0' as int)) as usize)
            } else {
                parsed_usize(s.push(c)) is None
            },
            None => parsed_usize(s.push(c)) is None,
        },
        !('0' <= c <= '9') ==> parsed_usize(s.push(c)) is None,
{
    let digits = after_plus(s);
    let longer = after_plus(s.push(c));
    if s[0] == '+' {
        assert(s.push(c).skip(1) =~= s.skip(1).push(c));
        if s.len() == 1 {
            assert(s =~= seq!['+']);
        }
    }
    assert(longer == digits.push(c));
    assert(digits.len() > 0);
    assert(longer.drop_last() =~= digits);
    assert(longer[digits.len() as int] == c);
    assert forall|i: int| 0 <= i < digits.len() implies #[trigger] longer[i] == digits[i] by {}
    if forall|i: int| 0 <= i < longer.len() ==> is_digit(#[trigger] longer[i]) {
        assert forall|i: int| 0 <= i < digits.len() implies is_digit(#[trigger] digits[i]) by {
            assert(is_digit(longer[i]));
        }
    }
    if is_digit(c) && forall|i: int| 0 <= i < digits.len() ==> is_digit(#[trigger] digits[i]) {
        assert forall|i: int| 0 <= i < longer.len() implies is_digit(#[trigger] longer[i]) by {
            if i < digits.len() {
                assert(is_digit(digits[i]));
            }
        }
    }
}

/// A leading plus sign changes nothing.
pub proof fn law_parse_plus(s: Seq<char>)
    requires
        s.len() > 0 ==> s[0] != '+',
    ensures
        parsed_usize(seq!['+'] + s) == parsed_usize(s),
{
    assert((seq!['+'] + s).skip(1) =~= s);
}

/// The digits of a number: the one at the `i`-th place from the right is `n / 10^i % 10`, and
/// there are as many as the number needs.
pub proof fn law_decimal_places(n: nat, i: nat)
    ensures
        decimal(n).len() > 0,
        n > 0 ==> pow(10, (decimal(n).len() - 1) as nat) <= n,
        n < pow(10, decimal(n).len()),
        n == 0 ==> decimal(n).len() == 1,
        i < decimal(n).len() ==> decimal(n)[decimal(n).len() - 1 - i] as int == '0' as int + (n
            as int / pow(10, i)) % 10,
    decreases n,
{
    reveal(pow);
    let d = decimal(n);
    lemma_digit_char(n % 10);
    lemma_pow_positive(10, i);
    if n < 10 {
        assert(pow(10, 0) == 1);
        assert(pow(10, 1) == 10 * pow(10, 0));
        assert(n % 10 == n);
    } else {
        let before = decimal(n / 10);
        law_decimal_places(n / 10, if i > 0 {
            (i - 1) as nat
        } else {
            0
        });
        assert(d.drop_last() =~= before);
        assert(pow(10, d.len()) == 10 * pow(10, before.len()));
        assert(pow(10, before.len()) == 10 * pow(10, (before.len() - 1) as nat));
        if i > 0 {
            lemma_pow_positive(10, (i - 1) as nat);
            lemma_div_denominator(n as int, 10, pow(10, (i - 1) as nat));
            if i < d.len() {
                assert(d[d.len() - 1 - i] == before[before.len() - 1 - (i - 1)]);
            }
        } else {
            assert(pow(10, 0) == 1);
        }
    }
}

/// A digit's character.
proof fn lemma_digit_char(d: nat)
    requires
        d < 10,
    ensures
        digit_char(d) as int == '0' as int + d,
{
    let digits = seq!['0', '1', '2', '3', '4', '5', '6', '7', '8', '9'];
    assert(digits[0] == '0' && digits[1] == '1' && digits[2] == '2' && digits[3] == '3'
        && digits[4] == '4' && digits[5] == '5' && digits[6] == '6' && digits[7] == '7'
        && digits[8] == '8' && digits[9] == '9');
}

/// No setting, and one that is no number, ask for no threads; a number asks for that many.
pub proof fn law_threads(s: Seq<char>)
    ensures
        threads_asked_for(None) == 0,
        parsed_usize(s) is None ==> threads_asked_for(Some(s)) == 0,
        parsed_usize(s) matches Some(n) ==> threads_asked_for(Some(s)) == n,
{
}

/// Sparse rows whose columns are below `n_cols` can be read, whatever the width.
pub proof fn law_sparse_rows_are_readable<T>(
    data: Seq<T>,
    indices: Seq<i32>,
    indptr: Seq<i64>,
    n_rows: int,
    n_cols: int,
    m: int,
)
    requires
        are_rows(data, indices, indptr, n_rows),
        forall|p: int| 0 <= p < indices.len() ==> #[trigger] indices[p] < n_cols,
    ensures
        is_readable(data.len() as int, indices, indptr, n_rows, n_cols, m),
{
    assert forall|row: int| 0 <= row < n_rows && m > 0 implies #[trigger] is_readable_row(
        data.len() as int,
        indices,
        indptr,
        n_cols,
        row,
    ) by {
        assert(0 <= indptr[row] <= indptr[row + 1] <= data.len());
        assert forall|p: int|
            row_start(indptr, row) <= p < row_end(indptr, row) implies (#[trigger] indices[p]
            as usize) < n_cols by {
            assert(0 <= indices[p] < n_cols);
        }
    }
}

/// Where sparse rows can be read, no stored entry of theirs lies outside the arrays or in a
/// column that does not exist.
pub proof fn law_readable_stays_inside(
    data_len: int,
    indices: Seq<i32>,
    indptr: Seq<i64>,
    n_rows: int,
    n_cols: int,
    m: int,
    row: int,
    p: int,
)
    requires
        is_readable(data_len, indices, indptr, n_rows, n_cols, m),
        0 < m,
        0 <= row < n_rows,
        (indptr[row] as usize) <= p < (indptr[row + 1] as usize),
    ensures
        n_rows < indptr.len(),
        p < data_len,
        p < indices.len(),
        (indices[p] as usize) < n_cols,
{
    assert(is_readable_row(data_len, indices, indptr, n_cols, row));
}

/// What is reported of each error: which decomposition it speaks of, what went wrong and the
/// report or the numbers that came with it.
pub proof fn law_error_texts(report: String, input: usize, model: usize)
    ensures
        FdError::InvalidK.text() == "Invalid k"@,
        FdError::SvdFailed(Stage::Reduce, report).text() == "SVD failed: "@ + report@,
        FdError::SvdFailed(Stage::Fit, report).text() == "Final SVD failed: "@ + report@,
        FdError::SvdFailed(Stage::Shrink, report).text() == "SVD (shrink) failed: "@ + report@,
        FdError::UMissing(Stage::Reduce).text() == "SVD: U missing"@,
        FdError::UMissing(Stage::Fit).text() == "Final SVD: U missing"@,
        FdError::UMissing(Stage::Shrink).text() == "SVD (shrink): U missing"@,
        FdError::VtMissing(Stage::Reduce).text() == "SVD: VT missing"@,
        FdError::VtMissing(Stage::Fit).text() == "Final SVD: VT missing"@,
        FdError::VtMissing(Stage::Shrink).text() == "SVD (shrink): VT missing"@,
        (FdError::ColumnsMismatch { input, model }).text() == "n_cols mismatch: input n_cols="@
            + decimal(input as nat) + " but model expects "@ + decimal(model as nat),
{
}

} // verus!
