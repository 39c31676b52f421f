//! Timing of the long steps, for debugging.

use std::time::Instant;
use vstd::prelude::*;
use vstd::string::StringExecFns;

use crate::text::{decimal, push_decimal};

verus! {

/// A point in time.
#[verifier::external_type_specification]
#[verifier::external_body]
pub struct ExInstant(std::time::Instant);

/// What `str::to_lowercase` returns.
pub uninterp spec fn lowercase(s: Seq<char>) -> Seq<char>;

/// Every character is an ASCII character.
pub open spec fn is_ascii(s: Seq<char>) -> bool {
    forall|i: int| 0 <= i < s.len() ==> (#[trigger] s[i] as int) < 128
}

/// An ASCII letter in lower case; any other character as it is.
pub open spec fn ascii_lower(c: char) -> char {
    if 'A' <= c <= 'Z' {
        (c as int + 32) as char
    } else {
        c
    }
}

/// `str::to_lowercase`. In an ASCII text the letters from `A` to `Z` become those from `a` to
/// `z`, and nothing else changes. What becomes of a text with other characters is only named.
#[verifier::external_body]
fn to_lowercase(s: &str) -> (r: String)
    ensures
        r@ == lowercase(s@),
        is_ascii(s@) ==> r@ == s@.map_values(|c: char| ascii_lower(c)),
{
    s.to_lowercase()
}

/// `Instant::now`; nothing is claimed of the time it reads.
#[verifier::external_body]
fn now() -> Instant {
    Instant::now()
}

/// Whether a lower-cased setting asks for timing: it is the digit one and nothing else.
pub fn is_switched_on(lowered: &String) -> (r: bool)
    ensures
        r == (lowered@ == seq!['1']),
{
    let on: String = String::from_str("1");
    proof {
        reveal_strlit("1");
        assert("1"@ =~= seq!['1']);
    }
    *lowered == on
}

/// Whether a setting asks for timing: its lower-case form is `1`. No setting does not, and of
/// the ASCII settings `1` does and no other.
pub fn debug_enabled(setting: Option<&str>) -> (r: bool)
    ensures
        r == (setting matches Some(s) && lowercase(s@) == seq!['1']),
        setting matches Some(s) ==> (is_ascii(s@) ==> r == (s@ == seq!['1'])),
{
    match setting {
        Some(s) => {
            let lowered: String = to_lowercase(s);
            proof {
                if is_ascii(s@) {
                    lemma_only_one(s@);
                }
            }
            is_switched_on(&lowered)
        },
        None => false,
    }
}

/// Only the digit one lower-cases to it.
proof fn lemma_only_one(s: Seq<char>)
    requires
        is_ascii(s),
    ensures
        s.map_values(|c: char| ascii_lower(c)) == seq!['1'] <==> s == seq!['1'],
{
    let lowered = s.map_values(|c: char| ascii_lower(c));
    if lowered == seq!['1'] {
        assert(lowered.len() == 1 && lowered[0] == '1');
        assert(ascii_lower(s[0]) == '1');
        assert(s =~= seq!['1']);
    }
    if s == seq!['1'] {
        assert(s.len() == 1 && s[0] == '1');
        assert(lowered =~= seq!['1']);
    }
}

/// Notes the time a step starts at, where timing is asked for.
pub fn start_timing(enabled: bool) -> (start: Option<Instant>)
    ensures
        start is Some <==> enabled,
{
    if enabled {
        Some(now())
    } else {
        None
    }
}

/// The line that reports how many milliseconds a step took.
pub open spec fn timing_text(msg: Seq<char>, millis: nat) -> Seq<char> {
    "[rust] "@ + msg + ": "@ + decimal(millis) + "ms"@
}

/// The line to print for a step, where timing was asked for.
pub fn timing_line(msg: &str, millis: Option<u128>) -> (line: Option<String>)
    ensures
        match (millis, line) {
            (Some(ms), Some(l)) => l@ == timing_text(msg@, ms as nat),
            (None, None) => true,
            _ => false,
        },
{
    match millis {
        Some(ms) => {
            let mut l: String = String::from_str("[rust] ");
            l.append(msg);
            l.append(": ");
            push_decimal(&mut l, ms);
            l.append("ms");
            Some(l)
        },
        None => None,
    }
}

} // verus!
