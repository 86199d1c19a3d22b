//! Random identifiers and timestamps.
//!
//! Timestamps are carried as their canonical RFC 3339 rendering; chrono does
//! the parsing and printing behind trusted wrappers, and everything else in
//! the crate treats a timestamp as a plain string in canonical form.

use vstd::prelude::*;

use crate::text::is_ascii_alnum;
use crate::text::is_digit_char;

verus! {

/// The characters chrono's canonical RFC 3339 rendering is made of.
pub open spec fn is_ts_char(c: char) -> bool {
    is_digit_char(c) || c == '-' || c == '+' || c == ':' || c == '.' || c == 'T'
}

/// A non-empty string of timestamp characters.  Such a string holds no
/// newline, no whitespace and no `>`, which is what embedding one in a page
/// header depends on.
pub open spec fn ts_chars_ok(s: Seq<char>) -> bool {
    s.len() > 0 && forall|i: int| 0 <= i < s.len() ==> is_ts_char(#[trigger] s[i])
}

/// What parsing a string as an RFC 3339 timestamp and rendering it back
/// canonically returns: `None` where the string does not parse.  The result
/// depends on the characters alone.
pub uninterp spec fn rfc3339_norm(s: Seq<char>) -> Option<Seq<char>>;

/// A string in canonical form: normalizing it gives it back.
pub open spec fn is_canonical_ts(s: Seq<char>) -> bool {
    ts_chars_ok(s) && rfc3339_norm(s) == Some(s)
}

/// Relies on chrono's `DateTime::parse_from_rfc3339` and `to_rfc3339`:
/// whether a string parses depends on its characters alone; the canonical
/// rendering uses only digits, `-`, `+`, `:`, `.` and `T`; and a canonical
/// rendering parses back to the same instant and offset, so normalizing a
/// normalized string changes nothing.
#[verifier::external_body]
pub fn normalize_rfc3339(s: &str) -> (r: Option<String>)
    ensures
        r is Some <==> rfc3339_norm(s@) is Some,
        r matches Some(t) ==> rfc3339_norm(s@) == Some(t@) && is_canonical_ts(t@),
{
    match chrono::DateTime::parse_from_rfc3339(s) {
        Ok(dt) => Some(dt.to_rfc3339()),
        Err(_) => None,
    }
}

/// Relies on chrono's `Local::now` and `to_rfc3339`: the current time in the
/// system's fixed offset, rendered canonically, parses back to itself.
/// Nothing else is promised of the value: it is the clock's.
#[verifier::external_body]
pub fn now_rfc3339() -> (r: String)
    ensures
        is_canonical_ts(r@),
{
    let now = chrono::offset::Local::now();
    let fixed = now.with_timezone(now.offset());
    fixed.to_rfc3339()
}

/// Relies on rand's `Alphanumeric` distribution: `sample_string` returns
/// exactly `len` characters, each an ASCII letter or digit.  Which ones come
/// back is the generator's choice.
#[verifier::external_body]
pub fn random_string(len: usize) -> (r: String)
    ensures
        r@.len() == len,
        forall|i: int| 0 <= i < r@.len() ==> is_ascii_alnum(#[trigger] r@[i]),
{
    rand::distr::SampleString::sample_string(&rand::distr::Alphanumeric, &mut rand::rng(), len)
}

} // verus!
