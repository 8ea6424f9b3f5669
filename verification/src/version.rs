//! Validation of version strings of the shape `digits.digits.digits`.

use vstd::prelude::*;

verus! {

/// A character is an ASCII decimal digit.
pub open spec fn is_digit_char(c: char) -> bool {
    '0' <= c && c <= '9'
}

/// The characters of `s` from `lo` (inclusive) to `hi` (exclusive) are
/// decimal digits, and there is at least one of them.
pub open spec fn digit_run(s: Seq<char>, lo: int, hi: int) -> bool {
    &&& lo < hi
    &&& forall|k: int| lo <= k < hi ==> is_digit_char(#[trigger] s[k])
}

/// `s` has the shape `digits.digits.digits`: three non-empty runs of
/// ASCII decimal digits separated by single dots.
pub open spec fn is_version_format(s: Seq<char>) -> bool {
    exists|i: int, j: int|
        {
            &&& 0 <= i < j < s.len()
            &&& #[trigger] s[i] == '.'
            &&& #[trigger] s[j] == '.'
            &&& digit_run(s, 0, i)
            &&& digit_run(s, i + 1, j)
            &&& digit_run(s, j + 1, s.len() as int)
        }
}

/// Relies on regex::Regex::is_match with the anchored pattern
/// `^[0-9]+\.[0-9]+\.[0-9]+$`: true exactly when the whole string is
/// three non-empty runs of ASCII digits separated by single dots.
#[verifier::external_body]
fn matches_version_pattern(s: &str) -> (r: bool)
    ensures
        r == is_version_format(s@),
{
    regex::Regex::new(r"^[0-9]+\.[0-9]+\.[0-9]+$").unwrap().is_match(s)
}

/// Check a manually entered version string: accepted exactly when it
/// has the shape `digits.digits.digits`.
pub fn validate_version(s: &str) -> (r: bool)
    ensures
        r == is_version_format(s@),
{
    matches_version_pattern(s)
}

/// Every character of a well-formed version string is a digit or a dot,
/// and the string is non-empty.
pub proof fn lemma_version_chars(s: Seq<char>)
    requires
        is_version_format(s),
    ensures
        s.len() > 0,
        forall|k: int| 0 <= k < s.len() ==> is_digit_char(#[trigger] s[k]) || s[k] == '.',
{
    let (i, j): (int, int) = choose|i: int, j: int|
        {
            &&& 0 <= i < j < s.len()
            &&& #[trigger] s[i] == '.'
            &&& #[trigger] s[j] == '.'
            &&& digit_run(s, 0, i)
            &&& digit_run(s, i + 1, j)
            &&& digit_run(s, j + 1, s.len() as int)
        };
    assert forall|k: int| 0 <= k < s.len() implies is_digit_char(#[trigger] s[k]) || s[k]
        == '.' by {
        if k < i {
            assert(is_digit_char(s[k]));
        } else if k == i {
        } else if k < j {
            assert(is_digit_char(s[k]));
        } else if k == j {
        } else {
            assert(is_digit_char(s[k]));
        }
    }
}

} // verus!
