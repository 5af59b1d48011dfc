//! Pattern matching through the `regex` crate, behind trusted items.
use vstd::prelude::*;

verus! {

/// Whether `regex` accepts `pattern`: exactly when `regex::Regex::new`
/// returns `Ok`, which depends on the pattern's text alone.
pub uninterp spec fn regex_pattern_valid(pattern: Seq<char>) -> bool;

/// Whether the compiled pattern matches somewhere inside `text`, as
/// `regex::Regex::is_match` decides it: a function of the pattern and the
/// text alone.
pub uninterp spec fn regex_matches(pattern: Seq<char>, text: Seq<char>) -> bool;

/// Relies on `regex::Regex::new`, which accepts or rejects the pattern on
/// its text alone, and `regex::Regex::is_match`, whose result is a function
/// of the pattern and the text; neither call panics.
#[verifier::external_body]
pub(crate) fn match_pattern(pattern: &str, text: &str) -> (r: Option<bool>)
    ensures
        r is Some <==> regex_pattern_valid(pattern@),
        r is Some ==> r->0 == regex_matches(pattern@, text@),
{
    match regex::Regex::new(pattern) {
        Ok(re) => Some(re.is_match(text)),
        Err(_) => None,
    }
}

/// Whether `pattern` is a valid regular expression.
pub fn pattern_ok(pattern: &str) -> (r: bool)
    ensures
        r == regex_pattern_valid(pattern@),
{
    match match_pattern(pattern, "") {
        Some(_) => true,
        None => false,
    }
}

} // verus!
