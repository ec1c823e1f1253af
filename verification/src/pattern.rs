//! Regular expressions, from the `regex` crate. A pattern is compiled from its
//! text each time it is used, so only plain text crosses into the library.
use vstd::prelude::*;

verus! {

/// The error message `regex::Regex::new` gives for `pattern`, or `None` when it compiles.
pub uninterp spec fn regex_error(pattern: Seq<char>) -> Option<Seq<char>>;

/// Whether the compiled `pattern` matches somewhere in `text`.
pub uninterp spec fn regex_matches(pattern: Seq<char>, text: Seq<char>) -> bool;

/// `text` with every match of `pattern` replaced by `rep`, where `$name`
/// and `${name}` in `rep` stand for capture groups.
pub uninterp spec fn regex_replaced(pattern: Seq<char>, text: Seq<char>, rep: Seq<char>) -> Seq<
    char,
>;

/// Calls `regex::Regex::new(pattern)`. Whether it succeeds, and the message
/// (`Error::to_string`) when it does not, are named by `regex_error`.
#[verifier::external_body]
pub(crate) fn check_regex(pattern: &str) -> (r: Result<(), String>)
    ensures
        r is Ok <==> regex_error(pattern@) is None,
        r matches Err(m) ==> regex_error(pattern@) == Some(m@),
{
    match regex::Regex::new(pattern) {
        Ok(_) => Ok(()),
        Err(e) => Err(e.to_string()),
    }
}

/// Calls `Regex::is_match` on the compiled `pattern`; the answer is named by
/// `regex_matches`.
#[verifier::external_body]
pub(crate) fn regex_is_match(pattern: &str, text: &str) -> (r: bool)
    requires
        regex_error(pattern@) is None,
    ensures
        r == regex_matches(pattern@, text@),
{
    regex::Regex::new(pattern).unwrap().is_match(text)
}

/// Calls `Regex::replace_all(text, rep)` on the compiled `pattern`; the
/// result is named by `regex_replaced`.
#[verifier::external_body]
pub(crate) fn regex_replace_all(pattern: &str, text: &str, rep: &str) -> (r: String)
    requires
        regex_error(pattern@) is None,
    ensures
        r@ == regex_replaced(pattern@, text@, rep@),
{
    regex::Regex::new(pattern).unwrap().replace_all(text, rep).into_owned()
}

} // verus!
