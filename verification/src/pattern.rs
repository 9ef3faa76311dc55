//! Regular expressions, as the `regex` crate compiles and runs them.

use vstd::prelude::*;

verus! {

/// `regex::Regex`, a compiled regular expression; nothing is known of it
/// but the texts that `matched_by` names.
#[verifier::external_type_specification]
#[verifier::external_body]
pub struct ExRegex(regex::Regex);

/// `regex::Error`, the reason why a pattern does not compile; it is
/// carried through and rendered, never looked into.
#[verifier::external_type_specification]
#[verifier::external_body]
pub struct ExRegexError(regex::Error);

/// The texts that a regular expression matches somewhere. This is said of
/// the expression itself, however it was built: one built with options
/// matches other texts than one compiled from the same pattern without
/// them.
pub uninterp spec fn matched_by(re: regex::Regex) -> Set<Seq<char>>;

/// Whether a text is a pattern that `Regex::new` compiles.
pub uninterp spec fn is_pattern(p: Seq<char>) -> bool;

/// The texts that a pattern matches somewhere when `Regex::new` compiles
/// it.
pub uninterp spec fn language_of(p: Seq<char>) -> Set<Seq<char>>;

/// `Regex::new` compiles a pattern with the default options, or fails where
/// the pattern is invalid or compiles to more than the default size limit.
/// Which of the two happens, and what the compiled expression matches,
/// depends on the pattern alone.
pub assume_specification[ regex::Regex::new ](re: &str) -> (r: Result<regex::Regex, regex::Error>)
    ensures
        r is Ok == is_pattern(re@),
        r matches Ok(x) ==> matched_by(x) == language_of(re@),
;

/// `Regex::is_match` says whether the expression matches anywhere in the
/// haystack, which depends on the expression and the haystack alone.
pub assume_specification[ regex::Regex::is_match ](re: &regex::Regex, haystack: &str) -> (b: bool)
    ensures
        b == matched_by(*re).contains(haystack@),
;

/// The text of a compilation error, as the `Display` of `regex::Error`
/// renders it. Nothing is claimed of the text.
#[verifier::external_body]
pub(crate) fn error_text(e: &regex::Error) -> (s: String)
{
    format!("{}", e)
}

} // verus!
