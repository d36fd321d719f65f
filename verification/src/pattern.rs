//! What the regular expression engine does with a pattern.

use vstd::prelude::*;
use regex::Regex;

verus! {

/// A compiled regular expression, `regex::Regex`.
#[verifier::external_type_specification]
#[verifier::external_body]
pub struct ExRegex(regex::Regex);

/// Why a pattern was refused, `regex::Error`.
#[verifier::external_type_specification]
#[verifier::external_body]
pub struct ExRegexError(regex::Error);

/// The engine accepts the pattern.
pub uninterp spec fn pattern_compiles(pattern: Seq<char>) -> bool;

/// The pattern that a compiled expression searches for.
pub uninterp spec fn regex_pattern(regex: Regex) -> Seq<char>;

/// `text` with everything that the pattern matches replaced.
pub uninterp spec fn replaced(pattern: Seq<char>, text: Seq<char>, replacement: Seq<char>) -> Seq<
    char,
>;

/// Trusted: `regex::Regex::new` accepts or refuses a pattern by its text alone,
/// and what it compiles searches for that pattern.
#[verifier::external_body]
pub(crate) fn compile(pattern: &str) -> (regex: Result<Regex, regex::Error>)
    ensures
        regex is Ok <==> pattern_compiles(pattern@),
        regex matches Ok(regex) ==> regex_pattern(regex) == pattern@,
{
    Regex::new(pattern)
}

/// Trusted: `regex::Regex::replace_all` gives a text that the pattern, the text
/// searched and the replacement fix. Nothing is said of what it is.
#[verifier::external_body]
pub(crate) fn replace_all(regex: &Regex, text: &str, replacement: &str) -> (rewritten: String)
    ensures
        rewritten@ == replaced(regex_pattern(*regex), text@, replacement@),
{
    regex.replace_all(text, replacement).into_owned()
}

} // verus!
