//! The regular expression engine behind the affinity line. What the engine
//! does is not proved here: this file states what the rest of the library
//! holds of it.

use regex::Regex;
use vstd::prelude::*;

verus! {

/// `regex::Regex`, a compiled regular expression. Nothing inside it is
/// visible to the proofs.
#[verifier::external_type_specification]
#[verifier::external_body]
pub struct ExRegex(regex::Regex);

/// `regex::Error`, the reason a pattern could not be compiled.
#[verifier::external_type_specification]
#[verifier::external_body]
pub struct ExRegexError(regex::Error);

/// Whether the engine takes a pattern: whether `regex::Regex::new` compiles
/// it. The pattern alone decides that.
pub uninterp spec fn pattern_accepted(pattern: Seq<char>) -> bool;

/// The pattern text that a compiled expression was made from: what
/// `regex::Regex::as_str` returns.
pub uninterp spec fn pattern_text(re: Regex) -> Seq<char>;

/// What `regex::Regex::captures` finds of a group: the text that group
/// number `group` matched in the leftmost match of `re` in `haystack`, or
/// `None` where there is no match, no such group, or the group took no part
/// in the match.
pub uninterp spec fn captured_group(re: Regex, haystack: Seq<char>, group: usize) -> Option<
    Seq<char>,
>;

/// Compiles `pattern` with `regex::Regex::new`. The claim is that the
/// pattern alone decides whether the engine takes it, and that an expression
/// that comes back remembers the pattern it was made from.
#[verifier::external_body]
pub(crate) fn compile(pattern: &str) -> (compiled: Result<Regex, regex::Error>)
    ensures
        compiled is Ok <==> pattern_accepted(pattern@),
        compiled matches Ok(re) ==> pattern_text(re) == pattern@,
{
    Regex::new(pattern)
}

/// The pattern text of a compiled expression, from `regex::Regex::as_str`.
#[verifier::external_body]
pub(crate) fn source(re: &Regex) -> (text: &str)
    ensures
        text@ == pattern_text(*re),
{
    re.as_str()
}

/// Searches `haystack` with `regex::Regex::captures` and hands out the text
/// of group number `group` as `regex::Captures::get` and
/// `regex::Match::as_str` give it. The claim is that the outcome depends on
/// the expression, the haystack and the number of the group alone.
#[verifier::external_body]
pub(crate) fn capture_group(re: &Regex, haystack: &str, group: usize) -> (found: Option<String>)
    ensures
        found matches Some(text) ==> captured_group(*re, haystack@, group) == Some(text@),
        found is None ==> captured_group(*re, haystack@, group) is None,
{
    re.captures(haystack).and_then(|caps| caps.get(group)).map(|found| found.as_str().to_owned())
}

} // verus!
