//! Regular-expression matching through the `regex` crate.
use vstd::prelude::*;

verus! {

/// `regex::Regex`.
#[verifier::external_type_specification]
#[verifier::external_body]
pub struct ExRegex(regex::Regex);

/// `regex::Regex::new` accepts the pattern.
pub uninterp spec fn regex_valid(pattern: Seq<char>) -> bool;

/// The pattern a compiled regular expression was made from (what
/// `regex::Regex::as_str` gives back).
pub uninterp spec fn regex_source(re: regex::Regex) -> Seq<char>;

/// The text of capture group `group` in the leftmost-first match of the
/// regular expression `pattern` on `text` (`None` when nothing matches or
/// the group took no part in the match).
pub uninterp spec fn regex_capture(pattern: Seq<char>, text: Seq<char>, group: nat) -> Option<Seq<char>>;

/// The texts of the successive non-overlapping matches of `pattern` in
/// `text`.
pub uninterp spec fn regex_matches(pattern: Seq<char>, text: Seq<char>) -> Seq<Seq<char>>;

/// The view of an optional character vector.
pub open spec fn opt_chars(o: Option<Vec<char>>) -> Option<Seq<char>> {
    match o {
        Some(v) => Some(v@),
        None => None,
    }
}

/// `regex::Regex::new`: a regular expression exactly when the pattern is
/// valid, made from that pattern.
#[verifier::external_body]
pub(crate) fn compile_regex(pattern: &str) -> (r: Option<regex::Regex>)
    ensures
        r is Some <==> regex_valid(pattern@),
        r matches Some(re) ==> regex_source(re) == pattern@,
{
    regex::Regex::new(pattern).ok()
}

/// `regex::Regex::captures`, then `get(group)` and the matched text: the
/// result is named `regex_capture`.
#[verifier::external_body]
pub(crate) fn capture_group(re: &regex::Regex, text: &[char], group: usize) -> (r: Option<Vec<char>>)
    ensures
        opt_chars(r) == regex_capture(regex_source(*re), text@, group as nat),
{
    let text: String = text.iter().collect();
    re.captures(&text).and_then(|c| c.get(group)).map(|m| m.as_str().chars().collect())
}

/// `regex::Regex::find_iter`: the matched texts, named `regex_matches`.
#[verifier::external_body]
pub(crate) fn find_all(re: &regex::Regex, text: &[char]) -> (r: Vec<Vec<char>>)
    ensures
        r@.map_values(|m: Vec<char>| m@) == regex_matches(regex_source(*re), text@),
{
    let text: String = text.iter().collect();
    re.find_iter(&text).map(|m| m.as_str().chars().collect()).collect()
}

} // verus!
