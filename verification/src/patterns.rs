//! Regular expression searches.

use vstd::prelude::*;

verus! {

/// Where the pattern first matches in the text: what stands before the match,
/// the match, and what follows it. `None` without a match, or for a pattern
/// that `regex` does not compile.
pub uninterp spec fn match_parts(pattern: Seq<char>, text: Seq<char>) -> Option<
    (Seq<char>, Seq<char>, Seq<char>),
>;

/// Calls `regex::Regex::find` and cuts the text at the match: the leftmost
/// match depends on the pattern and the text alone, and the three parts make
/// up the text.
#[verifier::external_body]
pub(crate) fn find_match(pattern: &str, text: &str) -> (r: Option<(String, String, String)>)
    ensures
        r.deep_view() == match_parts(pattern@, text@),
        r matches Some(p) ==> p.0@ + p.1@ + p.2@ == text@,
{
    let re = regex::Regex::new(pattern).ok()?;
    let m = re.find(text)?;
    let before = text[..m.start()].to_string();
    let after = text[m.end()..].to_string();
    Some((before, m.as_str().to_string(), after))
}

/// The text of the first capture group in the first match of the pattern.
/// `None` without a match, without such a group in it, or for a pattern that
/// `regex` does not compile.
pub uninterp spec fn first_group(pattern: Seq<char>, text: Seq<char>) -> Option<Seq<char>>;

/// Calls `regex::Regex::captures` and takes the first group: it depends on the
/// pattern and the text alone.
#[verifier::external_body]
pub(crate) fn find_group(pattern: &str, text: &str) -> (r: Option<String>)
    ensures
        r.deep_view() == first_group(pattern@, text@),
{
    let re = regex::Regex::new(pattern).ok()?;
    let caps = re.captures(text)?;
    caps.get(1).map(|m| m.as_str().to_string())
}

/// The text of the first capture group in each match of the pattern, from the
/// first match to the last; `None` for a match without such a group in it. Empty
/// for a pattern that `regex` does not compile.
pub uninterp spec fn each_first_group(pattern: Seq<char>, text: Seq<char>) -> Seq<
    Option<Seq<char>>,
>;

/// Calls `regex::Regex::captures_iter` and takes the first group of each match:
/// they depend on the pattern and the text alone.
#[verifier::external_body]
pub(crate) fn find_groups(pattern: &str, text: &str) -> (r: Vec<Option<String>>)
    ensures
        r.deep_view() == each_first_group(pattern@, text@),
{
    match regex::Regex::new(pattern) {
        Ok(re) => re.captures_iter(text).map(
            |c| c.get(1).map(|m| m.as_str().to_string()),
        ).collect(),
        Err(_) => Vec::new(),
    }
}

} // verus!
