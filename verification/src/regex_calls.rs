//! Calls into the regex crate.
use vstd::prelude::*;
use crate::text::strings_view;

verus! {

/// Whether the regex crate's `Regex::new(pattern)` compiles and its
/// `is_match` finds a match of the pattern in `text`.
pub uninterp spec fn regex_match(pattern: Seq<char>, text: Seq<char>) -> bool;

/// `regex::Regex::new(pattern)` followed by `Regex::is_match(text)`;
/// a pattern that does not compile matches nothing.  The contract only
/// names the result: what a pattern matches is left to the regex crate.
#[verifier::external_body]
pub(crate) fn regex_is_match(pattern: &str, text: &str) -> (res: bool)
    ensures
        res == regex_match(pattern@, text@),
{
    match regex::Regex::new(pattern) {
        Ok(re) => re.is_match(text),
        Err(_) => false,
    }
}


pub open spec fn groups_view(v: Seq<Option<String>>) -> Seq<Option<Seq<char>>> {
    v.map_values(|g: Option<String>| match g {
        Some(s) => Some(s@),
        None => None,
    })
}

/// The capture groups of the first match of `pattern` in `text` (group 0
/// is the whole match; a group that took no part is `None`), or `None`
/// when there is no match or the pattern does not compile.
pub uninterp spec fn regex_first_captures(pattern: Seq<char>, text: Seq<char>) -> Option<Seq<Option<Seq<char>>>>;

/// `regex::Regex::new(pattern)` followed by `Regex::captures(text)`, each
/// group taken as an owned string.  The result is only named.
#[verifier::external_body]
pub(crate) fn regex_captures(pattern: &str, text: &str) -> (res: Option<Vec<Option<String>>>)
    ensures
        match res {
            Some(g) => regex_first_captures(pattern@, text@) == Some(groups_view(g@)),
            None => regex_first_captures(pattern@, text@) is None,
        },
{
    match regex::Regex::new(pattern) {
        Ok(re) => re.captures(text).map(|c| c.iter().map(|g| g.map(|m| m.as_str().to_string())).collect()),
        Err(_) => None,
    }
}

/// `text` with every non-overlapping match of `pattern` replaced by
/// `replacement` (with `$n` group references expanded); `text` itself
/// when the pattern does not compile.
pub uninterp spec fn regex_replaced_all(pattern: Seq<char>, text: Seq<char>, replacement: Seq<char>) -> Seq<char>;

/// `regex::Regex::new(pattern)` followed by `Regex::replace_all`.
#[verifier::external_body]
pub(crate) fn regex_replace_all(pattern: &str, text: &str, replacement: &str) -> (res: String)
    ensures
        res@ == regex_replaced_all(pattern@, text@, replacement@),
{
    match regex::Regex::new(pattern) {
        Ok(re) => re.replace_all(text, replacement).to_string(),
        Err(_) => text.to_string(),
    }
}

/// `text` with the first match of `pattern` replaced by `replacement`;
/// `text` itself when the pattern does not compile.
pub uninterp spec fn regex_replaced_first(pattern: Seq<char>, text: Seq<char>, replacement: Seq<char>) -> Seq<char>;

/// `regex::Regex::new(pattern)` followed by `Regex::replace`.
#[verifier::external_body]
pub(crate) fn regex_replace_first(pattern: &str, text: &str, replacement: &str) -> (res: String)
    ensures
        res@ == regex_replaced_first(pattern@, text@, replacement@),
{
    match regex::Regex::new(pattern) {
        Ok(re) => re.replace(text, replacement).to_string(),
        Err(_) => text.to_string(),
    }
}

pub open spec fn all_groups_view(v: Seq<Vec<Option<String>>>) -> Seq<Seq<Option<Seq<char>>>> {
    v.map_values(|g: Vec<Option<String>>| groups_view(g@))
}

/// `text` cut at the successive matches of `pattern`: the pieces of
/// text between the matches (one more than there are matches), and the
/// capture groups of each match; `text` whole and no match when the
/// pattern does not compile.
pub uninterp spec fn regex_match_pieces(pattern: Seq<char>, text: Seq<char>) -> (Seq<Seq<char>>, Seq<Seq<Option<Seq<char>>>>);

/// `regex::Regex::new(pattern)` followed by `Regex::captures_iter(text)`:
/// the text before, between and after the matches, and the groups of each
/// match.  The result is only named.
#[verifier::external_body]
pub(crate) fn regex_pieces(pattern: &str, text: &str) -> (res: (Vec<String>, Vec<Vec<Option<String>>>))
    ensures
        regex_match_pieces(pattern@, text@) == (strings_view(res.0@), all_groups_view(res.1@)),
{
    let re = match regex::Regex::new(pattern) {
        Ok(re) => re,
        Err(_) => return (vec![text.to_string()], Vec::new()),
    };
    let (mut gaps, mut groups, mut last) = (Vec::new(), Vec::new(), 0);
    for captures in re.captures_iter(text) {
        let whole = captures.get(0).unwrap();
        gaps.push(text[last..whole.start()].to_string());
        groups.push(captures.iter().map(|g| g.map(|m| m.as_str().to_string())).collect());
        last = whole.end();
    }
    gaps.push(text[last..].to_string());
    (gaps, groups)
}

} // verus!
