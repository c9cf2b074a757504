//! Regular expression matches, as lists of capture groups.

use vstd::prelude::*;

verus! {

/// The text of each capture group of one match; the whole match comes first.
pub open spec fn groups_text(groups: Seq<Option<String>>) -> Seq<Option<Seq<char>>> {
    groups.map_values(|g: Option<String>| crate::text::opt_text(g))
}

/// The texts of the capture groups of several matches.
pub open spec fn matches_text(found: Seq<Vec<Option<String>>>) -> Seq<Seq<Option<Seq<char>>>> {
    found.map_values(|groups: Vec<Option<String>>| groups_text(groups@))
}

/// The capture groups of all matches of a pattern in a text; nothing if the
/// pattern does not compile.
pub uninterp spec fn all_captures_of(pattern: Seq<char>, text: Seq<char>) -> Option<
    Seq<Seq<Option<Seq<char>>>>,
>;

/// `regex::Regex::captures_iter`, on the pattern that `regex::Regex::new`
/// compiles: the capture groups of each match in turn. It is a function of the
/// pattern and the text.
#[verifier::external_body]
pub(crate) fn all_captures(pattern: &str, text: &str) -> (r: Option<Vec<Vec<Option<String>>>>)
    ensures
        (match r {
            Some(found) => Some(matches_text(found@)),
            None => None,
        }) == all_captures_of(pattern@, text@),
{
    match regex::Regex::new(pattern) {
        Ok(re) => Some(
            re.captures_iter(text)
                .map(|c| c.iter().map(|g| g.map(|m| m.as_str().to_owned())).collect())
                .collect(),
        ),
        Err(_) => None,
    }
}

/// The capture groups of the first match of a pattern in a text; nothing if
/// there is none or the pattern does not compile.
pub uninterp spec fn first_captures_of(pattern: Seq<char>, text: Seq<char>) -> Option<
    Seq<Option<Seq<char>>>,
>;

/// `regex::Regex::captures`, on the pattern that `regex::Regex::new` compiles:
/// the capture groups of the first match. It is a function of the pattern and
/// the text.
#[verifier::external_body]
pub(crate) fn first_captures(pattern: &str, text: &str) -> (r: Option<Vec<Option<String>>>)
    ensures
        (match r {
            Some(groups) => Some(groups_text(groups@)),
            None => None,
        }) == first_captures_of(pattern@, text@),
{
    match regex::Regex::new(pattern) {
        Ok(re) => re
            .captures(text)
            .map(|c| c.iter().map(|g| g.map(|m| m.as_str().to_owned())).collect()),
        Err(_) => None,
    }
}

/// The text of a capture group that took part in the match.
pub open spec fn group(groups: Seq<Option<Seq<char>>>, i: int) -> Option<Seq<char>> {
    if 0 <= i < groups.len() {
        groups[i]
    } else {
        None
    }
}

/// A copy of the text of a capture group that took part in the match.
pub fn group_text(groups: &Vec<Option<String>>, i: usize) -> (r: Option<String>)
    ensures
        crate::text::opt_text(r) == group(groups_text(groups@), i as int),
{
    if i < groups.len() {
        crate::text::copy_opt(&groups[i])
    } else {
        None
    }
}

} // verus!
