//! Regular-expression matching, done by the `regex` crate.
//!
//! What a regular expression matches is the `regex` crate's to decide: its
//! results are named here, and the inline and ordered-list rules of the
//! converter are stated over those names.
use vstd::prelude::*;
use regex::Regex;

verus! {

#[verifier::external_type_specification]
#[verifier::external_body]
pub struct ExRegexError(regex::Error);

/// Whether `regex::Regex::new` accepts `pattern`.
pub uninterp spec fn regex_compiles(pattern: Seq<char>) -> bool;

/// The pieces of `haystack` between successive matches of `pattern`, as
/// `regex::Regex::split` yields them.
pub uninterp spec fn regex_split_pieces(pattern: Seq<char>, haystack: Seq<char>) -> Seq<Seq<char>>;

/// For each successive match of `pattern` in `haystack`, as
/// `regex::Regex::captures_iter` yields them, the text of each capture group
/// in order (group 0 is the whole match; `None` for a group that did not
/// take part in the match).
pub uninterp spec fn regex_match_groups(pattern: Seq<char>, haystack: Seq<char>) -> Seq<
    Seq<Option<Seq<char>>>,
>;

/// The character sequences of a sequence of strings.
pub open spec fn string_views(v: Seq<String>) -> Seq<Seq<char>> {
    v.map_values(|s: String| s@)
}

/// The text of an optional string.
pub open spec fn opt_view(o: Option<String>) -> Option<Seq<char>> {
    match o {
        Some(s) => Some(s@),
        None => None,
    }
}

/// The capture groups of one match, by their texts.
pub open spec fn groups_view(g: Seq<Option<String>>) -> Seq<Option<Seq<char>>> {
    g.map_values(|o: Option<String>| opt_view(o))
}

/// The capture groups of every match, by their texts.
pub open spec fn matches_view(m: Seq<Vec<Option<String>>>) -> Seq<Seq<Option<Seq<char>>>> {
    m.map_values(|g: Vec<Option<String>>| groups_view(g@))
}

/// The pieces between the matches, with the replacement of match `k`
/// between piece `k` and piece `k + 1`.
pub open spec fn interleave(pieces: Seq<Seq<char>>, reps: Seq<Seq<char>>) -> Seq<char>
    decreases pieces.len(),
{
    if pieces.len() == 0 {
        seq![]
    } else {
        let k = pieces.len() - 1;
        interleave(pieces.drop_last(), reps) + (if 1 <= k && k - 1 < reps.len() {
            reps[k - 1]
        } else {
            seq![]
        }) + pieces[k]
    }
}

/// The whole text of a match: its capture group 0.
pub open spec fn match_text(g: Seq<Option<Seq<char>>>) -> Seq<char> {
    if g.len() > 0 && g[0] is Some {
        g[0]->0
    } else {
        seq![]
    }
}

/// Compiles `pattern` with `regex::Regex::new` and splits `haystack` with
/// `regex::Regex::split`. The contract claims: the result is `Ok` exactly when
/// the pattern compiles, and then it holds the pieces that `split` yields,
/// named `regex_split_pieces`. Nothing is claimed of what those pieces are.
#[verifier::external_body]
pub(crate) fn regex_split(pattern: &str, haystack: &str) -> (r: Result<Vec<String>, regex::Error>)
    ensures
        r is Ok <==> regex_compiles(pattern@),
        r matches Ok(v) ==> string_views(v@) == regex_split_pieces(pattern@, haystack@),
{
    match Regex::new(pattern) {
        Ok(re) => Ok(re.split(haystack).map(|s| s.to_string()).collect()),
        Err(e) => Err(e),
    }
}

/// Compiles `pattern` with `regex::Regex::new` and collects the capture groups
/// of every match that `regex::Regex::captures_iter` yields. The contract
/// claims: the result is `Ok` exactly when the pattern compiles, and then it
/// holds those groups, named `regex_match_groups`. It also claims what the
/// source of `split` and `captures_iter` shows of the two together: both walk
/// the same successive matches, each has group 0 (the whole match), and the
/// haystack is the first piece, the first match, the second piece, and so on,
/// with one piece more than there are matches. Nothing is claimed of which
/// matches the regex finds.
#[verifier::external_body]
pub(crate) fn regex_captures(pattern: &str, haystack: &str) -> (r: Result<
    Vec<Vec<Option<String>>>,
    regex::Error,
>)
    ensures
        r is Ok <==> regex_compiles(pattern@),
        r matches Ok(v) ==> matches_view(v@) == regex_match_groups(pattern@, haystack@),
        r matches Ok(v) ==> regex_split_pieces(pattern@, haystack@).len() == v@.len() + 1,
        r matches Ok(v) ==> forall|i: int|
            0 <= i < v@.len() ==> (#[trigger] v@[i])@.len() > 0 && v@[i]@[0] is Some,
        r matches Ok(v) ==> interleave(
            regex_split_pieces(pattern@, haystack@),
            matches_view(v@).map_values(|g: Seq<Option<Seq<char>>>| match_text(g)),
        ) == haystack@,
{
    match Regex::new(pattern) {
        Ok(re) => Ok(
            re.captures_iter(haystack).map(
                |caps| caps.iter().map(|m| m.map(|m| m.as_str().to_string())).collect(),
            ).collect(),
        ),
        Err(e) => Err(e),
    }
}

} // verus!
