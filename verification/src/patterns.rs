//! The regular expressions the library matches text with, and what a match
//! gives back.

use vstd::prelude::*;
use crate::collections::pair_views;
use crate::text::views;

verus! {

#[verifier::external_type_specification]
#[verifier::external_body]
pub struct ExRegexError(regex::Error);

/// A `require("name")` call; group one holds the name.
pub const REQUIRE_PATTERN: &'static str = r#"require\s*\(\s*["']([^"']+)["']\s*\)"#;

/// A line number between colons, as Lua writes it in errors; group one
/// holds the number.
pub const LINE_PATTERN: &'static str = r":(\d+):";

/// A line number of the bundle chunk in a Lua error; group one holds the
/// number.
pub const BUNDLE_LINE_PATTERN: &'static str = r"luat_bundle:(\d+):";

/// One of the patterns of this library: each has a group one that takes
/// part in every match.
pub open spec fn known_pattern(p: Seq<char>) -> bool {
    p == REQUIRE_PATTERN@ || p == LINE_PATTERN@ || p == BUNDLE_LINE_PATTERN@
}

/// Whether the regex crate accepts `pattern`.
pub uninterp spec fn regex_accepts(pattern: Seq<char>) -> bool;

/// The parts of `text` between the successive matches of `pattern`, as the
/// regex crate splits it.
pub uninterp spec fn regex_split(pattern: Seq<char>, text: Seq<char>) -> Seq<Seq<char>>;

/// Each successive match of `pattern` in `text`: the matched text and its
/// group one, as the regex crate finds them.
pub uninterp spec fn regex_captures(pattern: Seq<char>, text: Seq<char>) -> Seq<(Seq<char>, Seq<char>)>;

/// The matched texts of `caps`.
pub open spec fn whole_matches(caps: Seq<(Seq<char>, Seq<char>)>) -> Seq<Seq<char>> {
    caps.map_values(|c: (Seq<char>, Seq<char>)| c.0)
}

/// The group ones of `caps`.
pub open spec fn group_ones(caps: Seq<(Seq<char>, Seq<char>)>) -> Seq<Seq<char>> {
    caps.map_values(|c: (Seq<char>, Seq<char>)| c.1)
}

/// The parts `gaps` with `fills` between them: `gaps[0] fills[0] gaps[1]
/// ...`, for one gap more than fills.
pub open spec fn interleave(gaps: Seq<Seq<char>>, fills: Seq<Seq<char>>) -> Seq<char>
    decreases fills.len(),
{
    if fills.len() == 0 || gaps.len() == 0 {
        if gaps.len() > 0 { gaps[0] } else { Seq::empty() }
    } else {
        interleave(gaps.drop_last(), fills.drop_last()) + fills.last() + gaps.last()
    }
}

/// Matches `pattern` (`regex::Regex::new`) against `text`: the parts
/// between matches (`Regex::split`) and each match with its group one
/// (`Regex::captures_iter`). Assumed: `Ok` exactly when the crate accepts
/// the pattern, which it does for the patterns of this library (valid
/// syntax, far below the size limit); the lists are the named ones, with one part more than
/// matches, and parts and matches put back together give `text`. Reading
/// group one would panic on a match without it, which the patterns of this
/// library cannot produce.
#[verifier::external_body]
pub(crate) fn regex_pieces(pattern: &str, text: &str) -> (r: Result<(Vec<String>, Vec<(String, String)>), regex::Error>)
    requires
        known_pattern(pattern@),
    ensures
        r is Ok,
        r is Ok <==> regex_accepts(pattern@),
        r matches Ok(v) ==> views(v.0@) == regex_split(pattern@, text@)
            && pair_views(v.1@) == regex_captures(pattern@, text@)
            && regex_split(pattern@, text@).len() == regex_captures(pattern@, text@).len() + 1
            && interleave(regex_split(pattern@, text@), whole_matches(regex_captures(pattern@, text@))) == text@,
{
    let re = regex::Regex::new(pattern)?;
    let gaps = re.split(text).map(|s| s.to_string()).collect();
    let caps = re.captures_iter(text).map(|c| (c[0].to_string(), c[1].to_string())).collect();
    Ok((gaps, caps))
}

/// The first gap alone.
pub proof fn lemma_interleave_start(gaps: Seq<Seq<char>>, fills: Seq<Seq<char>>)
    requires
        gaps.len() >= 1,
    ensures
        interleave(gaps.take(1), fills.take(0)) == gaps[0],
{
    assert(fills.take(0).len() == 0);
}

/// Putting one more fill and gap back extends the text by both.
pub proof fn lemma_interleave_step(gaps: Seq<Seq<char>>, fills: Seq<Seq<char>>, i: int)
    requires
        0 <= i < fills.len(),
        gaps.len() == fills.len() + 1,
    ensures
        interleave(gaps.take(i + 2), fills.take(i + 1)) == interleave(gaps.take(i + 1), fills.take(i)) + fills[i] + gaps[i + 1],
{
    assert(gaps.take(i + 2).drop_last() =~= gaps.take(i + 1));
    assert(fills.take(i + 1).drop_last() =~= fills.take(i));
    assert(gaps.take(i + 2).last() == gaps[i + 1]);
    assert(fills.take(i + 1).last() == fills[i]);
}

} // verus!
