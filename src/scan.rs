//! Pattern scanning over text, through the `regex` crate.
//!
//! Spans are reported in characters (not bytes), so that they index the
//! `Seq<char>` view of the scanned text.
use vstd::prelude::*;

verus! {

/// A span `(start, end)` in characters.
pub type Span = (usize, usize);

/// What `regex::Regex::new(pattern)` followed by `captures_iter(text)` yields:
/// `None` when the pattern does not compile, else one entry per match, each
/// holding the span of every capture group (group 0 being the whole match).
pub uninterp spec fn regex_captures(pattern: Seq<char>, text: Seq<char>) -> Option<Seq<Seq<Option<Span>>>>;

/// The whole-match span of a match.
pub open spec fn whole(m: Seq<Option<Span>>) -> Span {
    m[0]->Some_0
}

/// Matches as `captures_iter` hands them out: each has a whole-match span,
/// every span lies within the text, and successive matches do not overlap.
pub open spec fn matches_wf(ms: Seq<Seq<Option<Span>>>, len: nat) -> bool {
    &&& forall|i: int| 0 <= i < ms.len() ==> ms[i].len() >= 1 && (#[trigger] ms[i])[0] is Some
    &&& forall|i: int, g: int|
        0 <= i < ms.len() && 0 <= g < ms[i].len() && (#[trigger] ms[i][g]) is Some ==> {
            let sp = ms[i][g]->Some_0;
            sp.0 <= sp.1 <= len
        }
    &&& forall|i: int| 0 <= i < ms.len() - 1 ==> whole(#[trigger] ms[i]).1 <= whole(ms[i + 1]).0
}

/// Relies on `regex::Regex::new` and `regex::Regex::captures_iter`: the
/// successive non-overlapping matches of `pattern` in `text`, with the span
/// of each capture group; byte offsets are turned into character offsets.
#[verifier::external_body]
pub(crate) fn find_captures(pattern: &str, text: &str) -> (r: Option<Vec<Vec<Option<Span>>>>)
    ensures
        r is Some <==> regex_captures(pattern@, text@) is Some,
        r is Some ==> matches_view(r->Some_0@) == regex_captures(pattern@, text@)->Some_0,
        r is Some ==> matches_wf(matches_view(r->Some_0@), text@.len()),
{
    let re = regex::Regex::new(pattern).ok()?;
    let at = |b: usize| text[..b].chars().count();
    Some(
        re.captures_iter(text)
            .map(|c| c.iter().map(|g| g.map(|m| (at(m.start()), at(m.end())))).collect())
            .collect(),
    )
}

/// The view of a list of matches.
pub open spec fn matches_view(v: Seq<Vec<Option<Span>>>) -> Seq<Seq<Option<Span>>> {
    v.map_values(|m: Vec<Option<Span>>| m@)
}

/// The matches of `pattern` in `text`, or none when the pattern does not compile.
pub open spec fn matches_of(pattern: Seq<char>, text: Seq<char>) -> Seq<Seq<Option<Span>>> {
    match regex_captures(pattern, text) {
        Some(ms) => ms,
        None => Seq::empty(),
    }
}

/// The matches of `pattern` in `text`, as `matches_of` states them.
pub fn scan(pattern: &str, text: &Vec<char>) -> (r: Vec<Vec<Option<Span>>>)
    ensures
        matches_view(r@) == matches_of(pattern@, text@),
        matches_wf(matches_view(r@), text@.len()),
{
    let s = crate::text::string_of(text.as_slice());
    match find_captures(pattern, s.as_str()) {
        Some(ms) => ms,
        None => {
            let e: Vec<Vec<Option<Span>>> = Vec::new();
            assert(matches_view(e@) =~= Seq::<Seq<Option<Span>>>::empty());
            e
        },
    }
}

} // verus!
