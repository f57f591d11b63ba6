//! Plain masking: every value of a known shape is replaced by its placeholder,
//! one shape after another.
use vstd::prelude::*;
use crate::scan::{Span, matches_of, matches_view, matches_wf, scan, whole};
use crate::text::{append_chars, chars_of, slice_chars, string_of};

verus! {

pub const RE_TIMESTAMP: &'static str = r"\b\d{4}-\d{2}-\d{2}[T ]\d{2}:\d{2}:\d{2}(?:\.\d{1,9})?(?:Z|[+-](?:\d{2}(?::?\d{2})?|\d{4}))\b";
pub const RE_NUM_UNIT: &'static str = r"(?i)\b-?\d+(?:\.\d+)?(?:\s*)(ms|us|\x{b5}s|ns|s|m|h|kb|mb|gb|kib|mib|gib|b|%)\b";
pub const RE_URL: &'static str = r#"\b[a-zA-Z][a-zA-Z0-9+.-]*://[^\s"']+\b"#;
pub const RE_IPV6: &'static str = r"\b(?:[0-9a-fA-F]{1,4}:){7}[0-9a-fA-F]{1,4}\b";
pub const RE_IPV4: &'static str = r"\b(?:(?:25[0-5]|2[0-4]\d|1\d\d|[1-9]?\d)\.){3}(?:25[0-5]|2[0-4]\d|1\d\d|[1-9]?\d)\b";
pub const RE_EMAIL: &'static str = r"\b[A-Za-z0-9._%+-]+@[A-Za-z0-9.-]+\.[A-Za-z]{2,}\b";
pub const RE_UUID: &'static str = r"\b[0-9a-fA-F]{8}-[0-9a-fA-F]{4}-[0-9a-fA-F]{4}-[0-9a-fA-F]{4}-[0-9a-fA-F]{12}\b";
pub const RE_PATH: &'static str = r"/[\w.\-]+(?:/[\w.\-]+)*|\./[\w.\-]+(?:/[\w.\-]+)*|\../[\w.\-]+(?:/[\w.\-]+)*|~/[\w.\-]+(?:/[\w.\-]+)*";
pub const RE_B64: &'static str = r"\b[A-Za-z0-9+/]{16,}={0,2}\b";
pub const RE_HEX: &'static str = r"\b[0-9a-fA-F]{16,}\b";
pub const RE_FLOAT: &'static str = r"\b-?\d+\.\d+\b";
pub const RE_INT: &'static str = r"\b-?\d+\b";

/// The text of capture group `g` of a match, empty when the group did not take part.
pub open spec fn group_text(text: Seq<char>, m: Seq<Option<Span>>, g: int) -> Seq<char> {
    if 0 <= g < m.len() && m[g] is Some {
        text.subrange(m[g]->Some_0.0 as int, m[g]->Some_0.1 as int)
    } else {
        Seq::empty()
    }
}

/// What replaces one match: the fixed text, followed by the first group when asked.
pub open spec fn replacement(text: Seq<char>, m: Seq<Option<Span>>, fixed: Seq<char>, with_group: bool) -> Seq<char> {
    if with_group {
        fixed + group_text(text, m, 1)
    } else {
        fixed
    }
}

/// The text from position `from` on, with each of the matches `ms` replaced.
pub open spec fn splice(text: Seq<char>, ms: Seq<Seq<Option<Span>>>, from: int, fixed: Seq<char>, with_group: bool) -> Seq<char>
    decreases ms.len(),
{
    if ms.len() == 0 {
        text.subrange(from, text.len() as int)
    } else {
        text.subrange(from, whole(ms[0]).0 as int) + replacement(text, ms[0], fixed, with_group)
            + splice(text, ms.drop_first(), whole(ms[0]).1 as int, fixed, with_group)
    }
}

/// Every match of `pattern` in `text` replaced, as `Regex::replace_all` does.
pub open spec fn replace_pass(pattern: Seq<char>, fixed: Seq<char>, with_group: bool, text: Seq<char>) -> Seq<char> {
    splice(text, matches_of(pattern, text), 0, fixed, with_group)
}

proof fn lemma_splice_step(
    text: Seq<char>,
    ms: Seq<Seq<Option<Span>>>,
    i: int,
    pos: int,
    fixed: Seq<char>,
    with_group: bool,
)
    requires
        0 <= i < ms.len(),
    ensures
        splice(text, ms.subrange(i, ms.len() as int), pos, fixed, with_group) == text.subrange(
            pos,
            whole(ms[i]).0 as int,
        ) + replacement(text, ms[i], fixed, with_group) + splice(
            text,
            ms.subrange(i + 1, ms.len() as int),
            whole(ms[i]).1 as int,
            fixed,
            with_group,
        ),
{
    let rest = ms.subrange(i, ms.len() as int);
    assert(rest.drop_first() =~= ms.subrange(i + 1, ms.len() as int));
    assert(rest[0] == ms[i]);
}

/// Replaces every match of `pattern` in `text` by `fixed`, followed by the
/// text of the first capture group when `with_group` holds.
pub fn replace_all(pattern: &str, fixed: &Vec<char>, with_group: bool, text: &Vec<char>) -> (r: Vec<char>)
    ensures
        r@ == replace_pass(pattern@, fixed@, with_group, text@),
{
    let ms = scan(pattern, text);
    let ghost gms = matches_view(ms@);
    let n = ms.len();
    let mut out: Vec<char> = Vec::new();
    let mut pos: usize = 0;
    let mut i: usize = 0;
    assert(gms.subrange(0, n as int) =~= gms);
    while i < n
        invariant
            n == ms@.len(),
            gms == matches_view(ms@),
            gms.len() == n,
            matches_wf(gms, text@.len()),
            i <= n,
            pos <= text@.len(),
            i < n ==> pos <= whole(gms[i as int]).0,
            out@ + splice(text@, gms.subrange(i as int, n as int), pos as int, fixed@, with_group)
                == replace_pass(pattern@, fixed@, with_group, text@),
        decreases n - i,
    {
        let m = &ms[i];
        let ghost gm = gms[i as int];
        assert(gm == m@);
        assert(gm.len() >= 1 && gm[0] is Some);
        let sp = m[0].unwrap();
        proof {
            lemma_splice_step(text@, gms, i as int, pos as int, fixed@, with_group);
        }
        let ghost before = out@;
        let piece = slice_chars(text, pos, sp.0);
        append_chars(&mut out, &piece);
        append_chars(&mut out, fixed);
        if with_group && m.len() > 1 && m[1].is_some() {
            let g = m[1].unwrap();
            assert(gm[1] is Some);
            let gt = slice_chars(text, g.0, g.1);
            append_chars(&mut out, &gt);
        }
        assert(out@ =~= before + text@.subrange(pos as int, sp.0 as int) + replacement(
            text@,
            gm,
            fixed@,
            with_group,
        ));
        pos = sp.1;
        i += 1;
    }
    let tail = slice_chars(text, pos, text.len());
    append_chars(&mut out, &tail);
    assert(gms.subrange(n as int, n as int).len() == 0);
    out
}

/// The text with timestamps, URLs, addresses, e-mails, UUIDs, paths, long
/// hex strings, base64 blobs and numbers (with their unit kept) masked, in
/// that order.
pub open spec fn mask_text_spec(t0: Seq<char>) -> Seq<char> {
    let t1 = replace_pass(RE_TIMESTAMP@, "<TIMESTAMP>"@, false, t0);
    let t2 = replace_pass(RE_URL@, "<URL>"@, false, t1);
    let t3 = replace_pass(RE_IPV6@, "<IP>"@, false, t2);
    let t4 = replace_pass(RE_IPV4@, "<IP>"@, false, t3);
    let t5 = replace_pass(RE_EMAIL@, "<EMAIL>"@, false, t4);
    let t6 = replace_pass(RE_UUID@, "<UUID>"@, false, t5);
    let t7 = replace_pass(RE_PATH@, "<PATH>"@, false, t6);
    let t8 = replace_pass(RE_HEX@, "<HEX>"@, false, t7);
    let t9 = replace_pass(RE_B64@, "<B64>"@, false, t8);
    let t10 = replace_pass(RE_NUM_UNIT@, "<NUM>"@, true, t9);
    let t11 = replace_pass(RE_FLOAT@, "<NUM>"@, false, t10);
    replace_pass(RE_INT@, "<NUM>"@, false, t11)
}

/// Masks a plain-text line (see `mask_text_spec`).
pub fn mask_text(input: &str) -> (r: String)
    ensures
        r@ == mask_text_spec(input@),
{
    let t0 = chars_of(input);
    let t1 = replace_all(RE_TIMESTAMP, &chars_of("<TIMESTAMP>"), false, &t0);
    let t2 = replace_all(RE_URL, &chars_of("<URL>"), false, &t1);
    let t3 = replace_all(RE_IPV6, &chars_of("<IP>"), false, &t2);
    let t4 = replace_all(RE_IPV4, &chars_of("<IP>"), false, &t3);
    let t5 = replace_all(RE_EMAIL, &chars_of("<EMAIL>"), false, &t4);
    let t6 = replace_all(RE_UUID, &chars_of("<UUID>"), false, &t5);
    let t7 = replace_all(RE_PATH, &chars_of("<PATH>"), false, &t6);
    let t8 = replace_all(RE_HEX, &chars_of("<HEX>"), false, &t7);
    let t9 = replace_all(RE_B64, &chars_of("<B64>"), false, &t8);
    let t10 = replace_all(RE_NUM_UNIT, &chars_of("<NUM>"), true, &t9);
    let t11 = replace_all(RE_FLOAT, &chars_of("<NUM>"), false, &t10);
    let t12 = replace_all(RE_INT, &chars_of("<NUM>"), false, &t11);
    string_of(t12.as_slice())
}

} // verus!
