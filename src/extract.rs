//! Candidate spans for the fallback masking, and the choice among them.
//!
//! Every pattern contributes the spans it matches, tagged with a placeholder
//! type. Overlaps are resolved greedily: from the end of the last accepted
//! span, the next accepted one is the candidate that starts first, then the
//! longest, then the one of the earlier pattern.
use vstd::prelude::*;
use crate::masking::group_text;
use crate::scan::{Span, matches_of, matches_view, matches_wf, scan, whole};
use crate::text::{append_chars, chars_of, slice_chars, to_upper, upper_of, string_of, chars_eq};

verus! {

/// A candidate: start, end, placeholder type, and the placeholder text used
/// when the type is not numbered.
pub struct Cand {
    pub start: usize,
    pub end: usize,
    pub tag: Vec<char>,
    pub rep: Vec<char>,
}

pub type CandV = (usize, usize, Seq<char>, Seq<char>);

impl View for Cand {
    type V = CandV;

    open spec fn view(&self) -> CandV {
        (self.start, self.end, self.tag@, self.rep@)
    }
}

pub open spec fn cands_view(v: Seq<Cand>) -> Seq<CandV> {
    v.map_values(|c: Cand| c@)
}

/// The candidates of one pattern, all of one type.
pub open spec fn plain_cands(ms: Seq<Seq<Option<Span>>>, tag: Seq<char>, rep: Seq<char>) -> Seq<CandV> {
    ms.map_values(|m: Seq<Option<Span>>| (whole(m).0, whole(m).1, tag, rep))
}

/// The candidates of numbers with a unit: the type names the unit in upper
/// case, the placeholder keeps it; a percent sign is left to its own pattern.
pub open spec fn unit_cands(text: Seq<char>, ms: Seq<Seq<Option<Span>>>) -> Seq<CandV>
    decreases ms.len(),
{
    if ms.len() == 0 {
        Seq::empty()
    } else {
        let prev = unit_cands(text, ms.drop_last());
        let m = ms.last();
        let u = group_text(text, m, 1);
        if u == "%"@ {
            prev
        } else {
            prev.push((whole(m).0, whole(m).1, "NUM_"@ + upper_of(u), "<NUM>"@ + u))
        }
    }
}

/// Every candidate of a line, pattern by pattern in priority order.
pub open spec fn all_cands(t: Seq<char>) -> Seq<CandV> {
    plain_cands(matches_of(RE_TIMESTAMP@, t), "TIMESTAMP"@, "<TIMESTAMP>"@)
        + plain_cands(matches_of(RE_URL@, t), "URL"@, "<URL>"@)
        + plain_cands(matches_of(RE_IPV6@, t), "IP"@, "<IP>"@)
        + plain_cands(matches_of(RE_IPV4@, t), "IP"@, "<IP>"@)
        + plain_cands(matches_of(RE_EMAIL@, t), "EMAIL"@, "<EMAIL>"@)
        + plain_cands(matches_of(RE_UUID@, t), "UUID"@, "<UUID>"@)
        + plain_cands(matches_of(RE_PATH@, t), "PATH"@, "<PATH>"@)
        + plain_cands(matches_of(RE_NULL@, t), "NULL"@, "<NULL>"@)
        + plain_cands(matches_of(RE_HEX@, t), "HEX"@, "<HEX>"@)
        + plain_cands(matches_of(RE_B64@, t), "B64"@, "<B64>"@)
        + plain_cands(matches_of(RE_NUM_PERCENT@, t), "NUM_%"@, "<NUM>%"@)
        + unit_cands(t, matches_of(RE_NUM_UNIT@, t))
        + plain_cands(matches_of(RE_FLOAT@, t), "NUM"@, "<NUM>"@)
        + plain_cands(matches_of(RE_INT@, t), "NUM"@, "<NUM>"@)
}

pub open spec fn cands_wf(c: Seq<CandV>, len: nat) -> bool {
    forall|i: int| 0 <= i < c.len() ==> (#[trigger] c[i]).0 <= c[i].1 <= len
}

pub const RE_TIMESTAMP: &'static str = r"\b\d{4}-\d{2}-\d{2}[T ]\d{2}:\d{2}:\d{2}(?:\.\d{1,9})?(?:Z|[+-](?:\d{2}(?::?\d{2})?|\d{4}))\b";
pub const RE_NUM_UNIT: &'static str = r"(?i)\b-?\d+(?:\.\d+)?(?:\s*)(ms|us|\x{b5}s|ns|s|m|h|kb|mb|gb|kib|mib|gib|b|%)\b";
pub const RE_NUM_PERCENT: &'static str = r"\b-?\d+(?:\.\d+)?%";
pub const RE_URL: &'static str = r#"\b[a-zA-Z][a-zA-Z0-9+.-]*://[^\s"']+\b"#;
pub const RE_IPV6: &'static str = r"\b(?:[0-9a-fA-F]{1,4}:){7}[0-9a-fA-F]{1,4}\b";
pub const RE_IPV4: &'static str = r"\b(?:(?:25[0-5]|2[0-4]\d|1\d\d|[1-9]?\d)\.){3}(?:25[0-5]|2[0-4]\d|1\d\d|[1-9]?\d)\b";
pub const RE_EMAIL: &'static str = r"\b[A-Za-z0-9._%+-]+@[A-Za-z0-9.-]+\.[A-Za-z]{2,}\b";
pub const RE_UUID: &'static str = r"\b[0-9a-fA-F]{8}-[0-9a-fA-F]{4}-[0-9a-fA-F]{4}-[0-9a-fA-F]{4}-[0-9a-fA-F]{12}\b";
pub const RE_PATH: &'static str = r"/[\w.\-]+(?:/[\w.\-]+)+|\./[\w.\-]+(?:/[\w.\-]+)*|\../[\w.\-]+(?:/[\w.\-]+)*|~/[\w.\-]+(?:/[\w.\-]+)*|\w+//[\w.\-/]+|[\w.\-_]+(?:/[\w.\-_]+){2,}";
pub const RE_B64: &'static str = r"\b[A-Za-z0-9+/]{20,}={0,2}\b";
pub const RE_HEX: &'static str = r"\b[0-9a-fA-F]{16,}\b";
pub const RE_FLOAT: &'static str = r"\b-?\d+\.\d+\b";
pub const RE_INT: &'static str = r"\b-?\d+\b";
pub const RE_NULL: &'static str = r"\b(?:\(|\[)?null(?:\)|\])?\b";

/// Appends the candidates of `pattern`, all of type `tag`.
fn add_plain(out: &mut Vec<Cand>, pattern: &str, tag: &str, rep: &str, text: &Vec<char>)
    requires
        cands_wf(cands_view(old(out)@), text@.len()),
    ensures
        cands_view(final(out)@) == cands_view(old(out)@) + plain_cands(matches_of(pattern@, text@), tag@, rep@),
        cands_wf(cands_view(final(out)@), text@.len()),
{
    let ms = scan(pattern, text);
    let ghost gms = matches_view(ms@);
    let ghost o0 = cands_view(out@);
    let tg = chars_of(tag);
    let rp = chars_of(rep);
    let mut i: usize = 0;
    while i < ms.len()
        invariant
            gms == matches_view(ms@),
            gms == matches_of(pattern@, text@),
            matches_wf(gms, text@.len()),
            i <= ms@.len(),
            tg@ == tag@,
            rp@ == rep@,
            cands_view(out@) == o0 + plain_cands(gms.subrange(0, i as int), tag@, rep@),
            cands_wf(cands_view(out@), text@.len()),
        decreases ms@.len() - i,
    {
        let ghost gm = gms[i as int];
        assert(gm == ms@[i as int]@);
        let sp = ms[i][0].unwrap();
        assert(sp == whole(gm));
        let ghost before = cands_view(out@);
        out.push(Cand { start: sp.0, end: sp.1, tag: tg.clone(), rep: rp.clone() });
        assert(plain_cands(gms.subrange(0, i + 1), tag@, rep@) =~= plain_cands(gms.subrange(0, i as int), tag@, rep@).push((sp.0, sp.1, tag@, rep@)));
        assert(cands_view(out@) =~= before.push((sp.0, sp.1, tag@, rep@)));
        i += 1;
    }
    assert(gms.subrange(0, ms@.len() as int) =~= gms);
}

/// Appends the candidates of numbers with a unit (see `unit_cands`).
fn add_units(out: &mut Vec<Cand>, text: &Vec<char>)
    requires
        cands_wf(cands_view(old(out)@), text@.len()),
    ensures
        cands_view(final(out)@) == cands_view(old(out)@) + unit_cands(text@, matches_of(RE_NUM_UNIT@, text@)),
        cands_wf(cands_view(final(out)@), text@.len()),
{
    let ms = scan(RE_NUM_UNIT, text);
    let ghost gms = matches_view(ms@);
    let ghost o0 = cands_view(out@);
    let pct = chars_of("%");
    let num_ = chars_of("NUM_");
    let num = chars_of("<NUM>");
    let mut i: usize = 0;
    while i < ms.len()
        invariant
            gms == matches_view(ms@),
            gms == matches_of(RE_NUM_UNIT@, text@),
            matches_wf(gms, text@.len()),
            i <= ms@.len(),
            pct@ == "%"@,
            num_@ == "NUM_"@,
            num@ == "<NUM>"@,
            cands_view(out@) == o0 + unit_cands(text@, gms.subrange(0, i as int)),
            cands_wf(cands_view(out@), text@.len()),
        decreases ms@.len() - i,
    {
        let ghost gm = gms[i as int];
        let m = &ms[i];
        assert(gm == m@);
        let sp = m[0].unwrap();
        assert(sp == whole(gm));
        let mut unit: Vec<char> = Vec::new();
        if m.len() > 1 && m[1].is_some() {
            let g = m[1].unwrap();
            assert(gm[1] is Some);
            unit = slice_chars(text, g.0, g.1);
        }
        assert(unit@ == group_text(text@, gm, 1));
        let ghost sub = gms.subrange(0, i + 1);
        assert(sub.drop_last() =~= gms.subrange(0, i as int));
        assert(sub.last() == gm);
        if !chars_eq(&unit, &pct) {
            let us = string_of(unit.as_slice());
            let up = to_upper(us.as_str());
            let upc = chars_of(up.as_str());
            let mut tag = num_.clone();
            append_chars(&mut tag, &upc);
            let mut rep = num.clone();
            append_chars(&mut rep, &unit);
            let ghost before = cands_view(out@);
            out.push(Cand { start: sp.0, end: sp.1, tag, rep });
            assert(cands_view(out@) =~= before.push((sp.0, sp.1, "NUM_"@ + upper_of(unit@), "<NUM>"@ + unit@)));
        }
        i += 1;
    }
    assert(gms.subrange(0, ms@.len() as int) =~= gms);
}

/// Every candidate of a line (see `all_cands`).
pub fn collect_cands(text: &Vec<char>) -> (r: Vec<Cand>)
    ensures
        cands_view(r@) == all_cands(text@),
        cands_wf(cands_view(r@), text@.len()),
{
    let mut out: Vec<Cand> = Vec::new();
    assert(cands_view(out@) =~= Seq::<CandV>::empty());
    add_plain(&mut out, RE_TIMESTAMP, "TIMESTAMP", "<TIMESTAMP>", text);
    add_plain(&mut out, RE_URL, "URL", "<URL>", text);
    add_plain(&mut out, RE_IPV6, "IP", "<IP>", text);
    add_plain(&mut out, RE_IPV4, "IP", "<IP>", text);
    add_plain(&mut out, RE_EMAIL, "EMAIL", "<EMAIL>", text);
    add_plain(&mut out, RE_UUID, "UUID", "<UUID>", text);
    add_plain(&mut out, RE_PATH, "PATH", "<PATH>", text);
    add_plain(&mut out, RE_NULL, "NULL", "<NULL>", text);
    add_plain(&mut out, RE_HEX, "HEX", "<HEX>", text);
    add_plain(&mut out, RE_B64, "B64", "<B64>", text);
    add_plain(&mut out, RE_NUM_PERCENT, "NUM_%", "<NUM>%", text);
    add_units(&mut out, text);
    add_plain(&mut out, RE_FLOAT, "NUM", "<NUM>", text);
    add_plain(&mut out, RE_INT, "NUM", "<NUM>", text);
    assert(cands_view(out@) =~= all_cands(text@));
    out
}

} // verus!
