//! Timestamps found in free text: ISO 8601 / RFC 3339, syslog, and epoch
//! numbers, as seconds and nanoseconds since the epoch.
use vstd::prelude::*;
use crate::patterns::{replace_lit, replace_literal};
use crate::scan::{Span, matches_of, matches_view, scan, whole};
use crate::text::{append_chars, chars_of, decimal, decimal_chars, slice_chars, string_of};

verus! {

/// A point in time: whole seconds since the epoch and the nanoseconds past them.
#[derive(Debug, Clone, Copy, PartialEq, Eq, Structural)]
pub struct Timestamp {
    pub secs: i64,
    pub nanos: u32,
}

/// What `chrono::DateTime::parse_from_rfc3339` reads from a text.
pub uninterp spec fn rfc3339_of(s: Seq<char>) -> Option<(i64, u32)>;

/// What `chrono::DateTime::parse_from_str` reads from a text with a format.
pub uninterp spec fn zoned_of(s: Seq<char>, fmt: Seq<char>) -> Option<(i64, u32)>;

/// What `chrono::NaiveDateTime::parse_from_str` reads from a text with a
/// format, taken as UTC.
pub uninterp spec fn naive_of(s: Seq<char>, fmt: Seq<char>) -> Option<(i64, u32)>;

/// Relies on `chrono::DateTime::parse_from_rfc3339`: the instant, as epoch
/// seconds and sub-second nanoseconds, or `None` when the text is not RFC 3339.
#[verifier::external_body]
fn parse_rfc3339(s: &str) -> (r: Option<(i64, u32)>)
    ensures
        r == rfc3339_of(s@),
{
    chrono::DateTime::parse_from_rfc3339(s).ok().map(|d| (d.timestamp(), d.timestamp_subsec_nanos()))
}

/// Relies on `chrono::DateTime::parse_from_str`: the instant the text gives
/// in the format (with its offset), or `None`.
#[verifier::external_body]
fn parse_zoned(s: &str, fmt: &str) -> (r: Option<(i64, u32)>)
    ensures
        r == zoned_of(s@, fmt@),
{
    chrono::DateTime::parse_from_str(s, fmt).ok().map(|d| (d.timestamp(), d.timestamp_subsec_nanos()))
}

/// Relies on `chrono::NaiveDateTime::parse_from_str` and `and_utc`: the
/// instant the text gives in the format, read as UTC, or `None`.
#[verifier::external_body]
fn parse_naive(s: &str, fmt: &str) -> (r: Option<(i64, u32)>)
    ensures
        r == naive_of(s@, fmt@),
{
    chrono::NaiveDateTime::parse_from_str(s, fmt).ok().map(|d| (d.and_utc().timestamp(), d.and_utc().timestamp_subsec_nanos()))
}

/// Relies on `std::time::SystemTime::duration_since`: whole seconds from the
/// Unix epoch to now, or `None` when the clock reads before the epoch (it
/// depends on the clock).
#[verifier::external_body]
fn clock_secs() -> (r: Option<u64>) {
    std::time::SystemTime::now().duration_since(std::time::UNIX_EPOCH).ok().map(|d| d.as_secs())
}

/// What `chrono::DateTime::from_timestamp(secs, 0)` followed by
/// `Datelike::year` gives.
pub uninterp spec fn utc_year_of(secs: i64) -> Option<i32>;

/// Relies on `chrono::DateTime::from_timestamp` and `Datelike::year`: the
/// UTC year of an instant, or `None` when it is out of range.
#[verifier::external_body]
fn year_at(secs: i64) -> (r: Option<i32>)
    ensures
        r == utc_year_of(secs),
{
    chrono::DateTime::from_timestamp(secs, 0).map(|d| chrono::Datelike::year(&d))
}

/// The year (UTC) the clock shows; 1970 when the clock reads before the
/// epoch or beyond what a date can hold.
pub(crate) fn current_year() -> i32 {
    match clock_secs() {
        Some(s) => {
            if s <= 9_223_372_036_854_775_807u64 {
                match year_at(s as i64) {
                    Some(y) => y,
                    None => 1970,
                }
            } else {
                1970
            }
        },
        None => 1970,
    }
}

pub const RE_ISO_ANY: &'static str = r"\b\d{4}-\d{2}-\d{2}[T ]\d{2}:\d{2}:\d{2}(?:\.\d{1,9})?(?:Z|[+-](?:\d{2}(?::?\d{2})?|\d{4}))\b";
pub const RE_TZ_HHMM: &'static str = r"([+-])(\d{2})(\d{2})$";
pub const RE_SYSLOG: &'static str = r"\b(Jan|Feb|Mar|Apr|May|Jun|Jul|Aug|Sep|Oct|Nov|Dec)\s+\d{1,2}\s+\d{2}:\d{2}:\d{2}\b";
pub const RE_EPOCH10: &'static str = r"\b\d{10}\b";
pub const RE_EPOCH13: &'static str = r"\b\d{13}\b";
pub const RE_EPOCH16: &'static str = r"\b\d{16}\b";

pub open spec fn or_else(a: Option<(i64, u32)>, b: Option<(i64, u32)>) -> Option<(i64, u32)> {
    if a is Some { a } else { b }
}

/// The span of the first match of `p` in `t`.
pub open spec fn first_match(p: Seq<char>, t: Seq<char>) -> Option<Span> {
    let ms = matches_of(p, t);
    if ms.len() > 0 { Some(whole(ms[0])) } else { None }
}

pub open spec fn span_text(t: Seq<char>, sp: Span) -> Seq<char> {
    t.subrange(sp.0 as int, sp.1 as int)
}

/// A trailing `+HHMM` offset rewritten as `+HH:MM`, when there is one.
pub open spec fn colon_offset(m: Seq<char>) -> Option<Seq<char>> {
    let ms = matches_of(RE_TZ_HHMM@, m);
    if ms.len() > 0 && whole(ms[0]).1 - whole(ms[0]).0 == 5 {
        let g = ms[0];
        let rep = crate::masking::group_text(m, g, 1) + crate::masking::group_text(m, g, 2) + ":"@
            + crate::masking::group_text(m, g, 3);
        Some(replace_lit(m, span_text(m, whole(g)), rep))
    } else {
        None
    }
}

/// The offset-aware formats tried in turn.
pub open spec fn zoned_formats(n: Seq<char>) -> Option<(i64, u32)> {
    or_else(zoned_of(n, "%Y-%m-%d %H:%M:%S%.f%z"@), or_else(zoned_of(n, "%Y-%m-%d %H:%M:%S%z"@), or_else(
        zoned_of(n, "%Y-%m-%dT%H:%M:%S%.f%z"@),
        or_else(zoned_of(n, "%Y-%m-%dT%H:%M:%S%z"@), or_else(zoned_of(n, "%Y-%m-%d %H:%M:%S%.f%:z"@), or_else(
            zoned_of(n, "%Y-%m-%d %H:%M:%S%:z"@),
            or_else(zoned_of(n, "%Y-%m-%dT%H:%M:%S%.f%:z"@), zoned_of(n, "%Y-%m-%dT%H:%M:%S%:z"@)),
        ))),
    )))
}

/// The formats without offset, read as UTC, tried in turn.
pub open spec fn naive_formats(m: Seq<char>) -> Option<(i64, u32)> {
    or_else(naive_of(m, "%Y-%m-%d %H:%M:%S"@), or_else(naive_of(m, "%Y-%m-%d %H:%M:%S%.f"@), or_else(
        naive_of(m, "%Y-%m-%dT%H:%M:%S"@),
        naive_of(m, "%Y-%m-%dT%H:%M:%S%.f"@),
    )))
}

/// The instant an ISO-looking text gives: RFC 3339 as it stands, then with
/// a `+HHMM` offset written `+HH:MM`, then the other formats.
pub open spec fn iso_instant(m: Seq<char>) -> Option<(i64, u32)> {
    if rfc3339_of(m) is Some {
        rfc3339_of(m)
    } else {
        let n = if m.contains('+') || m.contains('-') {
            match colon_offset(m) { Some(x) => x, None => m }
        } else {
            m
        };
        let again = if (m.contains('+') || m.contains('-')) && colon_offset(m) is Some {
            rfc3339_of(n)
        } else {
            None
        };
        or_else(again, or_else(zoned_formats(n), naive_formats(m)))
    }
}

/// The value of a string of decimal digits.
pub open spec fn digits_value(s: Seq<char>) -> int
    decreases s.len(),
{
    if s.len() == 0 {
        0
    } else {
        digits_value(s.drop_last()) * 10 + (s.last() as int - '0' as int)
    }
}

pub open spec fn ascii_digits(t: Seq<char>) -> bool {
    forall|i: int| 0 <= i < t.len() ==> '0' <= #[trigger] t[i] <= '9'
}

/// The first match of an epoch pattern, read as a count of `1 / per`
/// seconds, when it is made of ASCII digits.
pub open spec fn epoch_at(s: Seq<char>, p: Seq<char>, per: int) -> Option<(i64, u32)> {
    match first_match(p, s) {
        Some(sp) if ascii_digits(span_text(s, sp)) && span_text(s, sp).len() <= 16 => {
            let v = digits_value(span_text(s, sp));
            Some(((v / per) as i64, ((v % per) * (1_000_000_000int / per)) as u32))
        },
        _ => None,
    }
}

pub open spec fn year_text(year: int) -> Seq<char> {
    if year < 0 { "-"@ + decimal((-year) as nat) } else { decimal(year as nat) }
}

/// The first timestamp in a text, given the current year for syslog stamps
/// (which carry none): an ISO stamp, else a syslog stamp, else a 16-, 13- or
/// 10-digit epoch number in micro-, milli- or plain seconds.
pub open spec fn stamp_in(s: Seq<char>, year: int) -> Option<(i64, u32)> {
    match first_match(RE_ISO_ANY@, s) {
        Some(sp) if iso_instant(span_text(s, sp)) is Some => iso_instant(span_text(s, sp)),
        _ => match first_match(RE_SYSLOG@, s) {
            Some(sp) if naive_of(year_text(year) + " "@ + span_text(s, sp), "%Y %b %d %H:%M:%S"@) is Some =>
                naive_of(year_text(year) + " "@ + span_text(s, sp), "%Y %b %d %H:%M:%S"@),
            _ => or_else(epoch_at(s, RE_EPOCH16@, 1_000_000), or_else(epoch_at(s, RE_EPOCH13@, 1000), epoch_at(s, RE_EPOCH10@, 1))),
        },
    }
}

fn first_span(pattern: &str, t: &Vec<char>) -> (r: Option<Span>)
    ensures
        r == first_match(pattern@, t@),
        r is Some ==> r->Some_0.0 <= r->Some_0.1 <= t@.len(),
{
    let ms = scan(pattern, t);
    let ghost gms = matches_view(ms@);
    if ms.len() > 0 {
        assert(gms[0] == ms@[0]@);
        assert(gms[0].len() >= 1 && gms[0][0] is Some);
        ms[0][0]
    } else {
        None
    }
}

pub(crate) fn digits_exec(s: &Vec<char>) -> (r: u64)
    requires
        s@.len() <= 18,
        forall|i: int| 0 <= i < s@.len() ==> '0' <= #[trigger] s@[i] <= '9',
    ensures
        r as int == digits_value(s@),
{
    proof {
        reveal_with_fuel(pow10, 19);
        assert(pow10(18) == 1_000_000_000_000_000_000);
    }
    let mut v: u64 = 0;
    let mut i: usize = 0;
    while i < s.len()
        invariant
            i <= s@.len() <= 18,
            pow10(18) == 1_000_000_000_000_000_000,
            forall|k: int| 0 <= k < s@.len() ==> '0' <= #[trigger] s@[k] <= '9',
            v as int == digits_value(s@.subrange(0, i as int)),
            v < pow10(i as nat),
        decreases s@.len() - i,
    {
        let d = (s[i] as u32 - '0' as u32) as u64;
        assert(s@.subrange(0, i + 1).drop_last() =~= s@.subrange(0, i as int));
        proof {
            lemma_pow10_le((i + 1) as nat, 18);
        }
        v = v * 10 + d;
        i += 1;
    }
    assert(s@.subrange(0, s@.len() as int) =~= s@);
    v
}

pub open spec fn pow10(n: nat) -> int
    decreases n,
{
    if n == 0 { 1 } else { 10 * pow10((n - 1) as nat) }
}

pub proof fn lemma_pow10_le(n: nat, m: nat)
    requires
        n <= m,
    ensures
        1 <= pow10(n) <= pow10(m),
    decreases m,
{
    if m > 0 && n < m {
        lemma_pow10_le(n, (m - 1) as nat);
    } else if n > 0 {
        lemma_pow10_le((n - 1) as nat, (m - 1) as nat);
    }
}


fn epoch_exec(t: &Vec<char>, pattern: &str, per: u64) -> (r: Option<(i64, u32)>)
    requires
        per == 1 || per == 1000 || per == 1_000_000,
    ensures
        r == epoch_at(t@, pattern@, per as int),
{
    match first_span(pattern, t) {
        Some(sp) => {
            let m = slice_chars(t, sp.0, sp.1);
            assert(m@ == span_text(t@, sp));
            if m.len() > 16 {
                return None;
            }
            let mut k: usize = 0;
            while k < m.len()
                invariant
                    k <= m@.len(),
                    m@ == span_text(t@, sp),
                    first_match(pattern@, t@) == Some(sp),
                    forall|j: int| 0 <= j < k ==> '0' <= #[trigger] m@[j] <= '9',
                decreases m@.len() - k,
            {
                if !('0' <= m[k] && m[k] <= '9') {
                    assert(m@ == span_text(t@, sp));
                    assert(!('0' <= m@[k as int] <= '9'));
                    assert(!ascii_digits(m@));
                    return None;
                }
                k += 1;
            }
            let v = digits_exec(&m);
            proof {
                reveal_with_fuel(pow10, 17);
                lemma_digits_bound(m@);
            }
            let secs = (v / per) as i64;
            let nanos: u32 = if per == 1 {
                0
            } else if per == 1000 {
                ((v % 1000) * 1_000_000) as u32
            } else {
                ((v % 1_000_000) * 1000) as u32
            };
            Some((secs, nanos))
        },
        None => None,
    }
}

pub proof fn lemma_digits_bound(t: Seq<char>)
    requires
        ascii_digits(t),
    ensures
        0 <= digits_value(t) < pow10(t.len()),
    decreases t.len(),
{
    if t.len() > 0 {
        assert(ascii_digits(t.drop_last())) by {
            assert forall|i: int| 0 <= i < t.drop_last().len() implies '0' <= #[trigger] t.drop_last()[i] <= '9' by {
                assert(t.drop_last()[i] == t[i]);
            }
        }
        lemma_digits_bound(t.drop_last());
        assert('0' <= t[t.len() - 1] <= '9');
    }
}

fn colon_offset_exec(m: &Vec<char>) -> (r: Option<Vec<char>>)
    ensures
        match r {
            Some(x) => colon_offset(m@) == Some(x@),
            None => colon_offset(m@) is None,
        },
{
    let ms = scan(RE_TZ_HHMM, m);
    let ghost gms = matches_view(ms@);
    if ms.len() == 0 {
        return None;
    }
    let g = &ms[0];
    assert(gms[0] == g@);
    let sp = g[0].unwrap();
    if sp.1 - sp.0 != 5 {
        return None;
    }
    let mut rep: Vec<char> = Vec::new();
    let mut gi: usize = 1;
    let ghost m0 = m@;
    let mut parts: Vec<Vec<char>> = Vec::new();
    while gi <= 3
        invariant
            1 <= gi <= 4,
            gms[0] == g@,
            crate::scan::matches_wf(gms, m@.len()),
            gms.len() > 0,
            parts@.len() == gi - 1,
            forall|j: int| 0 <= j < parts@.len() ==> (#[trigger] parts@[j])@ == crate::masking::group_text(m@, g@, j + 1),
        decreases 4 - gi,
    {
        let mut piece: Vec<char> = Vec::new();
        if gi < g.len() && g[gi].is_some() {
            let q = g[gi].unwrap();
            assert(gms[0][gi as int] is Some);
            piece = slice_chars(m, q.0, q.1);
        }
        parts.push(piece);
        gi += 1;
    }
    append_chars(&mut rep, &parts[0]);
    append_chars(&mut rep, &parts[1]);
    rep.push(':');
    append_chars(&mut rep, &parts[2]);
    proof {
        reveal_strlit(":");
    }
    assert(rep@ =~= crate::masking::group_text(m@, g@, 1) + crate::masking::group_text(m@, g@, 2) + ":"@
        + crate::masking::group_text(m@, g@, 3));
    let whole_text = slice_chars(m, sp.0, sp.1);
    Some(replace_literal(m, &whole_text, &rep))
}

fn has_sign(m: &Vec<char>) -> (r: bool)
    ensures
        r == (m@.contains('+') || m@.contains('-')),
{
    let mut i: usize = 0;
    while i < m.len()
        invariant
            i <= m@.len(),
            forall|j: int| 0 <= j < i ==> m@[j] != '+' && m@[j] != '-',
        decreases m@.len() - i,
    {
        if m[i] == '+' || m[i] == '-' {
            assert(m@[i as int] == m[i as int]);
            return true;
        }
        i += 1;
    }
    false
}

fn zoned_exec(n: &str) -> (r: Option<(i64, u32)>)
    ensures
        r == zoned_formats(n@),
{
    let a = parse_zoned(n, "%Y-%m-%d %H:%M:%S%.f%z");
    if a.is_some() { return a; }
    let a = parse_zoned(n, "%Y-%m-%d %H:%M:%S%z");
    if a.is_some() { return a; }
    let a = parse_zoned(n, "%Y-%m-%dT%H:%M:%S%.f%z");
    if a.is_some() { return a; }
    let a = parse_zoned(n, "%Y-%m-%dT%H:%M:%S%z");
    if a.is_some() { return a; }
    let a = parse_zoned(n, "%Y-%m-%d %H:%M:%S%.f%:z");
    if a.is_some() { return a; }
    let a = parse_zoned(n, "%Y-%m-%d %H:%M:%S%:z");
    if a.is_some() { return a; }
    let a = parse_zoned(n, "%Y-%m-%dT%H:%M:%S%.f%:z");
    if a.is_some() { return a; }
    parse_zoned(n, "%Y-%m-%dT%H:%M:%S%:z")
}

fn naive_exec(m: &str) -> (r: Option<(i64, u32)>)
    ensures
        r == naive_formats(m@),
{
    let a = parse_naive(m, "%Y-%m-%d %H:%M:%S");
    if a.is_some() { return a; }
    let a = parse_naive(m, "%Y-%m-%d %H:%M:%S%.f");
    if a.is_some() { return a; }
    let a = parse_naive(m, "%Y-%m-%dT%H:%M:%S");
    if a.is_some() { return a; }
    parse_naive(m, "%Y-%m-%dT%H:%M:%S%.f")
}

fn iso_exec(m: &Vec<char>) -> (r: Option<(i64, u32)>)
    ensures
        r == iso_instant(m@),
{
    let ms = string_of(m.as_slice());
    let first = parse_rfc3339(ms.as_str());
    if first.is_some() {
        return first;
    }
    let signed = has_sign(m);
    let mut n = m.clone();
    let mut again: Option<(i64, u32)> = None;
    if signed {
        match colon_offset_exec(m) {
            Some(x) => {
                again = parse_rfc3339(string_of(x.as_slice()).as_str());
                n = x;
            },
            None => {},
        }
    }
    if again.is_some() {
        return again;
    }
    let z = zoned_exec(string_of(n.as_slice()).as_str());
    if z.is_some() {
        return z;
    }
    naive_exec(ms.as_str())
}

fn year_chars(year: i32) -> (r: Vec<char>)
    ensures
        r@ == year_text(year as int),
{
    if year < 0 {
        let mut r: Vec<char> = Vec::new();
        r.push('-');
        let d = decimal_chars((-(year as i64)) as usize);
        append_chars(&mut r, &d);
        proof {
            reveal_strlit("-");
        }
        assert(r@ =~= "-"@ + decimal((-(year as int)) as nat));
        r
    } else {
        decimal_chars(year as usize)
    }
}

/// The first timestamp in `s` (see `stamp_in`), `year` standing for the
/// year of syslog stamps.
pub fn detect_timestamp_in_text_at(s: &str, year: i32) -> (r: Option<Timestamp>)
    ensures
        match r {
            Some(t) => stamp_in(s@, year as int) == Some((t.secs, t.nanos)),
            None => stamp_in(s@, year as int) is None,
        },
{
    let t = chars_of(s);
    let found = match first_span(RE_ISO_ANY, &t) {
        Some(sp) => iso_exec(&slice_chars(&t, sp.0, sp.1)),
        None => None,
    };
    let found = if found.is_some() {
        found
    } else {
        let sys = match first_span(RE_SYSLOG, &t) {
            Some(sp) => {
                let mut cand = year_chars(year);
                cand.push(' ');
                append_chars(&mut cand, &slice_chars(&t, sp.0, sp.1));
                proof {
                    reveal_strlit(" ");
                }
                assert(cand@ =~= year_text(year as int) + " "@ + span_text(t@, sp));
                parse_naive(string_of(cand.as_slice()).as_str(), "%Y %b %d %H:%M:%S")
            },
            None => None,
        };
        if sys.is_some() {
            sys
        } else {
            let e = epoch_exec(&t, RE_EPOCH16, 1_000_000);
            if e.is_some() {
                e
            } else {
                let e = epoch_exec(&t, RE_EPOCH13, 1000);
                if e.is_some() {
                    e
                } else {
                    epoch_exec(&t, RE_EPOCH10, 1)
                }
            }
        }
    };
    match found {
        Some((secs, nanos)) => Some(Timestamp { secs, nanos }),
        None => None,
    }
}

/// The first timestamp in `s`, syslog stamps taken in the current year:
/// what `stamp_in` gives for whichever year the clock showed.
pub fn detect_timestamp_in_text(s: &str) -> (r: Option<Timestamp>)
    ensures
        exists|year: i32| match r {
            Some(t) => stamp_in(s@, year as int) == Some((t.secs, t.nanos)),
            None => stamp_in(s@, year as int) is None,
        },
{
    let year = current_year();
    detect_timestamp_in_text_at(s, year)
}

} // verus!
