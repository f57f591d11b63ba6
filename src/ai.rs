//! The aggregation engine: per template key, the number of lines, the
//! first example lines, minute buckets of its timestamps and counts of its
//! parameter values, plus the overall time span; in one batch or over a
//! stream of chunks, with the same result either way.
use vstd::prelude::*;
use crate::json::{flat_of_line, lemma_sorted_fields_unique, strpairs_view, try_flatten_json};
use crate::param_extractor::{canonical_masked, canonicalize_for_drain, sorted_of};
use crate::param_extractor::{MaskingResult, canonical_params};
use crate::params::{EntryV, ParamMap, all_pairs, entries_view, strings_view};
use crate::patterns::matches_at;
use crate::source::{extract_source, source_of};
use crate::registry::{PatternFindings, analyze_pattern, findings_of, insert_rank, lemma_sort_rank_len, ranks_before, sort_rank};
use crate::order::{less, lt, lemma_lt_irreflexive};
use crate::schema::{SchemaChange, FieldV, added, changes_view, diff_fingerprints, fingerprint_line, fingerprint_pairs, fp_view, paths_unique, removed_or_changed};
use crate::anomaly::{PatternAnomaly, anomalies_spec, anomalies_view, detect_pattern_anomalies, names_view};
use crate::suggestions::{Suggestion, suggest, suggestions_of, sugs_view};
use crate::multiline::{is_json_start, json_start};
use crate::temporal::{add_time, bucketed, buckets_view};
use crate::timestamp::{Timestamp, current_year, detect_timestamp_in_text_at, stamp_in};
use crate::text::{append_chars, chars_eq, chars_of, string_of, to_upper, upper_of};

verus! {

/// `s` holds `p` somewhere.
pub open spec fn holds(s: Seq<char>, p: Seq<char>) -> bool {
    exists|i: int| 0 <= i && i + p.len() <= s.len() && #[trigger] s.subrange(i, i + p.len()) == p
}

fn holds_exec(s: &Vec<char>, p: &Vec<char>) -> (r: bool)
    ensures
        r == holds(s@, p@),
{
    let mut i: usize = 0;
    loop
        invariant
            i <= s@.len(),
            forall|j: int| 0 <= j < i && j + p@.len() <= s@.len() ==> #[trigger] s@.subrange(j, j + p@.len()) != p@,
        decreases s@.len() - i,
    {
        if matches_at(s, i, p) {
            return true;
        }
        if i == s.len() {
            return false;
        }
        i += 1;
    }
}

/// The level a plain-text line names, by the first of these words it holds
/// (after a space, in any case): error, warn, info, debug, trace.
pub open spec fn text_level(t: Seq<char>) -> Option<Seq<char>> {
    let u = upper_of(t);
    if holds(u, " ERROR"@) || holds(u, " ERR "@) {
        Some("ERROR"@)
    } else if holds(u, " WARN"@) || holds(u, " WARNING"@) {
        Some("WARN"@)
    } else if holds(u, " INFO"@) {
        Some("INFO"@)
    } else if holds(u, " DEBUG"@) {
        Some("DEBUG"@)
    } else if holds(u, " TRACE"@) {
        Some("TRACE"@)
    } else {
        None
    }
}

/// The value of the first field named `k`.
pub open spec fn field_value(f: Seq<(Seq<char>, Seq<char>)>, k: Seq<char>) -> Option<Seq<char>>
    decreases f.len(),
{
    if f.len() == 0 {
        None
    } else if f[0].0 == k {
        Some(f[0].1)
    } else {
        field_value(f.drop_first(), k)
    }
}

/// The severity of a line: the `level` field of a JSON object, else the
/// level named in the text.
pub open spec fn level_of(t: Seq<char>) -> Option<Seq<char>> {
    match flat_of_line(t) {
        Some(p) => match field_value(sorted_of(p), "level"@) {
            Some(l) => Some(l),
            None => text_level(t),
        },
        None => text_level(t),
    }
}

/// The template key of a line: its canonical shape, followed by ` [level]`
/// when it has a severity.
pub open spec fn line_key(t: Seq<char>) -> Seq<char> {
    match level_of(t) {
        Some(l) => canonical_masked(t) + " ["@ + l + "]"@,
        None => canonical_masked(t),
    }
}

fn text_level_exec(line: &str) -> (r: Option<Vec<char>>)
    ensures
        match r {
            Some(l) => text_level(line@) == Some(l@),
            None => text_level(line@) is None,
        },
{
    let u = chars_of(to_upper(line).as_str());
    if holds_exec(&u, &chars_of(" ERROR")) || holds_exec(&u, &chars_of(" ERR ")) {
        Some(chars_of("ERROR"))
    } else if holds_exec(&u, &chars_of(" WARN")) || holds_exec(&u, &chars_of(" WARNING")) {
        Some(chars_of("WARN"))
    } else if holds_exec(&u, &chars_of(" INFO")) {
        Some(chars_of("INFO"))
    } else if holds_exec(&u, &chars_of(" DEBUG")) {
        Some(chars_of("DEBUG"))
    } else if holds_exec(&u, &chars_of(" TRACE")) {
        Some(chars_of("TRACE"))
    } else {
        None
    }
}

pub(crate) fn field_value_exec(f: &Vec<(String, String)>, k: &Vec<char>) -> (r: Option<Vec<char>>)
    ensures
        match r {
            Some(v) => field_value(strpairs_view(f@), k@) == Some(v@),
            None => field_value(strpairs_view(f@), k@) is None,
        },
{
    let ghost fv = strpairs_view(f@);
    let mut i: usize = 0;
    assert(fv.subrange(0, fv.len() as int) =~= fv);
    while i < f.len()
        invariant
            fv == strpairs_view(f@),
            i <= f@.len(),
            field_value(fv.subrange(i as int, fv.len() as int), k@) == field_value(fv, k@),
        decreases f@.len() - i,
    {
        let ghost rest = fv.subrange(i as int, fv.len() as int);
        assert(rest[0] == fv[i as int]);
        assert(rest.drop_first() =~= fv.subrange(i + 1, fv.len() as int));
        if chars_eq(&chars_of(f[i].0.as_str()), k) {
            return Some(chars_of(f[i].1.as_str()));
        }
        i += 1;
    }
    None
}

/// The template key of a line (see `line_key`).
pub fn template_key(line: &str) -> (r: String)
    ensures
        r@ == line_key(line@),
{
    let canon = canonicalize_for_drain(line);
    let level = match try_flatten_json(line) {
        Some(fields) => {
            proof {
                let p = flat_of_line(line@)->Some_0;
                lemma_sorted_fields_unique(strpairs_view(fields@), sorted_of(p), p);
            }
            match field_value_exec(&fields, &chars_of("level")) {
                Some(l) => Some(l),
                None => text_level_exec(line),
            }
        },
        None => text_level_exec(line),
    };
    match level {
        Some(l) => {
            let mut k = chars_of(canon.masked_text.as_str());
            append_chars(&mut k, &chars_of(" ["));
            append_chars(&mut k, &l);
            k.push(']');
            proof {
                reveal_strlit("]");
            }
            assert(k@ =~= canonical_masked(line@) + " ["@ + l@ + "]"@);
            string_of(k.as_slice())
        },
        None => canon.masked_text,
    }
}

/// Template keys with their counts, in order of first appearance.
pub type TallyV = Seq<(Seq<char>, nat)>;

/// One more line with key `k`.
pub open spec fn bump(t: TallyV, k: Seq<char>) -> TallyV {
    if exists|i: int| 0 <= i < t.len() && (#[trigger] t[i]).0 == k {
        let i = choose|i: int| 0 <= i < t.len() && (#[trigger] t[i]).0 == k;
        t.update(i, (k, t[i].1 + 1))
    } else {
        t.push((k, 1nat))
    }
}

/// The counts of a sequence of keys.
pub open spec fn tally(keys: Seq<Seq<char>>) -> TallyV
    decreases keys.len(),
{
    if keys.len() == 0 {
        Seq::empty()
    } else {
        bump(tally(keys.drop_last()), keys.last())
    }
}

pub open spec fn tally_wf(t: TallyV, n: nat) -> bool {
    &&& forall|i: int, j: int| 0 <= i < t.len() && 0 <= j < t.len() && (#[trigger] t[i]).0 == (#[trigger] t[j]).0 ==> i == j
    &&& forall|i: int| 0 <= i < t.len() ==> (#[trigger] t[i]).1 <= n
    &&& t.len() <= n
}

proof fn lemma_tally_wf(keys: Seq<Seq<char>>)
    ensures
        tally_wf(tally(keys), keys.len()),
    decreases keys.len(),
{
    if keys.len() > 0 {
        lemma_tally_wf(keys.drop_last());
        let t = tally(keys.drop_last());
        let k = keys.last();
        if exists|i: int| 0 <= i < t.len() && (#[trigger] t[i]).0 == k {
            let i = choose|i: int| 0 <= i < t.len() && (#[trigger] t[i]).0 == k;
            let r = t.update(i, (k, t[i].1 + 1));
            assert forall|a: int, b: int| 0 <= a < r.len() && 0 <= b < r.len() && (#[trigger] r[a]).0 == (#[trigger] r[b]).0 implies a == b by {
                assert(r[a].0 == t[a].0);
                assert(r[b].0 == t[b].0);
            }
        } else {
            let r = t.push((k, 1nat));
            assert forall|a: int, b: int| 0 <= a < r.len() && 0 <= b < r.len() && (#[trigger] r[a]).0 == (#[trigger] r[b]).0 implies a == b by {
                if a < t.len() && b == t.len() {
                    assert(t[a].0 == k);
                }
                if b < t.len() && a == t.len() {
                    assert(t[b].0 == k);
                }
            }
        }
    }
}

/// A parameter type and one of its values.
pub type PV = (Seq<char>, Seq<char>);

/// Counts of `(type, value)` pairs, in order of first appearance.
pub type HistV = Seq<(PV, nat)>;

/// One more occurrence of `x` (counts stop at the largest `usize`).
pub open spec fn bump2(h: HistV, x: PV) -> HistV {
    if exists|i: int| 0 <= i < h.len() && (#[trigger] h[i]).0 == x {
        let i = choose|i: int| 0 <= i < h.len() && (#[trigger] h[i]).0 == x;
        h.update(i, (x, if h[i].1 >= usize::MAX { h[i].1 } else { h[i].1 + 1 }))
    } else {
        h.push((x, 1nat))
    }
}

pub open spec fn tally2_from(h: HistV, xs: Seq<PV>) -> HistV
    decreases xs.len(),
{
    if xs.len() == 0 {
        h
    } else {
        bump2(tally2_from(h, xs.drop_last()), xs.last())
    }
}

/// The parameter pairs of the lines whose template key is `k`, in order.
pub open spec fn pairs_for(lines: Seq<Seq<char>>, k: Seq<char>) -> Seq<PV>
    decreases lines.len(),
{
    if lines.len() == 0 {
        Seq::empty()
    } else {
        pairs_for(lines.drop_last(), k) + if line_key(lines.last()) == k {
            all_pairs(canonical_params(lines.last()))
        } else {
            Seq::empty()
        }
    }
}

pub type Instant = (i64, u32);

pub open spec fn earlier(a: Instant, b: Instant) -> bool {
    a.0 < b.0 || (a.0 == b.0 && a.1 < b.1)
}

/// The earliest and latest timestamp found in `lines` (syslog stamps taken
/// in `year`), if any line has one.
pub open spec fn span_of(lines: Seq<Seq<char>>, year: int) -> Option<(Instant, Instant)>
    decreases lines.len(),
{
    if lines.len() == 0 {
        None
    } else {
        let prev = span_of(lines.drop_last(), year);
        match stamp_in(lines.last(), year) {
            None => prev,
            Some(t) => match prev {
                None => Some((t, t)),
                Some((lo, hi)) => Some((if earlier(t, lo) { t } else { lo }, if earlier(hi, t) { t } else { hi })),
            },
        }
    }
}

pub open spec fn opt_span(lo: Option<Timestamp>, hi: Option<Timestamp>) -> Option<(Instant, Instant)> {
    match (lo, hi) {
        (Some(a), Some(b)) => Some(((a.secs, a.nanos), (b.secs, b.nanos))),
        _ => None,
    }
}

/// The sorted fields of a structured line, if it is one.
pub open spec fn fields_of(t: Seq<char>) -> Option<Seq<(Seq<char>, Seq<char>)>> {
    match flat_of_line(t) {
        Some(p) => Some(sorted_of(p)),
        None => None,
    }
}

/// The service a line names, if any.
pub open spec fn service_of(t: Seq<char>) -> Option<Seq<char>> {
    source_of(fields_of(t), t).0
}

/// The host a line names, if any.
pub open spec fn host_of(t: Seq<char>) -> Option<Seq<char>> {
    source_of(fields_of(t), t).1
}

/// The services (`host` false) or hosts (`host` true) named by the lines
/// whose template key is `k`, in order.
pub open spec fn sources_for(lines: Seq<Seq<char>>, k: Seq<char>, host: bool) -> Seq<Seq<char>>
    decreases lines.len(),
{
    if lines.len() == 0 {
        Seq::empty()
    } else {
        let prev = sources_for(lines.drop_last(), k, host);
        let src = if host { host_of(lines.last()) } else { service_of(lines.last()) };
        match src {
            Some(v) => if line_key(lines.last()) == k { prev.push(v) } else { prev },
            None => prev,
        }
    }
}

proof fn lemma_sources_len(lines: Seq<Seq<char>>, k: Seq<char>, host: bool)
    ensures
        sources_for(lines, k, host).len() <= lines.len(),
    decreases lines.len(),
{
    if lines.len() > 0 {
        lemma_sources_len(lines.drop_last(), k, host);
    }
}

proof fn lemma_sources_absent(lines: Seq<Seq<char>>, k: Seq<char>, host: bool)
    requires
        forall|q: int| 0 <= q < lines.len() ==> line_key(#[trigger] lines[q]) != k,
    ensures
        sources_for(lines, k, host) == Seq::<Seq<char>>::empty(),
    decreases lines.len(),
{
    if lines.len() > 0 {
        let d = lines.drop_last();
        assert forall|q: int| 0 <= q < d.len() implies line_key(#[trigger] d[q]) != k by {
            assert(d[q] == lines[q]);
        }
        lemma_sources_absent(d, k, host);
        assert(line_key(lines[lines.len() - 1]) != k);
    }
}

/// The service and host of a line (see `service_of`, `host_of`).
fn derive_source(line: &str) -> (r: (Option<String>, Option<String>))
    ensures
        match r.0 {
            Some(v) => service_of(line@) == Some(v@),
            None => service_of(line@) is None,
        },
        match r.1 {
            Some(v) => host_of(line@) == Some(v@),
            None => host_of(line@) is None,
        },
{
    match try_flatten_json(line) {
        Some(fields) => {
            proof {
                let p = flat_of_line(line@)->Some_0;
                lemma_sorted_fields_unique(strpairs_view(fields@), sorted_of(p), p);
            }
            extract_source(Some(&fields), line)
        },
        None => extract_source(None, line),
    }
}

/// One more occurrence of `k` in a tally of strings.
fn bump_exec(t: &mut Vec<(String, usize)>, k: String, keys: Ghost<Seq<Seq<char>>>)
    requires
        patterns_tally(old(t)@) == tally(keys@),
        keys@.len() < usize::MAX,
    ensures
        patterns_tally(final(t)@) == tally(keys@.push(k@)),
{
    proof {
        lemma_tally_wf(keys@);
    }
    let ghost t0 = tally(keys@);
    let ghost nk = keys@.push(k@);
    assert(nk.drop_last() =~= keys@);
    let kc = chars_of(k.as_str());
    let mut i: usize = 0;
    let mut found = false;
    while i < t.len() && !found
        invariant
            i <= t@.len(),
            t0 == patterns_tally(t@),
            kc@ == k@,
            found ==> i < t@.len() && t0[i as int].0 == k@,
            forall|j: int| 0 <= j < i ==> (#[trigger] t0[j]).0 != k@,
        decreases t@.len() - i, if found { 0int } else { 1int },
    {
        assert(t0[i as int].0 == t@[i as int].0@);
        if chars_eq(&chars_of(t[i].0.as_str()), &kc) {
            found = true;
        } else {
            i += 1;
        }
    }
    if found {
        let ghost ci = choose|j: int| 0 <= j < t0.len() && (#[trigger] t0[j]).0 == k@;
        assert(t0[ci].0 == k@);
        assert(ci == i);
        let (name, c) = t.remove(i);
        assert(c <= keys@.len());
        t.insert(i, (name, c + 1));
        assert(patterns_tally(t@) =~= t0.update(i as int, (k@, t0[i as int].1 + 1)));
    } else {
        t.push((k, 1));
        assert(patterns_tally(t@) =~= t0.push((k@, 1nat)));
    }
}

/// A line that starts like JSON (`{` or `[` after white space) but does not
/// hold a JSON object; it is still canonicalized as plain text and counted.
pub open spec fn malformed(t: Seq<char>) -> bool {
    json_start(t) && flat_of_line(t) is None
}

/// The positions (from 1) of the malformed lines.
pub open spec fn malformed_lines(lines: Seq<Seq<char>>) -> Seq<nat>
    decreases lines.len(),
{
    if lines.len() == 0 {
        Seq::empty()
    } else {
        let prev = malformed_lines(lines.drop_last());
        if malformed(lines.last()) { prev.push(lines.len()) } else { prev }
    }
}

proof fn lemma_malformed_len(lines: Seq<Seq<char>>)
    ensures
        malformed_lines(lines).len() <= lines.len(),
    decreases lines.len(),
{
    if lines.len() > 0 {
        lemma_malformed_len(lines.drop_last());
    }
}

fn track_error(samples: &mut Vec<usize>, pos: usize, line: &String, s0: Ghost<Seq<Seq<char>>>)
    requires
        positions_view(old(samples)@) == first_n(malformed_lines(s0@), MAX_ERROR_SAMPLES as nat),
        pos == s0@.len() + 1,
    ensures
        positions_view(final(samples)@) == first_n(malformed_lines(s0@.push(line@)), MAX_ERROR_SAMPLES as nat),
{
    let ghost ns = s0@.push(line@);
    let ghost ml0 = malformed_lines(s0@);
    assert(ns.drop_last() =~= s0@);
    assert(ns.last() == line@);
    proof {
        lemma_malformed_len(s0@);
    }
    let bad = is_json_start(&chars_of(line.as_str())) && try_flatten_json(line.as_str()).is_none();
    if bad {
        assert(malformed_lines(ns) == ml0.push(ns.len()));
        if samples.len() < MAX_ERROR_SAMPLES {
            let ghost e0 = positions_view(samples@);
            samples.push(pos);
            assert(positions_view(samples@) =~= e0.push(pos as nat));
            assert(first_n(ml0.push(ns.len()), MAX_ERROR_SAMPLES as nat) =~= ml0.push(pos as nat));
        } else {
            assert(first_n(ml0.push(ns.len()), MAX_ERROR_SAMPLES as nat) =~= first_n(ml0, MAX_ERROR_SAMPLES as nat));
        }
    } else {
        assert(malformed_lines(ns) == ml0);
    }
}

fn pattern_analysis(patterns: &Vec<PatternOut>, total: usize, baseline: &Vec<String>) -> (r: (Vec<PatternAnomaly>, Vec<Suggestion>))
    ensures
        anomalies_view(r.0@) == anomalies_spec(patterns_view(patterns@), total as nat, names_view(baseline@), RARE_NUM as nat, RARE_DEN as nat),
        sugs_view(r.1@) == suggestions_of(patterns@, anomalies_view(r.0@)),
{
    let mut counts: Vec<(String, usize)> = Vec::new();
    let mut i: usize = 0;
    while i < patterns.len()
        invariant
            i <= patterns@.len(),
            crate::anomaly::counts_view(counts@) == patterns_view(patterns@).subrange(0, i as int),
        decreases patterns@.len() - i,
    {
        let t = patterns[i].template.clone();
        let ghost b = crate::anomaly::counts_view(counts@);
        counts.push((t, patterns[i].total_count));
        assert(crate::anomaly::counts_view(counts@) =~= b.push((patterns@[i as int].template@, patterns@[i as int].total_count as nat)));
        assert(patterns_view(patterns@).subrange(0, i + 1) =~= patterns_view(patterns@).subrange(0, i as int).push((patterns@[i as int].template@, patterns@[i as int].total_count as nat)));
        i += 1;
    }
    assert(patterns_view(patterns@).subrange(0, patterns@.len() as int) =~= patterns_view(patterns@));
    let anomalies = detect_pattern_anomalies(&counts, total, baseline, RARE_NUM, RARE_DEN);
    let suggestions = suggest(patterns, &anomalies);
    (anomalies, suggestions)
}

/// The findings of every analyzer for each pattern, in order.
fn analyze_all(patterns: &Vec<PatternOut>) -> (r: Vec<PatternFindings>)
    ensures
        r@.len() == patterns@.len(),
        forall|j: int| 0 <= j < r@.len() ==> findings_of(#[trigger] r@[j], patterns@[j]),
{
    let mut findings: Vec<PatternFindings> = Vec::new();
    let mut k: usize = 0;
    while k < patterns.len()
        invariant
            k <= patterns@.len(),
            findings@.len() == k,
            forall|j: int| 0 <= j < k ==> findings_of(#[trigger] findings@[j], patterns@[j]),
        decreases patterns@.len() - k,
    {
        findings.push(analyze_pattern(&patterns[k]));
        k += 1;
    }
    findings
}

fn errors_out(positions: &Vec<usize>, total: usize) -> (r: ErrorsOut)
    ensures
        r.total == total,
        samples_view(r.samples@) == positions_view(positions@),
        forall|i: int| 0 <= i < r.samples@.len() ==> (#[trigger] r.samples@[i]).kind == ErrorKind::MalformedJson,
{
    let mut samples: Vec<ErrorSample> = Vec::new();
    let mut e: usize = 0;
    while e < positions.len()
        invariant
            e <= positions@.len(),
            samples_view(samples@) == positions_view(positions@).subrange(0, e as int),
            forall|i: int| 0 <= i < samples@.len() ==> (#[trigger] samples@[i]).kind == ErrorKind::MalformedJson,
        decreases positions@.len() - e,
    {
        let ghost b = samples_view(samples@);
        samples.push(ErrorSample { line_number: positions[e], kind: ErrorKind::MalformedJson });
        assert(samples_view(samples@) =~= b.push(positions@[e as int] as nat));
        assert(positions_view(positions@).subrange(0, e + 1) =~= positions_view(positions@).subrange(0, e as int).push(positions@[e as int] as nat));
        e += 1;
    }
    assert(positions_view(positions@).subrange(0, positions@.len() as int) =~= positions_view(positions@));
    ErrorsOut { total, samples }
}

/// The fingerprint of a structured line: its field paths with value types.
pub open spec fn fp_of(t: Seq<char>) -> Option<Seq<FieldV>> {
    match fingerprint_pairs(t) {
        Ok(p) => Some(sorted_of(p)),
        Err(_) => None,
    }
}

/// The fingerprint of the first structured line.
pub open spec fn first_fp(lines: Seq<Seq<char>>) -> Option<Seq<FieldV>>
    decreases lines.len(),
{
    if lines.len() == 0 {
        None
    } else {
        match first_fp(lines.drop_last()) {
            Some(f) => Some(f),
            None => fp_of(lines.last()),
        }
    }
}

/// The fingerprint of the latest structured line.
pub open spec fn last_fp(lines: Seq<Seq<char>>) -> Option<Seq<FieldV>>
    decreases lines.len(),
{
    if lines.len() == 0 {
        None
    } else {
        match fp_of(lines.last()) {
            Some(f) => Some(f),
            None => last_fp(lines.drop_last()),
        }
    }
}

/// The schema changes from the first structured line to the latest one.
pub open spec fn schema_changes_of(lines: Seq<Seq<char>>) -> Seq<crate::schema::ChangeV> {
    match (first_fp(lines), last_fp(lines)) {
        (Some(a), Some(b)) => removed_or_changed(a, b) + added(a, b),
        _ => Seq::empty(),
    }
}

pub open spec fn opt_fp(o: Option<Vec<(String, String)>>) -> Option<Seq<FieldV>> {
    match o {
        Some(v) => Some(fp_view(v@)),
        None => None,
    }
}

fn copy_pairs(v: &Vec<(String, String)>) -> (r: Vec<(String, String)>)
    ensures
        fp_view(r@) == fp_view(v@),
{
    let mut r: Vec<(String, String)> = Vec::new();
    let mut i: usize = 0;
    while i < v.len()
        invariant
            i <= v@.len(),
            fp_view(r@) == fp_view(v@).subrange(0, i as int),
        decreases v@.len() - i,
    {
        let a = v[i].0.clone();
        let b = v[i].1.clone();
        let ghost before = fp_view(r@);
        r.push((a, b));
        assert(fp_view(r@) =~= before.push((a@, b@)));
        assert(fp_view(v@).subrange(0, i + 1) =~= fp_view(v@).subrange(0, i as int).push((a@, b@)));
        i += 1;
    }
    assert(fp_view(v@).subrange(0, v@.len() as int) =~= fp_view(v@));
    r
}

fn track_schema(first: &mut Option<Vec<(String, String)>>, last: &mut Option<Vec<(String, String)>>, line: &String, s0: Ghost<Seq<Seq<char>>>)
    requires
        opt_fp(*old(first)) == first_fp(s0@),
        opt_fp(*old(last)) == last_fp(s0@),
        match *old(first) { Some(v) => paths_unique(fp_view(v@)), None => true },
        match *old(last) { Some(v) => paths_unique(fp_view(v@)), None => true },
    ensures
        opt_fp(*final(first)) == first_fp(s0@.push(line@)),
        opt_fp(*final(last)) == last_fp(s0@.push(line@)),
        match *final(first) { Some(v) => paths_unique(fp_view(v@)), None => true },
        match *final(last) { Some(v) => paths_unique(fp_view(v@)), None => true },
{
    let ghost ns = s0@.push(line@);
    assert(ns.drop_last() =~= s0@);
    assert(ns.last() == line@);
    match fingerprint_line(line.as_str()) {
        Ok(v) => {
            proof {
                let p = fingerprint_pairs(line@)->Ok_0;
                lemma_sorted_fields_unique(strpairs_view(v@), sorted_of(p), p);
                assert(fp_view(v@) =~= strpairs_view(v@));
                assert forall|i: int, j: int| 0 <= i < j < fp_view(v@).len() implies fp_view(v@)[i].0 != fp_view(v@)[j].0 by {
                    assert(lt(strpairs_view(v@)[i].0, strpairs_view(v@)[j].0));
                    lemma_lt_irreflexive(fp_view(v@)[i].0);
                }
            }
            if first.is_none() {
                *first = Some(copy_pairs(&v));
            }
            *last = Some(v);
        },
        Err(_) => {},
    }
}

/// How many error samples are kept.
pub const MAX_ERROR_SAMPLES: usize = 10;

/// The first `n` entries.
pub open spec fn first_n(s: Seq<nat>, n: nat) -> Seq<nat> {
    if s.len() <= n { s } else { s.take(n as int) }
}

pub open spec fn positions_view(v: Seq<usize>) -> Seq<nat> {
    v.map_values(|x: usize| x as nat)
}

/// The width of the time buckets of a template, in seconds.
pub const BUCKET_SECS: i64 = 60;

/// The timestamps (seconds) of the lines whose template key is `k`.
pub open spec fn times_for(lines: Seq<Seq<char>>, k: Seq<char>, year: int) -> Seq<i64>
    decreases lines.len(),
{
    if lines.len() == 0 {
        Seq::empty()
    } else {
        let prev = times_for(lines.drop_last(), k, year);
        match stamp_in(lines.last(), year) {
            Some(t) => if line_key(lines.last()) == k { prev.push(t.0) } else { prev },
            None => prev,
        }
    }
}

proof fn lemma_times_len(lines: Seq<Seq<char>>, k: Seq<char>, year: int)
    ensures
        times_for(lines, k, year).len() <= lines.len(),
    decreases lines.len(),
{
    if lines.len() > 0 {
        lemma_times_len(lines.drop_last(), k, year);
    }
}

proof fn lemma_times_absent(lines: Seq<Seq<char>>, k: Seq<char>, year: int)
    requires
        forall|q: int| 0 <= q < lines.len() ==> line_key(#[trigger] lines[q]) != k,
    ensures
        times_for(lines, k, year) == Seq::<i64>::empty(),
    decreases lines.len(),
{
    if lines.len() > 0 {
        let d = lines.drop_last();
        assert forall|q: int| 0 <= q < d.len() implies line_key(#[trigger] d[q]) != k by {
            assert(d[q] == lines[q]);
        }
        lemma_times_absent(d, k, year);
        assert(line_key(lines[lines.len() - 1]) != k);
    }
}

/// How many example lines a template keeps.
pub const MAX_EXAMPLES: usize = 3;

/// The first `MAX_EXAMPLES` lines whose template key is `k`.
pub open spec fn examples_of(lines: Seq<Seq<char>>, k: Seq<char>) -> Seq<Seq<char>>
    decreases lines.len(),
{
    if lines.len() == 0 {
        Seq::empty()
    } else {
        let prev = examples_of(lines.drop_last(), k);
        if line_key(lines.last()) == k && prev.len() < MAX_EXAMPLES {
            prev.push(lines.last())
        } else {
            prev
        }
    }
}

/// The parameter histogram of template `k` over `lines`.
pub open spec fn hist_of(lines: Seq<Seq<char>>, k: Seq<char>) -> HistV {
    tally2_from(Seq::empty(), pairs_for(lines, k))
}

pub open spec fn hist_unique(h: HistV) -> bool {
    forall|i: int, j: int| 0 <= i < h.len() && 0 <= j < h.len() && (#[trigger] h[i]).0 == (#[trigger] h[j]).0 ==> i == j
}

proof fn lemma_bump2_unique(h: HistV, x: PV)
    requires
        hist_unique(h),
    ensures
        hist_unique(bump2(h, x)),
{
    let r = bump2(h, x);
    if exists|i: int| 0 <= i < h.len() && (#[trigger] h[i]).0 == x {
        let i = choose|i: int| 0 <= i < h.len() && (#[trigger] h[i]).0 == x;
        assert forall|a: int, b: int| 0 <= a < r.len() && 0 <= b < r.len() && (#[trigger] r[a]).0 == (#[trigger] r[b]).0 implies a == b by {
            assert(r[a].0 == h[a].0);
            assert(r[b].0 == h[b].0);
        }
    } else {
        assert forall|a: int, b: int| 0 <= a < r.len() && 0 <= b < r.len() && (#[trigger] r[a]).0 == (#[trigger] r[b]).0 implies a == b by {
            if a < h.len() && b == h.len() {
                assert(h[a].0 == x);
            }
            if b < h.len() && a == h.len() {
                assert(h[b].0 == x);
            }
        }
    }
}

proof fn lemma_tally2_append(h: HistV, a: Seq<PV>, b: Seq<PV>)
    ensures
        tally2_from(h, a + b) == tally2_from(tally2_from(h, a), b),
    decreases b.len(),
{
    if b.len() == 0 {
        assert(a + b =~= a);
    } else {
        lemma_tally2_append(h, a, b.drop_last());
        assert((a + b).drop_last() =~= a + b.drop_last());
    }
}

pub open spec fn hist_view(v: Seq<(String, String, usize)>) -> HistV {
    v.map_values(|e: (String, String, usize)| ((e.0@, e.1@), e.2 as nat))
}

fn bump2_exec(h: &mut Vec<(String, String, usize)>, p: &Vec<char>, v: &Vec<char>)
    requires
        hist_unique(hist_view(old(h)@)),
    ensures
        hist_view(final(h)@) == bump2(hist_view(old(h)@), (p@, v@)),
        hist_unique(hist_view(final(h)@)),
{
    let ghost h0 = hist_view(h@);
    let ghost x = (p@, v@);
    proof {
        lemma_bump2_unique(h0, x);
    }
    let mut i: usize = 0;
    let mut found = false;
    while i < h.len() && !found
        invariant
            h0 == hist_view(h@),
            x == (p@, v@),
            i <= h@.len(),
            found ==> i < h@.len() && h0[i as int].0 == x,
            forall|j: int| 0 <= j < i ==> (#[trigger] h0[j]).0 != x,
        decreases h@.len() - i, if found { 0int } else { 1int },
    {
        assert(h0[i as int] == ((h@[i as int].0@, h@[i as int].1@), h@[i as int].2 as nat));
        let e = &h[i];
        let ac = chars_of(e.0.as_str());
        let bc = chars_of(e.1.as_str());
        assert(ac@ == h@[i as int].0@ && bc@ == h@[i as int].1@);
        let ea = chars_eq(&ac, p);
        let eb = chars_eq(&bc, v);
        if ea && eb {
            assert(h0[i as int].0 == x);
            found = true;
        } else {
            assert(h0[i as int].0.0 != x.0 || h0[i as int].0.1 != x.1);
            i += 1;
        }
    }
    if found {
        let ghost ci = choose|j: int| 0 <= j < h0.len() && (#[trigger] h0[j]).0 == x;
        assert(h0[ci].0 == x);
        assert(ci == i);
        let (a, b, c) = h.remove(i);
        let nc = if c == usize::MAX { c } else { c + 1 };
        h.insert(i, (a, b, nc));
        assert(hist_view(h@) =~= h0.update(i as int, (x, if h0[i as int].1 >= usize::MAX { h0[i as int].1 } else { h0[i as int].1 + 1 })));
    } else {
        h.push((string_of(p.as_slice()), string_of(v.as_slice()), 1));
        assert(hist_view(h@) =~= h0.push((x, 1nat)));
    }
}

/// Adds every `(type, value)` pair of a parameter map to a histogram.
fn add_params(h: &mut Vec<(String, String, usize)>, m: &ParamMap)
    requires
        hist_unique(hist_view(old(h)@)),
    ensures
        hist_unique(hist_view(final(h)@)),
        hist_view(final(h)@) == tally2_from(hist_view(old(h)@), all_pairs(m@)),
{
    let es = m.entries();
    let ghost ev = entries_view(es@);
    let ghost h0 = hist_view(h@);
    let mut i: usize = 0;
    assert(ev.subrange(0, 0) =~= Seq::<EntryV>::empty());
    assert(all_pairs(ev.subrange(0, 0)) =~= Seq::<PV>::empty());
    while i < es.len()
        invariant
            ev == entries_view(es@),
            ev == m@,
            i <= es@.len(),
            hist_unique(hist_view(h@)),
            hist_view(h@) == tally2_from(h0, all_pairs(ev.subrange(0, i as int))),
        decreases es@.len() - i,
    {
        let key = chars_of(es[i].0.as_str());
        let vals = &es[i].1;
        let ghost e = ev[i as int];
        assert(e == (key@, strings_view(vals@)));
        let ghost base = all_pairs(ev.subrange(0, i as int));
        let ghost more = e.1.map_values(|v: Seq<char>| (e.0, v));
        let mut j: usize = 0;
        assert(base + more.subrange(0, 0) =~= base);
        while j < vals.len()
            invariant
                i < es@.len(),
                e == (key@, strings_view(vals@)),
                more == e.1.map_values(|v: Seq<char>| (e.0, v)),
                j <= vals@.len(),
                hist_unique(hist_view(h@)),
                hist_view(h@) == tally2_from(h0, base + more.subrange(0, j as int)),
            decreases vals@.len() - j,
        {
            let v = chars_of(vals[j].as_str());
            bump2_exec(h, &key, &v);
            let ghost np = base + more.subrange(0, j + 1);
            assert(np.drop_last() =~= base + more.subrange(0, j as int));
            assert(np.last() == (key@, v@));
            j += 1;
        }
        let ghost sub = ev.subrange(0, i + 1);
        assert(sub.drop_last() =~= ev.subrange(0, i as int));
        assert(sub.last() == e);
        assert(more.subrange(0, vals@.len() as int) =~= more);
        assert(all_pairs(sub) == base + more);
        i += 1;
    }
    assert(ev.subrange(0, es@.len() as int) =~= ev);
}

fn copy_tally(v: &Vec<(String, usize)>) -> (r: Vec<(String, usize)>)
    ensures
        patterns_tally(r@) == patterns_tally(v@),
{
    let mut r: Vec<(String, usize)> = Vec::new();
    let mut i: usize = 0;
    while i < v.len()
        invariant
            i <= v@.len(),
            patterns_tally(r@) == patterns_tally(v@).subrange(0, i as int),
        decreases v@.len() - i,
    {
        let a = v[i].0.clone();
        let c = v[i].1;
        let ghost before = patterns_tally(r@);
        r.push((a, c));
        assert(patterns_tally(r@) =~= before.push((a@, c as nat)));
        assert(patterns_tally(v@).subrange(0, i + 1) =~= patterns_tally(v@).subrange(0, i as int).push((a@, c as nat)));
        i += 1;
    }
    assert(patterns_tally(v@).subrange(0, v@.len() as int) =~= patterns_tally(v@));
    r
}

fn copy_buckets(v: &Vec<(i128, usize)>) -> (r: Vec<(i128, usize)>)
    ensures
        r@ == v@,
{
    let mut r: Vec<(i128, usize)> = Vec::new();
    let mut i: usize = 0;
    while i < v.len()
        invariant
            i <= v@.len(),
            r@ == v@.subrange(0, i as int),
        decreases v@.len() - i,
    {
        r.push(v[i]);
        assert(r@ =~= v@.subrange(0, i + 1));
        i += 1;
    }
    assert(v@.subrange(0, v@.len() as int) =~= v@);
    r
}

fn copy_texts(v: &Vec<String>) -> (r: Vec<String>)
    ensures
        texts(r@) == texts(v@),
{
    let mut r: Vec<String> = Vec::new();
    let mut i: usize = 0;
    while i < v.len()
        invariant
            i <= v@.len(),
            texts(r@) == texts(v@).subrange(0, i as int),
        decreases v@.len() - i,
    {
        let a = v[i].clone();
        let ghost before = texts(r@);
        r.push(a);
        assert(texts(r@) =~= before.push(a@));
        assert(texts(v@).subrange(0, i + 1) =~= texts(v@).subrange(0, i as int).push(a@));
        i += 1;
    }
    assert(texts(v@).subrange(0, v@.len() as int) =~= texts(v@));
    r
}

fn copy_hist(h: &Vec<(String, String, usize)>) -> (r: Vec<(String, String, usize)>)
    ensures
        hist_view(r@) == hist_view(h@),
{
    let mut r: Vec<(String, String, usize)> = Vec::new();
    let mut i: usize = 0;
    while i < h.len()
        invariant
            i <= h@.len(),
            hist_view(r@) == hist_view(h@).subrange(0, i as int),
        decreases h@.len() - i,
    {
        let a = h[i].0.clone();
        let b = h[i].1.clone();
        let c = h[i].2;
        let ghost before = hist_view(r@);
        r.push((a, b, c));
        assert(hist_view(r@) =~= before.push(((a@, b@), c as nat)));
        assert(hist_view(h@).subrange(0, i + 1) =~= hist_view(h@).subrange(0, i as int).push(((a@, b@), c as nat)));
        i += 1;
    }
    assert(hist_view(h@).subrange(0, h@.len() as int) =~= hist_view(h@));
    r
}

proof fn lemma_tally_covers(keys: Seq<Seq<char>>, k: Seq<char>)
    requires
        keys.contains(k),
    ensures
        exists|i: int| 0 <= i < tally(keys).len() && (#[trigger] tally(keys)[i]).0 == k,
    decreases keys.len(),
{
    let d = keys.drop_last();
    let t = tally(d);
    let r = tally(keys);
    if keys.last() == k {
        if exists|i: int| 0 <= i < t.len() && (#[trigger] t[i]).0 == k {
            let i = choose|i: int| 0 <= i < t.len() && (#[trigger] t[i]).0 == k;
            assert(r[i].0 == k);
        } else {
            assert(r[t.len() as int].0 == k);
        }
    } else {
        let w = choose|w: int| 0 <= w < keys.len() && keys[w] == k;
        assert(d[w] == k);
        assert(d.contains(k));
        lemma_tally_covers(d, k);
        let i = choose|i: int| 0 <= i < t.len() && (#[trigger] t[i]).0 == k;
        assert(r[i].0 == k);
    }
}

proof fn lemma_examples_absent(lines: Seq<Seq<char>>, k: Seq<char>)
    requires
        forall|q: int| 0 <= q < lines.len() ==> line_key(#[trigger] lines[q]) != k,
    ensures
        examples_of(lines, k) == Seq::<Seq<char>>::empty(),
    decreases lines.len(),
{
    if lines.len() > 0 {
        let d = lines.drop_last();
        assert forall|q: int| 0 <= q < d.len() implies line_key(#[trigger] d[q]) != k by {
            assert(d[q] == lines[q]);
        }
        lemma_examples_absent(d, k);
        assert(line_key(lines[lines.len() - 1]) != k);
    }
}

proof fn lemma_pairs_absent(lines: Seq<Seq<char>>, k: Seq<char>)
    requires
        forall|q: int| 0 <= q < lines.len() ==> line_key(#[trigger] lines[q]) != k,
    ensures
        pairs_for(lines, k) == Seq::<PV>::empty(),
    decreases lines.len(),
{
    if lines.len() > 0 {
        let d = lines.drop_last();
        assert forall|q: int| 0 <= q < d.len() implies line_key(#[trigger] d[q]) != k by {
            assert(d[q] == lines[q]);
        }
        lemma_pairs_absent(d, k);
        assert(line_key(lines[lines.len() - 1]) != k);
        assert(Seq::<PV>::empty() + Seq::<PV>::empty() =~= Seq::<PV>::empty());
    }
}

/// The pattern of a template key: its number of lines and the counts of
/// its parameter values.
#[derive(Debug)]
pub struct PatternOut {
    pub template: String,
    pub total_count: usize,
    pub examples: Vec<String>,
    pub params: Vec<(String, String, usize)>,
    pub minute_buckets: Vec<(i128, usize)>,
    pub services: Vec<(String, usize)>,
    pub hosts: Vec<(String, usize)>,
}

/// What was wrong with a line.
#[derive(Debug, Clone, Copy, PartialEq, Eq, Structural)]
pub enum ErrorKind {
    MalformedJson,
}

/// A line that could not be read as it looked, by its position (from 1).
#[derive(Debug, Clone, Copy, PartialEq, Eq, Structural)]
pub struct ErrorSample {
    pub line_number: usize,
    pub kind: ErrorKind,
}

/// How many lines could not be read as they looked, with the first few.
#[derive(Debug)]
pub struct ErrorsOut {
    pub total: usize,
    pub samples: Vec<ErrorSample>,
}

pub open spec fn samples_view(v: Seq<ErrorSample>) -> Seq<nat> {
    v.map_values(|e: ErrorSample| e.line_number as nat)
}

/// Totals of one summary, and the earliest and latest timestamp seen.
#[derive(Debug)]
pub struct Summary {
    pub total_lines: usize,
    pub unique_patterns: usize,
    pub start: Option<Timestamp>,
    pub end: Option<Timestamp>,
}

/// The outcome of a summary: totals and one pattern per template key, in
/// order of first appearance.
#[derive(Debug)]
pub struct AiOutput {
    pub summary: Summary,
    pub patterns: Vec<PatternOut>,
    pub findings: Vec<PatternFindings>,
    pub errors: ErrorsOut,
    pub schema_changes: Vec<SchemaChange>,
    pub anomalies: Vec<PatternAnomaly>,
    pub suggestions: Vec<Suggestion>,
}

/// The share below which a template is rare: one in ten lines.
pub const RARE_NUM: u64 = 1;
pub const RARE_DEN: u64 = 10;

/// The new and rare templates (against `baseline`) and the suggested queries.
pub open spec fn analysis_matches(o: AiOutput, baseline: Seq<Seq<char>>) -> bool {
    &&& anomalies_view(o.anomalies@) == anomalies_spec(patterns_view(o.patterns@), o.summary.total_lines as nat, baseline, RARE_NUM as nat, RARE_DEN as nat)
    &&& sugs_view(o.suggestions@) == suggestions_of(o.patterns@, anomalies_view(o.anomalies@))
}

pub open spec fn patterns_view(v: Seq<PatternOut>) -> TallyV {
    v.map_values(|p: PatternOut| (p.template@, p.total_count as nat))
}

/// The template keys of lines.
pub open spec fn line_keys_of(lines: Seq<Seq<char>>) -> Seq<Seq<char>> {
    lines.map_values(|l: Seq<char>| line_key(l))
}

/// The aggregate of one template over `lines`: the examples, parameter
/// histogram, minute buckets and source tallies of its lines.
pub open spec fn pattern_ok(p: PatternOut, lines: Seq<Seq<char>>, year: int) -> bool {
    &&& hist_view(p.params@) == hist_of(lines, p.template@)
    &&& texts(p.examples@) == examples_of(lines, p.template@)
    &&& bucketed(buckets_view(p.minute_buckets@), times_for(lines, p.template@, year), BUCKET_SECS as int)
    &&& patterns_tally(p.services@) == tally(sources_for(lines, p.template@, false))
    &&& patterns_tally(p.hosts@) == tally(sources_for(lines, p.template@, true))
}

/// The output for `lines` (syslog stamps taken in `year`): totals, time
/// span, one pattern per template key ordered by count descending then
/// template ascending, each with its aggregate and the findings of every
/// analyzer.
pub open spec fn output_matches(o: AiOutput, lines: Seq<Seq<char>>, year: int) -> bool {
    &&& o.summary.total_lines == lines.len()
    &&& opt_span(o.summary.start, o.summary.end) == span_of(lines, year)
    &&& (o.summary.start is Some <==> o.summary.end is Some)
    &&& o.summary.unique_patterns == tally(line_keys_of(lines)).len()
    &&& patterns_view(o.patterns@) == sort_rank(tally(line_keys_of(lines)))
    &&& forall|i: int| 0 <= i < o.patterns@.len() ==> pattern_ok(#[trigger] o.patterns@[i], lines, year)
    &&& o.findings@.len() == o.patterns@.len()
    &&& forall|i: int| 0 <= i < o.findings@.len() ==> findings_of(#[trigger] o.findings@[i], o.patterns@[i])
    &&& changes_view(o.schema_changes@) == schema_changes_of(lines)
    &&& o.errors.total == first_n(malformed_lines(lines), MAX_ERROR_SAMPLES as nat).len()
    &&& samples_view(o.errors.samples@) == first_n(malformed_lines(lines), MAX_ERROR_SAMPLES as nat)
    &&& forall|i: int| 0 <= i < o.errors.samples@.len() ==> (#[trigger] o.errors.samples@[i]).kind == ErrorKind::MalformedJson
}

/// Orders patterns by count descending, then template ascending.
fn rank_patterns(ps: Vec<PatternOut>, lines: Ghost<Seq<Seq<char>>>, year: Ghost<int>) -> (r: Vec<PatternOut>)
    requires
        forall|i: int| 0 <= i < ps@.len() ==> pattern_ok(#[trigger] ps@[i], lines@, year@),
    ensures
        patterns_view(r@) == sort_rank(patterns_view(ps@)),
        forall|i: int| 0 <= i < r@.len() ==> pattern_ok(#[trigger] r@[i], lines@, year@),
{
    let ghost pv = patterns_view(ps@);
    let ghost orig = ps@;
    let n = ps.len();
    let mut rest = ps;
    let mut sorted: Vec<PatternOut> = Vec::new();
    let mut k: usize = 0;
    assert(patterns_view(sorted@) =~= sort_rank(pv.subrange(0, 0)));
    assert(rest@ =~= orig.subrange(0, n as int));
    while k < n
        invariant
            n == orig.len(),
            pv == patterns_view(orig),
            forall|i: int| 0 <= i < orig.len() ==> pattern_ok(#[trigger] orig[i], lines@, year@),
            k <= n,
            rest@ == orig.subrange(k as int, n as int),
            patterns_view(sorted@) == sort_rank(pv.subrange(0, k as int)),
            forall|i: int| 0 <= i < sorted@.len() ==> pattern_ok(#[trigger] sorted@[i], lines@, year@),
        decreases n - k,
    {
        let x = rest.remove(0);
        assert(x == orig[k as int]);
        assert(rest@ =~= orig.subrange(k + 1, n as int));
        let ghost xv = (x.template@, x.total_count as nat);
        let ghost sv = patterns_view(sorted@);
        let xc = chars_of(x.template.as_str());
        let mut p: usize = 0;
        let mut stop = false;
        assert(sv.subrange(0, sv.len() as int) =~= sv);
        while p < sorted.len() && !stop
            invariant
                sv == patterns_view(sorted@),
                xv == (x.template@, x.total_count as nat),
                xc@ == x.template@,
                p <= sorted@.len(),
                stop ==> p < sorted@.len() && ranks_before(xv, sv[p as int]),
                sv.subrange(0, p as int) + insert_rank(sv.subrange(p as int, sv.len() as int), xv) == insert_rank(sv, xv),
            decreases sorted@.len() - p, if stop { 0int } else { 1int },
        {
            let ghost r0 = sv.subrange(p as int, sv.len() as int);
            assert(r0[0] == sv[p as int]);
            assert(sv[p as int] == (sorted@[p as int].template@, sorted@[p as int].total_count as nat));
            let before = x.total_count > sorted[p].total_count || (x.total_count == sorted[p].total_count
                && less(&xc, &chars_of(sorted[p].template.as_str())));
            if before {
                stop = true;
            } else {
                assert(r0.drop_first() =~= sv.subrange(p + 1, sv.len() as int));
                assert(sv.subrange(0, p as int) + (seq![r0[0]] + insert_rank(r0.drop_first(), xv)) =~= sv.subrange(0, p + 1) + insert_rank(sv.subrange(p + 1, sv.len() as int), xv));
                p += 1;
            }
        }
        let ghost r0 = sv.subrange(p as int, sv.len() as int);
        if p < sorted.len() {
            assert(r0[0] == sv[p as int]);
        }
        let ghost old_sorted = sorted@;
        sorted.insert(p, x);
        assert(patterns_view(sorted@) =~= sv.subrange(0, p as int) + (seq![xv] + r0));
        let ghost sub = pv.subrange(0, k + 1);
        assert(sub.drop_last() =~= pv.subrange(0, k as int));
        assert(sub.last() == xv);
        assert forall|i: int| 0 <= i < sorted@.len() implies pattern_ok(#[trigger] sorted@[i], lines@, year@) by {
            if i < p {
                assert(sorted@[i] == old_sorted[i]);
            } else if i > p {
                assert(sorted@[i] == old_sorted[i - 1]);
            }
        }
        k += 1;
    }
    assert(pv.subrange(0, n as int) =~= pv);
    sorted
}

pub open spec fn texts(lines: Seq<String>) -> Seq<Seq<char>> {
    lines.map_values(|l: String| l@)
}

/// The template key and canonical form of a line.
fn derive_line(line: &str) -> (r: (String, MaskingResult))
    ensures
        r.0@ == line_key(line@),
        r.1.extracted_params@ == canonical_params(line@),
        r.1.extracted_params.wf(),
{
    let k = template_key(line);
    let c = canonicalize_for_drain(line);
    (k, c)
}

/// A summarizer fed chunk after chunk. It keeps per template key only
/// counts, a few examples, minute buckets and parameter value counts, so its
/// memory grows with the distinct shapes, values and minutes seen, not with
/// the number of lines.
pub struct StreamingSummarizer {
    counts: Vec<(String, usize)>,
    hists: Vec<Vec<(String, String, usize)>>,
    examples: Vec<Vec<String>>,
    buckets: Vec<Vec<(i128, usize)>>,
    services: Vec<Vec<(String, usize)>>,
    hosts: Vec<Vec<(String, usize)>>,
    total_lines: usize,
    error_samples: Vec<usize>,
    first_schema: Option<Vec<(String, String)>>,
    last_schema: Option<Vec<(String, String)>>,
    year: i32,
    start: Option<Timestamp>,
    end: Option<Timestamp>,
    seen: Ghost<Seq<Seq<char>>>,
}

impl StreamingSummarizer {
    /// Every line ingested so far.
    pub closed spec fn lines(&self) -> Seq<Seq<char>> {
        self.seen@
    }

    /// The year syslog stamps are taken in.
    pub closed spec fn year(&self) -> int {
        self.year as int
    }

    pub closed spec fn wf(&self) -> bool {
        &&& opt_fp(self.first_schema) == first_fp(self.seen@)
        &&& opt_fp(self.last_schema) == last_fp(self.seen@)
        &&& (match self.first_schema { Some(v) => paths_unique(fp_view(v@)), None => true })
        &&& (match self.last_schema { Some(v) => paths_unique(fp_view(v@)), None => true })
        &&& positions_view(self.error_samples@) == first_n(malformed_lines(self.seen@), MAX_ERROR_SAMPLES as nat)
        &&& opt_span(self.start, self.end) == span_of(self.seen@, self.year as int)
        &&& (self.start is Some <==> self.end is Some)
        &&& patterns_tally(self.counts@) == tally(line_keys_of(self.seen@))
        &&& self.hists@.len() == self.counts@.len()
        &&& forall|i: int| 0 <= i < self.hists@.len() ==> hist_view(#[trigger] self.hists@[i]@) == hist_of(self.seen@, self.counts@[i].0@)
        &&& forall|i: int| 0 <= i < self.hists@.len() ==> hist_unique(hist_view(#[trigger] self.hists@[i]@))
        &&& self.services@.len() == self.counts@.len()
        &&& self.hosts@.len() == self.counts@.len()
        &&& forall|i: int| 0 <= i < self.services@.len() ==> patterns_tally(#[trigger] self.services@[i]@) == tally(sources_for(self.seen@, self.counts@[i].0@, false))
        &&& forall|i: int| 0 <= i < self.hosts@.len() ==> patterns_tally(#[trigger] self.hosts@[i]@) == tally(sources_for(self.seen@, self.counts@[i].0@, true))
        &&& self.buckets@.len() == self.counts@.len()
        &&& forall|i: int| 0 <= i < self.buckets@.len() ==> bucketed(buckets_view(#[trigger] self.buckets@[i]@), times_for(self.seen@, self.counts@[i].0@, self.year as int), BUCKET_SECS as int)
        &&& self.examples@.len() == self.counts@.len()
        &&& forall|i: int| 0 <= i < self.examples@.len() ==> texts(#[trigger] self.examples@[i]@) == examples_of(self.seen@, self.counts@[i].0@)
        &&& self.total_lines == self.seen@.len()
    }

    /// An empty summarizer that takes syslog stamps in the current year.
    pub fn new() -> (r: StreamingSummarizer)
        ensures
            r.wf(),
            r.lines() == Seq::<Seq<char>>::empty(),
    {
        StreamingSummarizer::with_year(current_year())
    }

    /// An empty summarizer that takes syslog stamps in `year`.
    pub fn with_year(year: i32) -> (r: StreamingSummarizer)
        ensures
            r.wf(),
            r.lines() == Seq::<Seq<char>>::empty(),
            r.year() == year,
    {
        let r = StreamingSummarizer {
            counts: Vec::new(),
            hists: Vec::new(),
            examples: Vec::new(),
            buckets: Vec::new(),
            services: Vec::new(),
            hosts: Vec::new(),
            total_lines: 0,
            error_samples: Vec::new(),
            first_schema: None,
            last_schema: None,
            year,
            start: None,
            end: None,
            seen: Ghost(Seq::empty()),
        };
        assert(positions_view(r.error_samples@) =~= first_n(malformed_lines(Seq::<Seq<char>>::empty()), MAX_ERROR_SAMPLES as nat));
        assert(line_keys_of(Seq::<Seq<char>>::empty()) =~= Seq::<Seq<char>>::empty());
        assert(patterns_tally(r.counts@) =~= tally(Seq::<Seq<char>>::empty()));
        r
    }

    #[verifier::rlimit(80)]
    fn add_line(&mut self, line: &String)
        requires
            old(self).wf(),
            old(self).lines().len() < usize::MAX,
        ensures
            final(self).wf(),
            final(self).lines() == old(self).lines().push(line@),
            final(self).year() == old(self).year(),
    {
        let (k, canon) = derive_line(line.as_str());
        let stamp = detect_timestamp_in_text_at(line.as_str(), self.year);
        let (svc, hst) = derive_source(line.as_str());
        let ghost s0 = self.seen@;
        let ghost ns = s0.push(line@);
        let ghost keys0 = line_keys_of(s0);
        let ghost t0 = tally(keys0);
        proof {
            lemma_tally_wf(keys0);
            assert(line_keys_of(ns) =~= keys0.push(k@));
            assert(keys0.push(k@).drop_last() =~= keys0);
            assert(ns.drop_last() =~= s0);
            assert forall|kk: Seq<char>| kk != k@ implies #[trigger] pairs_for(ns, kk) == pairs_for(s0, kk) by {
                assert(pairs_for(s0, kk) + Seq::<PV>::empty() =~= pairs_for(s0, kk));
            }
            assert(pairs_for(ns, k@) == pairs_for(s0, k@) + all_pairs(canonical_params(line@)));
            assert forall|kk: Seq<char>| kk != k@ implies #[trigger] examples_of(ns, kk) == examples_of(s0, kk) by {}
            assert forall|kk: Seq<char>| kk != k@ implies #[trigger] times_for(ns, kk, self.year as int) == times_for(s0, kk, self.year as int) by {}
            lemma_times_len(s0, k@, self.year as int);
            assert forall|kk: Seq<char>, h: bool| kk != k@ implies #[trigger] sources_for(ns, kk, h) == sources_for(s0, kk, h) by {}
            lemma_sources_len(s0, k@, false);
            lemma_sources_len(s0, k@, true);
            lemma_tally2_append(Seq::empty(), pairs_for(s0, k@), all_pairs(canonical_params(line@)));
        }
        let kc = chars_of(k.as_str());
        let mut i: usize = 0;
        let mut found = false;
        while i < self.counts.len() && !found
            invariant
                i <= self.counts@.len(),
                t0 == patterns_tally(self.counts@),
                kc@ == k@,
                found ==> i < self.counts@.len() && t0[i as int].0 == k@,
                forall|j: int| 0 <= j < i ==> (#[trigger] t0[j]).0 != k@,
            decreases self.counts@.len() - i, if found { 0int } else { 1int },
        {
            assert(t0[i as int].0 == self.counts@[i as int].0@);
            if chars_eq(&chars_of(self.counts[i].0.as_str()), &kc) {
                found = true;
            } else {
                i += 1;
            }
        }
        let ghost c0 = self.counts@;
        let ghost h0 = self.hists@;
        let ghost e0 = self.examples@;
        let ghost b0 = self.buckets@;
        let ghost sv0 = self.services@;
        let ghost hs0 = self.hosts@;
        let ghost y = self.year as int;
        if found {
            assert(t0[i as int].0 == k@);
            let ghost ci = choose|j: int| 0 <= j < t0.len() && (#[trigger] t0[j]).0 == k@;
            assert(t0[ci].0 == k@);
            assert(ci == i);
            let (name, c) = self.counts.remove(i);
            assert(c <= s0.len());
            self.counts.insert(i, (name, c + 1));
            assert(patterns_tally(self.counts@) =~= t0.update(i as int, (k@, t0[i as int].1 + 1)));
            let mut hist = self.hists.remove(i);
            assert(hist_view(hist@) == hist_of(s0, k@));
            add_params(&mut hist, &canon.extracted_params);
            self.hists.insert(i, hist);
            assert forall|j: int| 0 <= j < self.hists@.len() implies hist_view(#[trigger] self.hists@[j]@) == hist_of(ns, self.counts@[j].0@) by {
                if j != i {
                    assert(self.hists@[j] == h0[j]);
                    assert(self.counts@[j] == c0[j]);
                    assert(t0[j].0 != k@);
                }
            }
            assert forall|j: int| 0 <= j < self.hists@.len() implies hist_unique(hist_view(#[trigger] self.hists@[j]@)) by {
                if j != i {
                    assert(self.hists@[j] == h0[j]);
                }
            }
            let mut ex = self.examples.remove(i);
            assert(texts(ex@) == examples_of(s0, k@));
            if ex.len() < MAX_EXAMPLES {
                let ghost ex0 = ex@;
                ex.push(line.clone());
                assert(texts(ex@) =~= texts(ex0).push(line@));
            }
            self.examples.insert(i, ex);
            let mut bk = self.buckets.remove(i);
            match stamp {
                Some(t) => {
                    add_time(&mut bk, t.secs, BUCKET_SECS, Ghost(times_for(s0, k@, y)));
                },
                None => {},
            }
            self.buckets.insert(i, bk);
            let mut st = self.services.remove(i);
            match svc {
                Some(v) => {
                    bump_exec(&mut st, v, Ghost(sources_for(s0, k@, false)));
                },
                None => {},
            }
            self.services.insert(i, st);
            let mut ht = self.hosts.remove(i);
            match hst {
                Some(v) => {
                    bump_exec(&mut ht, v, Ghost(sources_for(s0, k@, true)));
                },
                None => {},
            }
            self.hosts.insert(i, ht);
            assert forall|j: int| 0 <= j < self.services@.len() implies patterns_tally(#[trigger] self.services@[j]@) == tally(sources_for(ns, self.counts@[j].0@, false)) by {
                if j != i {
                    assert(self.services@[j] == sv0[j]);
                    assert(self.counts@[j] == c0[j]);
                    assert(t0[j].0 != k@);
                }
            }
            assert forall|j: int| 0 <= j < self.hosts@.len() implies patterns_tally(#[trigger] self.hosts@[j]@) == tally(sources_for(ns, self.counts@[j].0@, true)) by {
                if j != i {
                    assert(self.hosts@[j] == hs0[j]);
                    assert(self.counts@[j] == c0[j]);
                    assert(t0[j].0 != k@);
                }
            }
            assert forall|j: int| 0 <= j < self.buckets@.len() implies bucketed(buckets_view(#[trigger] self.buckets@[j]@), times_for(ns, self.counts@[j].0@, y), BUCKET_SECS as int) by {
                if j != i {
                    assert(self.buckets@[j] == b0[j]);
                    assert(self.counts@[j] == c0[j]);
                    assert(t0[j].0 != k@);
                }
            }
            assert forall|j: int| 0 <= j < self.examples@.len() implies texts(#[trigger] self.examples@[j]@) == examples_of(ns, self.counts@[j].0@) by {
                if j != i {
                    assert(self.examples@[j] == e0[j]);
                    assert(self.counts@[j] == c0[j]);
                    assert(t0[j].0 != k@);
                }
            }
        } else {
            let mut hist: Vec<(String, String, usize)> = Vec::new();
            assert(hist_view(hist@) =~= Seq::<(PV, nat)>::empty());
            proof {
                if keys0.contains(k@) {
                    lemma_tally_covers(keys0, k@);
                }
                assert forall|q: int| 0 <= q < s0.len() implies line_key(#[trigger] s0[q]) != k@ by {
                    assert(keys0[q] == line_key(s0[q]));
                }
                lemma_pairs_absent(s0, k@);
            }
            add_params(&mut hist, &canon.extracted_params);
            self.counts.push((k, 1));
            assert(patterns_tally(self.counts@) =~= t0.push((k@, 1nat)));
            self.hists.push(hist);
            assert forall|j: int| 0 <= j < self.hists@.len() implies hist_view(#[trigger] self.hists@[j]@) == hist_of(ns, self.counts@[j].0@) by {
                if j < h0.len() {
                    assert(self.hists@[j] == h0[j]);
                    assert(self.counts@[j] == c0[j]);
                    assert(t0[j].0 != k@);
                }
            }
            assert forall|j: int| 0 <= j < self.hists@.len() implies hist_unique(hist_view(#[trigger] self.hists@[j]@)) by {
                if j < h0.len() {
                    assert(self.hists@[j] == h0[j]);
                }
            }
            proof {
                lemma_examples_absent(s0, k@);
                lemma_times_absent(s0, k@, y);
            }
            let mut bk: Vec<(i128, usize)> = Vec::new();
            assert(buckets_view(bk@) =~= Seq::<(int, nat)>::empty());
            assert(bucketed(buckets_view(bk@), Seq::<i64>::empty(), BUCKET_SECS as int));
            match stamp {
                Some(t) => {
                    add_time(&mut bk, t.secs, BUCKET_SECS, Ghost(times_for(s0, k@, y)));
                },
                None => {},
            }
            self.buckets.push(bk);
            proof {
                lemma_sources_absent(s0, k@, false);
                lemma_sources_absent(s0, k@, true);
            }
            let mut st: Vec<(String, usize)> = Vec::new();
            assert(patterns_tally(st@) =~= tally(Seq::<Seq<char>>::empty()));
            match svc {
                Some(v) => {
                    bump_exec(&mut st, v, Ghost(sources_for(s0, k@, false)));
                },
                None => {},
            }
            self.services.push(st);
            let mut ht: Vec<(String, usize)> = Vec::new();
            assert(patterns_tally(ht@) =~= tally(Seq::<Seq<char>>::empty()));
            match hst {
                Some(v) => {
                    bump_exec(&mut ht, v, Ghost(sources_for(s0, k@, true)));
                },
                None => {},
            }
            self.hosts.push(ht);
            assert forall|j: int| 0 <= j < self.services@.len() implies patterns_tally(#[trigger] self.services@[j]@) == tally(sources_for(ns, self.counts@[j].0@, false)) by {
                if j < sv0.len() {
                    assert(self.services@[j] == sv0[j]);
                    assert(self.counts@[j] == c0[j]);
                    assert(t0[j].0 != k@);
                }
            }
            assert forall|j: int| 0 <= j < self.hosts@.len() implies patterns_tally(#[trigger] self.hosts@[j]@) == tally(sources_for(ns, self.counts@[j].0@, true)) by {
                if j < hs0.len() {
                    assert(self.hosts@[j] == hs0[j]);
                    assert(self.counts@[j] == c0[j]);
                    assert(t0[j].0 != k@);
                }
            }
            assert forall|j: int| 0 <= j < self.buckets@.len() implies bucketed(buckets_view(#[trigger] self.buckets@[j]@), times_for(ns, self.counts@[j].0@, y), BUCKET_SECS as int) by {
                if j < b0.len() {
                    assert(self.buckets@[j] == b0[j]);
                    assert(self.counts@[j] == c0[j]);
                    assert(t0[j].0 != k@);
                }
            }
            let mut ex: Vec<String> = Vec::new();
            ex.push(line.clone());
            assert(texts(ex@) =~= seq![line@]);
            assert(Seq::<Seq<char>>::empty().push(line@) =~= seq![line@]);
            self.examples.push(ex);
            assert forall|j: int| 0 <= j < self.examples@.len() implies texts(#[trigger] self.examples@[j]@) == examples_of(ns, self.counts@[j].0@) by {
                if j < e0.len() {
                    assert(self.examples@[j] == e0[j]);
                    assert(self.counts@[j] == c0[j]);
                    assert(t0[j].0 != k@);
                }
            }
        }
        let ghost sp0 = span_of(s0, self.year as int);
        assert(ns.drop_last() =~= s0);
        assert(ns.last() == line@);
        match stamp {
            Some(t) => {
                match (self.start, self.end) {
                    (Some(lo), Some(hi)) => {
                        if t.secs < lo.secs || (t.secs == lo.secs && t.nanos < lo.nanos) {
                            self.start = Some(t);
                        }
                        if hi.secs < t.secs || (hi.secs == t.secs && hi.nanos < t.nanos) {
                            self.end = Some(t);
                        }
                    },
                    _ => {
                        self.start = Some(t);
                        self.end = Some(t);
                    },
                }
            },
            None => {},
        }
        assert(opt_span(self.start, self.end) == span_of(ns, self.year as int));
        track_error(&mut self.error_samples, self.total_lines + 1, line, Ghost(s0));
        track_schema(&mut self.first_schema, &mut self.last_schema, line, Ghost(s0));
        self.total_lines = self.total_lines + 1;
        self.seen = Ghost(ns);
    }

    /// Adds the lines of one chunk.
    pub fn ingest_chunk(&mut self, lines: &Vec<String>)
        requires
            old(self).wf(),
            old(self).lines().len() + lines@.len() <= usize::MAX,
        ensures
            final(self).wf(),
            final(self).lines() == old(self).lines() + texts(lines@),
            final(self).year() == old(self).year(),
    {
        let ghost l0 = self.lines();
        let mut i: usize = 0;
        assert(l0 + texts(lines@).subrange(0, 0) =~= l0);
        while i < lines.len()
            invariant
                self.wf(),
                i <= lines@.len(),
                l0.len() + lines@.len() <= usize::MAX,
                self.lines() == l0 + texts(lines@).subrange(0, i as int),
                self.year() == old(self).year(),
            decreases lines@.len() - i,
        {
            self.add_line(&lines[i]);
            assert(l0 + texts(lines@).subrange(0, i + 1) =~= (l0 + texts(lines@).subrange(0, i as int)).push(lines@[i as int]@));
            i += 1;
        }
        assert(texts(lines@).subrange(0, lines@.len() as int) =~= texts(lines@));
    }

    /// The summary of every line ingested so far.
    /// The summary of every line ingested so far, with new templates
    /// judged against no baseline.
    pub fn finalize(&self) -> (r: AiOutput)
        requires
            self.wf(),
        ensures
            output_matches(r, self.lines(), self.year()),
            analysis_matches(r, Seq::empty()),
    {
        let empty: Vec<String> = Vec::new();
        assert(names_view(empty@) =~= Seq::<Seq<char>>::empty());
        self.finalize_with_baseline(&empty)
    }

    /// The summary of every line ingested so far; templates missing from
    /// `baseline` (when it is not empty) are new.
    #[verifier::rlimit(60)]
    pub fn finalize_with_baseline(&self, baseline: &Vec<String>) -> (r: AiOutput)
        requires
            self.wf(),
        ensures
            output_matches(r, self.lines(), self.year()),
            analysis_matches(r, names_view(baseline@)),
    {
        let mut patterns: Vec<PatternOut> = Vec::new();
        let mut i: usize = 0;
        while i < self.counts.len()
            invariant
                self.wf(),
                i <= self.counts@.len(),
                patterns_view(patterns@) == patterns_tally(self.counts@).subrange(0, i as int),
                forall|j: int| 0 <= j < patterns@.len() ==> hist_view((#[trigger] patterns@[j]).params@) == hist_of(self.lines(), patterns@[j].template@),
                forall|j: int| 0 <= j < patterns@.len() ==> texts((#[trigger] patterns@[j]).examples@) == examples_of(self.lines(), patterns@[j].template@),
                forall|j: int| 0 <= j < patterns@.len() ==> bucketed(buckets_view((#[trigger] patterns@[j]).minute_buckets@), times_for(self.lines(), patterns@[j].template@, self.year()), BUCKET_SECS as int),
                forall|j: int| 0 <= j < patterns@.len() ==> patterns_tally((#[trigger] patterns@[j]).services@) == tally(sources_for(self.lines(), patterns@[j].template@, false)),
                forall|j: int| 0 <= j < patterns@.len() ==> patterns_tally((#[trigger] patterns@[j]).hosts@) == tally(sources_for(self.lines(), patterns@[j].template@, true)),
            decreases self.counts@.len() - i,
        {
            assert(patterns_tally(self.counts@)[i as int] == (self.counts@[i as int].0@, self.counts@[i as int].1 as nat));
            let name = self.counts[i].0.clone();
            let c = self.counts[i].1;
            let h = copy_hist(&self.hists[i]);
            assert(hist_view(h@) == hist_view(self.hists@[i as int]@));
            let ex = copy_texts(&self.examples[i]);
            let bk = copy_buckets(&self.buckets[i]);
            let svs = copy_tally(&self.services[i]);
            let hss = copy_tally(&self.hosts[i]);
            let ghost before = patterns_view(patterns@);
            patterns.push(PatternOut {
                template: name,
                total_count: c,
                examples: ex,
                params: h,
                minute_buckets: bk,
                services: svs,
                hosts: hss,
            });
            assert(patterns_view(patterns@) =~= before.push((name@, c as nat)));
            assert(patterns_tally(self.counts@).subrange(0, i + 1) =~= patterns_tally(self.counts@).subrange(0, i as int).push((name@, c as nat)));
            i += 1;
        }
        assert(patterns_tally(self.counts@).subrange(0, self.counts@.len() as int) =~= patterns_tally(self.counts@));
        let unique = patterns.len();
        assert forall|j: int| 0 <= j < patterns@.len() implies pattern_ok(#[trigger] patterns@[j], self.lines(), self.year()) by {}
        let patterns = rank_patterns(patterns, Ghost(self.lines()), Ghost(self.year()));
        proof {
            lemma_sort_rank_len(patterns_tally(self.counts@));
        }
        let findings = analyze_all(&patterns);
        let errors = errors_out(&self.error_samples, self.error_samples.len());
        let (anomalies, suggestions) = pattern_analysis(&patterns, self.total_lines, baseline);
        let schema_changes = match (&self.first_schema, &self.last_schema) {
            (Some(a), Some(b)) => diff_fingerprints(a, b),
            _ => Vec::new(),
        };
        assert(changes_view(schema_changes@) == schema_changes_of(self.lines())) by {
            if !(self.first_schema is Some && self.last_schema is Some) {
                assert(changes_view(schema_changes@) =~= Seq::<crate::schema::ChangeV>::empty());
            }
        }
        AiOutput {
            summary: Summary { total_lines: self.total_lines, unique_patterns: unique, start: self.start, end: self.end },
            patterns,
            findings,
            errors,
            schema_changes,
            anomalies,
            suggestions,
        }
    }
}

pub open spec fn patterns_tally(v: Seq<(String, usize)>) -> TallyV {
    v.map_values(|p: (String, usize)| (p.0@, p.1 as nat))
}

/// Summarizes lines in one batch, syslog stamps taken in `year`.
pub fn summarize_lines_in_year(lines: &Vec<String>, year: i32) -> (r: AiOutput)
    ensures
        output_matches(r, texts(lines@), year as int),
        analysis_matches(r, Seq::empty()),
{
    let n = lines.len();
    let mut s = StreamingSummarizer::with_year(year);
    assert(Seq::<Seq<char>>::empty() + texts(lines@) =~= texts(lines@));
    s.ingest_chunk(lines);
    s.finalize()
}

/// Summarizes lines in one batch; templates missing from `baseline` (when
/// it is not empty) are new; syslog stamps taken in the current year.
pub fn summarize_lines_with_baseline(lines: &Vec<String>, baseline: &Vec<String>) -> (r: AiOutput)
    ensures
        exists|year: int| output_matches(r, texts(lines@), year),
        analysis_matches(r, names_view(baseline@)),
{
    let n = lines.len();
    let mut s = StreamingSummarizer::new();
    assert(Seq::<Seq<char>>::empty() + texts(lines@) =~= texts(lines@));
    s.ingest_chunk(lines);
    s.finalize_with_baseline(baseline)
}

/// Summarizes lines in one batch, syslog stamps taken in the current year.
pub fn summarize_lines(lines: &Vec<String>) -> (r: AiOutput)
    ensures
        exists|year: int| output_matches(r, texts(lines@), year),
        analysis_matches(r, Seq::empty()),
{
    let n = lines.len();
    let mut s = StreamingSummarizer::new();
    assert(Seq::<Seq<char>>::empty() + texts(lines@) =~= texts(lines@));
    s.ingest_chunk(lines);
    s.finalize()
}

} // verus!
