//! The analyzer registry: every analyzer run, in a fixed order, over the
//! read-only aggregate of one template, with the typed results gathered.
use vstd::prelude::*;
use crate::ai::{PatternOut, HistV, PV, hist_view, patterns_tally};
use crate::analyzers::{ParamFieldStats, ParamValueCount, ParameterAnomaly, ValueV, analyze_parameters, panoms_view, stats_findings, stats_view, values_view};
use crate::drain_adapter::{capped_sum, first_seen};
use crate::order::{less, lt};
use crate::sequence::{SequenceDescriptor, desc_view, detect_sequence, sequence_of, sort_hist};
use crate::temporal::{BurstPeriod, bursts_from_buckets, bursts_of, bursts_view, buckets_view};
use crate::text::{chars_eq, chars_of, slice_chars};
use crate::timestamp::{ascii_digits, digits_exec, digits_value, lemma_digits_bound, lemma_pow10_le, pow10};

verus! {

/// Value (or name) `a` ranks before `b`: a higher count, then the smaller text.
pub open spec fn ranks_before(a: ValueV, b: ValueV) -> bool {
    a.1 > b.1 || (a.1 == b.1 && lt(a.0, b.0))
}

/// `x` placed in the ranked list `s` before the first entry it ranks before.
pub open spec fn insert_rank(s: Seq<ValueV>, x: ValueV) -> Seq<ValueV>
    decreases s.len(),
{
    if s.len() == 0 {
        seq![x]
    } else if ranks_before(x, s[0]) {
        seq![x] + s
    } else {
        seq![s[0]] + insert_rank(s.drop_first(), x)
    }
}

/// The entries by count descending, then text ascending.
pub open spec fn sort_rank(s: Seq<ValueV>) -> Seq<ValueV>
    decreases s.len(),
{
    if s.len() == 0 {
        Seq::empty()
    } else {
        insert_rank(sort_rank(s.drop_last()), s.last())
    }
}

proof fn lemma_insert_rank_len(s: Seq<ValueV>, x: ValueV)
    ensures
        insert_rank(s, x).len() == s.len() + 1,
    decreases s.len(),
{
    if s.len() > 0 && !ranks_before(x, s[0]) {
        lemma_insert_rank_len(s.drop_first(), x);
    }
}

pub proof fn lemma_sort_rank_len(s: Seq<ValueV>)
    ensures
        sort_rank(s).len() == s.len(),
    decreases s.len(),
{
    if s.len() > 0 {
        lemma_sort_rank_len(s.drop_last());
        lemma_insert_rank_len(sort_rank(s.drop_last()), s.last());
    }
}

/// The first `k` entries of the ranking.
pub open spec fn top_k(s: Seq<ValueV>, k: nat) -> Seq<ValueV> {
    if sort_rank(s).len() <= k { sort_rank(s) } else { sort_rank(s).take(k as int) }
}

fn insert_rank_exec(s: &Vec<(String, usize)>, x: (String, usize)) -> (r: Vec<(String, usize)>)
    ensures
        patterns_tally(r@) == insert_rank(patterns_tally(s@), (x.0@, x.1 as nat)),
{
    let ghost sv = patterns_tally(s@);
    let ghost xv = (x.0@, x.1 as nat);
    let xc = chars_of(x.0.as_str());
    let mut p: usize = 0;
    let mut stop = false;
    assert(sv.subrange(0, sv.len() as int) =~= sv);
    while p < s.len() && !stop
        invariant
            sv == patterns_tally(s@),
            xv == (x.0@, x.1 as nat),
            xc@ == x.0@,
            p <= s@.len(),
            stop ==> p < s@.len() && ranks_before(xv, sv[p as int]),
            sv.subrange(0, p as int) + insert_rank(sv.subrange(p as int, sv.len() as int), xv) == insert_rank(sv, xv),
        decreases s@.len() - p, if stop { 0int } else { 1int },
    {
        let ghost rest = sv.subrange(p as int, sv.len() as int);
        assert(rest[0] == sv[p as int]);
        assert(sv[p as int] == (s@[p as int].0@, s@[p as int].1 as nat));
        let before = x.1 > s[p].1 || (x.1 == s[p].1 && less(&xc, &chars_of(s[p].0.as_str())));
        if before {
            stop = true;
        } else {
            assert(rest.drop_first() =~= sv.subrange(p + 1, sv.len() as int));
            assert(sv.subrange(0, p as int) + (seq![rest[0]] + insert_rank(rest.drop_first(), xv)) =~= sv.subrange(0, p + 1) + insert_rank(sv.subrange(p + 1, sv.len() as int), xv));
            p += 1;
        }
    }
    let ghost rest = sv.subrange(p as int, sv.len() as int);
    let mut r: Vec<(String, usize)> = Vec::new();
    let mut i: usize = 0;
    while i < s.len()
        invariant
            sv == patterns_tally(s@),
            i <= s@.len(),
            p <= s@.len(),
            i <= p ==> patterns_tally(r@) == sv.subrange(0, i as int),
            i > p ==> patterns_tally(r@) == sv.subrange(0, p as int) + seq![xv] + sv.subrange(p as int, i as int),
            xv == (x.0@, x.1 as nat),
        decreases s@.len() - i,
    {
        if i == p {
            let ghost b = patterns_tally(r@);
            r.push((x.0.clone(), x.1));
            assert(patterns_tally(r@) =~= b.push(xv));
        }
        let a = s[i].0.clone();
        let c = s[i].1;
        let ghost b2 = patterns_tally(r@);
        r.push((a, c));
        assert(patterns_tally(r@) =~= b2.push(sv[i as int]));
        if i < p {
            assert(sv.subrange(0, i + 1) =~= sv.subrange(0, i as int).push(sv[i as int]));
        } else {
            assert(sv.subrange(p as int, i + 1) =~= sv.subrange(p as int, i as int).push(sv[i as int]));
            assert(patterns_tally(r@) =~= sv.subrange(0, p as int) + seq![xv] + sv.subrange(p as int, i + 1));
        }
        i += 1;
    }
    if p == s.len() {
        let ghost b = patterns_tally(r@);
        r.push((x.0.clone(), x.1));
        assert(patterns_tally(r@) =~= b.push(xv));
        assert(patterns_tally(r@) =~= sv.subrange(0, p as int) + (seq![xv] + rest));
    } else {
        assert(patterns_tally(r@) =~= sv.subrange(0, p as int) + (seq![xv] + rest));
    }
    r
}

/// Ranks entries by count descending, then text ascending (see `sort_rank`).
pub fn rank_sort(v: &Vec<(String, usize)>) -> (r: Vec<(String, usize)>)
    ensures
        patterns_tally(r@) == sort_rank(patterns_tally(v@)),
{
    let ghost vv = patterns_tally(v@);
    let mut r: Vec<(String, usize)> = Vec::new();
    let mut i: usize = 0;
    assert(patterns_tally(r@) =~= sort_rank(vv.subrange(0, 0)));
    while i < v.len()
        invariant
            vv == patterns_tally(v@),
            i <= v@.len(),
            patterns_tally(r@) == sort_rank(vv.subrange(0, i as int)),
        decreases v@.len() - i,
    {
        let ghost sub = vv.subrange(0, i + 1);
        assert(sub.drop_last() =~= vv.subrange(0, i as int));
        assert(sub.last() == (v@[i as int].0@, v@[i as int].1 as nat));
        r = insert_rank_exec(&r, (v[i].0.clone(), v[i].1));
        i += 1;
    }
    assert(vv.subrange(0, v@.len() as int) =~= vv);
    r
}

/// The first `k` entries of the ranking (see `top_k`).
pub fn top_entries(v: &Vec<(String, usize)>, k: usize) -> (r: Vec<(String, usize)>)
    ensures
        patterns_tally(r@) == top_k(patterns_tally(v@), k as nat),
{
    let ranked = rank_sort(v);
    if ranked.len() <= k {
        return ranked;
    }
    let mut r: Vec<(String, usize)> = Vec::new();
    let mut i: usize = 0;
    while i < k
        invariant
            i <= k < ranked@.len(),
            patterns_tally(r@) == patterns_tally(ranked@).subrange(0, i as int),
        decreases k - i,
    {
        let a = ranked[i].0.clone();
        let ghost b = patterns_tally(r@);
        r.push((a, ranked[i].1));
        assert(patterns_tally(r@) =~= b.push(patterns_tally(ranked@)[i as int]));
        assert(patterns_tally(ranked@).subrange(0, i + 1) =~= patterns_tally(ranked@).subrange(0, i as int).push(patterns_tally(ranked@)[i as int]));
        i += 1;
    }
    assert(patterns_tally(ranked@).take(k as int) =~= patterns_tally(ranked@).subrange(0, k as int));
    r
}

/// The values of parameter `p` in a histogram, in order, with their counts.
pub open spec fn group_of(h: HistV, p: Seq<char>) -> Seq<ValueV>
    decreases h.len(),
{
    if h.len() == 0 {
        Seq::empty()
    } else {
        let g = group_of(h.drop_last(), p);
        if h.last().0.0 == p { g.push((h.last().0.1, h.last().1)) } else { g }
    }
}

/// The statistics of parameter `p`: total occurrences (capped), number of
/// distinct values, and the values ranked by count.
pub open spec fn stat_of(h: HistV, p: Seq<char>) -> (Seq<char>, nat, nat, Seq<ValueV>) {
    (p, capped_sum(group_of(h, p)), group_of(h, p).len(), sort_rank(group_of(h, p)))
}

/// The statistics of every parameter of a histogram, in order of first appearance.
pub open spec fn param_stats_of(h: HistV) -> Seq<(Seq<char>, nat, nat, Seq<ValueV>)> {
    first_seen(h.map_values(|e: (PV, nat)| e.0.0)).map_values(|p: Seq<char>| stat_of(h, p))
}

fn contains_name(d: &Vec<String>, k: &String) -> (r: bool)
    ensures
        r == d@.map_values(|x: String| x@).contains(k@),
{
    let ghost dv = d@.map_values(|x: String| x@);
    let kc = chars_of(k.as_str());
    let mut i: usize = 0;
    while i < d.len()
        invariant
            dv == d@.map_values(|x: String| x@),
            kc@ == k@,
            i <= d@.len(),
            forall|j: int| 0 <= j < i ==> dv[j] != k@,
        decreases d@.len() - i,
    {
        if chars_eq(&chars_of(d[i].as_str()), &kc) {
            assert(dv[i as int] == k@);
            return true;
        }
        i += 1;
    }
    false
}

fn stat_exec(h: &Vec<(String, String, usize)>, p: &String) -> (r: ParamFieldStats)
    ensures
        (r.total as nat, r.cardinality as nat, values_view(r.values@)) == (stat_of(hist_view(h@), p@).1, stat_of(hist_view(h@), p@).2, stat_of(hist_view(h@), p@).3),
{
    let ghost hv = hist_view(h@);
    let pc = chars_of(p.as_str());
    let mut group: Vec<(String, usize)> = Vec::new();
    let mut total: usize = 0;
    let mut i: usize = 0;
    assert(hv.subrange(0, 0) =~= Seq::<(PV, nat)>::empty());
    while i < h.len()
        invariant
            hv == hist_view(h@),
            pc@ == p@,
            i <= h@.len(),
            patterns_tally(group@) == group_of(hv.subrange(0, i as int), p@),
            total as nat == capped_sum(group_of(hv.subrange(0, i as int), p@)),
        decreases h@.len() - i,
    {
        let ghost sub = hv.subrange(0, i + 1);
        assert(sub.drop_last() =~= hv.subrange(0, i as int));
        assert(sub.last() == ((h@[i as int].0@, h@[i as int].1@), h@[i as int].2 as nat));
        if chars_eq(&chars_of(h[i].0.as_str()), &pc) {
            let ghost g0 = group_of(hv.subrange(0, i as int), p@);
            let ghost b = patterns_tally(group@);
            let v = h[i].1.clone();
            let c = h[i].2;
            group.push((v, c));
            assert(patterns_tally(group@) =~= b.push((h@[i as int].1@, c as nat)));
            assert(g0.push((h@[i as int].1@, c as nat)).drop_last() =~= g0);
            total = if total > usize::MAX - c { usize::MAX } else { total + c };
        }
        i += 1;
    }
    assert(hv.subrange(0, h@.len() as int) =~= hv);
    let ranked = rank_sort(&group);
    let card = group.len();
    let mut values: Vec<ParamValueCount> = Vec::new();
    let mut j: usize = 0;
    while j < ranked.len()
        invariant
            j <= ranked@.len(),
            values_view(values@) == patterns_tally(ranked@).subrange(0, j as int),
        decreases ranked@.len() - j,
    {
        let a = ranked[j].0.clone();
        let c = ranked[j].1;
        let ghost b = values_view(values@);
        values.push(ParamValueCount { value: a, count: c });
        assert(values_view(values@) =~= b.push((a@, c as nat)));
        assert(patterns_tally(ranked@).subrange(0, j + 1) =~= patterns_tally(ranked@).subrange(0, j as int).push((a@, c as nat)));
        j += 1;
    }
    assert(patterns_tally(ranked@).subrange(0, ranked@.len() as int) =~= patterns_tally(ranked@));
    ParamFieldStats { total, cardinality: card, values }
}

/// The statistics of every parameter of a histogram (see `param_stats_of`).
pub fn param_stats(h: &Vec<(String, String, usize)>) -> (r: Vec<(String, ParamFieldStats)>)
    ensures
        stats_view(r@) == param_stats_of(hist_view(h@)),
{
    let ghost hv = hist_view(h@);
    let ghost names = hv.map_values(|e: (PV, nat)| e.0.0);
    let mut seen: Vec<String> = Vec::new();
    let mut i: usize = 0;
    assert(names.subrange(0, 0) =~= Seq::<Seq<char>>::empty());
    while i < h.len()
        invariant
            hv == hist_view(h@),
            names == hv.map_values(|e: (PV, nat)| e.0.0),
            i <= h@.len(),
            seen@.map_values(|x: String| x@) == first_seen(names.subrange(0, i as int)),
        decreases h@.len() - i,
    {
        let ghost sub = names.subrange(0, i + 1);
        assert(sub.drop_last() =~= names.subrange(0, i as int));
        assert(sub.last() == h@[i as int].0@);
        if !contains_name(&seen, &h[i].0) {
            let ghost b = seen@.map_values(|x: String| x@);
            seen.push(h[i].0.clone());
            assert(seen@.map_values(|x: String| x@) =~= b.push(h@[i as int].0@));
        }
        i += 1;
    }
    assert(names.subrange(0, h@.len() as int) =~= names);
    let ghost ps = first_seen(names);
    let mut out: Vec<(String, ParamFieldStats)> = Vec::new();
    let mut k: usize = 0;
    while k < seen.len()
        invariant
            hv == hist_view(h@),
            seen@.map_values(|x: String| x@) == ps,
            k <= seen@.len(),
            stats_view(out@) == ps.map_values(|p: Seq<char>| stat_of(hv, p)).subrange(0, k as int),
        decreases seen@.len() - k,
    {
        let st = stat_exec(h, &seen[k]);
        let name = seen[k].clone();
        assert(name@ == ps[k as int]);
        let ghost b = stats_view(out@);
        out.push((name, st));
        assert(stats_view(out@) =~= b.push(stat_of(hv, ps[k as int])));
        assert(ps.map_values(|p: Seq<char>| stat_of(hv, p)).subrange(0, k + 1) =~= ps.map_values(|p: Seq<char>| stat_of(hv, p)).subrange(0, k as int).push(stat_of(hv, ps[k as int])));
        k += 1;
    }
    assert(ps.map_values(|p: Seq<char>| stat_of(hv, p)).subrange(0, seen@.len() as int) =~= ps.map_values(|p: Seq<char>| stat_of(hv, p)));
    out
}


/// The integer a text writes: an optional `-` and one to eighteen ASCII digits.
pub open spec fn int_text(t: Seq<char>) -> Option<int> {
    let neg = t.len() > 0 && t[0] == '-';
    let d = if neg { t.drop_first() } else { t };
    if 1 <= d.len() <= 18 && ascii_digits(d) {
        Some(if neg { -digits_value(d) } else { digits_value(d) })
    } else {
        None
    }
}

/// The histogram of a parameter whose values are all integers.
pub open spec fn int_hist(vals: Seq<ValueV>) -> Option<Seq<(i64, usize)>>
    decreases vals.len(),
{
    if vals.len() == 0 {
        Some(Seq::empty())
    } else {
        match (int_hist(vals.drop_last()), int_text(vals.last().0)) {
            (Some(h), Some(n)) => Some(h.push((n as i64, vals.last().1 as usize))),
            _ => None,
        }
    }
}

/// Smallest share of distinct values a run must cover to summarize a parameter.
pub const MIN_COVERAGE_NUM: u64 = 7;
pub const MIN_COVERAGE_DEN: u64 = 10;

/// The parameters whose values are all integers and mostly form a run, with
/// that run (see `sequence_of`).
pub open spec fn seqs_of(st: Seq<(Seq<char>, nat, nat, Seq<ValueV>)>) -> Seq<(Seq<char>, (int, int, int, int, int, int))>
    decreases st.len(),
{
    if st.len() == 0 {
        Seq::empty()
    } else {
        let prev = seqs_of(st.drop_last());
        match int_hist(st.last().3) {
            Some(h) => match sequence_of(sort_hist(h), MIN_COVERAGE_NUM as nat, MIN_COVERAGE_DEN as nat) {
                Some(d) => prev.push((st.last().0, d)),
                None => prev,
            },
            None => prev,
        }
    }
}

pub open spec fn seqs_view(v: Seq<(String, SequenceDescriptor)>) -> Seq<(Seq<char>, (int, int, int, int, int, int))> {
    v.map_values(|x: (String, SequenceDescriptor)| (x.0@, desc_view(x.1)))
}

fn int_text_exec(s: &String) -> (r: Option<i64>)
    ensures
        match r {
            Some(n) => int_text(s@) == Some(n as int),
            None => int_text(s@) is None,
        },
{
    let t = chars_of(s.as_str());
    let neg = t.len() > 0 && t[0] == '-';
    let d = if neg { slice_chars(&t, 1, t.len()) } else { t.clone() };
    assert(neg ==> d@ =~= t@.drop_first());
    assert(neg == (s@.len() > 0 && s@[0] == '-'));
    if d.len() < 1 || d.len() > 18 {
        return None;
    }
    let mut i: usize = 0;
    while i < d.len()
        invariant
            t@ == s@,
            neg == (s@.len() > 0 && s@[0] == '-'),
            d@ == (if neg { s@.drop_first() } else { s@ }),
            1 <= d@.len() <= 18,
            i <= d@.len(),
            forall|j: int| 0 <= j < i ==> '0' <= #[trigger] d@[j] <= '9',
        decreases d@.len() - i,
    {
        if !('0' <= d[i] && d[i] <= '9') {
            assert(!ascii_digits(d@));
            return None;
        }
        i += 1;
    }
    let v = digits_exec(&d);
    proof {
        lemma_digits_bound(d@);
        lemma_pow10_le(d@.len(), 18);
        reveal_with_fuel(pow10, 19);
    }
    let n = v as i64;
    if neg { Some(-n) } else { Some(n) }
}

fn int_hist_exec(vals: &Vec<ParamValueCount>) -> (r: Option<Vec<(i64, usize)>>)
    ensures
        match r {
            Some(h) => int_hist(values_view(vals@)) == Some(h@.map_values(|x: (i64, usize)| x)),
            None => int_hist(values_view(vals@)) is None,
        },
{
    let ghost vv = values_view(vals@);
    let mut h: Vec<(i64, usize)> = Vec::new();
    let mut i: usize = 0;
    assert(vv.subrange(0, 0) =~= Seq::<ValueV>::empty());
    assert(h@.map_values(|x: (i64, usize)| x) =~= Seq::<(i64, usize)>::empty());
    while i < vals.len()
        invariant
            vv == values_view(vals@),
            i <= vals@.len(),
            int_hist(vv.subrange(0, i as int)) == Some(h@.map_values(|x: (i64, usize)| x)),
        decreases vals@.len() - i,
    {
        let ghost sub = vv.subrange(0, i + 1);
        assert(sub.drop_last() =~= vv.subrange(0, i as int));
        assert(sub.last() == (vals@[i as int].value@, vals@[i as int].count as nat));
        match int_text_exec(&vals[i].value) {
            Some(n) => {
                let ghost b = h@.map_values(|x: (i64, usize)| x);
                h.push((n, vals[i].count));
                assert(h@.map_values(|x: (i64, usize)| x) =~= b.push((n, vals@[i as int].count)));
            },
            None => {
                assert(int_hist(sub) is None);
                proof {
                    lemma_int_hist_none(vv, i as int + 1);
                }
                return None;
            },
        }
        i += 1;
    }
    assert(vv.subrange(0, vals@.len() as int) =~= vv);
    Some(h)
}

proof fn lemma_int_hist_none(v: Seq<ValueV>, n: int)
    requires
        0 <= n <= v.len(),
        int_hist(v.subrange(0, n)) is None,
    ensures
        int_hist(v) is None,
    decreases v.len() - n,
{
    if n < v.len() {
        let sub = v.subrange(0, n + 1);
        assert(sub.drop_last() =~= v.subrange(0, n));
        lemma_int_hist_none(v, n + 1);
    } else {
        assert(v.subrange(0, n) =~= v);
    }
}

fn seqs_exec(st: &Vec<(String, ParamFieldStats)>) -> (r: Vec<(String, SequenceDescriptor)>)
    ensures
        seqs_view(r@) == seqs_of(stats_view(st@)),
{
    let ghost sv = stats_view(st@);
    let mut out: Vec<(String, SequenceDescriptor)> = Vec::new();
    let mut i: usize = 0;
    assert(seqs_view(out@) =~= seqs_of(sv.subrange(0, 0)));
    while i < st.len()
        invariant
            sv == stats_view(st@),
            i <= st@.len(),
            seqs_view(out@) == seqs_of(sv.subrange(0, i as int)),
        decreases st@.len() - i,
    {
        let ghost sub = sv.subrange(0, i + 1);
        assert(sub.drop_last() =~= sv.subrange(0, i as int));
        assert(sub.last() == sv[i as int]);
        match int_hist_exec(&st[i].1.values) {
            Some(h) => {
                assert(h@.map_values(|x: (i64, usize)| x) =~= h@);
                match detect_sequence(&h, MIN_COVERAGE_NUM, MIN_COVERAGE_DEN) {
                    Some(d) => {
                        let ghost b = seqs_view(out@);
                        out.push((st[i].0.clone(), d));
                        assert(seqs_view(out@) =~= b.push((st@[i as int].0@, desc_view(d))));
                    },
                    None => {},
                }
            },
            None => {},
        }
        i += 1;
    }
    assert(sv.subrange(0, st@.len() as int) =~= sv);
    out
}

/// Minute width of the time buckets the registry reads bursts from.
pub const BURST_BUCKET_SECS: i64 = 60;
/// How many top services and hosts a template reports.
pub const TOP_SOURCES: usize = 5;

/// What the analyzers found for one template.
#[derive(Debug)]
pub struct PatternFindings {
    pub param_stats: Vec<(String, ParamFieldStats)>,
    pub param_anomalies: Vec<ParameterAnomaly>,
    pub bursts: Vec<BurstPeriod>,
    pub sequences: Vec<(String, SequenceDescriptor)>,
    pub top_services: Vec<(String, usize)>,
    pub top_hosts: Vec<(String, usize)>,
}

/// The findings of every analyzer for the aggregate `p`: parameter
/// statistics (values by count descending, then value ascending), parameter
/// anomalies over them, bursts of its minute buckets (three times the
/// median), sequence runs of its integer parameters, and the top services
/// and hosts.
pub open spec fn findings_of(r: PatternFindings, p: PatternOut) -> bool {
    &&& stats_view(r.param_stats@) == param_stats_of(hist_view(p.params@))
    &&& panoms_view(r.param_anomalies@) == stats_findings(p.total_count as nat, stats_view(r.param_stats@))
    &&& bursts_view(r.bursts@) == bursts_of(buckets_view(p.minute_buckets@), BURST_BUCKET_SECS as int, 3, 1)
    &&& seqs_view(r.sequences@) == seqs_of(stats_view(r.param_stats@))
    &&& patterns_tally(r.top_services@) == top_k(patterns_tally(p.services@), TOP_SOURCES as nat)
    &&& patterns_tally(r.top_hosts@) == top_k(patterns_tally(p.hosts@), TOP_SOURCES as nat)
}

/// Runs every analyzer, in a fixed order, over the aggregate of one template
/// (see `findings_of`).
pub fn analyze_pattern(p: &PatternOut) -> (r: PatternFindings)
    ensures
        findings_of(r, *p),
{
    let param_stats = param_stats(&p.params);
    let param_anomalies = analyze_parameters(p.total_count, &param_stats);
    let bursts = bursts_from_buckets(&p.minute_buckets, BURST_BUCKET_SECS, 3, 1);
    let sequences = seqs_exec(&param_stats);
    let top_services = top_entries(&p.services, TOP_SOURCES);
    let top_hosts = top_entries(&p.hosts, TOP_SOURCES);
    PatternFindings { param_stats, param_anomalies, bursts, sequences, top_services, top_hosts }
}

} // verus!
