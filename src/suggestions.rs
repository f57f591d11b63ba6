//! Suggested follow-up queries: by time for each template's busiest minute,
//! by pattern for new and rare templates; one per query, the highest
//! priority kept, ordered by priority.
use vstd::prelude::*;
use crate::ai::PatternOut;
use crate::anomaly::{AnomalyKind, AnomalyV, PatternAnomaly, anomalies_view};
use crate::text::{chars_eq, chars_of};

verus! {

#[derive(Debug, Clone, Copy, PartialEq, Eq, Structural)]
pub enum Priority {
    High,
    Medium,
    Low,
}

#[derive(Debug, Clone, Copy, PartialEq, Eq, Structural)]
pub enum Command {
    LinesByTime,
    LinesByPattern,
}

/// A query worth running: lines of a template, within a time window (bucket
/// starts, seconds) when it has one.
#[derive(Debug)]
pub struct Suggestion {
    pub priority: Priority,
    pub command: Command,
    pub start: Option<i128>,
    pub end: Option<i128>,
    pub pattern: String,
}

pub type SugV = (Priority, Command, Option<i128>, Option<i128>, Seq<char>);

pub open spec fn sugs_view(v: Seq<Suggestion>) -> Seq<SugV> {
    v.map_values(|s: Suggestion| (s.priority, s.command, s.start, s.end, s.pattern@))
}

pub open spec fn rank(p: Priority) -> nat {
    match p {
        Priority::High => 3,
        Priority::Medium => 2,
        Priority::Low => 1,
    }
}

/// The first bucket with the largest count.
pub open spec fn peak(b: Seq<(i128, usize)>) -> Option<(i128, usize)>
    decreases b.len(),
{
    if b.len() == 0 {
        None
    } else {
        match peak(b.drop_last()) {
            None => Some(b.last()),
            Some(best) => if b.last().1 > best.1 { Some(b.last()) } else { Some(best) },
        }
    }
}

/// A query for the busiest minute of every template with timestamps.
pub open spec fn burst_cands(ps: Seq<PatternOut>) -> Seq<SugV>
    decreases ps.len(),
{
    if ps.len() == 0 {
        Seq::empty()
    } else {
        let prev = burst_cands(ps.drop_last());
        match peak(ps.last().minute_buckets@) {
            Some(m) => prev.push((Priority::High, Command::LinesByTime, Some(m.0), Some(m.0), ps.last().template@)),
            None => prev,
        }
    }
}

/// A query for every new (high priority) and rare (low) template.
pub open spec fn anomaly_cands(a: Seq<AnomalyV>) -> Seq<SugV> {
    a.map_values(|x: AnomalyV| (
        if x.0 == AnomalyKind::NewPattern { Priority::High } else { Priority::Low },
        Command::LinesByPattern,
        None::<i128>,
        None::<i128>,
        x.1,
    ))
}

pub open spec fn same_query(a: SugV, b: SugV) -> bool {
    a.1 == b.1 && a.2 == b.2 && a.3 == b.3 && a.4 == b.4
}

/// The index of the first entry of `acc` from `i` on with the query of `x`.
pub open spec fn find_query(acc: Seq<SugV>, x: SugV, i: int) -> Option<int>
    decreases acc.len() - i,
{
    if i < 0 || i >= acc.len() {
        None
    } else if same_query(acc[i], x) {
        Some(i)
    } else {
        find_query(acc, x, i + 1)
    }
}

/// `x` added: it replaces an entry with its query of lower priority, is
/// dropped beside one of equal or higher priority, or is appended.
pub open spec fn dedup_step(acc: Seq<SugV>, x: SugV) -> Seq<SugV> {
    match find_query(acc, x, 0) {
        Some(j) => if rank(x.0) > rank(acc[j].0) { acc.update(j, x) } else { acc },
        None => acc.push(x),
    }
}

pub open spec fn dedup(c: Seq<SugV>) -> Seq<SugV>
    decreases c.len(),
{
    if c.len() == 0 {
        Seq::empty()
    } else {
        dedup_step(dedup(c.drop_last()), c.last())
    }
}

/// `x` placed after every entry of at least its priority.
pub open spec fn insert_prio(s: Seq<SugV>, x: SugV) -> Seq<SugV>
    decreases s.len(),
{
    if s.len() == 0 {
        seq![x]
    } else if rank(s[0].0) >= rank(x.0) {
        seq![s[0]] + insert_prio(s.drop_first(), x)
    } else {
        seq![x] + s
    }
}

pub open spec fn by_prio(s: Seq<SugV>) -> Seq<SugV>
    decreases s.len(),
{
    if s.len() == 0 {
        Seq::empty()
    } else {
        insert_prio(by_prio(s.drop_last()), s.last())
    }
}

/// The suggestions for `patterns` and their anomalies.
pub open spec fn suggestions_of(ps: Seq<PatternOut>, a: Seq<AnomalyV>) -> Seq<SugV> {
    by_prio(dedup(burst_cands(ps) + anomaly_cands(a)))
}

fn peak_exec(b: &Vec<(i128, usize)>) -> (r: Option<(i128, usize)>)
    ensures
        r == peak(b@),
{
    let mut best: Option<(i128, usize)> = None;
    let mut i: usize = 0;
    assert(b@.subrange(0, 0) =~= Seq::<(i128, usize)>::empty());
    while i < b.len()
        invariant
            i <= b@.len(),
            best == peak(b@.subrange(0, i as int)),
        decreases b@.len() - i,
    {
        let ghost sub = b@.subrange(0, i + 1);
        assert(sub.drop_last() =~= b@.subrange(0, i as int));
        assert(sub.last() == b@[i as int]);
        let x = b[i];
        best = match best {
            None => Some(x),
            Some(bb) => if x.1 > bb.1 { Some(x) } else { Some(bb) },
        };
        i += 1;
    }
    assert(b@.subrange(0, b@.len() as int) =~= b@);
    best
}

fn opt_eq(a: Option<i128>, b: Option<i128>) -> (r: bool)
    ensures
        r == (a == b),
{
    match (a, b) {
        (Some(x), Some(y)) => x == y,
        (None, None) => true,
        _ => false,
    }
}

fn same_query_exec(a: &Suggestion, b: &Suggestion) -> (r: bool)
    ensures
        r == same_query((a.priority, a.command, a.start, a.end, a.pattern@), (b.priority, b.command, b.start, b.end, b.pattern@)),
{
    a.command == b.command && opt_eq(a.start, b.start) && opt_eq(a.end, b.end)
        && chars_eq(&chars_of(a.pattern.as_str()), &chars_of(b.pattern.as_str()))
}

fn rank_exec(p: Priority) -> (r: u8)
    ensures
        r as nat == rank(p),
{
    match p {
        Priority::High => 3,
        Priority::Medium => 2,
        Priority::Low => 1,
    }
}

fn dedup_step_exec(acc: &mut Vec<Suggestion>, x: Suggestion)
    ensures
        sugs_view(final(acc)@) == dedup_step(sugs_view(old(acc)@), (x.priority, x.command, x.start, x.end, x.pattern@)),
{
    let ghost av = sugs_view(acc@);
    let ghost xv = (x.priority, x.command, x.start, x.end, x.pattern@);
    let mut i: usize = 0;
    let mut found = false;
    while i < acc.len() && !found
        invariant
            av == sugs_view(acc@),
            xv == (x.priority, x.command, x.start, x.end, x.pattern@),
            i <= acc@.len(),
            found ==> i < acc@.len() && same_query(av[i as int], xv),
            find_query(av, xv, i as int) == find_query(av, xv, 0),
        decreases acc@.len() - i, if found { 0int } else { 1int },
    {
        assert(av[i as int] == (acc@[i as int].priority, acc@[i as int].command, acc@[i as int].start, acc@[i as int].end, acc@[i as int].pattern@));
        if same_query_exec(&acc[i], &x) {
            found = true;
        } else {
            i += 1;
        }
    }
    if found {
        assert(find_query(av, xv, 0) == Some(i as int));
        if rank_exec(x.priority) > rank_exec(acc[i].priority) {
            acc.set(i, x);
            assert(sugs_view(acc@) =~= av.update(i as int, xv));
        }
    } else {
        assert(find_query(av, xv, i as int) is None);
        acc.push(x);
        assert(sugs_view(acc@) =~= av.push(xv));
    }
}

fn insert_prio_exec(s: Vec<Suggestion>, x: Suggestion) -> (r: Vec<Suggestion>)
    ensures
        sugs_view(r@) == insert_prio(sugs_view(s@), (x.priority, x.command, x.start, x.end, x.pattern@)),
{
    let ghost sv = sugs_view(s@);
    let ghost xv = (x.priority, x.command, x.start, x.end, x.pattern@);
    let xr = rank_exec(x.priority);
    let mut p: usize = 0;
    let mut stop = false;
    assert(sv.subrange(0, sv.len() as int) =~= sv);
    while p < s.len() && !stop
        invariant
            sv == sugs_view(s@),
            xv == (x.priority, x.command, x.start, x.end, x.pattern@),
            xr as nat == rank(x.priority),
            p <= s@.len(),
            stop ==> p < s@.len() && rank(sv[p as int].0) < rank(xv.0),
            sv.subrange(0, p as int) + insert_prio(sv.subrange(p as int, sv.len() as int), xv) == insert_prio(sv, xv),
        decreases s@.len() - p, if stop { 0int } else { 1int },
    {
        let ghost rest = sv.subrange(p as int, sv.len() as int);
        assert(rest[0] == sv[p as int]);
        assert(sv[p as int].0 == s@[p as int].priority);
        if rank_exec(s[p].priority) < xr {
            stop = true;
        } else {
            assert(rest.drop_first() =~= sv.subrange(p + 1, sv.len() as int));
            assert(sv.subrange(0, p as int) + (seq![rest[0]] + insert_prio(rest.drop_first(), xv)) =~= sv.subrange(0, p + 1) + insert_prio(sv.subrange(p + 1, sv.len() as int), xv));
            p += 1;
        }
    }
    let ghost rest = sv.subrange(p as int, sv.len() as int);
    if p < s.len() {
        assert(rest[0] == sv[p as int]);
    }
    let mut s = s;
    s.insert(p, x);
    assert(sugs_view(s@) =~= sv.subrange(0, p as int) + (seq![xv] + rest));
    s
}

/// The suggested queries for ranked patterns and their anomalies (see `suggestions_of`).
pub fn suggest(patterns: &Vec<PatternOut>, anomalies: &Vec<PatternAnomaly>) -> (r: Vec<Suggestion>)
    ensures
        sugs_view(r@) == suggestions_of(patterns@, anomalies_view(anomalies@)),
{
    let ghost c1 = burst_cands(patterns@);
    let ghost c2 = anomaly_cands(anomalies_view(anomalies@));
    let ghost all = c1 + c2;
    let mut acc: Vec<Suggestion> = Vec::new();
    let mut i: usize = 0;
    assert(patterns@.subrange(0, 0) =~= Seq::<PatternOut>::empty());
    assert(sugs_view(acc@) =~= dedup(burst_cands(patterns@.subrange(0, 0))));
    while i < patterns.len()
        invariant
            i <= patterns@.len(),
            sugs_view(acc@) == dedup(burst_cands(patterns@.subrange(0, i as int))),
        decreases patterns@.len() - i,
    {
        let ghost sub = patterns@.subrange(0, i + 1);
        assert(sub.drop_last() =~= patterns@.subrange(0, i as int));
        assert(sub.last() == patterns@[i as int]);
        match peak_exec(&patterns[i].minute_buckets) {
            Some(m) => {
                let x = Suggestion { priority: Priority::High, command: Command::LinesByTime, start: Some(m.0), end: Some(m.0), pattern: patterns[i].template.clone() };
                let ghost xv = (x.priority, x.command, x.start, x.end, x.pattern@);
                dedup_step_exec(&mut acc, x);
                let ghost prevc = burst_cands(patterns@.subrange(0, i as int));
                assert(burst_cands(sub) == prevc.push(xv));
                assert(prevc.push(xv).drop_last() =~= prevc);
            },
            None => {},
        }
        i += 1;
    }
    assert(patterns@.subrange(0, patterns@.len() as int) =~= patterns@);
    let mut j: usize = 0;
    assert(c1 + c2.subrange(0, 0) =~= c1);
    while j < anomalies.len()
        invariant
            c1 == burst_cands(patterns@),
            c2 == anomaly_cands(anomalies_view(anomalies@)),
            j <= anomalies@.len(),
            sugs_view(acc@) == dedup(c1 + c2.subrange(0, j as int)),
        decreases anomalies@.len() - j,
    {
        let a = &anomalies[j];
        let pr = match a.kind {
            AnomalyKind::NewPattern => Priority::High,
            AnomalyKind::RarePattern => Priority::Low,
        };
        let x = Suggestion { priority: pr, command: Command::LinesByPattern, start: None, end: None, pattern: a.template.clone() };
        let ghost xv = (x.priority, x.command, x.start, x.end, x.pattern@);
        assert(c2[j as int] == xv);
        dedup_step_exec(&mut acc, x);
        let ghost np = c1 + c2.subrange(0, j + 1);
        assert(np.drop_last() =~= c1 + c2.subrange(0, j as int));
        assert(np.last() == xv);
        j += 1;
    }
    assert(c2.subrange(0, anomalies@.len() as int) =~= c2);
    let ghost dd = sugs_view(acc@);
    let mut out: Vec<Suggestion> = Vec::new();
    assert(sugs_view(out@) =~= by_prio(dd.subrange(0, 0)));
    let mut rest = acc;
    let n = rest.len();
    let ghost orig = rest@;
    let mut k: usize = 0;
    assert(rest@ =~= orig.subrange(0, n as int));
    while k < n
        invariant
            n == orig.len(),
            dd == sugs_view(orig),
            k <= n,
            rest@ == orig.subrange(k as int, n as int),
            sugs_view(out@) == by_prio(dd.subrange(0, k as int)),
        decreases n - k,
    {
        let x = rest.remove(0);
        assert(x == orig[k as int]);
        assert(rest@ =~= orig.subrange(k + 1, n as int));
        let ghost sub = dd.subrange(0, k + 1);
        assert(sub.drop_last() =~= dd.subrange(0, k as int));
        assert(sub.last() == (x.priority, x.command, x.start, x.end, x.pattern@));
        out = insert_prio_exec(out, x);
        k += 1;
    }
    assert(dd.subrange(0, n as int) =~= dd);
    out
}

} // verus!
