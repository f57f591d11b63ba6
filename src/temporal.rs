//! Bursts: runs of time buckets whose count stands well above the median.
//!
//! Times are seconds since the epoch.
use vstd::prelude::*;
use vstd::seq_lib::{lemma_sorted_unique, group_to_multiset_ensures};
use vstd::relations::{sorted_by, total_ordering};

verus! {

/// The start of the bucket of width `secs` that holds `t` (`t` itself when
/// the width is not positive).
pub open spec fn floor_to(t: int, secs: int) -> int {
    if secs <= 0 {
        t
    } else {
        t - t % secs
    }
}

fn floor_time(t: i64, secs: i64) -> (r: i128)
    ensures
        r == floor_to(t as int, secs as int),
{
    if secs <= 0 {
        t as i128
    } else {
        let m = t.checked_rem_euclid(secs).unwrap();
        (t as i128) - (m as i128)
    }
}

/// How many of `ts` fall in the bucket starting at `b`.
pub open spec fn in_bucket(ts: Seq<i64>, secs: int, b: int) -> nat
    decreases ts.len(),
{
    if ts.len() == 0 {
        0
    } else {
        in_bucket(ts.drop_last(), secs, b) + if floor_to(ts.last() as int, secs) == b { 1nat } else { 0nat }
    }
}

pub open spec fn has_bucket(ts: Seq<i64>, secs: int, b: int) -> bool {
    exists|i: int| 0 <= i < ts.len() && floor_to(#[trigger] ts[i] as int, secs) == b
}

pub open spec fn buckets_view(v: Seq<(i128, usize)>) -> Seq<(int, nat)> {
    v.map_values(|p: (i128, usize)| (p.0 as int, p.1 as nat))
}

/// `v` lists every non-empty bucket of `ts` once, in time order, with its count.
pub open spec fn bucketed(v: Seq<(int, nat)>, ts: Seq<i64>, secs: int) -> bool {
    &&& forall|i: int, j: int| 0 <= i < j < v.len() ==> (#[trigger] v[i]).0 < (#[trigger] v[j]).0
    &&& forall|i: int| 0 <= i < v.len() ==> (#[trigger] v[i]).1 == in_bucket(ts, secs, v[i].0)
    &&& forall|b: int| #![trigger has_bucket(ts, secs, b)] has_bucket(ts, secs, b) <==> exists|i: int| 0 <= i < v.len() && (#[trigger] v[i]).0 == b
}

proof fn lemma_in_bucket(ts: Seq<i64>, secs: int, b: int)
    ensures
        in_bucket(ts, secs, b) <= ts.len(),
        in_bucket(ts, secs, b) > 0 <==> has_bucket(ts, secs, b),
    decreases ts.len(),
{
    if ts.len() > 0 {
        let d = ts.drop_last();
        lemma_in_bucket(d, secs, b);
        if has_bucket(d, secs, b) {
            let i = choose|i: int| 0 <= i < d.len() && floor_to(#[trigger] d[i] as int, secs) == b;
            assert(ts[i] == d[i]);
        }
        if has_bucket(ts, secs, b) && floor_to(ts.last() as int, secs) != b {
            let i = choose|i: int| 0 <= i < ts.len() && floor_to(#[trigger] ts[i] as int, secs) == b;
            assert(d[i] == ts[i]);
        }
        if floor_to(ts.last() as int, secs) == b {
            assert(floor_to(ts[ts.len() - 1] as int, secs) == b);
        }
    }
}

#[verifier::rlimit(60)]
pub(crate) fn add_time(v: &mut Vec<(i128, usize)>, t: i64, secs: i64, ts: Ghost<Seq<i64>>)
    requires
        bucketed(buckets_view(old(v)@), ts@, secs as int),
        ts@.len() < usize::MAX,
    ensures
        bucketed(buckets_view(final(v)@), ts@.push(t), secs as int),
{
    let ghost nt = ts@.push(t);
    let ghost v0 = buckets_view(v@);
    let ghost s = secs as int;
    assert(nt.drop_last() =~= ts@);
    let b = floor_time(t, secs);
    proof {
        lemma_in_bucket(ts@, s, b as int);
        assert(floor_to(nt[ts@.len() as int] as int, s) == b);
    }
    let mut p: usize = 0;
    while p < v.len() && v[p].0 < b
        invariant
            p <= v@.len(),
            v0 == buckets_view(v@),
            forall|i: int| 0 <= i < p ==> (#[trigger] v0[i]).0 < b,
        decreases v@.len() - p,
    {
        p += 1;
    }
    if p < v.len() && v[p].0 == b {
        let (k, c) = v.remove(p);
        assert(c == in_bucket(ts@, s, b as int));
        v.insert(p, (k, c + 1));
        let ghost v1 = buckets_view(v@);
        assert(v1 =~= v0.update(p as int, (b as int, v0[p as int].1 + 1)));
        assert forall|i: int| 0 <= i < v1.len() implies (#[trigger] v1[i]).1 == in_bucket(nt, s, v1[i].0) by {
            if i != p {
                if i > p {
                    assert(v0[p as int].0 < v0[i].0);
                }
            }
        }
        assert forall|bb: int| #![trigger has_bucket(nt, s, bb)] has_bucket(nt, s, bb) <==> exists|i: int| 0 <= i < v1.len() && (#[trigger] v1[i]).0 == bb by {
            if has_bucket(nt, s, bb) {
                let j = choose|j: int| 0 <= j < nt.len() && floor_to(#[trigger] nt[j] as int, s) == bb;
                if j < ts@.len() {
                    assert(ts@[j] == nt[j]);
                    assert(has_bucket(ts@, s, bb));
                    let i = choose|i: int| 0 <= i < v0.len() && (#[trigger] v0[i]).0 == bb;
                    assert(v1[i].0 == bb);
                } else {
                    assert(v1[p as int].0 == bb);
                }
            }
            if exists|i: int| 0 <= i < v1.len() && (#[trigger] v1[i]).0 == bb {
                let i = choose|i: int| 0 <= i < v1.len() && (#[trigger] v1[i]).0 == bb;
                assert(v0[i].0 == bb);
                assert(has_bucket(ts@, s, bb));
                let j = choose|j: int| 0 <= j < ts@.len() && floor_to(#[trigger] ts@[j] as int, s) == bb;
                assert(nt[j] == ts@[j]);
            }
        }
    } else {
        proof {
            assert(!has_bucket(ts@, s, b as int)) by {
                if has_bucket(ts@, s, b as int) {
                    let i = choose|i: int| 0 <= i < v0.len() && (#[trigger] v0[i]).0 == b;
                    if i > p {
                        assert(v0[p as int].0 < v0[i].0);
                    }
                }
            }
        }
        v.insert(p, (b, 1));
        let ghost v1 = buckets_view(v@);
        assert(v1 =~= v0.insert(p as int, (b as int, 1nat)));
        assert forall|i: int, j: int| 0 <= i < j < v1.len() implies (#[trigger] v1[i]).0 < (#[trigger] v1[j]).0 by {
            if j == p {
                assert(v1[i] == v0[i]);
            } else if i == p {
                assert(v1[j] == v0[j - 1]);
                if j - 1 > p {
                    assert(v0[p as int].0 < v0[j - 1].0);
                }
            } else if i < p && j < p {
            } else if i < p {
                assert(v1[i] == v0[i]);
                assert(v1[j] == v0[j - 1]);
            } else {
                assert(v1[i] == v0[i - 1]);
                assert(v1[j] == v0[j - 1]);
            }
        }
        assert forall|i: int| 0 <= i < v1.len() implies (#[trigger] v1[i]).1 == in_bucket(nt, s, v1[i].0) by {
            if i < p {
                assert(v1[i] == v0[i]);
            } else if i > p {
                assert(v1[i] == v0[i - 1]);
                if i - 1 > p {
                    assert(v0[p as int].0 < v0[i - 1].0);
                }
            }
        }
        assert forall|bb: int| #![trigger has_bucket(nt, s, bb)] has_bucket(nt, s, bb) <==> exists|i: int| 0 <= i < v1.len() && (#[trigger] v1[i]).0 == bb by {
            if has_bucket(nt, s, bb) {
                let j = choose|j: int| 0 <= j < nt.len() && floor_to(#[trigger] nt[j] as int, s) == bb;
                if j < ts@.len() {
                    assert(ts@[j] == nt[j]);
                    assert(has_bucket(ts@, s, bb));
                    let i = choose|i: int| 0 <= i < v0.len() && (#[trigger] v0[i]).0 == bb;
                    if i < p {
                        assert(v1[i].0 == bb);
                    } else {
                        assert(v1[i + 1].0 == bb);
                    }
                } else {
                    assert(v1[p as int].0 == bb);
                }
            }
            if exists|i: int| 0 <= i < v1.len() && (#[trigger] v1[i]).0 == bb {
                let i = choose|i: int| 0 <= i < v1.len() && (#[trigger] v1[i]).0 == bb;
                if i == p {
                    assert(floor_to(nt[ts@.len() as int] as int, s) == bb);
                } else {
                    let i0 = if i < p { i } else { i - 1 };
                    assert(v0[i0].0 == bb);
                    assert(has_bucket(ts@, s, bb));
                    let j = choose|j: int| 0 <= j < ts@.len() && floor_to(#[trigger] ts@[j] as int, s) == bb;
                    assert(nt[j] == ts@[j]);
                }
            }
        }
    }
}

/// Counts the times of `times` per bucket of width `secs` (see `bucketed`).
pub fn bucketize(times: &Vec<i64>, secs: i64) -> (r: Vec<(i128, usize)>)
    ensures
        bucketed(buckets_view(r@), times@, secs as int),
{
    let mut v: Vec<(i128, usize)> = Vec::new();
    let mut i: usize = 0;
    assert(buckets_view(v@) =~= Seq::<(int, nat)>::empty());
    assert(times@.subrange(0, 0) =~= Seq::<i64>::empty());
    while i < times.len()
        invariant
            i <= times@.len(),
            bucketed(buckets_view(v@), times@.subrange(0, i as int), secs as int),
        decreases times@.len() - i,
    {
        assert(times@.subrange(0, i as int).push(times@[i as int]) =~= times@.subrange(0, i + 1));
        add_time(&mut v, times[i], secs, Ghost(times@.subrange(0, i as int)));
        i += 1;
    }
    assert(times@.subrange(0, times@.len() as int) =~= times@);
    v
}

pub open spec fn ints(v: Seq<usize>) -> Seq<int> {
    v.map_values(|x: usize| x as int)
}

/// The median of bucket counts, at least 1 (0 when there are none); with an
/// even number of counts, the mean of the two middle ones, rounded down.
pub open spec fn median_spec(c: Seq<int>) -> int {
    if c.len() == 0 {
        0
    } else {
        let s = c.sort();
        let mid = (c.len() / 2) as int;
        let m = if c.len() % 2 == 0 {
            (s[mid - 1] + s[mid]) / 2
        } else {
            s[mid]
        };
        if m < 1 {
            1
        } else {
            m
        }
    }
}

pub open spec fn sorted_ints(s: Seq<int>) -> bool {
    forall|i: int, j: int| 0 <= i < j < s.len() ==> #[trigger] s[i] <= #[trigger] s[j]
}

pub(crate) fn sort_counts(c: &Vec<usize>) -> (r: Vec<usize>)
    ensures
        ints(r@) == ints(c@).sort(),
{
    broadcast use group_to_multiset_ensures;

    let mut r: Vec<usize> = Vec::new();
    let mut i: usize = 0;
    assert(ints(c@).subrange(0, 0) =~= Seq::<int>::empty());
    assert(ints(r@) =~= Seq::<int>::empty());
    while i < c.len()
        invariant
            i <= c@.len(),
            sorted_ints(ints(r@)),
            ints(r@).to_multiset() == ints(c@).subrange(0, i as int).to_multiset(),
        decreases c@.len() - i,
    {
        let x = c[i];
        let mut p: usize = 0;
        while p < r.len() && r[p] <= x
            invariant
                p <= r@.len(),
                forall|k: int| 0 <= k < p ==> r@[k] <= x,
            decreases r@.len() - p,
        {
            p += 1;
        }
        let ghost r0 = ints(r@);
        r.insert(p, x);
        assert(ints(r@) =~= r0.insert(p as int, x as int));
        assert(sorted_ints(ints(r@))) by {
            assert forall|a: int, b: int| 0 <= a < b < ints(r@).len() implies #[trigger] ints(r@)[a] <= #[trigger] ints(r@)[b] by {
                if a < p && b == p {
                } else if a == p && b > p {
                    if b - 1 > p {
                        assert(r0[p as int] <= r0[b - 1]);
                    }
                } else if a < p && b > p {
                    assert(r0[a] <= r0[b - 1]);
                } else if a > p {
                    assert(r0[a - 1] <= r0[b - 1]);
                }
            }
        }
        assert(ints(c@).subrange(0, i + 1) =~= ints(c@).subrange(0, i as int).push(x as int));
        proof {
            vstd::seq_lib::to_multiset_insert(r0, p as int, x as int);
            vstd::seq_lib::to_multiset_build(ints(c@).subrange(0, i as int), x as int);
        }
        i += 1;
    }
    assert(ints(c@).subrange(0, c@.len() as int) =~= ints(c@));
    proof {
        let leq = |x: int, y: int| x <= y;
        assert forall|a: int, b: int| 0 <= a < b < ints(r@).len() implies #[trigger] leq(ints(r@)[a], ints(r@)[b]) by {
            assert(ints(r@)[a] <= ints(r@)[b]);
        }
        assert(sorted_by(ints(r@), leq));
        ints(c@).lemma_sort_ensures();
        assert(total_ordering(|x: int, y: int| x <= y));
        lemma_sorted_unique(ints(r@), ints(c@).sort(), |x: int, y: int| x <= y);
    }
    r
}

/// The median of bucket counts (see `median_spec`).
pub fn median_count(c: &Vec<usize>) -> (r: usize)
    ensures
        r as int == median_spec(ints(c@)),
{
    if c.len() == 0 {
        return 0;
    }
    let s = sort_counts(c);
    let mid = c.len() / 2;
    assert(ints(s@).len() == c@.len()) by {
        ints(c@).lemma_sort_ensures();
        assert(ints(c@).to_multiset().len() == ints(c@).len()) by {
            broadcast use group_to_multiset_ensures;
        }
        assert(ints(c@).sort().to_multiset().len() == ints(c@).sort().len()) by {
            broadcast use group_to_multiset_ensures;
        }
    }
    let m = if c.len() % 2 == 0 {
        assert(ints(s@)[mid - 1] == s@[mid - 1] as int);
        assert(ints(s@)[mid as int] == s@[mid as int] as int);
        ((s[mid - 1] as u128 + s[mid] as u128) / 2) as usize
    } else {
        assert(ints(s@)[mid as int] == s@[mid as int] as int);
        s[mid]
    };
    if m < 1 {
        1
    } else {
        m
    }
}


/// A run of consecutive non-empty buckets whose counts reach the threshold:
/// first and last bucket, highest count, and the median it was measured
/// against (its severity is `peak_rate / median`).
#[derive(Debug)]
pub struct BurstPeriod {
    pub start_time: i128,
    pub end_time: i128,
    pub peak_rate: usize,
    pub median: usize,
}

pub type BurstV = (int, int, nat, nat);

pub open spec fn bursts_view(v: Seq<BurstPeriod>) -> Seq<BurstV> {
    v.map_values(|b: BurstPeriod| (b.start_time as int, b.end_time as int, b.peak_rate as nat, b.median as nat))
}

/// A count reaches `num / den` times the median, and at least 1.
pub open spec fn hot(c: nat, med: nat, num: nat, den: nat) -> bool {
    c >= 1 && c * den >= med * num
}

/// Bucket `i` directly follows bucket `i - 1` (no empty bucket between).
pub open spec fn follows(v: Seq<(int, nat)>, i: int, w: int) -> bool {
    i >= 1 && v[i].0 == v[i - 1].0 + w
}

/// The bursts among buckets `v` (of width `w`) from index `i` on, `cur`
/// being the run open so far (its first bucket and highest count). A run is
/// made of consecutive hot buckets: a cold or empty bucket ends it.
pub open spec fn scan_bursts(v: Seq<(int, nat)>, w: int, i: int, cur: Option<(int, nat)>, med: nat, num: nat, den: nat) -> Seq<BurstV>
    decreases v.len() - i,
{
    if i >= v.len() || i < 0 {
        match cur {
            Some(run) => seq![(run.0, v.last().0, run.1, med)],
            None => Seq::empty(),
        }
    } else if hot(v[i].1, med, num, den) {
        match cur {
            None => scan_bursts(v, w, i + 1, Some((v[i].0, v[i].1)), med, num, den),
            Some(run) => if follows(v, i, w) {
                scan_bursts(v, w, i + 1, Some((run.0, if v[i].1 > run.1 { v[i].1 } else { run.1 })), med, num, den)
            } else {
                seq![(run.0, v[i - 1].0, run.1, med)] + scan_bursts(v, w, i + 1, Some((v[i].0, v[i].1)), med, num, den)
            },
        }
    } else {
        match cur {
            Some(run) => seq![(run.0, v[i - 1].0, run.1, med)] + scan_bursts(v, w, i + 1, None, med, num, den),
            None => scan_bursts(v, w, i + 1, None, med, num, den),
        }
    }
}

pub open spec fn bucket_counts(v: Seq<(int, nat)>) -> Seq<int> {
    v.map_values(|p: (int, nat)| p.1 as int)
}

/// The bursts of bucketed counts (buckets of width `w`), measured against
/// their median.
pub open spec fn bursts_of(v: Seq<(int, nat)>, w: int, num: nat, den: nat) -> Seq<BurstV> {
    scan_bursts(v, w, 0, None, median_spec(bucket_counts(v)) as nat, num, den)
}

/// The bursts of bucketed counts (see `bursts_of`); the threshold is
/// `mult_num / mult_den` times the median bucket count, and at least 1.
pub fn bursts_from_buckets(v: &Vec<(i128, usize)>, width: i64, mult_num: u64, mult_den: u64) -> (r: Vec<BurstPeriod>)
    ensures
        bursts_view(r@) == bursts_of(buckets_view(v@), width as int, mult_num as nat, mult_den as nat),
{
    let ghost bv = buckets_view(v@);
    let mut counts: Vec<usize> = Vec::new();
    let mut k: usize = 0;
    while k < v.len()
        invariant
            k <= v@.len(),
            bv == buckets_view(v@),
            ints(counts@) == bucket_counts(bv).subrange(0, k as int),
        decreases v@.len() - k,
    {
        assert(bv[k as int] == (v@[k as int].0 as int, v@[k as int].1 as nat));
        assert(bucket_counts(bv)[k as int] == v@[k as int].1 as int);
        let ghost c0 = counts@;
        counts.push(v[k].1);
        assert(counts@ == c0.push(v@[k as int].1));
        assert(ints(counts@) =~= ints(c0).push(v@[k as int].1 as int));
        assert(bucket_counts(bv).subrange(0, k + 1) =~= bucket_counts(bv).subrange(0, k as int).push(v@[k as int].1 as int));
        k += 1;
    }
    assert(bucket_counts(bv).subrange(0, v@.len() as int) =~= bucket_counts(bv));
    let med = median_count(&counts);
    assert(med >= 0);
    let ghost gm = median_spec(bucket_counts(bv)) as nat;
    assert(gm == med as nat);
    let mut out: Vec<BurstPeriod> = Vec::new();
    let mut cur: Option<(i128, usize)> = None;
    let mut i: usize = 0;
    assert(bursts_view(out@) =~= Seq::<BurstV>::empty());
    while i < v.len()
        invariant
            i <= v@.len(),
            bv == buckets_view(v@),
            gm == med as nat,
            cur is Some ==> i >= 1,
            bursts_view(out@) + scan_bursts(bv, width as int, i as int, match cur {
                Some(run) => Some((run.0 as int, run.1 as nat)),
                None => None,
            }, gm, mult_num as nat, mult_den as nat) == bursts_of(bv, width as int, mult_num as nat, mult_den as nat),
        decreases v@.len() - i,
    {
        let (t, c) = v[i];
        assert(bv[i as int] == (t as int, c as nat));
        let c64 = c as u64;
        let m64 = med as u64;
        proof {
            crate::anomaly::lemma_mul_fits(c64, mult_den);
            crate::anomaly::lemma_mul_fits(m64, mult_num);
        }
        let is_hot = c >= 1 && (c64 as u128) * (mult_den as u128) >= (m64 as u128) * (mult_num as u128);
        assert(is_hot == hot(c as nat, gm, mult_num as nat, mult_den as nat));
        if is_hot {
            match cur {
                None => {
                    cur = Some((t, c));
                },
                Some((s, p)) => {
                    let (prev_t, _) = v[i - 1];
                    assert(bv[i - 1] == (prev_t as int, v@[i - 1].1 as nat));
                    let wd = width as i128;
                    let next_to = if wd >= 0 {
                        prev_t <= i128::MAX - wd && t == prev_t + wd
                    } else {
                        prev_t >= i128::MIN - wd && t == prev_t + wd
                    };
                    assert(next_to == follows(bv, i as int, width as int));
                    if next_to {
                        cur = Some((s, if c > p { c } else { p }));
                    } else {
                        let ghost before = bursts_view(out@);
                        out.push(BurstPeriod { start_time: s, end_time: prev_t, peak_rate: p, median: med });
                        assert(bursts_view(out@) =~= before.push((s as int, prev_t as int, p as nat, gm)));
                        assert(before.push((s as int, prev_t as int, p as nat, gm)) + scan_bursts(bv, width as int, i + 1, Some((t as int, c as nat)), gm, mult_num as nat, mult_den as nat)
                            =~= before + (seq![(s as int, prev_t as int, p as nat, gm)] + scan_bursts(bv, width as int, i + 1, Some((t as int, c as nat)), gm, mult_num as nat, mult_den as nat)));
                        cur = Some((t, c));
                    }
                },
            }
        } else {
            match cur {
                Some((s, p)) => {
                    let (prev_t, _) = v[i - 1];
                    assert(bv[i - 1] == (prev_t as int, v@[i - 1].1 as nat));
                    let ghost before = bursts_view(out@);
                    out.push(BurstPeriod { start_time: s, end_time: prev_t, peak_rate: p, median: med });
                    assert(bursts_view(out@) =~= before.push((s as int, prev_t as int, p as nat, gm)));
                    assert(before.push((s as int, prev_t as int, p as nat, gm)) + scan_bursts(bv, width as int, i + 1, None, gm, mult_num as nat, mult_den as nat)
                        =~= before + (seq![(s as int, prev_t as int, p as nat, gm)] + scan_bursts(bv, width as int, i + 1, None, gm, mult_num as nat, mult_den as nat)));
                },
                None => {},
            }
            cur = None;
        }
        i += 1;
    }
    match cur {
        Some((s, p)) => {
            let (last_t, _) = v[v.len() - 1];
            assert(bv.last() == (last_t as int, v@[v@.len() - 1].1 as nat));
            let ghost before = bursts_view(out@);
            out.push(BurstPeriod { start_time: s, end_time: last_t, peak_rate: p, median: med });
            assert(bursts_view(out@) =~= before + seq![(s as int, last_t as int, p as nat, gm)]);
        },
        None => {
            assert(bursts_view(out@) + Seq::<BurstV>::empty() =~= bursts_view(out@));
        },
    }
    out
}

/// Bursts of the times `times` over buckets of `bucket_secs` seconds: the
/// times are counted per bucket (see `bucketed`), then runs are found as
/// `bursts_of` states.
pub fn compute_bursts(times: &Vec<i64>, bucket_secs: i64, mult_num: u64, mult_den: u64) -> (r: Vec<BurstPeriod>)
    ensures
        exists|v: Seq<(int, nat)>| bucketed(v, times@, bucket_secs as int) && bursts_view(r@) == bursts_of(v, bucket_secs as int, mult_num as nat, mult_den as nat),
{
    let v = bucketize(times, bucket_secs);
    let r = bursts_from_buckets(&v, bucket_secs, mult_num, mult_den);
    assert(bucketed(buckets_view(v@), times@, bucket_secs as int));
    r
}


pub open spec fn wide(v: Seq<i64>) -> Seq<int> {
    v.map_values(|x: i64| x as int)
}

/// The times in increasing order.
pub fn sort_times(c: &Vec<i64>) -> (r: Vec<i64>)
    ensures
        wide(r@) == wide(c@).sort(),
{
    broadcast use group_to_multiset_ensures;

    let mut r: Vec<i64> = Vec::new();
    let mut i: usize = 0;
    assert(wide(c@).subrange(0, 0) =~= Seq::<int>::empty());
    assert(wide(r@) =~= Seq::<int>::empty());
    while i < c.len()
        invariant
            i <= c@.len(),
            sorted_ints(wide(r@)),
            wide(r@).to_multiset() == wide(c@).subrange(0, i as int).to_multiset(),
        decreases c@.len() - i,
    {
        let x = c[i];
        let mut p: usize = 0;
        while p < r.len() && r[p] <= x
            invariant
                p <= r@.len(),
                forall|k: int| 0 <= k < p ==> r@[k] <= x,
            decreases r@.len() - p,
        {
            p += 1;
        }
        let ghost r0 = wide(r@);
        r.insert(p, x);
        assert(wide(r@) =~= r0.insert(p as int, x as int));
        assert(sorted_ints(wide(r@))) by {
            assert forall|a: int, b: int| 0 <= a < b < wide(r@).len() implies #[trigger] wide(r@)[a] <= #[trigger] wide(r@)[b] by {
                if a < p && b == p {
                } else if a == p && b > p {
                    if b - 1 > p {
                        assert(r0[p as int] <= r0[b - 1]);
                    }
                } else if a < p && b > p {
                    assert(r0[a] <= r0[b - 1]);
                } else if a > p {
                    assert(r0[a - 1] <= r0[b - 1]);
                }
            }
        }
        assert(wide(c@).subrange(0, i + 1) =~= wide(c@).subrange(0, i as int).push(x as int));
        proof {
            vstd::seq_lib::to_multiset_insert(r0, p as int, x as int);
            vstd::seq_lib::to_multiset_build(wide(c@).subrange(0, i as int), x as int);
        }
        i += 1;
    }
    assert(wide(c@).subrange(0, c@.len() as int) =~= wide(c@));
    proof {
        let leq = |x: int, y: int| x <= y;
        assert forall|a: int, b: int| 0 <= a < b < wide(r@).len() implies #[trigger] leq(wide(r@)[a], wide(r@)[b]) by {
            assert(wide(r@)[a] <= wide(r@)[b]);
        }
        assert(sorted_by(wide(r@), leq));
        wide(c@).lemma_sort_ensures();
        assert(total_ordering(|x: int, y: int| x <= y));
        lemma_sorted_unique(wide(r@), wide(c@).sort(), |x: int, y: int| x <= y);
    }
    r
}

/// A pause between two consecutive events (seconds).
#[derive(Debug)]
pub struct GapPeriod {
    pub start_time: i64,
    pub end_time: i64,
    pub duration_seconds: i128,
}

pub type GapV = (int, int, int);

pub open spec fn gaps_view(v: Seq<GapPeriod>) -> Seq<GapV> {
    v.map_values(|g: GapPeriod| (g.start_time as int, g.end_time as int, g.duration_seconds as int))
}

/// The pauses between consecutive sorted times.
pub open spec fn pauses(s: Seq<int>) -> Seq<int> {
    Seq::new((if s.len() > 0 { s.len() - 1 } else { 0 }) as nat, |k: int| s[k + 1] - s[k])
}

/// The median pause: the middle one, or the mean of the two middle ones
/// rounded down.
pub open spec fn median_pause(d: Seq<int>) -> int {
    let s = d.sort();
    let mid = (d.len() / 2) as int;
    if d.len() % 2 == 0 { (s[mid - 1] + s[mid]) / 2 } else { s[mid] }
}

/// The gaps among `t`: pauses of at least `num / den` times the median
/// pause, and at least a second.
pub open spec fn gaps_of(t: Seq<int>, num: nat, den: nat) -> Seq<GapV>
    decreases 0nat,
{
    if t.len() < 2 {
        Seq::empty()
    } else {
        let s = t.sort();
        let d = pauses(s);
        let med = median_pause(d);
        gap_scan(s, d, med, num, den, 0)
    }
}

pub open spec fn gap_scan(s: Seq<int>, d: Seq<int>, med: int, num: nat, den: nat, k: int) -> Seq<GapV>
    decreases d.len() - k,
{
    if k < 0 || k >= d.len() {
        Seq::empty()
    } else if d[k] >= 1 && d[k] * den >= med * num {
        seq![(s[k], s[k + 1], d[k])] + gap_scan(s, d, med, num, den, k + 1)
    } else {
        gap_scan(s, d, med, num, den, k + 1)
    }
}

fn sort_wide(c: &Vec<i128>) -> (r: Vec<i128>)
    ensures
        r@.map_values(|x: i128| x as int) == c@.map_values(|x: i128| x as int).sort(),
{
    broadcast use group_to_multiset_ensures;

    let ghost cv = c@.map_values(|x: i128| x as int);
    let mut r: Vec<i128> = Vec::new();
    let mut i: usize = 0;
    assert(cv.subrange(0, 0) =~= Seq::<int>::empty());
    assert(r@.map_values(|x: i128| x as int) =~= Seq::<int>::empty());
    while i < c.len()
        invariant
            i <= c@.len(),
            cv == c@.map_values(|x: i128| x as int),
            sorted_ints(r@.map_values(|x: i128| x as int)),
            r@.map_values(|x: i128| x as int).to_multiset() == cv.subrange(0, i as int).to_multiset(),
        decreases c@.len() - i,
    {
        let x = c[i];
        let mut p: usize = 0;
        while p < r.len() && r[p] <= x
            invariant
                p <= r@.len(),
                forall|k: int| 0 <= k < p ==> r@[k] <= x,
            decreases r@.len() - p,
        {
            p += 1;
        }
        let ghost r0 = r@.map_values(|x: i128| x as int);
        r.insert(p, x);
        assert(r@.map_values(|x: i128| x as int) =~= r0.insert(p as int, x as int));
        let ghost r1 = r@.map_values(|x: i128| x as int);
        assert(sorted_ints(r1)) by {
            assert forall|a: int, b: int| 0 <= a < b < r1.len() implies #[trigger] r1[a] <= #[trigger] r1[b] by {
                if a < p && b == p {
                } else if a == p && b > p {
                    if b - 1 > p {
                        assert(r0[p as int] <= r0[b - 1]);
                    }
                } else if a < p && b > p {
                    assert(r0[a] <= r0[b - 1]);
                } else if a > p {
                    assert(r0[a - 1] <= r0[b - 1]);
                }
            }
        }
        assert(cv.subrange(0, i + 1) =~= cv.subrange(0, i as int).push(x as int));
        proof {
            vstd::seq_lib::to_multiset_insert(r0, p as int, x as int);
            vstd::seq_lib::to_multiset_build(cv.subrange(0, i as int), x as int);
        }
        i += 1;
    }
    assert(cv.subrange(0, c@.len() as int) =~= cv);
    proof {
        let rv = r@.map_values(|x: i128| x as int);
        let leq = |x: int, y: int| x <= y;
        assert forall|a: int, b: int| 0 <= a < b < rv.len() implies #[trigger] leq(rv[a], rv[b]) by {
            assert(rv[a] <= rv[b]);
        }
        assert(sorted_by(rv, leq));
        cv.lemma_sort_ensures();
        assert(total_ordering(|x: int, y: int| x <= y));
        lemma_sorted_unique(rv, cv.sort(), |x: int, y: int| x <= y);
    }
    r
}

pub proof fn lemma_sort_len(s: Seq<int>)
    ensures
        s.sort().len() == s.len(),
{
    broadcast use group_to_multiset_ensures;

    s.lemma_sort_ensures();
    assert(s.to_multiset().len() == s.len());
    assert(s.sort().to_multiset().len() == s.sort().len());
}

proof fn lemma_sorted_from(s: Seq<int>, lo: int, hi: int)
    requires
        forall|i: int| 0 <= i < s.len() ==> lo <= #[trigger] s[i] <= hi,
    ensures
        forall|i: int| 0 <= i < s.sort().len() ==> lo <= #[trigger] s.sort()[i] <= hi,
{
    broadcast use group_to_multiset_ensures;

    s.lemma_sort_ensures();
    assert forall|i: int| 0 <= i < s.sort().len() implies lo <= #[trigger] s.sort()[i] <= hi by {
        let x = s.sort()[i];
        assert(s.sort().contains(x));
        assert(s.sort().to_multiset().count(x) > 0);
        assert(s.to_multiset().count(x) > 0);
        assert(s.contains(x));
    }
}

/// The gaps among `times` (seconds; see `gaps_of`), the threshold being
/// `mult_num / mult_den` times the median pause.
pub fn compute_gaps(times: &Vec<i64>, mult_num: u64, mult_den: u64) -> (r: Vec<GapPeriod>)
    ensures
        gaps_view(r@) == gaps_of(wide(times@), mult_num as nat, mult_den as nat),
{
    let mut out: Vec<GapPeriod> = Vec::new();
    if times.len() < 2 {
        assert(gaps_view(out@) =~= Seq::<GapV>::empty());
        return out;
    }
    let s = sort_times(times);
    let ghost sw = wide(s@);
    proof {
        lemma_sort_len(wide(times@));
        wide(times@).lemma_sort_ensures();
        assert forall|a: int, b: int| 0 <= a < b < sw.len() implies #[trigger] sw[a] <= #[trigger] sw[b] by {
            assert((|x: int, y: int| x <= y)(sw[a], sw[b]));
        }
    }
    assert(sw.len() == times@.len());
    let n = s.len();
    let mut d: Vec<i128> = Vec::new();
    let mut k: usize = 0;
    while k + 1 < n
        invariant
            n == s@.len(),
            n >= 2,
            sw == wide(s@),
            sorted_ints(sw),
            k + 1 <= n,
            d@.len() == k,
            forall|q: int| 0 <= q < k ==> d@[q] as int == pauses(sw)[q],
            forall|q: int| 0 <= q < k ==> 0 <= #[trigger] d@[q] <= u64::MAX,
        decreases n - k,
    {
        assert(sw[k as int] <= sw[k + 1]);
        d.push((s[k + 1] as i128) - (s[k] as i128));
        k += 1;
    }
    let ghost dv = d@.map_values(|x: i128| x as int);
    assert(dv =~= pauses(sw));
    let ds = sort_wide(&d);
    proof {
        lemma_sort_len(dv);
        lemma_sorted_from(dv, 0, u64::MAX as int);
    }
    let m = d.len();
    let mid = m / 2;
    let ghost dsv = ds@.map_values(|x: i128| x as int);
    assert(dsv.len() == m);
    let med: i128 = if m % 2 == 0 {
        assert(dsv[mid - 1] == ds@[mid - 1] as int && dsv[mid as int] == ds@[mid as int] as int);
        (ds[mid - 1] + ds[mid]) / 2
    } else {
        assert(dsv[mid as int] == ds@[mid as int] as int);
        ds[mid]
    };
    assert(med as int == median_pause(dv));
    assert(0 <= med <= u64::MAX);
    let med64 = med as u64;
    let mut q: usize = 0;
    assert(gaps_of(wide(times@), mult_num as nat, mult_den as nat) == gap_scan(sw, dv, med as int, mult_num as nat, mult_den as nat, 0));
    while q < m
        invariant
            m == d@.len(),
            m + 1 == n,
            n == s@.len(),
            sw == wide(s@),
            dv == d@.map_values(|x: i128| x as int),
            dv == pauses(sw),
            forall|q: int| 0 <= q < m ==> 0 <= #[trigger] d@[q] <= u64::MAX,
            med64 as int == med as int,
            gaps_view(out@) + gap_scan(sw, dv, med as int, mult_num as nat, mult_den as nat, q as int)
                == gap_scan(sw, dv, med as int, mult_num as nat, mult_den as nat, 0),
            q <= m,
        decreases m - q,
    {
        let dq = d[q];
        assert(dv[q as int] == dq as int);
        let d64 = dq as u64;
        proof {
            crate::anomaly::lemma_mul_fits(d64, mult_den);
            crate::anomaly::lemma_mul_fits(med64, mult_num);
        }
        if dq >= 1 && (d64 as u128) * (mult_den as u128) >= (med64 as u128) * (mult_num as u128) {
            let ghost before = gaps_view(out@);
            out.push(GapPeriod { start_time: s[q], end_time: s[q + 1], duration_seconds: dq });
            assert(gaps_view(out@) =~= before.push((sw[q as int], sw[q + 1], dv[q as int])));
            assert(before.push((sw[q as int], sw[q + 1], dv[q as int])) + gap_scan(sw, dv, med as int, mult_num as nat, mult_den as nat, q + 1)
                =~= before + (seq![(sw[q as int], sw[q + 1], dv[q as int])] + gap_scan(sw, dv, med as int, mult_num as nat, mult_den as nat, q + 1)));
        }
        q += 1;
    }
    assert(gaps_view(out@) + Seq::<GapV>::empty() =~= gaps_view(out@));
    out
}

} // verus!
