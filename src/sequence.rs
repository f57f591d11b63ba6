//! Sequence compaction: a parameter histogram whose values mostly form an
//! evenly spaced integer run is summarized by that run.
use vstd::prelude::*;

verus! {

/// The run that summarizes a histogram: first and last value, step, how
/// many distinct values lie on it, the size it is measured against (the
/// larger of the number of distinct values and of grid points from first to
/// last), and the total count of its values. Its coverage ratio is
/// `covered / span`.
#[derive(Debug, Clone, Copy, PartialEq, Eq, Structural)]
pub struct SequenceDescriptor {
    pub start: i64,
    pub end: i64,
    pub step: i128,
    pub covered: u64,
    pub span: u128,
    pub count: u128,
}

pub open spec fn keys_of(h: Seq<(i64, usize)>) -> Seq<int> {
    h.map_values(|p: (i64, usize)| p.0 as int)
}

pub open spec fn increasing(x: Seq<int>) -> bool {
    forall|i: int, j: int| 0 <= i < j < x.len() ==> x[i] < x[j]
}

/// The smallest gap between consecutive values among the first `n`.
pub open spec fn min_gap(x: Seq<int>, n: int) -> int
    decreases n,
{
    if n <= 2 {
        x[1] - x[0]
    } else {
        let m = min_gap(x, n - 1);
        let g = x[n - 1] - x[n - 2];
        if g < m { g } else { m }
    }
}

/// Value `i` follows value `i - 1` on the run: one or two steps further.
pub open spec fn on_run(x: Seq<int>, d: int, i: int) -> bool {
    x[i] - x[i - 1] == d || x[i] - x[i - 1] == 2 * d
}

/// The first index of the run that ends at `i`.
pub open spec fn run_start(x: Seq<int>, d: int, i: int) -> int
    decreases i,
{
    if i <= 0 {
        0
    } else if on_run(x, d, i) {
        run_start(x, d, i - 1)
    } else {
        i
    }
}

/// The last index of the longest run among the first `n` values (the
/// first such run on a tie).
pub open spec fn best_end(x: Seq<int>, d: int, n: int) -> int
    decreases n,
{
    if n <= 1 {
        0
    } else {
        let b = best_end(x, d, n - 1);
        if (n - 1) - run_start(x, d, n - 1) > b - run_start(x, d, b) { n - 1 } else { b }
    }
}

pub open spec fn count_sum(h: Seq<(i64, usize)>, lo: int, hi: int) -> int
    decreases hi - lo,
{
    if hi <= lo {
        0
    } else {
        count_sum(h, lo, hi - 1) + h[hi - 1].1 as int
    }
}

/// The run of a histogram with at least two values, as a descriptor view
/// (start, end, step, covered, span, count).
pub open spec fn run_of(h: Seq<(i64, usize)>) -> (int, int, int, int, int, int) {
    let x = keys_of(h);
    let n = x.len() as int;
    let d = min_gap(x, n);
    let e = best_end(x, d, n);
    let b = run_start(x, d, e);
    let covered = e - b + 1;
    let grid = (x[e] - x[b]) / d + 1;
    let span = if n > grid { n } else { grid };
    (x[b], x[e], d, covered, span, count_sum(h, b, e + 1))
}

pub open spec fn desc_view(s: SequenceDescriptor) -> (int, int, int, int, int, int) {
    (s.start as int, s.end as int, s.step as int, s.covered as int, s.span as int, s.count as int)
}

/// The run of a histogram when it covers at least `num / den` of it.
pub open spec fn sequence_of(h: Seq<(i64, usize)>, num: nat, den: nat) -> Option<(int, int, int, int, int, int)> {
    if h.len() < 2 {
        None
    } else {
        let r = run_of(h);
        if r.3 * den >= r.4 * num { Some(r) } else { None }
    }
}

pub proof fn lemma_min_gap(x: Seq<int>, n: int)
    requires
        2 <= n <= x.len(),
        increasing(x),
    ensures
        1 <= min_gap(x, n),
        forall|i: int| 1 <= i < n ==> min_gap(x, n) <= #[trigger] x[i] - x[i - 1],
    decreases n,
{
    if n > 2 {
        lemma_min_gap(x, n - 1);
    }
}

proof fn lemma_run_start(x: Seq<int>, d: int, i: int)
    requires
        0 <= i,
    ensures
        0 <= run_start(x, d, i) <= i,
    decreases i,
{
    if i > 0 && on_run(x, d, i) {
        lemma_run_start(x, d, i - 1);
    }
}

proof fn lemma_best_end(x: Seq<int>, d: int, n: int)
    requires
        1 <= n,
    ensures
        0 <= best_end(x, d, n) < n,
    decreases n,
{
    if n > 1 {
        lemma_best_end(x, d, n - 1);
    }
}

fn min_gap_exec(values: &Vec<(i64, usize)>) -> (d: i128)
    requires
        values@.len() >= 2,
        increasing(keys_of(values@)),
    ensures
        d as int == min_gap(keys_of(values@), values@.len() as int),
        1 <= d,
{
    let n = values.len();
    let ghost x = keys_of(values@);
    assert(x[1] == values@[1].0 as int && x[0] == values@[0].0 as int);
    let mut d: i128 = (values[1].0 as i128) - (values[0].0 as i128);
    let mut i: usize = 2;
    while i < n
        invariant
            2 <= i <= n,
            n == values@.len(),
            x == keys_of(values@),
            d as int == min_gap(x, i as int),
        decreases n - i,
    {
        assert(x[i as int] == values@[i as int].0 as int && x[i - 1] == values@[i - 1].0 as int);
        let g = (values[i].0 as i128) - (values[i - 1].0 as i128);
        if g < d {
            d = g;
        }
        i += 1;
    }
    proof {
        lemma_min_gap(x, n as int);
    }
    d
}

fn best_run_exec(values: &Vec<(i64, usize)>, d: i128) -> (r: (usize, usize))
    requires
        values@.len() >= 2,
        1 <= d <= u64::MAX,
    ensures
        r.1 as int == best_end(keys_of(values@), d as int, values@.len() as int),
        r.0 as int == run_start(keys_of(values@), d as int, r.1 as int),
        r.0 <= r.1 < values@.len(),
{
    let n = values.len();
    let ghost x = keys_of(values@);
    let mut cur: usize = 0;
    let mut best: usize = 0;
    let mut best_start: usize = 0;
    let mut k: usize = 1;
    while k < n
        invariant
            1 <= k <= n,
            n == values@.len(),
            x == keys_of(values@),
            1 <= d <= u64::MAX,
            cur as int == run_start(x, d as int, k - 1),
            best as int == best_end(x, d as int, k as int),
            best_start as int == run_start(x, d as int, best as int),
            best < k,
            cur < k,
            best_start <= best,
        decreases n - k,
    {
        assert(x[k as int] == values@[k as int].0 as int && x[k - 1] == values@[k - 1].0 as int);
        let g = (values[k].0 as i128) - (values[k - 1].0 as i128);
        if !(g == d || g == 2 * d) {
            cur = k;
        }
        proof {
            lemma_run_start(x, d as int, k as int);
            lemma_run_start(x, d as int, best as int);
        }
        if k - cur > best - best_start {
            best = k;
            best_start = cur;
        }
        k += 1;
    }
    (best_start, best)
}

fn count_sum_exec(values: &Vec<(i64, usize)>, lo: usize, hi: usize) -> (r: u128)
    requires
        lo <= hi < values@.len(),
    ensures
        r as int == count_sum(values@, lo as int, hi + 1),
{
    let len = values.len();
    let mut count: u128 = 0;
    let mut j = lo;
    while j <= hi
        invariant
            len == values@.len(),
            lo <= j <= hi + 1,
            hi < values@.len(),
            count as int == count_sum(values@, lo as int, j as int),
            count <= (j - lo) * (usize::MAX as int),
        decreases hi + 1 - j,
    {
        let v = values[j].1;
        proof {
            assert((j - lo) * (usize::MAX as int) + usize::MAX as int == (j + 1 - lo) * (usize::MAX as int)) by (nonlinear_arith);
            assert((j + 1 - lo) * (usize::MAX as int) <= (usize::MAX as int) * (usize::MAX as int)) by (nonlinear_arith)
                requires
                    j + 1 - lo <= usize::MAX,
                    0 <= j + 1 - lo,
            ;
            assert((usize::MAX as int) * (usize::MAX as int) < u128::MAX) by (nonlinear_arith);
        }
        count = count + v as u128;
        j += 1;
    }
    count
}

fn detect_sorted(values: &Vec<(i64, usize)>, min_num: u64, min_den: u64) -> (r: Option<SequenceDescriptor>)
    requires
        increasing(keys_of(values@)),
    ensures
        match r {
            Some(s) => sequence_of(values@, min_num as nat, min_den as nat) == Some(desc_view(s)),
            None => sequence_of(values@, min_num as nat, min_den as nat) is None,
        },
{
    let n = values.len();
    if n < 2 {
        return None;
    }
    let ghost x = keys_of(values@);
    let d = min_gap_exec(values);
    proof {
        lemma_min_gap(x, n as int);
        assert(x[1] == values@[1].0 as int && x[0] == values@[0].0 as int);
    }
    let (best_start, best) = best_run_exec(values, d);
    let first = values[best_start].0;
    let last = values[best].0;
    assert(x[best as int] == last as int && x[best_start as int] == first as int);
    let covered = (best - best_start + 1) as u64;
    let diff = (last as i128) - (first as i128);
    assert(0 <= diff) by {
        if best_start < best {
            assert(x[best_start as int] < x[best as int]);
        }
    }
    assert(diff / d <= diff) by (nonlinear_arith)
        requires
            0 <= diff,
            1 <= d,
    ;
    let grid: u128 = (diff / d + 1) as u128;
    let span: u128 = if (n as u128) > grid { n as u128 } else { grid };
    let count = count_sum_exec(values, best_start, best);
    let desc = SequenceDescriptor { start: first, end: last, step: d, covered, span, count };
    assert(span <= u64::MAX + 1);
    assert((span as int) * (min_num as int) <= (u64::MAX as int + 1) * (u64::MAX as int)) by (nonlinear_arith)
        requires
            span <= u64::MAX + 1,
            min_num <= u64::MAX,
    ;
    proof {
        crate::anomaly::lemma_mul_fits(covered, min_den);
    }
    if (covered as u128) * (min_den as u128) >= span * (min_num as u128) {
        Some(desc)
    } else {
        None
    }
}


/// Counts added, stopping at the largest `usize`.
pub open spec fn add_capped(a: usize, b: usize) -> usize {
    if a as int + b as int > usize::MAX { usize::MAX } else { (a + b) as usize }
}

/// `x` put into the histogram `s` (increasing values): counts of an equal
/// value are added.
pub open spec fn insert_key(s: Seq<(i64, usize)>, x: (i64, usize)) -> Seq<(i64, usize)>
    decreases s.len(),
{
    if s.len() == 0 {
        seq![x]
    } else if x.0 < s[0].0 {
        seq![x] + s
    } else if x.0 == s[0].0 {
        seq![(x.0, add_capped(s[0].1, x.1))] + s.drop_first()
    } else {
        seq![s[0]] + insert_key(s.drop_first(), x)
    }
}

/// The histogram in increasing order of value, equal values merged.
pub open spec fn sort_hist(h: Seq<(i64, usize)>) -> Seq<(i64, usize)>
    decreases h.len(),
{
    if h.len() == 0 {
        Seq::empty()
    } else {
        insert_key(sort_hist(h.drop_last()), h.last())
    }
}

proof fn lemma_insert_key(s: Seq<(i64, usize)>, x: (i64, usize))
    requires
        increasing(keys_of(s)),
    ensures
        increasing(keys_of(insert_key(s, x))),
        forall|i: int| 0 <= i < insert_key(s, x).len() ==> (#[trigger] insert_key(s, x)[i]).0 == x.0
            || exists|j: int| 0 <= j < s.len() && s[j].0 == insert_key(s, x)[i].0,
    decreases s.len(),
{
    let r = insert_key(s, x);
    if s.len() == 0 {
    } else if x.0 < s[0].0 {
        assert forall|i: int, j: int| 0 <= i < j < r.len() implies keys_of(r)[i] < keys_of(r)[j] by {
            if i > 0 {
                assert(keys_of(s)[i - 1] < keys_of(s)[j - 1]);
            } else if j > 1 {
                assert(keys_of(s)[0] < keys_of(s)[j - 1]);
            }
        }
        assert forall|i: int| 0 <= i < r.len() implies (#[trigger] r[i]).0 == x.0 || exists|j: int| 0 <= j < s.len() && s[j].0 == r[i].0 by {
            if i > 0 {
                assert(s[i - 1].0 == r[i].0);
            }
        }
    } else if x.0 == s[0].0 {
        assert forall|i: int, j: int| 0 <= i < j < r.len() implies keys_of(r)[i] < keys_of(r)[j] by {
            assert(keys_of(s)[i] < keys_of(s)[j]);
        }
        assert forall|i: int| 0 <= i < r.len() implies (#[trigger] r[i]).0 == x.0 || exists|j: int| 0 <= j < s.len() && s[j].0 == r[i].0 by {
            assert(s[i].0 == r[i].0);
        }
    } else {
        let rest = s.drop_first();
        assert(increasing(keys_of(rest))) by {
            assert forall|i: int, j: int| 0 <= i < j < keys_of(rest).len() implies keys_of(rest)[i] < keys_of(rest)[j] by {
                assert(keys_of(s)[i + 1] < keys_of(s)[j + 1]);
            }
        }
        lemma_insert_key(rest, x);
        let t = insert_key(rest, x);
        assert(r == seq![s[0]] + t);
        assert forall|i: int| 0 <= i < t.len() implies s[0].0 < (#[trigger] t[i]).0 by {
            if t[i].0 != x.0 {
                let j = choose|j: int| 0 <= j < rest.len() && rest[j].0 == t[i].0;
                assert(keys_of(s)[0] < keys_of(s)[j + 1]);
            }
        }
        assert forall|i: int, j: int| 0 <= i < j < r.len() implies keys_of(r)[i] < keys_of(r)[j] by {
            if i == 0 {
                assert(t[j - 1].0 > s[0].0);
            } else {
                assert(keys_of(t)[i - 1] < keys_of(t)[j - 1]);
            }
        }
        assert forall|i: int| 0 <= i < r.len() implies (#[trigger] r[i]).0 == x.0 || exists|j: int| 0 <= j < s.len() && s[j].0 == r[i].0 by {
            if i == 0 {
                assert(s[0].0 == r[0].0);
            } else {
                assert(r[i] == t[i - 1]);
                if t[i - 1].0 != x.0 {
                    let j = choose|j: int| 0 <= j < rest.len() && rest[j].0 == t[i - 1].0;
                    assert(s[j + 1].0 == r[i].0);
                }
            }
        }
    }
}

proof fn lemma_sort_hist(h: Seq<(i64, usize)>)
    ensures
        increasing(keys_of(sort_hist(h))),
    decreases h.len(),
{
    if h.len() > 0 {
        lemma_sort_hist(h.drop_last());
        lemma_insert_key(sort_hist(h.drop_last()), h.last());
    }
}

fn insert_key_exec(s: &Vec<(i64, usize)>, x: (i64, usize)) -> (r: Vec<(i64, usize)>)
    ensures
        r@ == insert_key(s@, x),
{
    let mut p: usize = 0;
    let mut stop = false;
    assert(s@.subrange(0, s@.len() as int) =~= s@);
    while p < s.len() && !stop
        invariant
            p <= s@.len(),
            stop ==> p < s@.len() && x.0 <= s@[p as int].0,
            s@.subrange(0, p as int) + insert_key(s@.subrange(p as int, s@.len() as int), x) == insert_key(s@, x),
        decreases s@.len() - p, if stop { 0int } else { 1int },
    {
        if x.0 <= s[p].0 {
            stop = true;
        } else {
            let ghost rest = s@.subrange(p as int, s@.len() as int);
            assert(rest[0] == s@[p as int]);
            assert(rest.drop_first() =~= s@.subrange(p + 1, s@.len() as int));
            assert(s@.subrange(0, p as int) + (seq![rest[0]] + insert_key(rest.drop_first(), x)) =~= s@.subrange(0, p + 1) + insert_key(s@.subrange(p + 1, s@.len() as int), x));
            p += 1;
        }
    }
    let ghost rest = s@.subrange(p as int, s@.len() as int);
    let mut r: Vec<(i64, usize)> = Vec::new();
    let mut i: usize = 0;
    while i < p
        invariant
            i <= p <= s@.len(),
            r@ == s@.subrange(0, i as int),
        decreases p - i,
    {
        r.push(s[i]);
        assert(r@ =~= s@.subrange(0, i + 1));
        i += 1;
    }
    let mut start = p;
    if p < s.len() && s[p].0 == x.0 {
        let c = s[p].1;
        let m = if c > usize::MAX - x.1 { usize::MAX } else { c + x.1 };
        r.push((x.0, m));
        start = p + 1;
        assert(rest[0] == s@[p as int]);
        assert(rest.drop_first() =~= s@.subrange(p + 1, s@.len() as int));
    } else {
        r.push(x);
        if p < s.len() {
            assert(rest[0] == s@[p as int]);
        }
    }
    let ghost head = r@;
    let mut j = start;
    assert(s@.subrange(start as int, start as int) =~= Seq::<(i64, usize)>::empty());
    while j < s.len()
        invariant
            start <= j <= s@.len(),
            r@ == head + s@.subrange(start as int, j as int),
        decreases s@.len() - j,
    {
        r.push(s[j]);
        assert(s@.subrange(start as int, j + 1) =~= s@.subrange(start as int, j as int).push(s@[j as int]));
        assert(r@ =~= head + s@.subrange(start as int, j + 1));
        j += 1;
    }
    if start == p {
        assert(r@ =~= s@.subrange(0, p as int) + (seq![x] + rest));
    } else {
        assert(r@ =~= s@.subrange(0, p as int) + (seq![(x.0, add_capped(s@[p as int].1, x.1))] + rest.drop_first()));
    }
    r
}


fn sort_hist_exec(h: &Vec<(i64, usize)>) -> (r: Vec<(i64, usize)>)
    ensures
        r@ == sort_hist(h@),
{
    let mut r: Vec<(i64, usize)> = Vec::new();
    let mut i: usize = 0;
    assert(h@.subrange(0, 0) =~= Seq::<(i64, usize)>::empty());
    while i < h.len()
        invariant
            i <= h@.len(),
            r@ == sort_hist(h@.subrange(0, i as int)),
        decreases h@.len() - i,
    {
        let ghost sub = h@.subrange(0, i + 1);
        assert(sub.drop_last() =~= h@.subrange(0, i as int));
        assert(sub.last() == h@[i as int]);
        r = insert_key_exec(&r, h[i]);
        i += 1;
    }
    assert(h@.subrange(0, h@.len() as int) =~= h@);
    r
}

/// Compacts a histogram of integer values into its run when the run covers
/// at least `min_num / min_den` of it (see `run_of`); the histogram is put in
/// increasing order of value first, counts of equal values added.
pub fn detect_sequence(values: &Vec<(i64, usize)>, min_num: u64, min_den: u64) -> (r: Option<SequenceDescriptor>)
    ensures
        match r {
            Some(s) => sequence_of(sort_hist(values@), min_num as nat, min_den as nat) == Some(desc_view(s)),
            None => sequence_of(sort_hist(values@), min_num as nat, min_den as nat) is None,
        },
{
    let sorted = sort_hist_exec(values);
    proof {
        lemma_sort_hist(values@);
    }
    detect_sorted(&sorted, min_num, min_den)
}

} // verus!
