//! Templates that occur together: events of two templates matched within a
//! time window.
use vstd::prelude::*;
use crate::temporal::{sort_times, wide};

verus! {

/// Matches events of two sorted time lists (milliseconds) from `i` and `j`
/// on: two events within `window` of each other count once and are both
/// used up; otherwise the earlier one is skipped.
pub open spec fn cooc(a: Seq<int>, b: Seq<int>, i: int, j: int, window: int) -> nat
    decreases a.len() - i + b.len() - j,
{
    if i < 0 || j < 0 || i >= a.len() || j >= b.len() {
        0
    } else if (if a[i] >= b[j] { a[i] - b[j] } else { b[j] - a[i] }) <= window {
        1 + cooc(a, b, i + 1, j + 1, window)
    } else if a[i] < b[j] {
        cooc(a, b, i + 1, j, window)
    } else {
        cooc(a, b, i, j + 1, window)
    }
}

proof fn lemma_cooc_bound(a: Seq<int>, b: Seq<int>, i: int, j: int, window: int)
    requires
        0 <= i <= a.len(),
        0 <= j <= b.len(),
    ensures
        cooc(a, b, i, j, window) <= a.len() - i,
        cooc(a, b, i, j, window) <= b.len() - j,
    decreases a.len() - i + b.len() - j,
{
    if i < a.len() && j < b.len() {
        if (if a[i] >= b[j] { a[i] - b[j] } else { b[j] - a[i] }) <= window {
            lemma_cooc_bound(a, b, i + 1, j + 1, window);
        } else if a[i] < b[j] {
            lemma_cooc_bound(a, b, i + 1, j, window);
        } else {
            lemma_cooc_bound(a, b, i, j + 1, window);
        }
    }
}

/// How many events of `a` and `b` co-occur within `window` (see `cooc`).
pub fn cooccurrence_count(a: &Vec<i64>, b: &Vec<i64>, window: i64) -> (r: usize)
    ensures
        r == cooc(wide(a@), wide(b@), 0, 0, window as int),
        r <= a@.len(),
        r <= b@.len(),
{
    proof {
        lemma_cooc_bound(wide(a@), wide(b@), 0, 0, window as int);
    }
    let ghost wa = wide(a@);
    let ghost wb = wide(b@);
    let mut i: usize = 0;
    let mut j: usize = 0;
    let mut count: usize = 0;
    while i < a.len() && j < b.len()
        invariant
            i <= a@.len(),
            j <= b@.len(),
            wa == wide(a@),
            wb == wide(b@),
            count + cooc(wa, wb, i as int, j as int, window as int) == cooc(wa, wb, 0, 0, window as int),
            count <= i,
        decreases a@.len() - i + b@.len() - j,
    {
        assert(wa[i as int] == a@[i as int] as int && wb[j as int] == b@[j as int] as int);
        let x = a[i] as i128;
        let y = b[j] as i128;
        let diff = if x >= y { x - y } else { y - x };
        if diff <= window as i128 {
            count += 1;
            i += 1;
            j += 1;
        } else if a[i] < b[j] {
            i += 1;
        } else {
            j += 1;
        }
    }
    count
}

/// Two templates that occur together: `count` matched events out of
/// `union` events of either (their strength is `count / union`).
#[derive(Debug)]
pub struct Correlation {
    pub a: String,
    pub b: String,
    pub count: usize,
    pub union: usize,
}

pub open spec fn sorted_times(t: Seq<i64>) -> bool {
    forall|i: int, j: int| 0 <= i < j < t.len() ==> t[i] <= t[j]
}

pub type CorrV = (Seq<char>, Seq<char>, nat, nat);

pub open spec fn corr_view(v: Seq<Correlation>) -> Seq<CorrV> {
    v.map_values(|c: Correlation| (c.a@, c.b@, c.count as nat, c.union as nat))
}

pub open spec fn pair_of(ts: Seq<(String, Vec<i64>)>, i: int, j: int, window: int) -> CorrV {
    let c = cooc(wide(ts[i].1@).sort(), wide(ts[j].1@).sort(), 0, 0, window);
    (ts[i].0@, ts[j].0@, c, (ts[i].1@.len() + ts[j].1@.len() - c) as nat)
}

/// The pairs `(i, j)`, `i < j`, of templates that both have events, in
/// order, from row `i` column `j` on.
pub open spec fn pairs_from(ts: Seq<(String, Vec<i64>)>, i: int, j: int, window: int) -> Seq<CorrV>
    decreases ts.len() - i, ts.len() - j,
{
    if i < 0 || i >= ts.len() {
        Seq::empty()
    } else if j >= ts.len() || j < 0 {
        pairs_from(ts, i + 1, i + 2, window)
    } else if ts[i].1@.len() == 0 || ts[j].1@.len() == 0 {
        pairs_from(ts, i, j + 1, window)
    } else {
        seq![pair_of(ts, i, j, window)] + pairs_from(ts, i, j + 1, window)
    }
}

/// Co-occurrence of every pair of templates with events; each list of
/// event times (milliseconds) is sorted first.
pub fn compute_correlations(times_by_template: &Vec<(String, Vec<i64>)>, window: i64) -> (r: Vec<Correlation>)
    requires
        forall|k: int| 0 <= k < times_by_template@.len() ==> (#[trigger] times_by_template@[k]).1@.len() <= usize::MAX / 2,
    ensures
        corr_view(r@) == pairs_from(times_by_template@, 0, 1, window as int),
{
    let ghost ts = times_by_template@;
    let n = times_by_template.len();
    let mut out: Vec<Correlation> = Vec::new();
    if n == 0 {
        assert(corr_view(out@) =~= pairs_from(ts, 0, 1, window as int));
        return out;
    }
    let mut i: usize = 0;
    let mut j: usize = 1;
    while i < n
        invariant
            n == ts.len(),
            ts == times_by_template@,
            forall|k: int| 0 <= k < ts.len() ==> (#[trigger] ts[k]).1@.len() <= usize::MAX / 2,
            i <= n,
            j <= n,
            i < n ==> i + 1 <= j,
            corr_view(out@) + pairs_from(ts, i as int, j as int, window as int) == pairs_from(ts, 0, 1, window as int),
        decreases n - i, n + 1 - j,
    {
        if j >= n {
            assert(pairs_from(ts, i as int, j as int, window as int) == pairs_from(ts, i + 1, i + 2, window as int));
            i += 1;
            if i < n {
                j = i + 1;
            }
        } else {
            let ta = &times_by_template[i].1;
            let tb = &times_by_template[j].1;
            if ta.len() == 0 || tb.len() == 0 {
                j += 1;
            } else {
                let sa = sort_times(ta);
                let sb = sort_times(tb);
                proof {
                    crate::temporal::lemma_sort_len(wide(ta@));
                    crate::temporal::lemma_sort_len(wide(tb@));
                }
                assert(sa@.len() == ta@.len() && sb@.len() == tb@.len());
                let c = cooccurrence_count(&sa, &sb, window);
                let ghost before = corr_view(out@);
                out.push(Correlation {
                    a: times_by_template[i].0.clone(),
                    b: times_by_template[j].0.clone(),
                    count: c,
                    union: ta.len() + tb.len() - c,
                });
                assert(corr_view(out@) =~= before.push(pair_of(ts, i as int, j as int, window as int)));
                assert(before.push(pair_of(ts, i as int, j as int, window as int)) + pairs_from(ts, i as int, j + 1, window as int)
                    =~= before + (seq![pair_of(ts, i as int, j as int, window as int)] + pairs_from(ts, i as int, j + 1, window as int)));
                j += 1;
            }
        }
    }
    assert(pairs_from(ts, i as int, j as int, window as int) == Seq::<CorrV>::empty());
    assert(corr_view(out@) + Seq::<CorrV>::empty() =~= corr_view(out@));
    out
}

} // verus!
