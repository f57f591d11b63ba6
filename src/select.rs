//! The greedy choice among overlapping candidates, the numbering of repeated
//! placeholder types, and the rendering of the masked line.
use vstd::prelude::*;
use crate::extract::{Cand, CandV, cands_view, cands_wf};

verus! {

/// Candidate `i` comes before candidate `j`: it starts earlier, or starts at
/// the same place and is longer, or is as long and belongs to an earlier pattern.
pub open spec fn before(c: Seq<CandV>, i: int, j: int) -> bool {
    c[i].0 < c[j].0 || (c[i].0 == c[j].0 && (c[i].1 > c[j].1 || (c[i].1 == c[j].1 && i < j)))
}

/// Candidate `j` may be accepted after the span ending at `last_end`, the
/// previously accepted candidate being `prev` (negative when none was).
pub open spec fn eligible(c: Seq<CandV>, j: int, last_end: int, prev: int) -> bool {
    0 <= j < c.len() && c[j].0 >= last_end && (prev < 0 || before(c, prev, j))
}

/// Candidate `j` is the first eligible one.
pub open spec fn is_pick(c: Seq<CandV>, j: int, last_end: int, prev: int) -> bool {
    eligible(c, j, last_end, prev) && forall|k: int| #[trigger] eligible(c, k, last_end, prev) ==> k == j || before(c, j, k)
}

pub open spec fn pick(c: Seq<CandV>, last_end: int, prev: int) -> Option<int> {
    if exists|j: int| is_pick(c, j, last_end, prev) {
        Some(choose|j: int| is_pick(c, j, last_end, prev))
    } else {
        None
    }
}

/// The accepted candidates, in order, from `last_end` on (at most `fuel` of them).
pub open spec fn select(c: Seq<CandV>, last_end: int, prev: int, fuel: nat) -> Seq<int>
    decreases fuel,
{
    if fuel == 0 {
        Seq::empty()
    } else {
        match pick(c, last_end, prev) {
            None => Seq::empty(),
            Some(j) => seq![j] + select(c, c[j].1 as int, j, (fuel - 1) as nat),
        }
    }
}

/// The accepted candidates of a line.
pub open spec fn selected(c: Seq<CandV>) -> Seq<CandV> {
    select(c, 0, -1, c.len()).map_values(|j: int| c[j])
}

proof fn lemma_pick_unique(c: Seq<CandV>, j: int, last_end: int, prev: int)
    requires
        is_pick(c, j, last_end, prev),
    ensures
        pick(c, last_end, prev) == Some(j),
{
    let k = choose|k: int| is_pick(c, k, last_end, prev);
    assert(eligible(c, k, last_end, prev));
    assert(eligible(c, j, last_end, prev));
}

fn find_pick(c: &Vec<Cand>, last_end: usize, has_prev: bool, prev: usize) -> (r: Option<usize>)
    requires
        has_prev ==> prev < c@.len(),
    ensures
        r is Some <==> pick(cands_view(c@), last_end as int, if has_prev { prev as int } else { -1 }) is Some,
        r is Some ==> pick(cands_view(c@), last_end as int, if has_prev { prev as int } else { -1 })->Some_0 == r->Some_0 as int,
        r is Some ==> r->Some_0 < c@.len(),
{
    let ghost cv = cands_view(c@);
    let ghost pv: int = if has_prev { prev as int } else { -1 };
    let mut best: Option<usize> = None;
    let mut j: usize = 0;
    while j < c.len()
        invariant
            cv == cands_view(c@),
            pv == (if has_prev { prev as int } else { -1 }),
            has_prev ==> prev < c@.len(),
            j <= c@.len(),
            best is Some ==> best->Some_0 < j && eligible(cv, best->Some_0 as int, last_end as int, pv),
            best is Some ==> forall|k: int| 0 <= k < j && #[trigger] eligible(cv, k, last_end as int, pv) ==> k == best->Some_0 || before(cv, best->Some_0 as int, k),
            best is None ==> forall|k: int| 0 <= k < j ==> !#[trigger] eligible(cv, k, last_end as int, pv),
        decreases c@.len() - j,
    {
        let cj = &c[j];
        assert(cv[j as int] == cj@);
        let after_prev = if has_prev {
            let cp = &c[prev];
            assert(cv[prev as int] == cp@);
            cp.start < cj.start || (cp.start == cj.start && (cp.end > cj.end || (cp.end == cj.end && prev < j)))
        } else {
            true
        };
        if cj.start >= last_end && after_prev {
            assert(eligible(cv, j as int, last_end as int, pv));
            match best {
                None => {
                    best = Some(j);
                },
                Some(b) => {
                    let cb = &c[b];
                    assert(cv[b as int] == cb@);
                    if cj.start < cb.start || (cj.start == cb.start && cj.end > cb.end) {
                        best = Some(j);
                    }
                },
            }
        }
        j += 1;
    }
    match best {
        Some(b) => {
            assert(is_pick(cv, b as int, last_end as int, pv));
            proof {
                lemma_pick_unique(cv, b as int, last_end as int, pv);
            }
            Some(b)
        },
        None => {
            assert(!exists|k: int| is_pick(cv, k, last_end as int, pv));
            None
        },
    }
}

/// The indices of the accepted candidates (see `selected`).
pub fn select_indices(c: &Vec<Cand>) -> (r: Vec<usize>)
    ensures
        r@.len() == select(cands_view(c@), 0, -1, c@.len() as nat).len(),
        forall|k: int| 0 <= k < r@.len() ==> r@[k] as int == select(cands_view(c@), 0, -1, c@.len() as nat)[k],
        forall|k: int| 0 <= k < r@.len() ==> r@[k] < c@.len(),
{
    let ghost cv = cands_view(c@);
    let ghost all = select(cv, 0, -1, c@.len() as nat);
    let mut out: Vec<usize> = Vec::new();
    let mut fuel: usize = c.len();
    let mut last_end: usize = 0;
    let mut has_prev = false;
    let mut prev: usize = 0;
    let ghost mut done: Seq<int> = Seq::empty();
    while fuel > 0
        invariant
            cv == cands_view(c@),
            all == select(cv, 0, -1, c@.len() as nat),
            has_prev ==> prev < c@.len(),
            out@.len() == done.len(),
            forall|k: int| 0 <= k < out@.len() ==> out@[k] as int == done[k],
            forall|k: int| 0 <= k < out@.len() ==> out@[k] < c@.len(),
            done + select(cv, last_end as int, if has_prev { prev as int } else { -1 }, fuel as nat) == all,
        decreases fuel,
    {
        let p = find_pick(c, last_end, has_prev, prev);
        match p {
            None => {
                assert(select(cv, last_end as int, if has_prev { prev as int } else { -1 }, fuel as nat) =~= Seq::<int>::empty());
                assert(done =~= all);
                fuel = 0;
            },
            Some(j) => {
                let ghost rest = select(cv, c@[j as int].end as int, j as int, (fuel - 1) as nat);
                assert(cv[j as int].1 == c@[j as int].end);
                assert(select(cv, last_end as int, if has_prev { prev as int } else { -1 }, fuel as nat) == seq![j as int] + rest);
                out.push(j);
                proof {
                    assert(done.push(j as int) + rest =~= done + (seq![j as int] + rest));
                    done = done.push(j as int);
                    assert(forall|k: int| 0 <= k < out@.len() ==> out@[k] as int == done[k] && out@[k] < c@.len());
                }
                last_end = c[j].end;
                has_prev = true;
                prev = j;
                fuel -= 1;
            },
        }
    }
    proof {
        assert(select(cv, last_end as int, if has_prev { prev as int } else { -1 }, 0) =~= Seq::<int>::empty());
        assert(done =~= all);
    }
    out
}

} // verus!

verus! {

/// Accepted candidates lie in order, each starting at or after the end of the previous one.
pub open spec fn ordered_from(c: Seq<CandV>, s: Seq<int>, le: int) -> bool {
    &&& forall|k: int| 0 <= k < s.len() ==> 0 <= #[trigger] s[k] < c.len()
    &&& s.len() > 0 ==> c[s[0]].0 >= le
    &&& forall|k: int| 1 <= k < s.len() ==> c[#[trigger] s[k]].0 >= c[s[k - 1]].1
}

pub proof fn lemma_select_ordered(c: Seq<CandV>, le: int, prev: int, fuel: nat)
    ensures
        ordered_from(c, select(c, le, prev, fuel), le),
    decreases fuel,
{
    if fuel > 0 {
        match pick(c, le, prev) {
            None => {},
            Some(j) => {
                let ghost jj = choose|j: int| is_pick(c, j, le, prev);
                assert(is_pick(c, jj, le, prev));
                lemma_select_ordered(c, c[j].1 as int, j, (fuel - 1) as nat);
                let rest = select(c, c[j].1 as int, j, (fuel - 1) as nat);
                let s = seq![j] + rest;
                assert(select(c, le, prev, fuel) == s);
                assert forall|k: int| 1 <= k < s.len() implies c[#[trigger] s[k]].0 >= c[s[k - 1]].1 by {
                    assert(s[k] == rest[k - 1]);
                    if k > 1 {
                        assert(s[k - 1] == rest[k - 2]);
                    }
                }
                assert forall|k: int| 0 <= k < s.len() implies 0 <= #[trigger] s[k] < c.len() by {
                    if k > 0 {
                        assert(s[k] == rest[k - 1]);
                    }
                }
            },
        }
    }
}

/// The accepted candidates of a list, copied in order.
pub fn select_cands(c: &Vec<Cand>, len: Ghost<nat>) -> (r: Vec<Cand>)
    requires
        cands_wf(cands_view(c@), len@),
    ensures
        cands_view(r@) == selected(cands_view(c@)),
        cands_wf(cands_view(r@), len@),
        forall|k: int| 0 <= k < r@.len() - 1 ==> r@[k + 1].start >= #[trigger] r@[k].end,
{
    let ghost cv = cands_view(c@);
    let idx = select_indices(c);
    proof {
        lemma_select_ordered(cv, 0, -1, c@.len() as nat);
    }
    let ghost s = select(cv, 0, -1, c@.len() as nat);
    let mut out: Vec<Cand> = Vec::new();
    let mut k: usize = 0;
    while k < idx.len()
        invariant
            cv == cands_view(c@),
            cands_wf(cv, len@),
            s == select(cv, 0, -1, c@.len() as nat),
            ordered_from(cv, s, 0),
            idx@.len() == s.len(),
            forall|i: int| 0 <= i < idx@.len() ==> idx@[i] as int == s[i],
            forall|i: int| 0 <= i < idx@.len() ==> idx@[i] < c@.len(),
            k <= idx@.len(),
            cands_view(out@) == s.subrange(0, k as int).map_values(|j: int| cv[j]),
        decreases idx@.len() - k,
    {
        let j = idx[k];
        let cj = &c[j];
        assert(cv[j as int] == cj@);
        let ghost before = cands_view(out@);
        out.push(Cand { start: cj.start, end: cj.end, tag: cj.tag.clone(), rep: cj.rep.clone() });
        assert(s.subrange(0, k + 1).map_values(|j: int| cv[j]) =~= s.subrange(0, k as int).map_values(|j: int| cv[j]).push(cv[j as int]));
        assert(cands_view(out@) =~= before.push(cv[j as int]));
        k += 1;
    }
    assert(s.subrange(0, idx@.len() as int) =~= s);
    assert forall|k: int| 0 <= k < out@.len() - 1 implies out@[k + 1].start >= #[trigger] out@[k].end by {
        assert(cands_view(out@)[k] == cv[s[k]]);
        assert(cands_view(out@)[k + 1] == cv[s[k + 1]]);
    }
    assert forall|i: int| 0 <= i < cands_view(out@).len() implies (#[trigger] cands_view(out@)[i]).0 <= cands_view(out@)[i].1 <= len@ by {
        assert(cands_view(out@)[i] == cv[s[i]]);
    }
    out
}

} // verus!
