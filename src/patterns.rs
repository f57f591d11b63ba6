//! Grouping of masked lines by their generic template.
use vstd::prelude::*;
use crate::order::{less, lt, lemma_lt_irreflexive, lemma_lt_total, lemma_lt_transitive};
use crate::text::{append_chars, chars_eq, chars_of, string_of};

verus! {

/// A template with the number of lines that have it.
#[derive(Debug, PartialEq, Eq)]
pub struct Cluster {
    pub template: String,
    pub count: usize,
}

/// Every non-overlapping occurrence of `pat` (not empty), from left to right,
/// replaced by `rep`, as `str::replace` does.
pub open spec fn replace_lit(s: Seq<char>, pat: Seq<char>, rep: Seq<char>) -> Seq<char>
    decreases s.len(),
{
    if s.len() == 0 || pat.len() == 0 {
        s
    } else if pat.len() <= s.len() && s.subrange(0, pat.len() as int) == pat {
        rep + replace_lit(s.subrange(pat.len() as int, s.len() as int), pat, rep)
    } else {
        seq![s[0]] + replace_lit(s.drop_first(), pat, rep)
    }
}

pub fn matches_at(s: &Vec<char>, i: usize, pat: &Vec<char>) -> (r: bool)
    requires
        i <= s@.len(),
    ensures
        r == (pat@.len() <= s@.len() - i && s@.subrange(i as int, i + pat@.len()) == pat@),
{
    if pat.len() > s.len() - i {
        return false;
    }
    let n = s.len();
    let mut j: usize = 0;
    while j < pat.len()
        invariant
            n == s@.len(),
            i <= s@.len(),
            pat@.len() <= s@.len() - i,
            j <= pat@.len(),
            forall|k: int| 0 <= k < j ==> s@[i + k] == pat@[k],
        decreases pat@.len() - j,
    {
        if s[i + j] != pat[j] {
            assert(s@.subrange(i as int, i + pat@.len())[j as int] != pat@[j as int]);
            return false;
        }
        j += 1;
    }
    assert(s@.subrange(i as int, i + pat@.len()) =~= pat@);
    true
}

/// Replaces every occurrence of `pat` in `s` (see `replace_lit`).
pub fn replace_literal(s: &Vec<char>, pat: &Vec<char>, rep: &Vec<char>) -> (r: Vec<char>)
    ensures
        r@ == replace_lit(s@, pat@, rep@),
{
    let mut out: Vec<char> = Vec::new();
    let mut i: usize = 0;
    assert(s@.subrange(0, s@.len() as int) =~= s@);
    while i < s.len()
        invariant
            i <= s@.len(),
            out@ + replace_lit(s@.subrange(i as int, s@.len() as int), pat@, rep@) == replace_lit(s@, pat@, rep@),
        decreases s@.len() - i,
    {
        let ghost rest = s@.subrange(i as int, s@.len() as int);
        if pat.len() > 0 && matches_at(s, i, pat) {
            assert(rest.subrange(0, pat@.len() as int) =~= s@.subrange(i as int, i + pat@.len()));
            assert(rest.subrange(pat@.len() as int, rest.len() as int) =~= s@.subrange(i + pat@.len(), s@.len() as int));
            append_chars(&mut out, rep);
            assert(out@ + replace_lit(s@.subrange(i + pat@.len(), s@.len() as int), pat@, rep@) =~= replace_lit(s@, pat@, rep@));
            i += pat.len();
        } else {
            proof {
                if pat@.len() > 0 && pat@.len() <= rest.len() {
                    assert(rest.subrange(0, pat@.len() as int) =~= s@.subrange(i as int, i + pat@.len()));
                }
            }
            assert(rest.drop_first() =~= s@.subrange(i + 1, s@.len() as int));
            let ghost before = out@;
            out.push(s[i]);
            assert(out@ =~= before + seq![rest[0]]);
            assert(out@ + replace_lit(s@.subrange(i + 1, s@.len() as int), pat@, rep@) =~= replace_lit(s@, pat@, rep@));
            i += 1;
        }
    }
    assert(s@.subrange(s@.len() as int, s@.len() as int) =~= Seq::<char>::empty());
    out
}

/// The generic template of a masked line: number, address, e-mail and
/// timestamp placeholders become `<*>`.
pub open spec fn template_of(m: Seq<char>) -> Seq<char> {
    replace_lit(
        replace_lit(replace_lit(replace_lit(m, "<NUM>"@, "<*>"@), "<IP>"@, "<*>"@), "<EMAIL>"@, "<*>"@),
        "<TIMESTAMP>"@,
        "<*>"@,
    )
}

/// The generic template of a masked line (see `template_of`).
pub fn to_template(masked: &str) -> (r: String)
    ensures
        r@ == template_of(masked@),
{
    let star = chars_of("<*>");
    let m = chars_of(masked);
    let a = replace_literal(&m, &chars_of("<NUM>"), &star);
    let b = replace_literal(&a, &chars_of("<IP>"), &star);
    let c = replace_literal(&b, &chars_of("<EMAIL>"), &star);
    let d = replace_literal(&c, &chars_of("<TIMESTAMP>"), &star);
    string_of(d.as_slice())
}

/// How many of `ts` equal `k`.
pub open spec fn count_of(ts: Seq<Seq<char>>, k: Seq<char>) -> nat
    decreases ts.len(),
{
    if ts.len() == 0 {
        0
    } else {
        count_of(ts.drop_last(), k) + if ts.last() == k { 1nat } else { 0nat }
    }
}

pub open spec fn clusters_view(c: Seq<Cluster>) -> Seq<(Seq<char>, nat)> {
    c.map_values(|x: Cluster| (x.template@, x.count as nat))
}

/// `cs` lists each of `ts` once, in increasing order, with how often it occurs.
pub open spec fn counted(cs: Seq<(Seq<char>, nat)>, ts: Seq<Seq<char>>) -> bool {
    &&& forall|i: int, j: int| 0 <= i < j < cs.len() ==> lt(#[trigger] cs[i].0, #[trigger] cs[j].0)
    &&& forall|i: int| 0 <= i < cs.len() ==> (#[trigger] cs[i]).1 == count_of(ts, cs[i].0)
    &&& forall|k: Seq<char>| #![trigger ts.contains(k)] ts.contains(k) <==> exists|i: int| 0 <= i < cs.len() && (#[trigger] cs[i]).0 == k
}

proof fn lemma_count_bound(ts: Seq<Seq<char>>, k: Seq<char>)
    ensures
        count_of(ts, k) <= ts.len(),
        count_of(ts, k) > 0 <==> ts.contains(k),
    decreases ts.len(),
{
    if ts.len() > 0 {
        lemma_count_bound(ts.drop_last(), k);
        if ts.drop_last().contains(k) {
            let i = choose|i: int| 0 <= i < ts.drop_last().len() && ts.drop_last()[i] == k;
            assert(ts[i] == k);
        }
        if ts.contains(k) && ts.last() != k {
            let i = choose|i: int| 0 <= i < ts.len() && ts[i] == k;
            assert(ts.drop_last()[i] == k);
        }
        if ts.last() == k {
            assert(ts[ts.len() - 1] == k);
        }
    }
}

#[verifier::rlimit(60)]
fn count_into(cs: &mut Vec<Cluster>, t: String, ts: Ghost<Seq<Seq<char>>>)
    requires
        counted(clusters_view(old(cs)@), ts@),
        ts@.len() < usize::MAX,
    ensures
        counted(clusters_view(final(cs)@), ts@.push(t@)),
{
    let ghost nt = ts@.push(t@);
    let ghost c0 = clusters_view(cs@);
    assert(nt.drop_last() =~= ts@);
    let tc = chars_of(t.as_str());
    let mut p: usize = 0;
    while p < cs.len() && less(&chars_of(cs[p].template.as_str()), &tc)
        invariant
            p <= cs@.len(),
            c0 == clusters_view(cs@),
            tc@ == t@,
            forall|i: int| 0 <= i < p ==> lt(#[trigger] c0[i].0, t@),
        decreases cs@.len() - p,
    {
        p += 1;
    }
    if p < cs.len() && chars_eq(&chars_of(cs[p].template.as_str()), &tc) {
        proof {
            lemma_count_bound(ts@, t@);
        }
        let old_c = cs.remove(p);
        cs.insert(p, Cluster { template: old_c.template, count: old_c.count + 1 });
        let ghost c1 = clusters_view(cs@);
        assert(c1 =~= c0.update(p as int, (t@, c0[p as int].1 + 1)));
        assert(forall|i: int| 0 <= i < c1.len() ==> (#[trigger] c1[i]).0 == c0[i].0);
        assert(forall|i: int, j: int| 0 <= i < j < c1.len() ==> lt(#[trigger] c1[i].0, #[trigger] c1[j].0)) by {
            assert(forall|i: int, j: int| 0 <= i < j < c0.len() ==> lt(#[trigger] c0[i].0, #[trigger] c0[j].0));
        }
        assert forall|i: int| 0 <= i < c1.len() implies (#[trigger] c1[i]).1 == count_of(nt, c1[i].0) by {
            if i != p {
                lemma_lt_irreflexive(t@);
                if i > p {
                    assert(lt(c0[p as int].0, c0[i].0));
                }
            }
        }
        assert forall|k: Seq<char>| #![trigger nt.contains(k)] nt.contains(k) <==> exists|i: int| 0 <= i < c1.len() && (#[trigger] c1[i]).0 == k by {
            if nt.contains(k) {
                let j = choose|j: int| 0 <= j < nt.len() && nt[j] == k;
                if j < ts@.len() {
                    assert(ts@[j] == k);
                    assert(ts@.contains(k));
                    let i = choose|i: int| 0 <= i < c0.len() && (#[trigger] c0[i]).0 == k;
                    assert(c1[i].0 == k);
                } else {
                    assert(c1[p as int].0 == k);
                }
            }
            if exists|i: int| 0 <= i < c1.len() && (#[trigger] c1[i]).0 == k {
                let i = choose|i: int| 0 <= i < c1.len() && (#[trigger] c1[i]).0 == k;
                assert(c0[i].0 == k);
                assert(ts@.contains(k));
                let j = choose|j: int| 0 <= j < ts@.len() && ts@[j] == k;
                assert(nt[j] == k);
            }
        }
    } else {
        if p < cs.len() {
            proof {
                lemma_lt_total(c0[p as int].0, t@);
            }
        }
        proof {
            lemma_count_bound(ts@, t@);
            assert(!ts@.contains(t@)) by {
                if ts@.contains(t@) {
                    let i = choose|i: int| 0 <= i < c0.len() && (#[trigger] c0[i]).0 == t@;
                    lemma_lt_irreflexive(t@);
                    if i > p {
                        assert(lt(c0[p as int].0, c0[i].0));
                        lemma_lt_transitive(t@, c0[p as int].0, t@);
                    }
                }
            }
        }
        cs.insert(p, Cluster { template: t, count: 1 });
        let ghost c1 = clusters_view(cs@);
        assert(c1 =~= c0.insert(p as int, (t@, 1nat)));
        assert forall|i: int, j: int| 0 <= i < j < c1.len() implies lt(#[trigger] c1[i].0, #[trigger] c1[j].0) by {
            if j == p {
                assert(c1[i] == c0[i]);
            } else if i == p {
                assert(c1[j] == c0[j - 1]);
                if j - 1 > p {
                    lemma_lt_transitive(t@, c0[p as int].0, c0[j - 1].0);
                }
            } else if i < p && j < p {
            } else if i < p {
                assert(c1[i] == c0[i]);
                assert(c1[j] == c0[j - 1]);
            } else {
                assert(c1[i] == c0[i - 1]);
                assert(c1[j] == c0[j - 1]);
            }
        }
        assert forall|i: int| 0 <= i < c1.len() implies (#[trigger] c1[i]).1 == count_of(nt, c1[i].0) by {
            lemma_lt_irreflexive(t@);
            if i < p {
                assert(c1[i] == c0[i]);
            } else if i > p {
                assert(c1[i] == c0[i - 1]);
                if i - 1 > p {
                    lemma_lt_transitive(t@, c0[p as int].0, c0[i - 1].0);
                }
            }
        }
        assert forall|k: Seq<char>| #![trigger nt.contains(k)] nt.contains(k) <==> exists|i: int| 0 <= i < c1.len() && (#[trigger] c1[i]).0 == k by {
            if nt.contains(k) {
                let j = choose|j: int| 0 <= j < nt.len() && nt[j] == k;
                if j < ts@.len() {
                    assert(ts@[j] == k);
                    assert(ts@.contains(k));
                    let i = choose|i: int| 0 <= i < c0.len() && (#[trigger] c0[i]).0 == k;
                    if i < p {
                        assert(c1[i].0 == k);
                    } else {
                        assert(c1[i + 1].0 == k);
                    }
                } else {
                    assert(c1[p as int].0 == k);
                }
            }
            if exists|i: int| 0 <= i < c1.len() && (#[trigger] c1[i]).0 == k {
                let i = choose|i: int| 0 <= i < c1.len() && (#[trigger] c1[i]).0 == k;
                if i == p {
                    assert(nt[ts@.len() as int] == k);
                } else {
                    let i0 = if i < p { i } else { i - 1 };
                    assert(c0[i0].0 == k);
                    assert(ts@.contains(k));
                    let j = choose|j: int| 0 <= j < ts@.len() && ts@[j] == k;
                    assert(nt[j] == k);
                }
            }
        }
    }
}

pub open spec fn strings_seq(v: Seq<String>) -> Seq<Seq<char>> {
    v.map_values(|s: String| s@)
}

/// The generic templates of masked lines.
pub open spec fn templates_of(lines: Seq<Seq<char>>) -> Seq<Seq<char>> {
    lines.map_values(|l: Seq<char>| template_of(l))
}

/// Groups masked lines by generic template: each template once, in
/// increasing order, with the number of lines that have it.
pub fn cluster_masked(lines: &[String]) -> (r: Vec<Cluster>)
    ensures
        counted(clusters_view(r@), templates_of(strings_seq(lines@))),
{
    let ghost all = templates_of(strings_seq(lines@));
    let mut cs: Vec<Cluster> = Vec::new();
    let mut i: usize = 0;
    assert(all.subrange(0, 0) =~= Seq::<Seq<char>>::empty());
    assert(clusters_view(cs@) =~= Seq::<(Seq<char>, nat)>::empty());
    while i < lines.len()
        invariant
            all == templates_of(strings_seq(lines@)),
            i <= lines@.len(),
            counted(clusters_view(cs@), all.subrange(0, i as int)),
        decreases lines@.len() - i,
    {
        let t = to_template(lines[i].as_str());
        assert(all.subrange(0, i as int).push(t@) =~= all.subrange(0, i + 1));
        count_into(&mut cs, t, Ghost(all.subrange(0, i as int)));
        i += 1;
    }
    assert(all.subrange(0, lines@.len() as int) =~= all);
    cs
}

} // verus!
