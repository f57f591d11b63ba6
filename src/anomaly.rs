//! New and rare templates.
use vstd::prelude::*;
use crate::text::{chars_eq, chars_of};

verus! {

#[derive(Debug, Clone, Copy, PartialEq, Eq, Structural)]
pub enum AnomalyKind {
    NewPattern,
    RarePattern,
}

/// A template flagged as new or rare, with how often it occurred.
#[derive(Debug)]
pub struct PatternAnomaly {
    pub kind: AnomalyKind,
    pub template: String,
    pub count: usize,
}

pub type AnomalyV = (AnomalyKind, Seq<char>, nat);

pub open spec fn anomalies_view(v: Seq<PatternAnomaly>) -> Seq<AnomalyV> {
    v.map_values(|a: PatternAnomaly| (a.kind, a.template@, a.count as nat))
}

/// The share `count / total` lies below `num / den`.
pub open spec fn below(count: nat, total: nat, num: nat, den: nat) -> bool {
    count * den < num * total
}

/// The findings for templates `counts`: a template absent from a non-empty
/// baseline is new; one whose share of `total` lies below `num / den` is rare.
pub open spec fn anomalies_spec(counts: Seq<(Seq<char>, nat)>, total: nat, baseline: Seq<Seq<char>>, num: nat, den: nat) -> Seq<AnomalyV>
    decreases counts.len(),
{
    if total == 0 || counts.len() == 0 {
        Seq::empty()
    } else {
        let prev = anomalies_spec(counts.drop_last(), total, baseline, num, den);
        let (t, c) = counts.last();
        let with_new = if baseline.len() > 0 && !baseline.contains(t) {
            prev.push((AnomalyKind::NewPattern, t, c))
        } else {
            prev
        };
        if below(c, total, num, den) {
            with_new.push((AnomalyKind::RarePattern, t, c))
        } else {
            with_new
        }
    }
}

pub open spec fn counts_view(v: Seq<(String, usize)>) -> Seq<(Seq<char>, nat)> {
    v.map_values(|p: (String, usize)| (p.0@, p.1 as nat))
}

pub open spec fn names_view(v: Seq<String>) -> Seq<Seq<char>> {
    v.map_values(|s: String| s@)
}

pub proof fn lemma_mul_fits(a: u64, b: u64)
    ensures
        (a as int) * (b as int) <= u128::MAX,
{
    assert((a as int) * (b as int) <= (u64::MAX as int) * (u64::MAX as int)) by (nonlinear_arith)
        requires
            a <= u64::MAX,
            b <= u64::MAX,
            0 <= a,
            0 <= b,
    ;
}

fn in_baseline(baseline: &Vec<String>, t: &String) -> (r: bool)
    ensures
        r == names_view(baseline@).contains(t@),
{
    let tc = chars_of(t.as_str());
    let mut i: usize = 0;
    while i < baseline.len()
        invariant
            i <= baseline@.len(),
            tc@ == t@,
            forall|j: int| 0 <= j < i ==> names_view(baseline@)[j] != t@,
        decreases baseline@.len() - i,
    {
        if chars_eq(&chars_of(baseline[i].as_str()), &tc) {
            assert(names_view(baseline@)[i as int] == t@);
            return true;
        }
        i += 1;
    }
    false
}

/// Flags new and rare templates (see `anomalies_spec`); the rare threshold
/// is the fraction `rare_num / rare_den`.
pub fn detect_pattern_anomalies(
    counts: &Vec<(String, usize)>,
    total: usize,
    baseline_templates: &Vec<String>,
    rare_num: u64,
    rare_den: u64,
) -> (r: Vec<PatternAnomaly>)
    ensures
        anomalies_view(r@) == anomalies_spec(counts_view(counts@), total as nat, names_view(baseline_templates@), rare_num as nat, rare_den as nat),
{
    let ghost cv = counts_view(counts@);
    let ghost bv = names_view(baseline_templates@);
    let mut out: Vec<PatternAnomaly> = Vec::new();
    if total == 0 {
        assert(anomalies_view(out@) =~= Seq::<AnomalyV>::empty());
        return out;
    }
    let mut i: usize = 0;
    assert(cv.subrange(0, 0) =~= Seq::<(Seq<char>, nat)>::empty());
    assert(anomalies_view(out@) =~= Seq::<AnomalyV>::empty());
    while i < counts.len()
        invariant
            total > 0,
            cv == counts_view(counts@),
            bv == names_view(baseline_templates@),
            i <= counts@.len(),
            anomalies_view(out@) == anomalies_spec(cv.subrange(0, i as int), total as nat, bv, rare_num as nat, rare_den as nat),
        decreases counts@.len() - i,
    {
        let ghost sub = cv.subrange(0, i + 1);
        assert(sub.drop_last() =~= cv.subrange(0, i as int));
        assert(sub.last() == (counts@[i as int].0@, counts@[i as int].1 as nat));
        let t = &counts[i].0;
        let c = counts[i].1;
        let ghost before = anomalies_view(out@);
        let ghost mid = if bv.len() > 0 && !bv.contains(t@) {
            before.push((AnomalyKind::NewPattern, t@, c as nat))
        } else {
            before
        };
        if baseline_templates.len() > 0 && !in_baseline(baseline_templates, t) {
            out.push(PatternAnomaly { kind: AnomalyKind::NewPattern, template: t.clone(), count: c });
        }
        assert(anomalies_view(out@) =~= mid);
        let ghost mid2 = anomalies_view(out@);
        let c64 = c as u64;
        let t64 = total as u64;
        proof {
            lemma_mul_fits(c64, rare_den);
            lemma_mul_fits(rare_num, t64);
        }
        if (c64 as u128) * (rare_den as u128) < (rare_num as u128) * (t64 as u128) {
            out.push(PatternAnomaly { kind: AnomalyKind::RarePattern, template: t.clone(), count: c });
            assert(anomalies_view(out@) =~= mid2.push((AnomalyKind::RarePattern, t@, c as nat)));
        }
        i += 1;
    }
    assert(cv.subrange(0, counts@.len() as int) =~= cv);
    out
}

} // verus!
