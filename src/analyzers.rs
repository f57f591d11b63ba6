//! Helpers of the parameter analyzers.
use vstd::prelude::*;
use crate::temporal::{ints, sort_counts};
use crate::text::{append_chars, chars_eq, chars_of, decimal, decimal_chars, slice_chars, string_of};

verus! {

/// The index of the last `_` in `s`, or -1.
pub open spec fn last_underscore(s: Seq<char>) -> int
    decreases s.len(),
{
    if s.len() == 0 {
        -1
    } else if s.last() == '_' {
        s.len() - 1
    } else {
        last_underscore(s.drop_last())
    }
}

pub open spec fn all_digits(s: Seq<char>) -> bool {
    forall|i: int| 0 <= i < s.len() ==> '0' <= #[trigger] s[i] <= '9'
}

/// The type a numbered parameter comes from: `NUM_2` is a `NUM`; a name
/// whose part after the last `_` is not all digits stays as it is.
pub open spec fn base_type(s: Seq<char>) -> Seq<char> {
    let u = last_underscore(s);
    if u >= 0 && all_digits(s.subrange(u + 1, s.len() as int)) {
        s.subrange(0, u)
    } else {
        s
    }
}

/// The base type of a parameter name (see `base_type`).
pub fn get_base_param_type(param_type: &str) -> (r: String)
    ensures
        r@ == base_type(param_type@),
{
    let s = chars_of(param_type);
    let mut u = s.len();
    assert(s@.subrange(0, u as int) =~= s@);
    while u > 0 && s[u - 1] != '_'
        invariant
            u <= s@.len(),
            last_underscore(s@.subrange(0, u as int)) == last_underscore(s@),
        decreases u,
    {
        assert(s@.subrange(0, u as int).drop_last() =~= s@.subrange(0, u - 1));
        u -= 1;
    }
    if u == 0 {
        proof {
            assert(s@.subrange(0, 0) =~= Seq::<char>::empty());
        }
        return string_of(s.as_slice());
    }
    let pos = u - 1;
    assert(s@.subrange(0, u as int).last() == '_');
    assert(last_underscore(s@) == pos);
    let mut i = u;
    while i < s.len()
        invariant
            1 <= u <= i <= s@.len(),
            pos == u - 1,
            last_underscore(s@) == pos,
            s@ == param_type@,
            forall|k: int| u <= k < i ==> '0' <= #[trigger] s@[k] <= '9',
        decreases s@.len() - i,
    {
        if !('0' <= s[i] && s[i] <= '9') {
            let ghost tail = s@.subrange(u as int, s@.len() as int);
            assert(tail[i - u] == s@[i as int]);
            assert(!('0' <= tail[i - u] <= '9'));
            assert(!all_digits(tail));
            assert(base_type(s@) == s@);
            return string_of(s.as_slice());
        }
        i += 1;
    }
    assert(all_digits(s@.subrange(u as int, s@.len() as int))) by {
        assert forall|k: int| 0 <= k < s@.len() - u implies '0' <= #[trigger] s@.subrange(u as int, s@.len() as int)[k] <= '9' by {
            assert(s@.subrange(u as int, s@.len() as int)[k] == s@[u + k]);
        }
    }
    let head = slice_chars(&s, 0, pos);
    string_of(head.as_slice())
}

/// Whether a parameter takes so many values that it is not worth analysing:
/// a nanosecond count, or a number that differs on more than 90% of lines.
pub open spec fn high_cardinality_numeric(param_type: Seq<char>, cardinality: nat, total: nat) -> bool {
    base_type(param_type) == "NS"@ || (base_type(param_type) == "NUM"@ && cardinality * 10 > total * 9)
}

/// See `high_cardinality_numeric`.
pub fn is_high_cardinality_numeric(param_type: &str, cardinality: u64, total: u64) -> (r: bool)
    ensures
        r == high_cardinality_numeric(param_type@, cardinality as nat, total as nat),
{
    let b = get_base_param_type(param_type);
    let bc = chars_of(b.as_str());
    chars_eq(&bc, &chars_of("NS")) || (chars_eq(&bc, &chars_of("NUM")) && (cardinality as u128) * 10 > (total as u128) * 9)
}

/// The analyzer of parameter value distributions.
pub struct ParameterAnomalyAnalyzer;

/// The analyzer of temporal patterns in depth.
pub struct DeepTemporalAnalyzer;

/// The analyzer of co-occurring templates in depth.
pub struct DeepCorrelationAnalyzer;


/// One value of a parameter and how often it was seen.
#[derive(Debug)]
pub struct ParamValueCount {
    pub value: String,
    pub count: usize,
}

/// The value histogram of one parameter: values by decreasing count.
#[derive(Debug)]
pub struct ParamFieldStats {
    pub total: usize,
    pub cardinality: usize,
    pub values: Vec<ParamValueCount>,
}

#[derive(Debug, Clone, Copy, PartialEq, Eq, Structural)]
pub enum ParamAnomalyKind {
    ValueConcentration,
    Outlier,
    LowCardinality,
    SecurityAlert,
}

/// A finding on a parameter: its kind, the parameter, the value concerned
/// (or a description), and the count it rests on, when there is one.
#[derive(Debug)]
pub struct ParameterAnomaly {
    pub kind: ParamAnomalyKind,
    pub param: String,
    pub value: String,
    pub count: Option<usize>,
}

pub type PAnomV = (ParamAnomalyKind, Seq<char>, Seq<char>, Option<nat>);

pub open spec fn panoms_view(v: Seq<ParameterAnomaly>) -> Seq<PAnomV> {
    v.map_values(|a: ParameterAnomaly| (a.kind, a.param@, a.value@, match a.count { Some(c) => Some(c as nat), None => None::<nat> }))
}

pub type ValueV = (Seq<char>, nat);

pub open spec fn values_view(v: Seq<ParamValueCount>) -> Seq<ValueV> {
    v.map_values(|x: ParamValueCount| (x.value@, x.count as nat))
}

pub open spec fn is_time_type(b: Seq<char>) -> bool {
    b == "TIME"@ || b == "TIMESTAMP"@ || b == "DATE"@ || b == "DATETIME"@
}

/// Outliers among values from index `i` on: shares of at most `num / den`
/// of `total`, when `gate` holds.
pub open spec fn outliers(p: Seq<char>, vals: Seq<ValueV>, i: int, total: nat, num: nat, den: nat, gate: bool) -> Seq<PAnomV>
    decreases vals.len() - i,
{
    if i < 0 || i >= vals.len() {
        Seq::empty()
    } else {
        let rest = outliers(p, vals, i + 1, total, num, den, gate);
        if gate && vals[i].1 * den <= total * num {
            seq![(ParamAnomalyKind::Outlier, p, vals[i].0, Some(vals[i].1))] + rest
        } else {
            rest
        }
    }
}

/// The highest count is more than three times the second highest.
pub open spec fn imbalanced(vals: Seq<ValueV>) -> bool {
    let c = vals.map_values(|v: ValueV| v.1 as int).sort();
    let hi = if c.len() >= 1 { c[c.len() - 1] } else { 0 };
    let second = if c.len() >= 2 { c[c.len() - 2] } else { 0 };
    hi > second * 3
}

/// The findings for one parameter, `lines` being the number of lines of its template.
pub open spec fn param_findings(lines: nat, p: Seq<char>, total: nat, card: nat, vals: Seq<ValueV>) -> Seq<PAnomV> {
    let base = base_type(p);
    let top = if vals.len() > 0 { vals[0].1 } else { 0 };
    let first = if vals.len() > 0 { vals[0].0 } else { Seq::empty() };
    let main = if total == 0 || is_time_type(base) || high_cardinality_numeric(p, card, total) {
        Seq::empty()
    } else if top * 10 >= total * 9 && lines > 10 && card > 1 {
        seq![(ParamAnomalyKind::ValueConcentration, p, first, None::<nat>)] + outliers(p, vals, 1, total, 1, 10, true)
    } else if 1 < card <= 3 && total >= 100 {
        seq![(ParamAnomalyKind::LowCardinality, p, decimal(card) + " unique values"@, Some(total))]
    } else if card >= 4 && total >= 20 {
        outliers(p, vals, 0, total, 1, 20, imbalanced(vals))
    } else {
        Seq::empty()
    };
    let alert = if total > 0 && !is_time_type(base) && !high_cardinality_numeric(p, card, total) && base == "IP"@
        && card == 1 && total >= 100 {
        seq![(ParamAnomalyKind::SecurityAlert, p, first, Some(total))]
    } else {
        Seq::empty()
    };
    main + alert
}

pub open spec fn stats_findings(lines: nat, st: Seq<(Seq<char>, nat, nat, Seq<ValueV>)>) -> Seq<PAnomV>
    decreases st.len(),
{
    if st.len() == 0 {
        Seq::empty()
    } else {
        stats_findings(lines, st.drop_last()) + param_findings(lines, st.last().0, st.last().1, st.last().2, st.last().3)
    }
}

pub open spec fn stats_view(v: Seq<(String, ParamFieldStats)>) -> Seq<(Seq<char>, nat, nat, Seq<ValueV>)> {
    v.map_values(|x: (String, ParamFieldStats)| (x.0@, x.1.total as nat, x.1.cardinality as nat, values_view(x.1.values@)))
}

fn outliers_exec(p: &String, vals: &Vec<ParamValueCount>, from: usize, total: usize, num: u64, den: u64, gate: bool, out: &mut Vec<ParameterAnomaly>)
    requires
        from <= vals@.len(),
    ensures
        panoms_view(final(out)@) == panoms_view(old(out)@) + outliers(p@, values_view(vals@), from as int, total as nat, num as nat, den as nat, gate),
{
    let ghost vv = values_view(vals@);
    let ghost o0 = panoms_view(out@);
    let mut i = from;
    assert(outliers(p@, vv, from as int, total as nat, num as nat, den as nat, gate) == outliers(p@, vv, from as int, total as nat, num as nat, den as nat, gate));
    let ghost mut acc: Seq<PAnomV> = Seq::empty();
    while i < vals.len()
        invariant
            vv == values_view(vals@),
            from <= i <= vals@.len(),
            panoms_view(out@) == o0 + acc,
            acc + outliers(p@, vv, i as int, total as nat, num as nat, den as nat, gate) == outliers(p@, vv, from as int, total as nat, num as nat, den as nat, gate),
        decreases vals@.len() - i,
    {
        let c = vals[i].count;
        assert(vv[i as int] == (vals@[i as int].value@, c as nat));
        let c64 = c as u64;
        let t64 = total as u64;
        proof {
            crate::anomaly::lemma_mul_fits(c64, den);
            crate::anomaly::lemma_mul_fits(t64, num);
        }
        if gate && (c64 as u128) * (den as u128) <= (t64 as u128) * (num as u128) {
            let ghost item = (ParamAnomalyKind::Outlier, p@, vv[i as int].0, Some(c as nat));
            let pv = p.clone();
            let vv_i = vals[i].value.clone();
            assert(pv@ == p@ && vv_i@ == vv[i as int].0);
            let ghost before = panoms_view(out@);
            out.push(ParameterAnomaly { kind: ParamAnomalyKind::Outlier, param: pv, value: vv_i, count: Some(c) });
            assert(panoms_view(out@) =~= before.push(item));
            assert(panoms_view(out@) =~= o0 + acc.push(item));
            proof {
                assert(acc.push(item) + outliers(p@, vv, i + 1, total as nat, num as nat, den as nat, gate) =~= acc + (seq![item] + outliers(p@, vv, i + 1, total as nat, num as nat, den as nat, gate)));
                acc = acc.push(item);
            }
        }
        i += 1;
    }
    assert(acc + Seq::<PAnomV>::empty() =~= acc);
}

fn imbalanced_exec(vals: &Vec<ParamValueCount>) -> (r: bool)
    ensures
        r == imbalanced(values_view(vals@)),
{
    let mut counts: Vec<usize> = Vec::new();
    let mut i: usize = 0;
    let ghost target = values_view(vals@).map_values(|v: ValueV| v.1 as int);
    while i < vals.len()
        invariant
            i <= vals@.len(),
            target == values_view(vals@).map_values(|v: ValueV| v.1 as int),
            ints(counts@) == target.subrange(0, i as int),
        decreases vals@.len() - i,
    {
        let ghost c0 = counts@;
        counts.push(vals[i].count);
        assert(ints(counts@) =~= ints(c0).push(vals@[i as int].count as int));
        assert(target.subrange(0, i + 1) =~= target.subrange(0, i as int).push(vals@[i as int].count as int));
        i += 1;
    }
    assert(target.subrange(0, vals@.len() as int) =~= target);
    let sorted = sort_counts(&counts);
    proof {
        crate::temporal::lemma_sort_len(target);
    }
    let n = sorted.len();
    let hi: u128 = if n >= 1 { sorted[n - 1] as u128 } else { 0 };
    let second: u128 = if n >= 2 { sorted[n - 2] as u128 } else { 0 };
    if n >= 1 {
        assert(ints(sorted@)[n - 1] == sorted@[n - 1] as int);
    }
    if n >= 2 {
        assert(ints(sorted@)[n - 2] == sorted@[n - 2] as int);
    }
    hi > second * 3
}

fn is_time_exec(b: &Vec<char>) -> (r: bool)
    ensures
        r == is_time_type(b@),
{
    chars_eq(b, &chars_of("TIME")) || chars_eq(b, &chars_of("TIMESTAMP")) || chars_eq(b, &chars_of("DATE")) || chars_eq(b, &chars_of("DATETIME"))
}

fn param_findings_exec(lines: usize, p: &String, st: &ParamFieldStats, out: &mut Vec<ParameterAnomaly>)
    ensures
        panoms_view(final(out)@) == panoms_view(old(out)@) + param_findings(lines as nat, p@, st.total as nat, st.cardinality as nat, values_view(st.values@)),
{
    let ghost vv = values_view(st.values@);
    let ghost o0 = panoms_view(out@);
    let total = st.total;
    let card = st.cardinality;
    let base = chars_of(get_base_param_type(p.as_str()).as_str());
    let (top, first) = if st.values.len() > 0 {
        assert(vv[0] == (st.values@[0].value@, st.values@[0].count as nat));
        (st.values[0].count, st.values[0].value.clone())
    } else {
        (0usize, string_of(Vec::<char>::new().as_slice()))
    };
    assert(first@ == (if vv.len() > 0 { vv[0].0 } else { Seq::<char>::empty() }));
    let skip = total == 0 || is_time_exec(&base) || is_high_cardinality_numeric(p.as_str(), card as u64, total as u64);
    if skip {
    } else if (top as u128) * 10 >= (total as u128) * 9 && lines > 10 && card > 1 {
        out.push(ParameterAnomaly { kind: ParamAnomalyKind::ValueConcentration, param: p.clone(), value: first.clone(), count: None });
        let ghost mid = panoms_view(out@);
        assert(mid =~= o0 + seq![(ParamAnomalyKind::ValueConcentration, p@, first@, None::<nat>)]);
        if st.values.len() >= 1 {
            outliers_exec(p, &st.values, 1, total, 1, 10, true, out);
        } else {
            assert(outliers(p@, vv, 1, total as nat, 1, 10, true) == Seq::<PAnomV>::empty());
        }
        assert(panoms_view(out@) =~= o0 + (seq![(ParamAnomalyKind::ValueConcentration, p@, first@, None::<nat>)] + outliers(p@, vv, 1, total as nat, 1, 10, true)));
    } else if 1 < card && card <= 3 && total >= 100 {
        let mut v = decimal_chars(card);
        append_chars(&mut v, &chars_of(" unique values"));
        out.push(ParameterAnomaly { kind: ParamAnomalyKind::LowCardinality, param: p.clone(), value: string_of(v.as_slice()), count: Some(total) });
        assert(panoms_view(out@) =~= o0 + seq![(ParamAnomalyKind::LowCardinality, p@, decimal(card as nat) + " unique values"@, Some(total as nat))]);
    } else if card >= 4 && total >= 20 {
        let gate = imbalanced_exec(&st.values);
        outliers_exec(p, &st.values, 0, total, 1, 20, gate, out);
    } else {
    }
    let ghost after_main = panoms_view(out@);
    assert(after_main == o0 + (if total == 0 || is_time_type(base_type(p@)) || high_cardinality_numeric(p@, card as nat, total as nat) {
        Seq::<PAnomV>::empty()
    } else if (if vv.len() > 0 { vv[0].1 } else { 0 }) * 10 >= total * 9 && lines > 10 && card > 1 {
        seq![(ParamAnomalyKind::ValueConcentration, p@, first@, None::<nat>)] + outliers(p@, vv, 1, total as nat, 1, 10, true)
    } else if 1 < card <= 3 && total >= 100 {
        seq![(ParamAnomalyKind::LowCardinality, p@, decimal(card as nat) + " unique values"@, Some(total as nat))]
    } else if card >= 4 && total >= 20 {
        outliers(p@, vv, 0, total as nat, 1, 20, imbalanced(vv))
    } else {
        Seq::<PAnomV>::empty()
    })) by {
        if !skip && !((top as u128) * 10 >= (total as u128) * 9 && lines > 10 && card > 1) && !(1 < card && card <= 3 && total >= 100) && !(card >= 4 && total >= 20) {
            assert(after_main =~= o0 + Seq::<PAnomV>::empty());
        }
        if skip {
            assert(after_main =~= o0 + Seq::<PAnomV>::empty());
        }
    }
    if !skip && chars_eq(&base, &chars_of("IP")) && card == 1 && total >= 100 {
        out.push(ParameterAnomaly { kind: ParamAnomalyKind::SecurityAlert, param: p.clone(), value: first, count: Some(total) });
        assert(panoms_view(out@) =~= after_main.push((ParamAnomalyKind::SecurityAlert, p@, first@, Some(total as nat))));
    } else {
        assert(after_main + Seq::<PAnomV>::empty() =~= after_main);
    }
}

/// The findings of every parameter of a template with `total_count` lines,
/// parameter after parameter (see `param_findings`).
pub fn analyze_parameters(total_count: usize, param_stats: &Vec<(String, ParamFieldStats)>) -> (r: Vec<ParameterAnomaly>)
    ensures
        panoms_view(r@) == stats_findings(total_count as nat, stats_view(param_stats@)),
{
    let ghost sv = stats_view(param_stats@);
    let mut out: Vec<ParameterAnomaly> = Vec::new();
    let mut i: usize = 0;
    assert(panoms_view(out@) =~= stats_findings(total_count as nat, sv.subrange(0, 0)));
    while i < param_stats.len()
        invariant
            sv == stats_view(param_stats@),
            i <= param_stats@.len(),
            panoms_view(out@) == stats_findings(total_count as nat, sv.subrange(0, i as int)),
        decreases param_stats@.len() - i,
    {
        let ghost sub = sv.subrange(0, i + 1);
        assert(sub.drop_last() =~= sv.subrange(0, i as int));
        assert(sub.last() == sv[i as int]);
        param_findings_exec(total_count, &param_stats[i].0, &param_stats[i].1, &mut out);
        i += 1;
    }
    assert(sv.subrange(0, param_stats@.len() as int) =~= sv);
    out
}

} // verus!
