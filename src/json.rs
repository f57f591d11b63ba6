//! Structured lines: a JSON object flattened into sorted dotted paths.
use vstd::prelude::*;
use crate::order::{less, lt, lemma_lt_irreflexive, lemma_lt_total, lemma_lt_transitive};
use crate::text::{append_chars, chars_eq, chars_of, decimal, decimal_chars, string_of};

verus! {

/// A parsed JSON value; numbers keep the text that `serde_json` renders for
/// them, and whether it holds them as integers.
#[derive(Debug)]
pub enum Json {
    Null,
    Bool(bool),
    Number(String, bool),
    Str(String),
    Array(Vec<Json>),
    Object(Vec<(String, Json)>),
}

#[verifier::external_type_specification]
#[verifier::external_body]
pub struct ExValue(serde_json::Value);

/// Relies on `serde_json::Value`'s variants: the same value as a `Json`,
/// numbers rendered by `serde_json::Number`'s `Display`, marked integral
/// unless `Number::is_f64` holds.
#[verifier::external_body]
fn json_of(v: &serde_json::Value) -> Json {
    match v {
        serde_json::Value::Null => Json::Null,
        serde_json::Value::Bool(b) => Json::Bool(*b),
        serde_json::Value::Number(n) => Json::Number(n.to_string(), !n.is_f64()),
        serde_json::Value::String(s) => Json::Str(s.clone()),
        serde_json::Value::Array(a) => Json::Array(a.iter().map(json_of).collect()),
        serde_json::Value::Object(o) => Json::Object(
            o.iter().map(|(k, x)| (k.clone(), json_of(x))).collect(),
        ),
    }
}

/// What `serde_json::from_str::<serde_json::Value>` makes of a text.
pub uninterp spec fn parsed_json(s: Seq<char>) -> Option<Json>;

/// Relies on `serde_json::from_str`: the value the text holds, or `None`
/// when it is not JSON.
#[verifier::external_body]
pub(crate) fn parse_json(s: &str) -> (r: Option<Json>)
    ensures
        r == parsed_json(s@),
{
    serde_json::from_str::<serde_json::Value>(s).ok().map(|v| json_of(&v))
}

/// What `str::trim` returns.
pub uninterp spec fn trimmed(s: Seq<char>) -> Seq<char>;

/// Relies on `str::trim`: the text without leading and trailing white space.
#[verifier::external_body]
fn trim_text(s: &str) -> (r: String)
    ensures
        r@ == trimmed(s@),
{
    s.trim().to_string()
}

/// A field path below `prefix`.
pub open spec fn path_of(prefix: Seq<char>, key: Seq<char>) -> Seq<char> {
    if prefix.len() == 0 {
        key
    } else {
        prefix + "."@ + key
    }
}

/// The text of a value that is not an object: arrays are given by their length.
pub open spec fn leaf_text(j: Json) -> Seq<char> {
    match j {
        Json::Null => "null"@,
        Json::Bool(b) => if b { "true"@ } else { "false"@ },
        Json::Number(n, _) => n@,
        Json::Str(s) => s@,
        Json::Array(a) => "array["@ + decimal(a@.len()) + "]"@,
        Json::Object(_) => "[object]"@,
    }
}

/// The `(path, text)` pairs of one member; nested objects are opened up to
/// `depth` levels deep.
pub open spec fn member_pairs(prefix: Seq<char>, e: (String, Json), depth: nat) -> Seq<(Seq<char>, Seq<char>)>
    decreases depth, 0nat,
{
    let path = path_of(prefix, e.0@);
    match e.1 {
        Json::Object(o) => if depth == 0 {
            seq![(path, "[object]"@)]
        } else {
            flat_pairs(path, o@, (depth - 1) as nat)
        },
        _ => seq![(path, leaf_text(e.1))],
    }
}

/// The `(path, text)` pairs of the members `es`, in order.
pub open spec fn flat_pairs(prefix: Seq<char>, es: Seq<(String, Json)>, depth: nat) -> Seq<(Seq<char>, Seq<char>)>
    decreases depth, es.len() + 1,
{
    if es.len() == 0 {
        Seq::empty()
    } else {
        flat_pairs(prefix, es.drop_last(), depth) + member_pairs(prefix, es.last(), depth)
    }
}

/// How deep nested objects are opened (`serde_json` refuses deeper input).
pub const MAX_DEPTH: usize = 128;

fn leaf_exec(j: &Json) -> (r: Vec<char>)
    ensures
        r@ == leaf_text(*j),
{
    match j {
        Json::Null => chars_of("null"),
        Json::Bool(b) => if *b { chars_of("true") } else { chars_of("false") },
        Json::Number(n, _) => chars_of(n.as_str()),
        Json::Str(s) => chars_of(s.as_str()),
        Json::Array(a) => {
            let mut r = chars_of("array[");
            let d = decimal_chars(a.len());
            append_chars(&mut r, &d);
            r.push(']');
            proof {
                reveal_strlit("]");
            }
            assert(r@ =~= "array["@ + decimal(a@.len()) + "]"@);
            r
        },
        Json::Object(_) => chars_of("[object]"),
    }
}

pub(crate) fn path_exec(prefix: &Vec<char>, key: &String) -> (r: Vec<char>)
    ensures
        r@ == path_of(prefix@, key@),
{
    let k = chars_of(key.as_str());
    if prefix.len() == 0 {
        k
    } else {
        let mut r = prefix.clone();
        r.push('.');
        append_chars(&mut r, &k);
        proof {
            reveal_strlit(".");
        }
        assert(r@ =~= prefix@ + "."@ + key@);
        r
    }
}

pub open spec fn pairs_view(v: Seq<(Vec<char>, Vec<char>)>) -> Seq<(Seq<char>, Seq<char>)> {
    v.map_values(|p: (Vec<char>, Vec<char>)| (p.0@, p.1@))
}

fn flatten_into(prefix: &Vec<char>, es: &Vec<(String, Json)>, depth: usize, out: &mut Vec<(Vec<char>, Vec<char>)>)
    ensures
        pairs_view(final(out)@) == pairs_view(old(out)@) + flat_pairs(prefix@, es@, depth as nat),
    decreases depth,
{
    let ghost o0 = pairs_view(out@);
    let mut i: usize = 0;
    assert(es@.subrange(0, 0) =~= Seq::<(String, Json)>::empty());
    while i < es.len()
        invariant
            i <= es@.len(),
            pairs_view(out@) == o0 + flat_pairs(prefix@, es@.subrange(0, i as int), depth as nat),
        decreases es@.len() - i,
    {
        let e = &es[i];
        let path = path_exec(prefix, &e.0);
        let ghost sub = es@.subrange(0, i + 1);
        assert(sub.drop_last() =~= es@.subrange(0, i as int));
        assert(sub.last() == *e);
        let ghost before = pairs_view(out@);
        match &e.1 {
            Json::Object(o) => {
                if depth == 0 {
                    out.push((path, chars_of("[object]")));
                    assert(pairs_view(out@) =~= before + member_pairs(prefix@, *e, depth as nat));
                } else {
                    flatten_into(&path, o, depth - 1, out);
                    assert(member_pairs(prefix@, *e, depth as nat) == flat_pairs(path@, o@, (depth - 1) as nat));
                }
            },
            _ => {
                let leaf = leaf_exec(&e.1);
                out.push((path, leaf));
                assert(pairs_view(out@) =~= before + member_pairs(prefix@, *e, depth as nat));
            },
        }
        assert(flat_pairs(prefix@, sub, depth as nat) == flat_pairs(prefix@, es@.subrange(0, i as int), depth as nat)
            + member_pairs(prefix@, *e, depth as nat));
        assert(pairs_view(out@) =~= o0 + flat_pairs(prefix@, sub, depth as nat));
        i += 1;
    }
    assert(es@.subrange(0, es@.len() as int) =~= es@);
}

/// The text recorded last for `k` among `pairs`.
pub open spec fn last_value(pairs: Seq<(Seq<char>, Seq<char>)>, k: Seq<char>) -> Seq<char>
    decreases pairs.len(),
{
    if pairs.len() == 0 {
        Seq::empty()
    } else if pairs.last().0 == k {
        pairs.last().1
    } else {
        last_value(pairs.drop_last(), k)
    }
}

/// `fields` lists each path of `pairs` once, in increasing order, with the
/// text recorded last for it (what a sorted map filled with `pairs` holds).
pub open spec fn sorted_fields(fields: Seq<(Seq<char>, Seq<char>)>, pairs: Seq<(Seq<char>, Seq<char>)>) -> bool {
    &&& forall|i: int, j: int| 0 <= i < j < fields.len() ==> lt(#[trigger] fields[i].0, #[trigger] fields[j].0)
    &&& forall|i: int| 0 <= i < fields.len() ==> (#[trigger] fields[i]).1 == last_value(pairs, fields[i].0)
    &&& forall|k: Seq<char>| #![trigger has_path(fields, k)] #![trigger has_path(pairs, k)]
        has_path(fields, k) <==> has_path(pairs, k)
}

/// Some pair has path `k`.
pub open spec fn has_path(s: Seq<(Seq<char>, Seq<char>)>, k: Seq<char>) -> bool {
    exists|i: int| 0 <= i < s.len() && (#[trigger] s[i]).0 == k
}

#[verifier::rlimit(60)]
fn insert_sorted(fields: &mut Vec<(Vec<char>, Vec<char>)>, k: Vec<char>, v: Vec<char>, pairs: Ghost<Seq<(Seq<char>, Seq<char>)>>)
    requires
        sorted_fields(pairs_view(old(fields)@), pairs@),
    ensures
        sorted_fields(pairs_view(final(fields)@), pairs@.push((k@, v@))),
{
    let ghost np = pairs@.push((k@, v@));
    let ghost f0 = pairs_view(fields@);
    assert(np.drop_last() =~= pairs@);
    let mut p: usize = 0;
    while p < fields.len() && less(&fields[p].0, &k)
        invariant
            p <= fields@.len(),
            f0 == pairs_view(fields@),
            forall|i: int| 0 <= i < p ==> lt(#[trigger] f0[i].0, k@),
        decreases fields@.len() - p,
    {
        p += 1;
    }
    if p < fields.len() && chars_eq(&fields[p].0, &k) {
        let (old_k, _) = fields.remove(p);
        fields.insert(p, (old_k, v));
        let ghost f1 = pairs_view(fields@);
        assert(f1 =~= f0.update(p as int, (k@, v@)));
        assert(forall|i: int| 0 <= i < f1.len() ==> (#[trigger] f1[i]).0 == f0[i].0);
        assert(forall|i: int, j: int| 0 <= i < j < f1.len() ==> lt(#[trigger] f1[i].0, #[trigger] f1[j].0)) by {
            assert(forall|i: int, j: int| 0 <= i < j < f0.len() ==> lt(#[trigger] f0[i].0, #[trigger] f0[j].0));
        }
        assert forall|i: int| 0 <= i < f1.len() implies (#[trigger] f1[i]).1 == last_value(np, f1[i].0) by {
            if i != p {
                assert(f0[i].0 != k@) by {
                    lemma_lt_irreflexive(k@);
                    if i > p {
                        assert(lt(f0[p as int].0, f0[i].0));
                    }
                }
            }
        }
        assert forall|kk: Seq<char>| has_path(f1, kk) <==> has_path(np, kk) by {
            if has_path(np, kk) {
                let j = choose|j: int| 0 <= j < np.len() && (#[trigger] np[j]).0 == kk;
                if j < pairs@.len() {
                    assert(pairs@[j].0 == kk);
                    assert(has_path(pairs@, kk));
                    assert(has_path(f0, kk));
                    let i = choose|i: int| 0 <= i < f0.len() && (#[trigger] f0[i]).0 == kk;
                    assert(f1[i].0 == kk);
                } else {
                    assert(f1[p as int].0 == kk);
                }
            }
            if has_path(f1, kk) {
                let i = choose|i: int| 0 <= i < f1.len() && (#[trigger] f1[i]).0 == kk;
                assert(f0[i].0 == kk);
                assert(has_path(f0, kk));
                let j = choose|j: int| 0 <= j < pairs@.len() && (#[trigger] pairs@[j]).0 == kk;
                assert(np[j].0 == kk);
            }
        }
    } else {
        if p < fields.len() {
            proof {
                lemma_lt_total(f0[p as int].0, k@);
            }
        }
        fields.insert(p, (k.clone(), v));
        let ghost f1 = pairs_view(fields@);
        assert(f1 =~= f0.insert(p as int, (k@, v@)));
        assert forall|i: int, j: int| 0 <= i < j < f1.len() implies lt(#[trigger] f1[i].0, #[trigger] f1[j].0) by {
            if j == p {
                assert(f1[i] == f0[i]);
            } else if i == p {
                assert(f1[j] == f0[j - 1]);
                if j - 1 > p {
                    lemma_lt_transitive(k@, f0[p as int].0, f0[j - 1].0);
                }
            } else if i < p && j < p {
            } else if i < p {
                assert(f1[i] == f0[i]);
                assert(f1[j] == f0[j - 1]);
            } else {
                assert(f1[i] == f0[i - 1]);
                assert(f1[j] == f0[j - 1]);
            }
        }
        assert forall|i: int| 0 <= i < f1.len() implies (#[trigger] f1[i]).1 == last_value(np, f1[i].0) by {
            if i < p {
                assert(f1[i] == f0[i]);
                lemma_lt_irreflexive(k@);
            } else if i > p {
                assert(f1[i] == f0[i - 1]);
                lemma_lt_irreflexive(k@);
                if i - 1 > p {
                    lemma_lt_transitive(k@, f0[p as int].0, f0[i - 1].0);
                }
            }
        }
        assert forall|kk: Seq<char>| has_path(f1, kk) <==> has_path(np, kk) by {
            if has_path(np, kk) {
                let j = choose|j: int| 0 <= j < np.len() && (#[trigger] np[j]).0 == kk;
                if j < pairs@.len() {
                    assert(pairs@[j].0 == kk);
                    assert(has_path(pairs@, kk));
                    assert(has_path(f0, kk));
                    let i = choose|i: int| 0 <= i < f0.len() && (#[trigger] f0[i]).0 == kk;
                    if i < p {
                        assert(f1[i].0 == kk);
                    } else {
                        assert(f1[i + 1].0 == kk);
                    }
                } else {
                    assert(f1[p as int].0 == kk);
                }
            }
            if has_path(f1, kk) {
                let i = choose|i: int| 0 <= i < f1.len() && (#[trigger] f1[i]).0 == kk;
                if i == p {
                    assert(np[pairs@.len() as int].0 == kk);
                } else {
                    let i0 = if i < p { i } else { i - 1 };
                    assert(f0[i0].0 == kk);
                    assert(has_path(f0, kk));
                    let j = choose|j: int| 0 <= j < pairs@.len() && (#[trigger] pairs@[j]).0 == kk;
                    assert(np[j].0 == kk);
                }
            }
        }
    }
}

/// The sorted fields of a list of pairs (see `sorted_fields`).
pub(crate) fn sort_fields(pairs: &Vec<(Vec<char>, Vec<char>)>) -> (r: Vec<(Vec<char>, Vec<char>)>)
    ensures
        sorted_fields(pairs_view(r@), pairs_view(pairs@)),
{
    let mut fields: Vec<(Vec<char>, Vec<char>)> = Vec::new();
    let mut i: usize = 0;
    assert(pairs_view(pairs@).subrange(0, 0) =~= Seq::<(Seq<char>, Seq<char>)>::empty());
    while i < pairs.len()
        invariant
            i <= pairs@.len(),
            sorted_fields(pairs_view(fields@), pairs_view(pairs@).subrange(0, i as int)),
        decreases pairs@.len() - i,
    {
        let ghost pv = pairs_view(pairs@);
        let k = pairs[i].0.clone();
        let v = pairs[i].1.clone();
        insert_sorted(&mut fields, k, v, Ghost(pv.subrange(0, i as int)));
        assert(pv.subrange(0, i as int).push(pv[i as int]) =~= pv.subrange(0, i + 1));
        i += 1;
    }
    assert(pairs_view(pairs@).subrange(0, pairs@.len() as int) =~= pairs_view(pairs@));
    fields
}

/// The pairs of a line that holds a JSON object, or `None` when it does not.
pub open spec fn flat_of_line(t: Seq<char>) -> Option<Seq<(Seq<char>, Seq<char>)>> {
    match parsed_json(trimmed(t)) {
        Some(Json::Object(o)) => Some(flat_pairs(Seq::empty(), o@, MAX_DEPTH as nat)),
        _ => None,
    }
}

pub open spec fn strpairs_view(v: Seq<(String, String)>) -> Seq<(Seq<char>, Seq<char>)> {
    v.map_values(|p: (String, String)| (p.0@, p.1@))
}

/// Flattens a line holding a JSON object into its fields: each dotted path
/// once, in increasing order, with the text of its value; `None` when the
/// line is not a JSON object.
pub fn try_flatten_json(input: &str) -> (r: Option<Vec<(String, String)>>)
    ensures
        r is Some <==> flat_of_line(input@) is Some,
        r is Some ==> sorted_fields(strpairs_view(r->Some_0@), flat_of_line(input@)->Some_0),
{
    let t = trim_text(input);
    match parse_json(t.as_str()) {
        Some(Json::Object(o)) => {
            let mut pairs: Vec<(Vec<char>, Vec<char>)> = Vec::new();
            let empty: Vec<char> = Vec::new();
            assert(pairs_view(pairs@) =~= Seq::<(Seq<char>, Seq<char>)>::empty());
            flatten_into(&empty, &o, MAX_DEPTH, &mut pairs);
            assert(pairs_view(pairs@) =~= flat_pairs(Seq::empty(), o@, MAX_DEPTH as nat));
            let fields = sort_fields(&pairs);
            let mut out: Vec<(String, String)> = Vec::new();
            let mut i: usize = 0;
            while i < fields.len()
                invariant
                    i <= fields@.len(),
                    strpairs_view(out@) == pairs_view(fields@).subrange(0, i as int),
                decreases fields@.len() - i,
            {
                out.push((string_of(fields[i].0.as_slice()), string_of(fields[i].1.as_slice())));
                assert(pairs_view(fields@).subrange(0, i + 1) =~= pairs_view(fields@).subrange(0, i as int).push((fields@[i as int].0@, fields@[i as int].1@)));
                assert(strpairs_view(out@) =~= pairs_view(fields@).subrange(0, i + 1));
                i += 1;
            }
            assert(pairs_view(fields@).subrange(0, fields@.len() as int) =~= pairs_view(fields@));
            Some(out)
        },
        _ => None,
    }
}


proof fn lemma_sorted_prefix(f: Seq<(Seq<char>, Seq<char>)>, g: Seq<(Seq<char>, Seq<char>)>, p: Seq<(Seq<char>, Seq<char>)>, i: int)
    requires
        sorted_fields(f, p),
        sorted_fields(g, p),
        0 <= i <= f.len(),
        i <= g.len(),
    ensures
        forall|j: int| 0 <= j < i ==> f[j] == g[j],
    decreases i,
{
    if i > 0 {
        lemma_sorted_prefix(f, g, p, i - 1);
        let n = i - 1;
        let a = f[n].0;
        let b = g[n].0;
        if a != b {
            lemma_lt_total(a, b);
            assert(has_path(f, a));
            assert(has_path(g, a));
            assert(has_path(g, b));
            assert(has_path(f, b));
            let ja = choose|j: int| 0 <= j < g.len() && (#[trigger] g[j]).0 == a;
            let jb = choose|j: int| 0 <= j < f.len() && (#[trigger] f[j]).0 == b;
            lemma_lt_irreflexive(a);
            lemma_lt_irreflexive(b);
            if lt(a, b) {
                if ja < n {
                    assert(f[ja] == g[ja]);
                    assert(lt(f[ja].0, f[n].0));
                } else if ja > n {
                    assert(lt(g[n].0, g[ja].0));
                    lemma_lt_transitive(a, b, a);
                }
            } else {
                if jb < n {
                    assert(f[jb] == g[jb]);
                    assert(lt(g[jb].0, g[n].0));
                } else if jb > n {
                    assert(lt(f[n].0, f[jb].0));
                    lemma_lt_transitive(b, a, b);
                }
            }
        }
        assert(f[n].1 == last_value(p, a));
        assert(g[n].1 == last_value(p, b));
    }
}

/// Sorted fields are determined by the pairs they come from.
pub proof fn lemma_sorted_fields_unique(f: Seq<(Seq<char>, Seq<char>)>, g: Seq<(Seq<char>, Seq<char>)>, p: Seq<(Seq<char>, Seq<char>)>)
    requires
        sorted_fields(f, p),
        sorted_fields(g, p),
    ensures
        f == g,
{
    if f.len() <= g.len() {
        lemma_sorted_prefix(f, g, p, f.len() as int);
        if f.len() < g.len() {
            let k = g[f.len() as int].0;
            assert(has_path(g, k));
            let j = choose|j: int| 0 <= j < f.len() && (#[trigger] f[j]).0 == k;
            assert(f[j] == g[j]);
            assert(lt(g[j].0, g[f.len() as int].0));
            lemma_lt_irreflexive(k);
        }
    } else {
        lemma_sorted_prefix(f, g, p, g.len() as int);
        let k = f[g.len() as int].0;
        assert(has_path(f, k));
        let j = choose|j: int| 0 <= j < g.len() && (#[trigger] g[j]).0 == k;
        assert(f[j] == g[j]);
        assert(lt(f[j].0, f[g.len() as int].0));
        lemma_lt_irreflexive(k);
    }
    assert(f =~= g);
}

} // verus!
