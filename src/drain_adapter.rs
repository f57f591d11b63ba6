//! Templates of the clustering tree: how they are shown and generalized.
use vstd::prelude::*;
use crate::masking::{group_text, replace_all, replace_pass};
use crate::order::{less, lt};
use crate::params::strings_view;
use crate::scan::{matches_of, matches_view, scan, Span};
use crate::smart_masking::{split_words, words_of};
use crate::text::{append_chars, chars_eq, chars_of, slice_chars, string_of};

verus! {

/// A failure of the clustering tree.
#[derive(Debug)]
pub enum DrainError {
    Generic(String),
}

/// A cluster of the tree: its template and how many lines it holds.
#[derive(Debug)]
pub struct DrainCluster {
    pub template: String,
    pub size: usize,
}

pub const RE_PLACEHOLDER: &'static str = r"<[^>]+>";

/// Every placeholder `<...>` of a template as the wildcard `<*>`.
pub open spec fn generic_template(s: Seq<char>) -> Seq<char> {
    replace_pass(RE_PLACEHOLDER@, "<*>"@, false, s)
}

/// Replaces every placeholder by the wildcard (see `generic_template`).
pub fn to_generic_template(s: &str) -> (r: String)
    ensures
        r@ == generic_template(s@),
{
    let t = chars_of(s);
    let out = replace_all(RE_PLACEHOLDER, &chars_of("<*>"), false, &t);
    string_of(out.as_slice())
}

/// The template as shown: its descriptive placeholders are kept.
pub fn to_display_template(raw_template: &str, source_line: &str) -> (r: String)
    ensures
        r@ == raw_template@,
{
    string_of(chars_of(raw_template).as_slice())
}


pub const RE_FIELD_PLACEHOLDER: &'static str = r"(\w+)\s*=\s*<[^>]+>";

/// `v` placed in the ordered list `s` after the entries not greater than it.
pub open spec fn insert_ordered(s: Seq<Seq<char>>, v: Seq<char>) -> Seq<Seq<char>>
    decreases s.len(),
{
    if s.len() == 0 {
        seq![v]
    } else if lt(v, s[0]) {
        seq![v] + s
    } else {
        seq![s[0]] + insert_ordered(s.drop_first(), v)
    }
}

/// The names in increasing order, repeats kept.
pub open spec fn sorted_names(names: Seq<Seq<char>>) -> Seq<Seq<char>>
    decreases names.len(),
{
    if names.len() == 0 {
        Seq::empty()
    } else {
        insert_ordered(sorted_names(names.drop_last()), names.last())
    }
}

/// The field names of `name = <...>` pairs of a template, in order.
pub open spec fn field_names(ms: Seq<Seq<Option<Span>>>, t: Seq<char>) -> Seq<Seq<char>> {
    ms.map_values(|m: Seq<Option<Span>>| group_text(t, m, 1))
}

/// Pieces joined by `sep`.
pub open spec fn join_with(parts: Seq<Seq<char>>, sep: Seq<char>) -> Seq<char>
    decreases parts.len(),
{
    if parts.len() == 0 {
        Seq::empty()
    } else if parts.len() == 1 {
        parts[0]
    } else {
        join_with(parts.drop_last(), sep) + sep + parts.last()
    }
}

/// The structural key of a template: its field names, sorted.
pub open spec fn shape_key(t: Seq<char>) -> Seq<char> {
    "fields:"@ + join_with(sorted_names(field_names(matches_of(RE_FIELD_PLACEHOLDER@, t), t)), ","@)
}

fn insert_ordered_exec(s: &Vec<Vec<char>>, v: Vec<char>) -> (r: Vec<Vec<char>>)
    ensures
        r@.map_values(|x: Vec<char>| x@) == insert_ordered(s@.map_values(|x: Vec<char>| x@), v@),
{
    let ghost sv = s@.map_values(|x: Vec<char>| x@);
    let mut p: usize = 0;
    assert(sv.subrange(0, sv.len() as int) =~= sv);
    while p < s.len() && !less(&v, &s[p])
        invariant
            sv == s@.map_values(|x: Vec<char>| x@),
            p <= s@.len(),
            sv.subrange(0, p as int) + insert_ordered(sv.subrange(p as int, sv.len() as int), v@) == insert_ordered(sv, v@),
        decreases s@.len() - p,
    {
        let ghost rest = sv.subrange(p as int, sv.len() as int);
        assert(rest[0] == s@[p as int]@);
        assert(rest.drop_first() =~= sv.subrange(p + 1, sv.len() as int));
        assert(sv.subrange(0, p + 1) =~= sv.subrange(0, p as int) + seq![rest[0]]);
        p += 1;
    }
    let mut r: Vec<Vec<char>> = Vec::new();
    let mut i: usize = 0;
    while i < p
        invariant
            sv == s@.map_values(|x: Vec<char>| x@),
            i <= p <= s@.len(),
            r@.map_values(|x: Vec<char>| x@) == sv.subrange(0, i as int),
        decreases p - i,
    {
        let c = s[i].clone();
        assert(c@ =~= s@[i as int]@);
        let ghost before = r@.map_values(|x: Vec<char>| x@);
        r.push(c);
        assert(r@.map_values(|x: Vec<char>| x@) =~= before.push(sv[i as int]));
        assert(r@.map_values(|x: Vec<char>| x@) =~= sv.subrange(0, i + 1));
        i += 1;
    }
    let ghost rest = sv.subrange(p as int, sv.len() as int);
    if p < s.len() {
        assert(rest[0] == s@[p as int]@);
    }
    let ghost head = r@.map_values(|x: Vec<char>| x@);
    r.push(v);
    let mut j = p;
    while j < s.len()
        invariant
            sv == s@.map_values(|x: Vec<char>| x@),
            p <= j <= s@.len(),
            r@.map_values(|x: Vec<char>| x@) == head + seq![v@] + sv.subrange(p as int, j as int),
        decreases s@.len() - j,
    {
        let c = s[j].clone();
        assert(c@ =~= s@[j as int]@);
        let ghost before = r@.map_values(|x: Vec<char>| x@);
        r.push(c);
        assert(r@.map_values(|x: Vec<char>| x@) =~= before.push(sv[j as int]));
        assert(r@.map_values(|x: Vec<char>| x@) =~= head + seq![v@] + sv.subrange(p as int, j + 1));
        j += 1;
    }
    assert(r@.map_values(|x: Vec<char>| x@) =~= sv.subrange(0, p as int) + (seq![v@] + rest));
    r
}

fn join_with_exec(parts: &Vec<Vec<char>>, sep: &Vec<char>) -> (r: Vec<char>)
    ensures
        r@ == join_with(parts@.map_values(|x: Vec<char>| x@), sep@),
{
    let ghost pv = parts@.map_values(|x: Vec<char>| x@);
    let mut r: Vec<char> = Vec::new();
    let mut i: usize = 0;
    assert(pv.subrange(0, 0) =~= Seq::<Seq<char>>::empty());
    while i < parts.len()
        invariant
            pv == parts@.map_values(|x: Vec<char>| x@),
            i <= parts@.len(),
            r@ == join_with(pv.subrange(0, i as int), sep@),
        decreases parts@.len() - i,
    {
        let ghost sub = pv.subrange(0, i + 1);
        assert(sub.drop_last() =~= pv.subrange(0, i as int));
        assert(sub.last() == parts@[i as int]@);
        if i > 0 {
            append_chars(&mut r, sep);
        }
        append_chars(&mut r, &parts[i]);
        i += 1;
    }
    assert(pv.subrange(0, parts@.len() as int) =~= pv);
    r
}

/// The structural key of a template (see `shape_key`).
pub fn compute_shape_key(template: &str) -> (r: String)
    ensures
        r@ == shape_key(template@),
{
    let t = chars_of(template);
    let ms = scan(RE_FIELD_PLACEHOLDER, &t);
    let ghost gms = matches_view(ms@);
    let ghost names = field_names(gms, t@);
    let mut sorted: Vec<Vec<char>> = Vec::new();
    let mut i: usize = 0;
    assert(sorted@.map_values(|x: Vec<char>| x@) =~= sorted_names(names.subrange(0, 0)));
    while i < ms.len()
        invariant
            gms == matches_view(ms@),
            gms == matches_of(RE_FIELD_PLACEHOLDER@, t@),
            crate::scan::matches_wf(gms, t@.len()),
            names == field_names(gms, t@),
            i <= ms@.len(),
            sorted@.map_values(|x: Vec<char>| x@) == sorted_names(names.subrange(0, i as int)),
        decreases ms@.len() - i,
    {
        let m = &ms[i];
        assert(gms[i as int] == m@);
        let mut name: Vec<char> = Vec::new();
        if m.len() > 1 && m[1].is_some() {
            let g = m[1].unwrap();
            assert(gms[i as int][1] is Some);
            name = slice_chars(&t, g.0, g.1);
        }
        assert(name@ == names[i as int]);
        let ghost sub = names.subrange(0, i + 1);
        assert(sub.drop_last() =~= names.subrange(0, i as int));
        assert(sub.last() == names[i as int]);
        sorted = insert_ordered_exec(&sorted, name);
        i += 1;
    }
    assert(names.subrange(0, ms@.len() as int) =~= names);
    let joined = join_with_exec(&sorted, &chars_of(","));
    let mut r = chars_of("fields:");
    append_chars(&mut r, &joined);
    string_of(r.as_slice())
}


/// The word at `i` when every template has that same word there, else `<*>`.
pub open spec fn common_token(toks: Seq<Seq<Seq<char>>>, i: int) -> Seq<char> {
    if forall|k: int| 1 <= k < toks.len() ==> i < (#[trigger] toks[k]).len() && toks[k][i] == toks[0][i] {
        toks[0][i]
    } else {
        "<*>"@
    }
}

/// One template standing for several: the words of the first template,
/// those that differ in any other (or that it lacks) replaced by `<*>`.
pub open spec fn generalize(ts: Seq<Seq<char>>) -> Option<Seq<char>> {
    if ts.len() == 0 {
        None
    } else if ts.len() == 1 {
        Some(ts[0])
    } else {
        let toks = ts.map_values(|t: Seq<char>| words_of(t));
        Some(join_with(Seq::new(toks[0].len(), |i: int| common_token(toks, i)), " "@))
    }
}

/// Generalizes templates into one (see `generalize`).
pub fn generalize_templates(templates: &Vec<String>) -> (r: Option<String>)
    ensures
        match r {
            Some(x) => generalize(strings_view(templates@)) == Some(x@),
            None => generalize(strings_view(templates@)) is None,
        },
{
    let n = templates.len();
    if n == 0 {
        return None;
    }
    if n == 1 {
        return Some(templates[0].clone());
    }
    let ghost tv = strings_view(templates@);
    let ghost toks = tv.map_values(|t: Seq<char>| words_of(t));
    let mut tk: Vec<Vec<String>> = Vec::new();
    let mut a: usize = 0;
    while a < n
        invariant
            n == templates@.len(),
            tv == strings_view(templates@),
            toks == tv.map_values(|t: Seq<char>| words_of(t)),
            a <= n,
            tk@.len() == a,
            forall|k: int| 0 <= k < a ==> strings_view(#[trigger] tk@[k]@) == toks[k],
        decreases n - a,
    {
        tk.push(split_words(templates[a].as_str()));
        a += 1;
    }
    let first = &tk[0];
    let ghost out_tokens = Seq::new(toks[0].len(), |i: int| common_token(toks, i));
    let mut parts: Vec<Vec<char>> = Vec::new();
    let mut i: usize = 0;
    while i < first.len()
        invariant
            n == tk@.len(),
            n >= 2,
            first == &tk@[0],
            forall|k: int| 0 <= k < n ==> strings_view(#[trigger] tk@[k]@) == toks[k],
            toks.len() == n,
            out_tokens == Seq::new(toks[0].len(), |i: int| common_token(toks, i)),
            i <= first@.len(),
            parts@.map_values(|x: Vec<char>| x@) == out_tokens.subrange(0, i as int),
        decreases first@.len() - i,
    {
        let tok = chars_of(first[i].as_str());
        assert(tok@ == toks[0][i as int]);
        let mut same = true;
        let mut k: usize = 1;
        while k < n
            invariant
                1 <= k <= n,
                n == tk@.len(),
                toks.len() == n,
                forall|q: int| 0 <= q < n ==> strings_view(#[trigger] tk@[q]@) == toks[q],
                tok@ == toks[0][i as int],
                same == forall|q: int| 1 <= q < k ==> i < (#[trigger] toks[q]).len() && toks[q][i as int] == toks[0][i as int],
            decreases n - k,
        {
            let other = &tk[k];
            assert(strings_view(other@) == toks[k as int]);
            if i >= other.len() || !chars_eq(&chars_of(other[i].as_str()), &tok) {
                same = false;
            }
            k += 1;
        }
        let piece = if same { tok } else { chars_of("<*>") };
        assert(piece@ == common_token(toks, i as int));
        let ghost before = parts@.map_values(|x: Vec<char>| x@);
        parts.push(piece);
        assert(parts@.map_values(|x: Vec<char>| x@) =~= before.push(out_tokens[i as int]));
        assert(out_tokens.subrange(0, i + 1) =~= out_tokens.subrange(0, i as int).push(out_tokens[i as int]));
        i += 1;
    }
    assert(out_tokens.subrange(0, first@.len() as int) =~= out_tokens);
    let joined = join_with_exec(&parts, &chars_of(" "));
    Some(string_of(joined.as_slice()))
}


pub type ClusterV = (Seq<char>, nat);

pub open spec fn clusters_view(v: Seq<DrainCluster>) -> Seq<ClusterV> {
    v.map_values(|c: DrainCluster| (c.template@, c.size as nat))
}

/// The shape keys in order of first appearance, each once.
pub open spec fn first_seen(keys: Seq<Seq<char>>) -> Seq<Seq<char>>
    decreases keys.len(),
{
    if keys.len() == 0 {
        Seq::empty()
    } else {
        let d = first_seen(keys.drop_last());
        if d.contains(keys.last()) { d } else { d.push(keys.last()) }
    }
}

/// The clusters whose shape key is `k`, in order.
pub open spec fn members(cs: Seq<ClusterV>, k: Seq<char>) -> Seq<ClusterV>
    decreases cs.len(),
{
    if cs.len() == 0 {
        Seq::empty()
    } else {
        let m = members(cs.drop_last(), k);
        if shape_key(cs.last().0) == k { m.push(cs.last()) } else { m }
    }
}

/// The sum of the sizes, capped at the largest `usize`.
pub open spec fn capped_sum(cs: Seq<ClusterV>) -> nat
    decreases cs.len(),
{
    if cs.len() == 0 {
        0
    } else {
        let s = capped_sum(cs.drop_last()) + cs.last().1;
        if s > usize::MAX { usize::MAX as nat } else { s }
    }
}

/// The cluster that stands for the group of shape `k`: a lone cluster as
/// it is, else the generalized template with the summed size.
pub open spec fn merged_group(cs: Seq<ClusterV>, k: Seq<char>) -> ClusterV {
    let g = members(cs, k);
    if g.len() == 1 {
        g[0]
    } else {
        let t = match generalize(g.map_values(|c: ClusterV| c.0)) {
            Some(x) => x,
            None => k,
        };
        (t, capped_sum(g))
    }
}

/// `c` placed after every entry at least as large (sizes decreasing, ties
/// in order of arrival).
pub open spec fn insert_by_size(s: Seq<ClusterV>, c: ClusterV) -> Seq<ClusterV>
    decreases s.len(),
{
    if s.len() == 0 {
        seq![c]
    } else if s[0].1 >= c.1 {
        seq![s[0]] + insert_by_size(s.drop_first(), c)
    } else {
        seq![c] + s
    }
}

pub open spec fn sort_by_size(s: Seq<ClusterV>) -> Seq<ClusterV>
    decreases s.len(),
{
    if s.len() == 0 {
        Seq::empty()
    } else {
        insert_by_size(sort_by_size(s.drop_last()), s.last())
    }
}

/// Clusters merged by shape: one per shape key (in order of first
/// appearance), then ordered by size, largest first.
pub open spec fn merged_by_shape(cs: Seq<ClusterV>) -> Seq<ClusterV> {
    let keys = first_seen(cs.map_values(|c: ClusterV| shape_key(c.0)));
    sort_by_size(keys.map_values(|k: Seq<char>| merged_group(cs, k)))
}

fn contains_key(d: &Vec<Vec<char>>, k: &Vec<char>) -> (r: bool)
    ensures
        r == d@.map_values(|x: Vec<char>| x@).contains(k@),
{
    let ghost dv = d@.map_values(|x: Vec<char>| x@);
    let mut i: usize = 0;
    while i < d.len()
        invariant
            dv == d@.map_values(|x: Vec<char>| x@),
            i <= d@.len(),
            forall|j: int| 0 <= j < i ==> dv[j] != k@,
        decreases d@.len() - i,
    {
        if chars_eq(&d[i], k) {
            assert(dv[i as int] == k@);
            return true;
        }
        i += 1;
    }
    false
}

fn insert_by_size_exec(s: Vec<DrainCluster>, c: DrainCluster) -> (r: Vec<DrainCluster>)
    ensures
        clusters_view(r@) == insert_by_size(clusters_view(s@), (c.template@, c.size as nat)),
{
    let ghost sv = clusters_view(s@);
    let ghost cv = (c.template@, c.size as nat);
    let mut p: usize = 0;
    let mut stop = false;
    assert(sv.subrange(0, sv.len() as int) =~= sv);
    while p < s.len() && !stop
        invariant
            sv == clusters_view(s@),
            cv == (c.template@, c.size as nat),
            p <= s@.len(),
            stop ==> p < s@.len() && s@[p as int].size < c.size,
            sv.subrange(0, p as int) + insert_by_size(sv.subrange(p as int, sv.len() as int), cv) == insert_by_size(sv, cv),
        decreases s@.len() - p, if stop { 0int } else { 1int },
    {
        if s[p].size < c.size {
            stop = true;
        } else {
            let ghost rest = sv.subrange(p as int, sv.len() as int);
            assert(rest[0] == (s@[p as int].template@, s@[p as int].size as nat));
            assert(rest.drop_first() =~= sv.subrange(p + 1, sv.len() as int));
            assert(insert_by_size(rest, cv) == seq![rest[0]] + insert_by_size(rest.drop_first(), cv));
            assert(sv.subrange(0, p as int) + (seq![rest[0]] + insert_by_size(rest.drop_first(), cv)) =~= sv.subrange(0, p + 1) + insert_by_size(sv.subrange(p + 1, sv.len() as int), cv));
            p += 1;
        }
    }
    let ghost rest = sv.subrange(p as int, sv.len() as int);
    if p < s.len() {
        assert(rest[0] == (s@[p as int].template@, s@[p as int].size as nat));
    }
    let mut s = s;
    s.insert(p, c);
    assert(clusters_view(s@) =~= sv.subrange(0, p as int) + (seq![cv] + rest));
    s
}

/// Merges clusters that share a shape key (see `merged_by_shape`).
pub fn clusters_merged_by_shape(clusters: &Vec<DrainCluster>) -> (r: Vec<DrainCluster>)
    ensures
        clusters_view(r@) == merged_by_shape(clusters_view(clusters@)),
{
    let ghost cs = clusters_view(clusters@);
    let ghost all_keys = cs.map_values(|c: ClusterV| shape_key(c.0));
    let n = clusters.len();
    let mut keys: Vec<Vec<char>> = Vec::new();
    let mut distinct: Vec<Vec<char>> = Vec::new();
    let mut i: usize = 0;
    assert(all_keys.subrange(0, 0) =~= Seq::<Seq<char>>::empty());
    while i < n
        invariant
            n == clusters@.len(),
            cs == clusters_view(clusters@),
            all_keys == cs.map_values(|c: ClusterV| shape_key(c.0)),
            i <= n,
            keys@.len() == i,
            forall|q: int| 0 <= q < i ==> (#[trigger] keys@[q])@ == all_keys[q],
            distinct@.map_values(|x: Vec<char>| x@) == first_seen(all_keys.subrange(0, i as int)),
        decreases n - i,
    {
        let k = chars_of(compute_shape_key(clusters[i].template.as_str()).as_str());
        assert(k@ == all_keys[i as int]);
        let ghost sub = all_keys.subrange(0, i + 1);
        assert(sub.drop_last() =~= all_keys.subrange(0, i as int));
        assert(sub.last() == k@);
        if !contains_key(&distinct, &k) {
            let ghost before = distinct@.map_values(|x: Vec<char>| x@);
            distinct.push(k.clone());
            assert(distinct@.map_values(|x: Vec<char>| x@) =~= before.push(k@));
        }
        keys.push(k);
        i += 1;
    }
    assert(all_keys.subrange(0, n as int) =~= all_keys);
    let ghost dk = first_seen(all_keys);
    let ghost groups = dk.map_values(|k: Seq<char>| merged_group(cs, k));
    let mut sorted: Vec<DrainCluster> = Vec::new();
    let mut g: usize = 0;
    assert(clusters_view(sorted@) =~= sort_by_size(groups.subrange(0, 0)));
    while g < distinct.len()
        invariant
            n == clusters@.len(),
            cs == clusters_view(clusters@),
            keys@.len() == n,
            forall|q: int| 0 <= q < n ==> (#[trigger] keys@[q])@ == shape_key(cs[q].0),
            distinct@.map_values(|x: Vec<char>| x@) == dk,
            groups == dk.map_values(|k: Seq<char>| merged_group(cs, k)),
            g <= distinct@.len(),
            clusters_view(sorted@) == sort_by_size(groups.subrange(0, g as int)),
        decreases distinct@.len() - g,
    {
        let key = &distinct[g];
        assert(key@ == dk[g as int]);
        let mut templates: Vec<String> = Vec::new();
        let mut total: usize = 0;
        let mut lone: Option<usize> = None;
        let mut q: usize = 0;
        assert(cs.subrange(0, 0) =~= Seq::<ClusterV>::empty());
        while q < n
            invariant
                n == clusters@.len(),
                cs == clusters_view(clusters@),
                keys@.len() == n,
                forall|q: int| 0 <= q < n ==> (#[trigger] keys@[q])@ == shape_key(cs[q].0),
                q <= n,
                strings_view(templates@) == members(cs.subrange(0, q as int), key@).map_values(|c: ClusterV| c.0),
                total as nat == capped_sum(members(cs.subrange(0, q as int), key@)),
                members(cs.subrange(0, q as int), key@).len() == templates@.len(),
                templates@.len() == 0 ==> lone is None,
                templates@.len() >= 1 ==> lone is Some && lone->Some_0 < n
                    && members(cs.subrange(0, q as int), key@)[0] == cs[lone->Some_0 as int],
            decreases n - q,
        {
            let ghost sub = cs.subrange(0, q + 1);
            assert(sub.drop_last() =~= cs.subrange(0, q as int));
            assert(sub.last() == cs[q as int]);
            assert(cs[q as int] == (clusters@[q as int].template@, clusters@[q as int].size as nat));
            let ghost mb = members(cs.subrange(0, q as int), key@);
            assert(members(sub, key@) == if shape_key(cs[q as int].0) == key@ { mb.push(cs[q as int]) } else { mb });
            assert(mb.push(cs[q as int]).drop_last() =~= mb);
            proof {
                if mb.len() > 0 {
                    assert(mb.push(cs[q as int])[0] == mb[0]);
                }
            }
            if chars_eq(&keys[q], key) {
                let ghost tb = strings_view(templates@);
                templates.push(clusters[q].template.clone());
                assert(strings_view(templates@) =~= tb.push(cs[q as int].0));
                assert(mb.push(cs[q as int]).map_values(|c: ClusterV| c.0) =~= tb.push(cs[q as int].0));
                let sz = clusters[q].size;
                total = if total > usize::MAX - sz { usize::MAX } else { total + sz };
                if lone.is_none() {
                    lone = Some(q);
                }
                assert(members(sub, key@) == mb.push(cs[q as int]));
                assert(members(sub, key@)[0] == cs[lone->Some_0 as int]);
            }
            q += 1;
        }
        assert(cs.subrange(0, n as int) =~= cs);
        let merged = if templates.len() == 1 {
            let w = lone.unwrap();
            DrainCluster { template: clusters[w].template.clone(), size: clusters[w].size }
        } else {
            let t = match generalize_templates(&templates) {
                Some(x) => x,
                None => string_of(key.as_slice()),
            };
            DrainCluster { template: t, size: total }
        };
        assert((merged.template@, merged.size as nat) == groups[g as int]);
        let ghost gsub = groups.subrange(0, g + 1);
        assert(gsub.drop_last() =~= groups.subrange(0, g as int));
        assert(gsub.last() == groups[g as int]);
        sorted = insert_by_size_exec(sorted, merged);
        g += 1;
    }
    assert(groups.subrange(0, distinct@.len() as int) =~= groups);
    sorted
}

} // verus!
