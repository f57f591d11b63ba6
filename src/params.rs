//! The parameter map: placeholder type to the values it replaced, in order.
use vstd::prelude::*;
use crate::order::{less, lt};
use crate::text::{chars_of, chars_eq, string_of};

verus! {

/// The view of one entry: a placeholder type and its values.
pub type EntryV = (Seq<char>, Seq<Seq<char>>);

pub open spec fn has_key(s: Seq<EntryV>, k: Seq<char>) -> bool {
    exists|i: int| 0 <= i < s.len() && (#[trigger] s[i]).0 == k
}

/// Each placeholder type appears in at most one entry.
pub open spec fn keys_unique(s: Seq<EntryV>) -> bool {
    forall|i: int, j: int| 0 <= i < s.len() && 0 <= j < s.len() && (#[trigger] s[i]).0 == (#[trigger] s[j]).0 ==> i == j
}

/// The index of the entry for `k` (meaningful when `has_key(s, k)`).
pub open spec fn key_index(s: Seq<EntryV>, k: Seq<char>) -> int {
    choose|i: int| 0 <= i < s.len() && (#[trigger] s[i]).0 == k
}

/// The values recorded for `k`, if any.
pub open spec fn lookup(s: Seq<EntryV>, k: Seq<char>) -> Option<Seq<Seq<char>>> {
    if has_key(s, k) {
        Some(s[key_index(s, k)].1)
    } else {
        None
    }
}

/// Records one more value `v` for `k`: appended to its list, or a new entry at the end.
pub open spec fn add_value(s: Seq<EntryV>, k: Seq<char>, v: Seq<char>) -> Seq<EntryV> {
    if has_key(s, k) {
        let i = key_index(s, k);
        s.update(i, (k, s[i].1.push(v)))
    } else {
        s.push((k, seq![v]))
    }
}

/// The map that records the pairs `(type, value)` one after another.
pub open spec fn params_of(pairs: Seq<(Seq<char>, Seq<char>)>) -> Seq<EntryV>
    decreases pairs.len(),
{
    if pairs.len() == 0 {
        Seq::empty()
    } else {
        add_value(params_of(pairs.drop_last()), pairs.last().0, pairs.last().1)
    }
}

pub proof fn lemma_add_unique(s: Seq<EntryV>, k: Seq<char>, v: Seq<char>)
    requires
        keys_unique(s),
    ensures
        keys_unique(add_value(s, k, v)),
        forall|k2: Seq<char>| has_key(add_value(s, k, v), k2) <==> (has_key(s, k2) || k2 == k),
{
    let r = add_value(s, k, v);
    if has_key(s, k) {
        let i = key_index(s, k);
        assert forall|k2: Seq<char>| has_key(r, k2) <==> (has_key(s, k2) || k2 == k) by {
            if has_key(s, k2) {
                let j = choose|j: int| 0 <= j < s.len() && (#[trigger] s[j]).0 == k2;
                assert(r[j].0 == k2);
            }
            if has_key(r, k2) {
                let j = choose|j: int| 0 <= j < r.len() && (#[trigger] r[j]).0 == k2;
                if j != i {
                    assert(s[j].0 == k2);
                }
            }
        }
    } else {
        assert forall|k2: Seq<char>| has_key(r, k2) <==> (has_key(s, k2) || k2 == k) by {
            if has_key(s, k2) {
                let j = choose|j: int| 0 <= j < s.len() && (#[trigger] s[j]).0 == k2;
                assert(r[j].0 == k2);
            }
            if k2 == k {
                assert(r[s.len() as int].0 == k2);
            }
            if has_key(r, k2) {
                let j = choose|j: int| 0 <= j < r.len() && (#[trigger] r[j]).0 == k2;
                if j < s.len() {
                    assert(s[j].0 == k2);
                }
            }
        }
    }
}

pub proof fn lemma_params_unique(pairs: Seq<(Seq<char>, Seq<char>)>)
    ensures
        keys_unique(params_of(pairs)),
    decreases pairs.len(),
{
    if pairs.len() > 0 {
        lemma_params_unique(pairs.drop_last());
        lemma_add_unique(params_of(pairs.drop_last()), pairs.last().0, pairs.last().1);
    }
}

/// Placeholder types and the values each one replaced in the line, in the
/// order the values were met. Types keep the order of their first value.
#[derive(Debug)]
pub struct ParamMap {
    entries: Vec<(String, Vec<String>)>,
}

pub open spec fn strings_view(v: Seq<String>) -> Seq<Seq<char>> {
    v.map_values(|s: String| s@)
}

pub open spec fn entries_view(e: Seq<(String, Vec<String>)>) -> Seq<EntryV> {
    e.map_values(|p: (String, Vec<String>)| (p.0@, strings_view(p.1@)))
}

impl View for ParamMap {
    type V = Seq<EntryV>;

    closed spec fn view(&self) -> Seq<EntryV> {
        entries_view(self.entries@)
    }
}

impl ParamMap {
    pub open spec fn wf(&self) -> bool {
        keys_unique(self@)
    }

    /// An empty map.
    pub fn new() -> (r: ParamMap)
        ensures
            r@ == Seq::<EntryV>::empty(),
            r.wf(),
    {
        let r = ParamMap { entries: Vec::new() };
        assert(r@ =~= Seq::<EntryV>::empty());
        r
    }

    /// The number of placeholder types.
    pub fn len(&self) -> (r: usize)
        ensures
            r == self@.len(),
    {
        self.entries.len()
    }

    /// Whether no value was recorded.
    pub fn is_empty(&self) -> (r: bool)
        ensures
            r == (self@.len() == 0),
    {
        self.entries.len() == 0
    }

    fn find(&self, k: &Vec<char>) -> (r: Option<usize>)
        requires
            self.wf(),
        ensures
            r is Some <==> has_key(self@, k@),
            r is Some ==> r->Some_0 == key_index(self@, k@) && r->Some_0 < self@.len(),
    {
        let mut i: usize = 0;
        while i < self.entries.len()
            invariant
                i <= self.entries@.len(),
                self.wf(),
                forall|j: int| 0 <= j < i ==> (#[trigger] self@[j]).0 != k@,
            decreases self.entries@.len() - i,
        {
            let key = chars_of(self.entries[i].0.as_str());
            if chars_eq(&key, k) {
                assert(self@[i as int].0 == k@);
                let ghost ki = key_index(self@, k@);
                assert(self@[ki].0 == k@);
                return Some(i);
            }
            i += 1;
        }
        None
    }

    /// Whether values were recorded for `key`.
    pub fn contains_key(&self, key: &str) -> (r: bool)
        requires
            self.wf(),
        ensures
            r == has_key(self@, key@),
    {
        let k = chars_of(key);
        self.find(&k).is_some()
    }

    /// The values recorded for `key`.
    pub fn get(&self, key: &str) -> (r: Option<&Vec<String>>)
        requires
            self.wf(),
        ensures
            r is Some <==> lookup(self@, key@) is Some,
            r is Some ==> strings_view(r->Some_0@) == lookup(self@, key@)->Some_0,
    {
        let k = chars_of(key);
        match self.find(&k) {
            Some(i) => Some(&self.entries[i].1),
            None => None,
        }
    }

    /// The placeholder types, in order of their first value.
    pub fn keys(&self) -> (r: Vec<String>)
        ensures
            r@.len() == self@.len(),
            forall|i: int| 0 <= i < r@.len() ==> r@[i]@ == self@[i].0,
    {
        let mut r: Vec<String> = Vec::new();
        let mut i: usize = 0;
        while i < self.entries.len()
            invariant
                i <= self.entries@.len(),
                r@.len() == i,
                forall|j: int| 0 <= j < i ==> r@[j]@ == self@[j].0,
            decreases self.entries@.len() - i,
        {
            r.push(self.entries[i].0.clone());
            i += 1;
        }
        r
    }

    /// Records `value` for `key` (see `add_value`).
    pub fn push(&mut self, key: &Vec<char>, value: &Vec<char>)
        requires
            old(self).wf(),
        ensures
            final(self)@ == add_value(old(self)@, key@, value@),
            final(self).wf(),
    {
        proof {
            lemma_add_unique(self@, key@, value@);
        }
        let ghost s0 = self@;
        let v = string_of(value.as_slice());
        let ghost e0 = self.entries@;
        match self.find(key) {
            Some(i) => {
                proof {
                    let ki = key_index(s0, key@);
                    assert(s0[ki].0 == key@);
                }
                let (k, mut vals) = self.entries.remove(i);
                let ghost vals0 = vals@;
                vals.push(v);
                assert(strings_view(vals@) =~= strings_view(vals0).push(value@));
                self.entries.insert(i, (k, vals));
                assert(self.entries@ =~= e0.update(i as int, (k, vals)));
                assert(self@ =~= add_value(s0, key@, value@));
            },
            None => {
                let mut vals: Vec<String> = Vec::new();
                vals.push(v);
                assert(strings_view(vals@) =~= seq![value@]);
                let k = string_of(key.as_slice());
                self.entries.push((k, vals));
                assert(self@ =~= add_value(s0, key@, value@));
            },
        }
    }
}


/// `v` put into the ordered list `s`, unless it is there already.
pub open spec fn sorted_insert(s: Seq<Seq<char>>, v: Seq<char>) -> Seq<Seq<char>>
    decreases s.len(),
{
    if s.len() == 0 {
        seq![v]
    } else if s[0] == v {
        s
    } else if lt(v, s[0]) {
        seq![v] + s
    } else {
        seq![s[0]] + sorted_insert(s.drop_first(), v)
    }
}

/// Records `v` for `k` as a set: values stay ordered and distinct.
pub open spec fn merge_value(s: Seq<EntryV>, k: Seq<char>, v: Seq<char>) -> Seq<EntryV> {
    if has_key(s, k) {
        let i = key_index(s, k);
        s.update(i, (k, sorted_insert(s[i].1, v)))
    } else {
        s.push((k, seq![v]))
    }
}

/// Every `(type, value)` pair of a map, entry by entry.
pub open spec fn all_pairs(s: Seq<EntryV>) -> Seq<(Seq<char>, Seq<char>)>
    decreases s.len(),
{
    if s.len() == 0 {
        Seq::empty()
    } else {
        all_pairs(s.drop_last()) + s.last().1.map_values(|v: Seq<char>| (s.last().0, v))
    }
}

/// The map that records `pairs` as sets, starting from `m`.
pub open spec fn merged_from(m: Seq<EntryV>, pairs: Seq<(Seq<char>, Seq<char>)>) -> Seq<EntryV>
    decreases pairs.len(),
{
    if pairs.len() == 0 {
        m
    } else {
        merge_value(merged_from(m, pairs.drop_last()), pairs.last().0, pairs.last().1)
    }
}

fn sorted_insert_exec(s: &Vec<String>, v: &Vec<char>) -> (r: Vec<String>)
    ensures
        strings_view(r@) == sorted_insert(strings_view(s@), v@),
{
    let ghost sv = strings_view(s@);
    let mut out: Vec<String> = Vec::new();
    let mut i: usize = 0;
    assert(sv.subrange(0, sv.len() as int) =~= sv);
    while i < s.len()
        invariant
            sv == strings_view(s@),
            i <= s@.len(),
            strings_view(out@) + sorted_insert(sv.subrange(i as int, sv.len() as int), v@) == sorted_insert(sv, v@),
            strings_view(out@) == sv.subrange(0, i as int),
        decreases s@.len() - i,
    {
        let ghost rest = sv.subrange(i as int, sv.len() as int);
        assert(rest[0] == s@[i as int]@);
        assert(rest.drop_first() =~= sv.subrange(i + 1, sv.len() as int));
        let cur = chars_of(s[i].as_str());
        if chars_eq(&cur, v) || less(v, &cur) {
            let mut j = i;
            if !chars_eq(&cur, v) {
                out.push(string_of(v.as_slice()));
            }
            let ghost mid = strings_view(out@);
            while j < s.len()
                invariant
                    sv == strings_view(s@),
                    i <= j <= s@.len(),
                    strings_view(out@) == mid + sv.subrange(i as int, j as int),
                decreases s@.len() - j,
            {
                let ghost o1 = strings_view(out@);
                let c = s[j].clone();
                assert(c@ == s@[j as int]@);
                out.push(c);
                assert(strings_view(out@) =~= o1.push(s@[j as int]@));
                assert(sv[j as int] == s@[j as int]@);
                assert(sv.subrange(i as int, j + 1) =~= sv.subrange(i as int, j as int).push(s@[j as int]@));
                assert(strings_view(out@) =~= mid + sv.subrange(i as int, j + 1));
                j += 1;
            }
            assert(sv.subrange(i as int, s@.len() as int) =~= rest);
            if chars_eq(&cur, v) {
                assert(strings_view(out@) =~= sv.subrange(0, i as int) + rest);
            } else {
                assert(strings_view(out@) =~= sv.subrange(0, i as int) + (seq![v@] + rest));
            }
            return out;
        }
        let ghost before = strings_view(out@);
        out.push(s[i].clone());
        assert(strings_view(out@) =~= before.push(rest[0]));
        assert(seq![rest[0]] + sorted_insert(rest.drop_first(), v@) == sorted_insert(rest, v@));
        assert(strings_view(out@) + sorted_insert(sv.subrange(i + 1, sv.len() as int), v@) =~= before + (seq![rest[0]] + sorted_insert(rest.drop_first(), v@)));
        assert(sv.subrange(0, i + 1) =~= sv.subrange(0, i as int).push(rest[0]));
        i += 1;
    }
    let ghost before = strings_view(out@);
    out.push(string_of(v.as_slice()));
    assert(sv.subrange(sv.len() as int, sv.len() as int) =~= Seq::<Seq<char>>::empty());
    assert(strings_view(out@) =~= before + seq![v@]);
    out
}

impl ParamMap {
    /// The entries as `(type, values)` pairs.
    pub fn entries(&self) -> (r: &Vec<(String, Vec<String>)>)
        ensures
            entries_view(r@) == self@,
    {
        &self.entries
    }

    /// Records `value` for `key` as a set (see `merge_value`).
    pub fn merge_in(&mut self, key: &Vec<char>, value: &Vec<char>)
        requires
            old(self).wf(),
        ensures
            final(self)@ == merge_value(old(self)@, key@, value@),
            final(self).wf(),
    {
        let ghost s0 = self@;
        let ghost e0 = self.entries@;
        match self.find(key) {
            Some(i) => {
                proof {
                    let ki = key_index(s0, key@);
                    assert(s0[ki].0 == key@);
                }
                let (k, vals) = self.entries.remove(i);
                let nv = sorted_insert_exec(&vals, value);
                self.entries.insert(i, (k, nv));
                assert(self.entries@ =~= e0.update(i as int, (k, nv)));
                assert(self@ =~= merge_value(s0, key@, value@));
                assert forall|a: int, b: int| 0 <= a < self@.len() && 0 <= b < self@.len() && (#[trigger] self@[a]).0 == (#[trigger] self@[b]).0 implies a == b by {
                    assert(self@[a].0 == s0[a].0);
                    assert(self@[b].0 == s0[b].0);
                }
            },
            None => {
                let mut vals: Vec<String> = Vec::new();
                vals.push(string_of(value.as_slice()));
                assert(strings_view(vals@) =~= seq![value@]);
                let k = string_of(key.as_slice());
                self.entries.push((k, vals));
                assert(self@ =~= merge_value(s0, key@, value@));
                assert forall|a: int, b: int| 0 <= a < self@.len() && 0 <= b < self@.len() && (#[trigger] self@[a]).0 == (#[trigger] self@[b]).0 implies a == b by {
                    if a < s0.len() && b == s0.len() {
                        assert(s0[a].0 == key@);
                    }
                    if b < s0.len() && a == s0.len() {
                        assert(s0[b].0 == key@);
                    }
                }
            },
        }
    }
}

} // verus!
