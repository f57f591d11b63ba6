//! Differences between the field types of two structured records.
use vstd::prelude::*;
use crate::json::{Json, MAX_DEPTH, pairs_view, parse_json, parsed_json, path_exec, path_of, sort_fields, sorted_fields, strpairs_view};
use crate::text::{chars_eq, chars_of, decimal, decimal_chars, string_of};

verus! {

/// One difference between two fingerprints (field path to type name).
#[derive(Debug, PartialEq, Eq)]
pub enum SchemaChange {
    FieldAdded { field: String, new_type: String },
    FieldRemoved { field: String, old_type: String },
    TypeChanged { field: String, from_type: String, to_type: String },
}

/// The view of a change: its kind (0 added, 1 removed, 2 changed), field, and types.
pub type ChangeV = (nat, Seq<char>, Seq<char>, Seq<char>);

pub open spec fn change_view(c: SchemaChange) -> ChangeV {
    match c {
        SchemaChange::FieldAdded { field, new_type } => (0, field@, Seq::empty(), new_type@),
        SchemaChange::FieldRemoved { field, old_type } => (1, field@, old_type@, Seq::empty()),
        SchemaChange::TypeChanged { field, from_type, to_type } => (2, field@, from_type@, to_type@),
    }
}

pub open spec fn changes_view(v: Seq<SchemaChange>) -> Seq<ChangeV> {
    v.map_values(|c: SchemaChange| change_view(c))
}

pub type FieldV = (Seq<char>, Seq<char>);

pub open spec fn fp_view(v: Seq<(String, String)>) -> Seq<FieldV> {
    v.map_values(|p: (String, String)| (p.0@, p.1@))
}

/// The type of the first entry for `k`, if any.
pub open spec fn type_in(fp: Seq<FieldV>, k: Seq<char>) -> Option<Seq<char>>
    decreases fp.len(),
{
    if fp.len() == 0 {
        None
    } else if fp[0].0 == k {
        Some(fp[0].1)
    } else {
        type_in(fp.drop_first(), k)
    }
}

/// Removed and retyped fields of `before`, in its order.
pub open spec fn removed_or_changed(before: Seq<FieldV>, after: Seq<FieldV>) -> Seq<ChangeV>
    decreases before.len(),
{
    if before.len() == 0 {
        Seq::empty()
    } else {
        let prev = removed_or_changed(before.drop_last(), after);
        let (f, t) = before.last();
        match type_in(after, f) {
            None => prev.push((1, f, t, Seq::empty())),
            Some(a) => if a != t {
                prev.push((2, f, t, a))
            } else {
                prev
            },
        }
    }
}

/// Fields of `after` that `before` lacks, in its order.
pub open spec fn added(before: Seq<FieldV>, after: Seq<FieldV>) -> Seq<ChangeV>
    decreases after.len(),
{
    if after.len() == 0 {
        Seq::empty()
    } else {
        let prev = added(before, after.drop_last());
        let (f, t) = after.last();
        if type_in(before, f) is None {
            prev.push((0, f, Seq::empty(), t))
        } else {
            prev
        }
    }
}

fn type_of_field(fp: &Vec<(String, String)>, k: &Vec<char>) -> (r: Option<Vec<char>>)
    ensures
        match r {
            Some(t) => type_in(fp_view(fp@), k@) == Some(t@),
            None => type_in(fp_view(fp@), k@) is None,
        },
{
    let ghost v = fp_view(fp@);
    let mut i: usize = 0;
    assert(v.subrange(0, v.len() as int) =~= v);
    while i < fp.len()
        invariant
            v == fp_view(fp@),
            i <= fp@.len(),
            type_in(v.subrange(i as int, v.len() as int), k@) == type_in(v, k@),
        decreases fp@.len() - i,
    {
        let ghost rest = v.subrange(i as int, v.len() as int);
        assert(rest[0] == v[i as int]);
        assert(rest.drop_first() =~= v.subrange(i + 1, v.len() as int));
        if chars_eq(&chars_of(fp[i].0.as_str()), k) {
            return Some(chars_of(fp[i].1.as_str()));
        }
        i += 1;
    }
    assert(v.subrange(i as int, v.len() as int).len() == 0);
    None
}

/// Each field path appears once.
pub open spec fn paths_unique(fp: Seq<FieldV>) -> bool {
    forall|i: int, j: int| 0 <= i < j < fp.len() ==> fp[i].0 != fp[j].0
}

/// The differences from `before` to `after` (fingerprints: each path once):
/// removed and retyped fields in the order of `before`, then added fields in
/// the order of `after`.
pub fn diff_fingerprints(before: &Vec<(String, String)>, after: &Vec<(String, String)>) -> (r: Vec<SchemaChange>)
    requires
        paths_unique(fp_view(before@)),
        paths_unique(fp_view(after@)),
    ensures
        changes_view(r@) == removed_or_changed(fp_view(before@), fp_view(after@)) + added(fp_view(before@), fp_view(after@)),
{
    let ghost bv = fp_view(before@);
    let ghost av = fp_view(after@);
    let mut changes: Vec<SchemaChange> = Vec::new();
    let mut i: usize = 0;
    assert(changes_view(changes@) =~= removed_or_changed(bv.subrange(0, 0), av));
    while i < before.len()
        invariant
            bv == fp_view(before@),
            av == fp_view(after@),
            i <= before@.len(),
            changes_view(changes@) == removed_or_changed(bv.subrange(0, i as int), av),
        decreases before@.len() - i,
    {
        let ghost sub = bv.subrange(0, i + 1);
        assert(sub.drop_last() =~= bv.subrange(0, i as int));
        assert(sub.last() == bv[i as int]);
        let ghost before_v = changes_view(changes@);
        let field = &before[i].0;
        let b_type = &before[i].1;
        match type_of_field(after, &chars_of(field.as_str())) {
            None => {
                changes.push(SchemaChange::FieldRemoved { field: field.clone(), old_type: b_type.clone() });
                assert(changes_view(changes@) =~= before_v.push((1, field@, b_type@, Seq::empty())));
            },
            Some(a_type) => {
                if !chars_eq(&a_type, &chars_of(b_type.as_str())) {
                    changes.push(SchemaChange::TypeChanged {
                        field: field.clone(),
                        from_type: b_type.clone(),
                        to_type: crate::text::string_of(a_type.as_slice()),
                    });
                    assert(changes_view(changes@) =~= before_v.push((2, field@, b_type@, a_type@)));
                }
            },
        }
        i += 1;
    }
    assert(bv.subrange(0, before@.len() as int) =~= bv);
    let ghost first = changes_view(changes@);
    let mut j: usize = 0;
    assert(added(bv, av.subrange(0, 0)) =~= Seq::<ChangeV>::empty());
    assert(changes_view(changes@) =~= first + added(bv, av.subrange(0, 0)));
    while j < after.len()
        invariant
            bv == fp_view(before@),
            av == fp_view(after@),
            j <= after@.len(),
            changes_view(changes@) == first + added(bv, av.subrange(0, j as int)),
        decreases after@.len() - j,
    {
        let ghost sub = av.subrange(0, j + 1);
        assert(sub.drop_last() =~= av.subrange(0, j as int));
        assert(sub.last() == av[j as int]);
        let ghost before_v = changes_view(changes@);
        let field = &after[j].0;
        if type_of_field(before, &chars_of(field.as_str())).is_none() {
            changes.push(SchemaChange::FieldAdded { field: field.clone(), new_type: after[j].1.clone() });
            assert(changes_view(changes@) =~= before_v.push((0, field@, Seq::empty(), after@[j as int].1@)));
        }
        j += 1;
    }
    assert(av.subrange(0, after@.len() as int) =~= av);
    changes
}

/// Why a line has no fingerprint.
#[derive(Debug, PartialEq, Eq, Structural)]
pub enum SchemaError {
    NotJson,
    Parse,
}

/// The type name of a value that is neither an object nor an array.
pub open spec fn kind_name(j: Json) -> Seq<char> {
    match j {
        Json::Null => "null"@,
        Json::Bool(_) => "bool"@,
        Json::Number(_, integral) => if integral { "int"@ } else { "float"@ },
        Json::Str(_) => "string"@,
        Json::Array(_) => "array"@,
        Json::Object(_) => "object"@,
    }
}

/// The `(path, type)` pairs of a value at `path`: objects and arrays are
/// opened (array items by index) up to `depth` levels deep.
pub open spec fn value_types(path: Seq<char>, j: Json, depth: nat) -> Seq<(Seq<char>, Seq<char>)>
    decreases depth, 0nat, 0nat,
{
    match j {
        Json::Object(o) => if depth == 0 { seq![(path, "object"@)] } else { member_types(path, o@, (depth - 1) as nat) },
        Json::Array(a) => if depth == 0 { seq![(path, "array"@)] } else { item_types(path, a@, (depth - 1) as nat) },
        _ => seq![(path, kind_name(j))],
    }
}

pub open spec fn member_types(prefix: Seq<char>, es: Seq<(String, Json)>, depth: nat) -> Seq<(Seq<char>, Seq<char>)>
    decreases depth, 1nat, es.len(),
{
    if es.len() == 0 {
        Seq::empty()
    } else {
        member_types(prefix, es.drop_last(), depth) + value_types(path_of(prefix, es.last().0@), es.last().1, depth)
    }
}

pub open spec fn item_types(prefix: Seq<char>, items: Seq<Json>, depth: nat) -> Seq<(Seq<char>, Seq<char>)>
    decreases depth, 1nat, items.len(),
{
    if items.len() == 0 {
        Seq::empty()
    } else {
        item_types(prefix, items.drop_last(), depth) + value_types(
            path_of(prefix, decimal((items.len() - 1) as nat)),
            items.last(),
            depth,
        )
    }
}

fn kind_name_exec(j: &Json) -> (r: Vec<char>)
    ensures
        r@ == kind_name(*j),
{
    match j {
        Json::Null => chars_of("null"),
        Json::Bool(_) => chars_of("bool"),
        Json::Number(_, integral) => if *integral { chars_of("int") } else { chars_of("float") },
        Json::Str(_) => chars_of("string"),
        Json::Array(_) => chars_of("array"),
        Json::Object(_) => chars_of("object"),
    }
}

fn value_types_into(path: &Vec<char>, j: &Json, depth: usize, out: &mut Vec<(Vec<char>, Vec<char>)>)
    ensures
        pairs_view(final(out)@) == pairs_view(old(out)@) + value_types(path@, *j, depth as nat),
    decreases depth, 2nat,
{
    match j {
        Json::Object(o) => {
            if depth == 0 {
                let ghost before = pairs_view(out@);
                out.push((path.clone(), chars_of("object")));
                assert(pairs_view(out@) =~= before + value_types(path@, *j, depth as nat));
            } else {
                let mut i: usize = 0;
                let ghost o0 = pairs_view(out@);
                assert(o@.subrange(0, 0) =~= Seq::<(String, Json)>::empty());
                while i < o.len()
                    invariant
                        i <= o@.len(),
                        depth > 0,
                        pairs_view(out@) == o0 + member_types(path@, o@.subrange(0, i as int), (depth - 1) as nat),
                    decreases o@.len() - i,
                {
                    let e = &o[i];
                    let key = chars_of(e.0.as_str());
                    let p = path_exec(path, &e.0);
                    let ghost sub = o@.subrange(0, i + 1);
                    assert(sub.drop_last() =~= o@.subrange(0, i as int));
                    assert(sub.last() == *e);
                    value_types_into(&p, &e.1, depth - 1, out);
                    assert(pairs_view(out@) =~= o0 + member_types(path@, sub, (depth - 1) as nat));
                    i += 1;
                }
                assert(o@.subrange(0, o@.len() as int) =~= o@);
            }
        },
        Json::Array(a) => {
            if depth == 0 {
                let ghost before = pairs_view(out@);
                out.push((path.clone(), chars_of("array")));
                assert(pairs_view(out@) =~= before + value_types(path@, *j, depth as nat));
            } else {
                let mut i: usize = 0;
                let ghost o0 = pairs_view(out@);
                assert(a@.subrange(0, 0) =~= Seq::<Json>::empty());
                while i < a.len()
                    invariant
                        i <= a@.len(),
                        depth > 0,
                        pairs_view(out@) == o0 + item_types(path@, a@.subrange(0, i as int), (depth - 1) as nat),
                    decreases a@.len() - i,
                {
                    let idx = string_of(decimal_chars(i).as_slice());
                    let p = path_exec(path, &idx);
                    let ghost sub = a@.subrange(0, i + 1);
                    assert(sub.drop_last() =~= a@.subrange(0, i as int));
                    assert(sub.last() == a@[i as int]);
                    value_types_into(&p, &a[i], depth - 1, out);
                    assert(pairs_view(out@) =~= o0 + item_types(path@, sub, (depth - 1) as nat));
                    i += 1;
                }
                assert(a@.subrange(0, a@.len() as int) =~= a@);
            }
        },
        _ => {
            let ghost before = pairs_view(out@);
            out.push((path.clone(), kind_name_exec(j)));
            assert(pairs_view(out@) =~= before + value_types(path@, *j, depth as nat));
        },
    }
}

/// The type pairs of a line holding a JSON object; `Err(Parse)` when it is
/// not JSON, `Err(NotJson)` when it is JSON but no object.
pub open spec fn fingerprint_pairs(t: Seq<char>) -> Result<Seq<(Seq<char>, Seq<char>)>, SchemaError> {
    match parsed_json(t) {
        None => Err(SchemaError::Parse),
        Some(Json::Object(o)) => Ok(value_types(Seq::empty(), Json::Object(o), MAX_DEPTH as nat)),
        Some(_) => Err(SchemaError::NotJson),
    }
}

/// The fingerprint of a JSON object line: every leaf path once, sorted,
/// with the type name of its value (see `fingerprint_pairs`).
pub fn fingerprint_line(line: &str) -> (r: Result<Vec<(String, String)>, SchemaError>)
    ensures
        match r {
            Ok(fp) => fingerprint_pairs(line@) is Ok && sorted_fields(strpairs_view(fp@), fingerprint_pairs(line@)->Ok_0),
            Err(e) => fingerprint_pairs(line@) == Err::<Seq<(Seq<char>, Seq<char>)>, SchemaError>(e),
        },
{
    match parse_json(line) {
        None => Err(SchemaError::Parse),
        Some(j) => match j {
            Json::Object(_) => {
                let mut pairs: Vec<(Vec<char>, Vec<char>)> = Vec::new();
                assert(pairs_view(pairs@) =~= Seq::<(Seq<char>, Seq<char>)>::empty());
                let empty: Vec<char> = Vec::new();
                value_types_into(&empty, &j, MAX_DEPTH, &mut pairs);
                assert(pairs_view(pairs@) =~= value_types(Seq::empty(), j, MAX_DEPTH as nat));
                let fields = sort_fields(&pairs);
                let mut out: Vec<(String, String)> = Vec::new();
                let mut i: usize = 0;
                while i < fields.len()
                    invariant
                        i <= fields@.len(),
                        strpairs_view(out@) == pairs_view(fields@).subrange(0, i as int),
                    decreases fields@.len() - i,
                {
                    out.push((string_of(fields[i].0.as_slice()), string_of(fields[i].1.as_slice())));
                    assert(pairs_view(fields@).subrange(0, i + 1) =~= pairs_view(fields@).subrange(0, i as int).push((fields@[i as int].0@, fields@[i as int].1@)));
                    assert(strpairs_view(out@) =~= pairs_view(fields@).subrange(0, i + 1));
                    i += 1;
                }
                assert(pairs_view(fields@).subrange(0, fields@.len() as int) =~= pairs_view(fields@));
                Ok(out)
            },
            _ => Err(SchemaError::NotJson),
        },
    }
}

} // verus!
