//! Source attribution: which service and host a record came from.
use vstd::prelude::*;
use crate::ai::{field_value, field_value_exec};
use crate::json::strpairs_view;
use crate::params::strings_view;
use crate::smart_masking::{split_words, words_of};
use crate::text::{chars_eq, chars_of, string_of};

verus! {

/// The value of the first of `keys` that the fields hold.
pub open spec fn first_field(f: Seq<(Seq<char>, Seq<char>)>, keys: Seq<Seq<char>>) -> Option<Seq<char>>
    decreases keys.len(),
{
    if keys.len() == 0 {
        None
    } else {
        match field_value(f, keys[0]) {
            Some(v) => Some(v),
            None => first_field(f, keys.drop_first()),
        }
    }
}

pub open spec fn service_keys() -> Seq<Seq<char>> {
    seq!["service"@, "app"@, "application"@, "kubernetes.labels.app"@, "kubernetes.container_name"@]
}

pub open spec fn host_keys() -> Seq<Seq<char>> {
    seq!["host"@, "hostname"@, "kubernetes.host"@, "kubernetes.node_name"@, "kubernetes.pod_name"@]
}

pub open spec fn is_month(w: Seq<char>) -> bool {
    w == "Jan"@ || w == "Feb"@ || w == "Mar"@ || w == "Apr"@ || w == "May"@ || w == "Jun"@ || w == "Jul"@
        || w == "Aug"@ || w == "Sep"@ || w == "Oct"@ || w == "Nov"@ || w == "Dec"@
}

/// The host of a syslog-style line (`Sep 05 10:00:00 host app: ...`): the
/// fourth word, when the first is a month and the third holds a `:`.
pub open spec fn plaintext_host(t: Seq<char>) -> Option<Seq<char>> {
    let ws = words_of(t);
    if ws.len() >= 4 && is_month(ws[0]) && ws[2].contains(':') {
        Some(ws[3])
    } else {
        None
    }
}

/// Service and host of a record: from its fields when it is structured,
/// else the host of a syslog-style line.
pub open spec fn source_of(fields: Option<Seq<(Seq<char>, Seq<char>)>>, message: Seq<char>) -> (Option<Seq<char>>, Option<Seq<char>>) {
    match fields {
        Some(f) => (first_field(f, service_keys()), first_field(f, host_keys())),
        None => (None, plaintext_host(message)),
    }
}

fn first_field_exec(f: &Vec<(String, String)>, keys: &Vec<Vec<char>>) -> (r: Option<Vec<char>>)
    ensures
        match r {
            Some(v) => first_field(strpairs_view(f@), keys@.map_values(|k: Vec<char>| k@)) == Some(v@),
            None => first_field(strpairs_view(f@), keys@.map_values(|k: Vec<char>| k@)) is None,
        },
{
    let ghost kv = keys@.map_values(|k: Vec<char>| k@);
    let mut i: usize = 0;
    assert(kv.subrange(0, kv.len() as int) =~= kv);
    while i < keys.len()
        invariant
            kv == keys@.map_values(|k: Vec<char>| k@),
            i <= keys@.len(),
            first_field(strpairs_view(f@), kv.subrange(i as int, kv.len() as int)) == first_field(strpairs_view(f@), kv),
        decreases keys@.len() - i,
    {
        let ghost rest = kv.subrange(i as int, kv.len() as int);
        assert(rest[0] == keys@[i as int]@);
        assert(rest.drop_first() =~= kv.subrange(i + 1, kv.len() as int));
        match field_value_exec(f, &keys[i]) {
            Some(v) => {
                return Some(v);
            },
            None => {},
        }
        i += 1;
    }
    None
}

fn key_list(names: &[&str; 5]) -> (r: Vec<Vec<char>>)
    ensures
        r@.len() == 5,
        forall|i: int| 0 <= i < 5 ==> (#[trigger] r@[i])@ == names@[i]@,
{
    let mut r: Vec<Vec<char>> = Vec::new();
    let mut i: usize = 0;
    while i < 5
        invariant
            i <= 5,
            r@.len() == i,
            forall|j: int| 0 <= j < i ==> (#[trigger] r@[j])@ == names@[j]@,
        decreases 5 - i,
    {
        r.push(chars_of(names[i]));
        i += 1;
    }
    r
}

fn is_month_exec(w: &Vec<char>) -> (r: bool)
    ensures
        r == is_month(w@),
{
    chars_eq(w, &chars_of("Jan")) || chars_eq(w, &chars_of("Feb")) || chars_eq(w, &chars_of("Mar"))
        || chars_eq(w, &chars_of("Apr")) || chars_eq(w, &chars_of("May")) || chars_eq(w, &chars_of("Jun"))
        || chars_eq(w, &chars_of("Jul")) || chars_eq(w, &chars_of("Aug")) || chars_eq(w, &chars_of("Sep"))
        || chars_eq(w, &chars_of("Oct")) || chars_eq(w, &chars_of("Nov")) || chars_eq(w, &chars_of("Dec"))
}

fn has_colon(w: &Vec<char>) -> (r: bool)
    ensures
        r == w@.contains(':'),
{
    let mut i: usize = 0;
    while i < w.len()
        invariant
            i <= w@.len(),
            forall|j: int| 0 <= j < i ==> w@[j] != ':',
        decreases w@.len() - i,
    {
        if w[i] == ':' {
            assert(w@[i as int] == ':');
            return true;
        }
        i += 1;
    }
    false
}

/// The host of a syslog-style line (see `plaintext_host`).
pub fn extract_host_from_plaintext(line: &str) -> (r: Option<String>)
    ensures
        match r {
            Some(h) => plaintext_host(line@) == Some(h@),
            None => plaintext_host(line@) is None,
        },
{
    let ws = split_words(line);
    if ws.len() >= 4 {
        let w0 = chars_of(ws[0].as_str());
        let w2 = chars_of(ws[2].as_str());
        if is_month_exec(&w0) && has_colon(&w2) {
            return Some(ws[3].clone());
        }
    }
    None
}

/// The service and host a record came from (see `source_of`); `fields` are
/// the sorted fields of a structured record.
pub fn extract_source(fields: Option<&Vec<(String, String)>>, message: &str) -> (r: (Option<String>, Option<String>))
    ensures
        ({
            let spec_fields = match fields {
                Some(f) => Some(strpairs_view(f@)),
                None => None,
            };
            let want = source_of(spec_fields, message@);
            &&& (match r.0 {
                Some(s) => want.0 == Some(s@),
                None => want.0 is None,
            })
            &&& (match r.1 {
                Some(h) => want.1 == Some(h@),
                None => want.1 is None,
            })
        }),
{
    match fields {
        Some(f) => {
            let sk = key_list(&["service", "app", "application", "kubernetes.labels.app", "kubernetes.container_name"]);
            let hk = key_list(&["host", "hostname", "kubernetes.host", "kubernetes.node_name", "kubernetes.pod_name"]);
            assert(sk@.map_values(|k: Vec<char>| k@) =~= service_keys());
            assert(hk@.map_values(|k: Vec<char>| k@) =~= host_keys());
            let svc = match first_field_exec(f, &sk) {
                Some(v) => Some(string_of(v.as_slice())),
                None => None,
            };
            let host = match first_field_exec(f, &hk) {
                Some(v) => Some(string_of(v.as_slice())),
                None => None,
            };
            (svc, host)
        },
        None => (None, extract_host_from_plaintext(message)),
    }
}

} // verus!
