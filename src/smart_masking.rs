//! Known access-log shapes.
use vstd::prelude::*;
use crate::masking::group_text;
use crate::params::{strings_view, ParamMap, params_of};
use crate::param_extractor::MaskingResult;
use crate::text::{chars_eq};
use crate::scan::{matches_of, matches_view, scan, Span};
use crate::text::{append_chars, chars_of, slice_chars, string_of};

verus! {

/// The access-log shape a line was recognized as.
#[derive(Debug, Clone, Copy, PartialEq, Eq, Structural)]
pub enum LogFormat {
    ElasticLoadBalancer,
    NginxAccess,
    ApacheAccess,
    Unknown,
}

pub const RE_HTTP_REQUEST: &'static str = r#""(GET|POST|PUT|DELETE|HEAD|OPTIONS|PATCH|TRACE)\s+([^\s"]+)\s+(HTTP/[\d.]+)""#;

/// What `str::split_whitespace` yields.
pub uninterp spec fn words_of(s: Seq<char>) -> Seq<Seq<char>>;

/// Relies on `str::split_whitespace`: the words of the text, in order.
#[verifier::external_body]
pub(crate) fn split_words(s: &str) -> (r: Vec<String>)
    ensures
        strings_view(r@) == words_of(s@),
{
    s.split_whitespace().map(|w| w.to_string()).collect()
}

/// Group `g` of a match, or `default` when it did not take part.
pub open spec fn group_or(text: Seq<char>, m: Seq<Option<Span>>, g: int, default: Seq<char>) -> Seq<char> {
    if 0 <= g < m.len() && m[g] is Some {
        group_text(text, m, g)
    } else {
        default
    }
}

/// Word `i`, or `default` when there are fewer words.
pub open spec fn word_or(ws: Seq<Seq<char>>, i: int, default: Seq<char>) -> Seq<char> {
    if 0 <= i < ws.len() {
        ws[i]
    } else {
        default
    }
}

/// Method, path and version of a request line: read by the request pattern
/// when it matches the quoted line, else taken word by word, with `UNKNOWN`,
/// `/` and `HTTP/1.0` for what is missing.
pub open spec fn http_request_spec(r: Seq<char>) -> (Seq<char>, Seq<char>, Seq<char>) {
    let q = "\""@ + r + "\""@;
    let ms = matches_of(RE_HTTP_REQUEST@, q);
    if ms.len() > 0 {
        (
            group_or(q, ms[0], 1, "UNKNOWN"@),
            group_or(q, ms[0], 2, "/"@),
            group_or(q, ms[0], 3, "HTTP/1.0"@),
        )
    } else {
        let ws = words_of(r);
        (word_or(ws, 0, "UNKNOWN"@), word_or(ws, 1, "/"@), word_or(ws, 2, "HTTP/1.0"@))
    }
}

fn group_or_exec(text: &Vec<char>, m: &Vec<Option<Span>>, g: usize, default: &str) -> (r: String)
    requires
        forall|k: int| 0 <= k < m@.len() && (#[trigger] m@[k]) is Some ==> m@[k]->Some_0.0 <= m@[k]->Some_0.1 <= text@.len(),
    ensures
        r@ == group_or(text@, m@, g as int, default@),
{
    if g < m.len() && m[g].is_some() {
        let sp = m[g].unwrap();
        string_of(slice_chars(text, sp.0, sp.1).as_slice())
    } else {
        string_of(chars_of(default).as_slice())
    }
}

fn word_or_exec(ws: &Vec<String>, i: usize, default: &str) -> (r: String)
    ensures
        r@ == word_or(strings_view(ws@), i as int, default@),
{
    if i < ws.len() {
        ws[i].clone()
    } else {
        string_of(chars_of(default).as_slice())
    }
}

/// Splits an HTTP request line (see `http_request_spec`).
pub fn parse_http_request(request: &str) -> (r: (String, String, String))
    ensures
        (r.0@, r.1@, r.2@) == http_request_spec(request@),
{
    let mut q: Vec<char> = Vec::new();
    q.push('"');
    append_chars(&mut q, &chars_of(request));
    q.push('"');
    proof {
        reveal_strlit("\"");
    }
    assert(q@ =~= "\""@ + request@ + "\""@);
    let ms = scan(RE_HTTP_REQUEST, &q);
    let ghost gms = matches_view(ms@);
    if ms.len() > 0 {
        let m = &ms[0];
        assert(gms[0] == m@);
        let method = group_or_exec(&q, m, 1, "UNKNOWN");
        let path = group_or_exec(&q, m, 2, "/");
        let version = group_or_exec(&q, m, 3, "HTTP/1.0");
        (method, path, version)
    } else {
        let ws = split_words(request);
        (word_or_exec(&ws, 0, "UNKNOWN"), word_or_exec(&ws, 1, "/"), word_or_exec(&ws, 2, "HTTP/1.0"))
    }
}

pub const RE_ELB: &'static str = r#"^(\d{4}-\d{2}-\d{2}T\d{2}:\d{2}:\d{2}\.\d+Z)\s+(\S+)\s+([0-9.:]+)\s+([0-9.:]+)\s+([-\d.]+)\s+([-\d.]+)\s+([-\d.]+)\s+(\d+)\s+(\d+)\s+(\d+)\s+(\d+)\s+"([^"]+)"\s+"([^"]+)""#;
pub const RE_NGINX: &'static str = r#"^([0-9.:]+)\s+(\S+)\s+(\S+)\s+\[([^\]]+)\]\s+"([^"]+)"\s+(\d+)\s+(\d+)\s+"([^"]*)"\s+"([^"]+)""#;
pub const RE_APACHE: &'static str = r#"^([0-9.:]+)\s+-\s+(\S+)\s+\[([^\]]+)\]\s+"([^"]+)"\s+(\d+)\s+(\d+)"#;
pub const RE_QUICK_REJECT: &'static str = r"^[a-zA-Z\s\-_.,;:!?@#$%^&*()+=<>\[\]{}|\\`~]*$";

pub const ELB_TEMPLATE: &'static str = "<TIMESTAMP> <LOAD_BALANCER> <CLIENT_IP>:<CLIENT_PORT> <TARGET_IP>:<TARGET_PORT> <REQUEST_TIME> <TARGET_TIME> <RESPONSE_TIME> <ELB_STATUS> <TARGET_STATUS> <RECEIVED_BYTES> <SENT_BYTES> \"<HTTP_METHOD> <REQUEST_PATH> <HTTP_VERSION>\" \"<USER_AGENT>\"";
pub const NGINX_TEMPLATE: &'static str = "<CLIENT_IP> <REMOTE_LOGNAME> <REMOTE_USER> [<TIMESTAMP>] \"<HTTP_METHOD> <REQUEST_PATH> <HTTP_VERSION>\" <STATUS_CODE> <RESPONSE_SIZE> \"<REFERER>\" \"<USER_AGENT>\"";
pub const APACHE_TEMPLATE: &'static str = "<CLIENT_IP> - <REMOTE_USER> [<TIMESTAMP>] \"<HTTP_METHOD> <REQUEST_PATH> <HTTP_VERSION>\" <STATUS_CODE> <RESPONSE_SIZE>";

pub type Pairs = Seq<(Seq<char>, Seq<char>)>;

/// Group `g` recorded under `key` when it took part in the match, and,
/// when `skip_dash` holds, is not a lone `-`.
pub open spec fn group_pair(key: Seq<char>, t: Seq<char>, m: Seq<Option<Span>>, g: int, skip_dash: bool) -> Pairs {
    if 0 <= g < m.len() && m[g] is Some && !(skip_dash && group_text(t, m, g) == "-"@) {
        seq![(key, group_text(t, m, g))]
    } else {
        Seq::empty()
    }
}

/// The position of the only `:` of `a`, if it has exactly one.
pub open spec fn one_colon(a: Seq<char>) -> Option<int> {
    if exists|i: int| 0 <= i < a.len() && a[i] == ':' && forall|j: int| 0 <= j < a.len() && a[j] == ':' ==> j == i {
        Some(choose|i: int| 0 <= i < a.len() && a[i] == ':' && forall|j: int| 0 <= j < a.len() && a[j] == ':' ==> j == i)
    } else {
        None
    }
}

/// An `ip:port` address: its ip and port when it splits in two at `:`, then
/// the whole address.
pub open spec fn addr_pairs(prefix: Seq<char>, t: Seq<char>, m: Seq<Option<Span>>, g: int) -> Pairs {
    if 0 <= g < m.len() && m[g] is Some {
        let a = group_text(t, m, g);
        let split = match one_colon(a) {
            Some(i) => seq![(prefix + "_IP"@, a.subrange(0, i)), (prefix + "_PORT"@, a.subrange(i + 1, a.len() as int))],
            None => Seq::empty(),
        };
        split + seq![(prefix + "_ADDR"@, a)]
    } else {
        Seq::empty()
    }
}

/// The request of group `g`, split into method, path and version.
pub open spec fn request_pairs(t: Seq<char>, m: Seq<Option<Span>>, g: int) -> Pairs {
    if 0 <= g < m.len() && m[g] is Some {
        let r = http_request_spec(group_text(t, m, g));
        seq![("HTTP_METHOD"@, r.0), ("REQUEST_PATH"@, r.1), ("HTTP_VERSION"@, r.2)]
    } else {
        Seq::empty()
    }
}

pub open spec fn elb_pairs(t: Seq<char>, m: Seq<Option<Span>>) -> Pairs {
    group_pair("TIMESTAMP"@, t, m, 1, false) + group_pair("LOAD_BALANCER"@, t, m, 2, false)
        + addr_pairs("CLIENT"@, t, m, 3) + addr_pairs("TARGET"@, t, m, 4)
        + group_pair("REQUEST_TIME"@, t, m, 5, false) + group_pair("TARGET_TIME"@, t, m, 6, false)
        + group_pair("RESPONSE_TIME"@, t, m, 7, false) + group_pair("ELB_STATUS"@, t, m, 8, false)
        + group_pair("TARGET_STATUS"@, t, m, 9, false) + group_pair("RECEIVED_BYTES"@, t, m, 10, false)
        + group_pair("SENT_BYTES"@, t, m, 11, false) + request_pairs(t, m, 12)
        + group_pair("USER_AGENT"@, t, m, 13, false)
}

pub open spec fn nginx_pairs(t: Seq<char>, m: Seq<Option<Span>>) -> Pairs {
    group_pair("CLIENT_IP"@, t, m, 1, false) + group_pair("REMOTE_LOGNAME"@, t, m, 2, true)
        + group_pair("REMOTE_USER"@, t, m, 3, true) + group_pair("TIMESTAMP"@, t, m, 4, false)
        + request_pairs(t, m, 5) + group_pair("STATUS_CODE"@, t, m, 6, false)
        + group_pair("RESPONSE_SIZE"@, t, m, 7, false) + group_pair("REFERER"@, t, m, 8, true)
        + group_pair("USER_AGENT"@, t, m, 9, false)
}

pub open spec fn apache_pairs(t: Seq<char>, m: Seq<Option<Span>>) -> Pairs {
    group_pair("CLIENT_IP"@, t, m, 1, false) + group_pair("REMOTE_USER"@, t, m, 2, true)
        + group_pair("TIMESTAMP"@, t, m, 3, false) + request_pairs(t, m, 4)
        + group_pair("STATUS_CODE"@, t, m, 5, false) + group_pair("RESPONSE_SIZE"@, t, m, 6, false)
}

/// Lines too short (under 20 bytes), without an ASCII digit, or made of
/// letters and punctuation only, are not tried against the known formats.
pub open spec fn quick_reject(t: Seq<char>) -> bool {
    crate::text::utf8_len(t) < 20 || !(exists|i: int| 0 <= i < t.len() && '0' <= #[trigger] t[i] <= '9')
        || matches_of(RE_QUICK_REJECT@, t).len() > 0
}

/// A line of a known access-log shape: its descriptive template, the
/// recorded values, and the shape; tried in the order load balancer,
/// nginx, apache.
pub open spec fn access_format(t: Seq<char>) -> Option<(Seq<char>, Pairs, LogFormat)> {
    if quick_reject(t) {
        None
    } else if matches_of(RE_ELB@, t).len() > 0 {
        Some((ELB_TEMPLATE@, elb_pairs(t, matches_of(RE_ELB@, t)[0]), LogFormat::ElasticLoadBalancer))
    } else if matches_of(RE_NGINX@, t).len() > 0 {
        Some((NGINX_TEMPLATE@, nginx_pairs(t, matches_of(RE_NGINX@, t)[0]), LogFormat::NginxAccess))
    } else if matches_of(RE_APACHE@, t).len() > 0 {
        Some((APACHE_TEMPLATE@, apache_pairs(t, matches_of(RE_APACHE@, t)[0]), LogFormat::ApacheAccess))
    } else {
        None
    }
}

fn add_pair(params: &mut ParamMap, acc: Ghost<Pairs>, key: &Vec<char>, value: &Vec<char>)
    requires
        old(params).wf(),
        old(params)@ == params_of(acc@),
    ensures
        final(params).wf(),
        final(params)@ == params_of(acc@ + seq![(key@, value@)]),
{
    params.push(key, value);
    assert((acc@ + seq![(key@, value@)]).drop_last() =~= acc@);
}

fn add_group(params: &mut ParamMap, acc: Ghost<Pairs>, key: &str, t: &Vec<char>, m: &Vec<Option<Span>>, g: usize, skip_dash: bool)
    requires
        old(params).wf(),
        old(params)@ == params_of(acc@),
        forall|k: int| 0 <= k < m@.len() && (#[trigger] m@[k]) is Some ==> m@[k]->Some_0.0 <= m@[k]->Some_0.1 <= t@.len(),
    ensures
        final(params).wf(),
        final(params)@ == params_of(acc@ + group_pair(key@, t@, m@, g as int, skip_dash)),
{
    if g < m.len() && m[g].is_some() {
        let sp = m[g].unwrap();
        let v = slice_chars(t, sp.0, sp.1);
        assert(v@ == group_text(t@, m@, g as int));
        if !(skip_dash && chars_eq(&v, &chars_of("-"))) {
            add_pair(params, acc, &chars_of(key), &v);
        } else {
            assert(acc@ + group_pair(key@, t@, m@, g as int, skip_dash) =~= acc@);
        }
    } else {
        assert(acc@ + group_pair(key@, t@, m@, g as int, skip_dash) =~= acc@);
    }
}

fn one_colon_exec(a: &Vec<char>) -> (r: Option<usize>)
    ensures
        match r {
            Some(i) => one_colon(a@) == Some(i as int),
            None => one_colon(a@) is None,
        },
{
    let mut found: Option<usize> = None;
    let mut i: usize = 0;
    while i < a.len()
        invariant
            i <= a@.len(),
            match found {
                Some(f) => f < i && a@[f as int] == ':' && forall|j: int| 0 <= j < i && a@[j] == ':' ==> j == f,
                None => forall|j: int| 0 <= j < i ==> a@[j] != ':',
            },
        decreases a@.len() - i,
    {
        if a[i] == ':' {
            match found {
                Some(f) => {
                    assert(!exists|k: int| 0 <= k < a@.len() && a@[k] == ':' && forall|j: int| 0 <= j < a@.len() && a@[j] == ':' ==> j == k) by {
                        if exists|k: int| 0 <= k < a@.len() && a@[k] == ':' && forall|j: int| 0 <= j < a@.len() && a@[j] == ':' ==> j == k {
                            let k = choose|k: int| 0 <= k < a@.len() && a@[k] == ':' && forall|j: int| 0 <= j < a@.len() && a@[j] == ':' ==> j == k;
                            assert(f as int == k);
                            assert(i as int == k);
                        }
                    }
                    return None;
                },
                None => {
                    found = Some(i);
                },
            }
        }
        i += 1;
    }
    match found {
        Some(f) => {
            let ghost w = choose|k: int| 0 <= k < a@.len() && a@[k] == ':' && forall|j: int| 0 <= j < a@.len() && a@[j] == ':' ==> j == k;
            assert(0 <= f < a@.len() && a@[f as int] == ':' && forall|j: int| 0 <= j < a@.len() && a@[j] == ':' ==> j == f);
            assert(w == f as int);
            Some(f)
        },
        None => None,
    }
}

fn add_addr(params: &mut ParamMap, acc: Ghost<Pairs>, prefix: &str, t: &Vec<char>, m: &Vec<Option<Span>>, g: usize)
    requires
        old(params).wf(),
        old(params)@ == params_of(acc@),
        forall|k: int| 0 <= k < m@.len() && (#[trigger] m@[k]) is Some ==> m@[k]->Some_0.0 <= m@[k]->Some_0.1 <= t@.len(),
    ensures
        final(params).wf(),
        final(params)@ == params_of(acc@ + addr_pairs(prefix@, t@, m@, g as int)),
{
    if g < m.len() && m[g].is_some() {
        let sp = m[g].unwrap();
        let a = slice_chars(t, sp.0, sp.1);
        assert(a@ == group_text(t@, m@, g as int));
        let p = chars_of(prefix);
        let ghost mut cur = acc@;
        match one_colon_exec(&a) {
            Some(i) => {
                let mut k1 = p.clone();
                append_chars(&mut k1, &chars_of("_IP"));
                let v1 = slice_chars(&a, 0, i);
                add_pair(params, Ghost(cur), &k1, &v1);
                proof { cur = cur + seq![(k1@, v1@)]; }
                let mut k2 = p.clone();
                append_chars(&mut k2, &chars_of("_PORT"));
                let v2 = slice_chars(&a, i + 1, a.len());
                add_pair(params, Ghost(cur), &k2, &v2);
                proof { cur = cur + seq![(k2@, v2@)]; }
                assert(cur =~= acc@ + seq![(prefix@ + "_IP"@, a@.subrange(0, i as int)), (prefix@ + "_PORT"@, a@.subrange(i + 1, a@.len() as int))]);
            },
            None => {
                assert(cur =~= acc@ + Seq::<(Seq<char>, Seq<char>)>::empty());
            },
        }
        let ghost before = cur;
        let mut k3 = p.clone();
        append_chars(&mut k3, &chars_of("_ADDR"));
        add_pair(params, Ghost(cur), &k3, &a);
        proof { cur = cur + seq![(k3@, a@)]; }
        assert(cur =~= acc@ + addr_pairs(prefix@, t@, m@, g as int));
    } else {
        assert(acc@ + addr_pairs(prefix@, t@, m@, g as int) =~= acc@);
    }
}

fn add_request(params: &mut ParamMap, acc: Ghost<Pairs>, t: &Vec<char>, m: &Vec<Option<Span>>, g: usize)
    requires
        old(params).wf(),
        old(params)@ == params_of(acc@),
        forall|k: int| 0 <= k < m@.len() && (#[trigger] m@[k]) is Some ==> m@[k]->Some_0.0 <= m@[k]->Some_0.1 <= t@.len(),
    ensures
        final(params).wf(),
        final(params)@ == params_of(acc@ + request_pairs(t@, m@, g as int)),
{
    if g < m.len() && m[g].is_some() {
        let sp = m[g].unwrap();
        let req = slice_chars(t, sp.0, sp.1);
        assert(req@ == group_text(t@, m@, g as int));
        let (method, path, version) = parse_http_request(string_of(req.as_slice()).as_str());
        let ghost mut cur = acc@;
        let mv = chars_of(method.as_str());
        let pv = chars_of(path.as_str());
        let vv = chars_of(version.as_str());
        add_pair(params, Ghost(cur), &chars_of("HTTP_METHOD"), &mv);
        proof { cur = cur + seq![("HTTP_METHOD"@, mv@)]; }
        add_pair(params, Ghost(cur), &chars_of("REQUEST_PATH"), &pv);
        proof { cur = cur + seq![("REQUEST_PATH"@, pv@)]; }
        add_pair(params, Ghost(cur), &chars_of("HTTP_VERSION"), &vv);
        proof { cur = cur + seq![("HTTP_VERSION"@, vv@)]; }
        assert(cur =~= acc@ + request_pairs(t@, m@, g as int));
    } else {
        assert(acc@ + request_pairs(t@, m@, g as int) =~= acc@);
    }
}

fn elb_params(t: &Vec<char>, m: &Vec<Option<Span>>) -> (r: ParamMap)
    requires
        forall|k: int| 0 <= k < m@.len() && (#[trigger] m@[k]) is Some ==> m@[k]->Some_0.0 <= m@[k]->Some_0.1 <= t@.len(),
    ensures
        r.wf(),
        r@ == params_of(elb_pairs(t@, m@)),
{
    let mut p = ParamMap::new();
    let ghost mut acc: Pairs = Seq::empty();
    assert(p@ =~= params_of(acc));
    add_group(&mut p, Ghost(acc), "TIMESTAMP", t, m, 1, false);
    proof { acc = acc + group_pair("TIMESTAMP"@, t@, m@, 1, false); }
    add_group(&mut p, Ghost(acc), "LOAD_BALANCER", t, m, 2, false);
    proof { acc = acc + group_pair("LOAD_BALANCER"@, t@, m@, 2, false); }
    add_addr(&mut p, Ghost(acc), "CLIENT", t, m, 3);
    proof { acc = acc + addr_pairs("CLIENT"@, t@, m@, 3); }
    add_addr(&mut p, Ghost(acc), "TARGET", t, m, 4);
    proof { acc = acc + addr_pairs("TARGET"@, t@, m@, 4); }
    add_group(&mut p, Ghost(acc), "REQUEST_TIME", t, m, 5, false);
    proof { acc = acc + group_pair("REQUEST_TIME"@, t@, m@, 5, false); }
    add_group(&mut p, Ghost(acc), "TARGET_TIME", t, m, 6, false);
    proof { acc = acc + group_pair("TARGET_TIME"@, t@, m@, 6, false); }
    add_group(&mut p, Ghost(acc), "RESPONSE_TIME", t, m, 7, false);
    proof { acc = acc + group_pair("RESPONSE_TIME"@, t@, m@, 7, false); }
    add_group(&mut p, Ghost(acc), "ELB_STATUS", t, m, 8, false);
    proof { acc = acc + group_pair("ELB_STATUS"@, t@, m@, 8, false); }
    add_group(&mut p, Ghost(acc), "TARGET_STATUS", t, m, 9, false);
    proof { acc = acc + group_pair("TARGET_STATUS"@, t@, m@, 9, false); }
    add_group(&mut p, Ghost(acc), "RECEIVED_BYTES", t, m, 10, false);
    proof { acc = acc + group_pair("RECEIVED_BYTES"@, t@, m@, 10, false); }
    add_group(&mut p, Ghost(acc), "SENT_BYTES", t, m, 11, false);
    proof { acc = acc + group_pair("SENT_BYTES"@, t@, m@, 11, false); }
    add_request(&mut p, Ghost(acc), t, m, 12);
    proof { acc = acc + request_pairs(t@, m@, 12); }
    add_group(&mut p, Ghost(acc), "USER_AGENT", t, m, 13, false);
    proof { acc = acc + group_pair("USER_AGENT"@, t@, m@, 13, false); }
    assert(acc =~= elb_pairs(t@, m@));
    p
}

fn nginx_params(t: &Vec<char>, m: &Vec<Option<Span>>) -> (r: ParamMap)
    requires
        forall|k: int| 0 <= k < m@.len() && (#[trigger] m@[k]) is Some ==> m@[k]->Some_0.0 <= m@[k]->Some_0.1 <= t@.len(),
    ensures
        r.wf(),
        r@ == params_of(nginx_pairs(t@, m@)),
{
    let mut p = ParamMap::new();
    let ghost mut acc: Pairs = Seq::empty();
    assert(p@ =~= params_of(acc));
    add_group(&mut p, Ghost(acc), "CLIENT_IP", t, m, 1, false);
    proof { acc = acc + group_pair("CLIENT_IP"@, t@, m@, 1, false); }
    add_group(&mut p, Ghost(acc), "REMOTE_LOGNAME", t, m, 2, true);
    proof { acc = acc + group_pair("REMOTE_LOGNAME"@, t@, m@, 2, true); }
    add_group(&mut p, Ghost(acc), "REMOTE_USER", t, m, 3, true);
    proof { acc = acc + group_pair("REMOTE_USER"@, t@, m@, 3, true); }
    add_group(&mut p, Ghost(acc), "TIMESTAMP", t, m, 4, false);
    proof { acc = acc + group_pair("TIMESTAMP"@, t@, m@, 4, false); }
    add_request(&mut p, Ghost(acc), t, m, 5);
    proof { acc = acc + request_pairs(t@, m@, 5); }
    add_group(&mut p, Ghost(acc), "STATUS_CODE", t, m, 6, false);
    proof { acc = acc + group_pair("STATUS_CODE"@, t@, m@, 6, false); }
    add_group(&mut p, Ghost(acc), "RESPONSE_SIZE", t, m, 7, false);
    proof { acc = acc + group_pair("RESPONSE_SIZE"@, t@, m@, 7, false); }
    add_group(&mut p, Ghost(acc), "REFERER", t, m, 8, true);
    proof { acc = acc + group_pair("REFERER"@, t@, m@, 8, true); }
    add_group(&mut p, Ghost(acc), "USER_AGENT", t, m, 9, false);
    proof { acc = acc + group_pair("USER_AGENT"@, t@, m@, 9, false); }
    assert(acc =~= nginx_pairs(t@, m@));
    p
}

fn apache_params(t: &Vec<char>, m: &Vec<Option<Span>>) -> (r: ParamMap)
    requires
        forall|k: int| 0 <= k < m@.len() && (#[trigger] m@[k]) is Some ==> m@[k]->Some_0.0 <= m@[k]->Some_0.1 <= t@.len(),
    ensures
        r.wf(),
        r@ == params_of(apache_pairs(t@, m@)),
{
    let mut p = ParamMap::new();
    let ghost mut acc: Pairs = Seq::empty();
    assert(p@ =~= params_of(acc));
    add_group(&mut p, Ghost(acc), "CLIENT_IP", t, m, 1, false);
    proof { acc = acc + group_pair("CLIENT_IP"@, t@, m@, 1, false); }
    add_group(&mut p, Ghost(acc), "REMOTE_USER", t, m, 2, true);
    proof { acc = acc + group_pair("REMOTE_USER"@, t@, m@, 2, true); }
    add_group(&mut p, Ghost(acc), "TIMESTAMP", t, m, 3, false);
    proof { acc = acc + group_pair("TIMESTAMP"@, t@, m@, 3, false); }
    add_request(&mut p, Ghost(acc), t, m, 4);
    proof { acc = acc + request_pairs(t@, m@, 4); }
    add_group(&mut p, Ghost(acc), "STATUS_CODE", t, m, 5, false);
    proof { acc = acc + group_pair("STATUS_CODE"@, t@, m@, 5, false); }
    add_group(&mut p, Ghost(acc), "RESPONSE_SIZE", t, m, 6, false);
    proof { acc = acc + group_pair("RESPONSE_SIZE"@, t@, m@, 6, false); }
    assert(acc =~= apache_pairs(t@, m@));
    p
}

fn quick_reject_exec(line: &str, t: &Vec<char>) -> (r: bool)
    requires
        t@ == line@,
    ensures
        r == quick_reject(line@),
{
    let blen = line.len();
    assert(blen as int == crate::text::utf8_len(line@));
    if blen < 20 {
        return true;
    }
    let mut i: usize = 0;
    let mut digit = false;
    while i < t.len() && !digit
        invariant
            i <= t@.len(),
            digit ==> exists|k: int| 0 <= k < t@.len() && '0' <= #[trigger] t@[k] <= '9',
            !digit ==> forall|k: int| 0 <= k < i ==> !('0' <= #[trigger] t@[k] <= '9'),
        decreases t@.len() - i, if digit { 0int } else { 1int },
    {
        if '0' <= t[i] && t[i] <= '9' {
            digit = true;
        } else {
            i += 1;
        }
    }
    if !digit {
        return true;
    }
    scan(RE_QUICK_REJECT, t).len() > 0
}

fn first_match_groups(pattern: &str, t: &Vec<char>) -> (r: Option<Vec<Option<Span>>>)
    ensures
        match r {
            Some(m) => matches_of(pattern@, t@).len() > 0 && m@ == matches_of(pattern@, t@)[0]
                && forall|k: int| 0 <= k < m@.len() && (#[trigger] m@[k]) is Some ==> m@[k]->Some_0.0 <= m@[k]->Some_0.1 <= t@.len(),
            None => matches_of(pattern@, t@).len() == 0,
        },
{
    let mut ms = scan(pattern, t);
    let ghost gms = matches_view(ms@);
    if ms.len() > 0 {
        assert(gms[0] == ms@[0]@);
        Some(ms.swap_remove(0))
    } else {
        None
    }
}

/// Reads a line of a known access-log shape (see `access_format`).
pub fn match_access_format(line: &str) -> (r: Option<(MaskingResult, LogFormat)>)
    ensures
        match r {
            Some(x) => access_format(line@) is Some && x.0.masked_text@ == access_format(line@)->Some_0.0
                && x.0.extracted_params@ == params_of(access_format(line@)->Some_0.1)
                && x.0.extracted_params.wf() && x.1 == access_format(line@)->Some_0.2,
            None => access_format(line@) is None,
        },
{
    let t = chars_of(line);
    if quick_reject_exec(line, &t) {
        return None;
    }
    match first_match_groups(RE_ELB, &t) {
        Some(m) => {
            let p = elb_params(&t, &m);
            return Some((MaskingResult { masked_text: string_of(chars_of(ELB_TEMPLATE).as_slice()), extracted_params: p }, LogFormat::ElasticLoadBalancer));
        },
        None => {},
    }
    match first_match_groups(RE_NGINX, &t) {
        Some(m) => {
            let p = nginx_params(&t, &m);
            return Some((MaskingResult { masked_text: string_of(chars_of(NGINX_TEMPLATE).as_slice()), extracted_params: p }, LogFormat::NginxAccess));
        },
        None => {},
    }
    match first_match_groups(RE_APACHE, &t) {
        Some(m) => {
            let p = apache_params(&t, &m);
            Some((MaskingResult { masked_text: string_of(chars_of(APACHE_TEMPLATE).as_slice()), extracted_params: p }, LogFormat::ApacheAccess))
        },
        None => None,
    }
}

/// How sure a recognized shape is, in percent: a load-balancer line 95, an
/// nginx line 90, an apache line 85; a line of no known shape 50.
pub open spec fn confidence_of(f: LogFormat) -> u8 {
    match f {
        LogFormat::ElasticLoadBalancer => 95,
        LogFormat::NginxAccess => 90,
        LogFormat::ApacheAccess => 85,
        LogFormat::Unknown => 50,
    }
}

/// See `confidence_of`.
pub fn format_confidence(f: LogFormat) -> (r: u8)
    ensures
        r == confidence_of(f),
{
    match f {
        LogFormat::ElasticLoadBalancer => 95,
        LogFormat::NginxAccess => 90,
        LogFormat::ApacheAccess => 85,
        LogFormat::Unknown => 50,
    }
}

} // verus!
