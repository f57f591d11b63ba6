//! Fallback masking with parameter extraction, and the canonicalization that
//! chooses between structured and free-text handling.
use vstd::prelude::*;
use crate::extract::{Cand, CandV, all_cands, cands_view, cands_wf, collect_cands};
use crate::params::{EntryV, ParamMap, params_of, all_pairs, merged_from, entries_view, strings_view};
use crate::select::{select_cands, selected};
use crate::fields::{field_type, field_type_exec, is_source_field, should_skip_field};
use crate::json::{flat_of_line, lemma_sorted_fields_unique, sorted_fields, strpairs_view};
pub use crate::json::try_flatten_json;
use crate::masking::group_text;
use crate::smart_masking::{access_format, match_access_format};
use crate::scan::{Span, matches_of, matches_view, matches_wf, scan, whole};
use crate::text::{append_chars, chars_eq, chars_of, decimal, decimal_chars, slice_chars, string_of};

verus! {

/// The masked line and the values each placeholder type replaced.
#[derive(Debug)]
pub struct MaskingResult {
    pub masked_text: String,
    pub extracted_params: ParamMap,
}

pub open spec fn is_digit(c: char) -> bool {
    '0' <= c <= '9'
}

/// Repeated types are numbered unless they carry a unit (`NUM_MS`, `NUM_%`):
/// a type is numbered when it has no underscore or ends in a digit.
pub open spec fn should_number(tag: Seq<char>) -> bool {
    !tag.contains('_') || (tag.len() > 0 && is_digit(tag.last()))
}

/// How many of the first `n` items have type `t`.
pub open spec fn count_tag(items: Seq<CandV>, t: Seq<char>, n: int) -> nat
    decreases n,
{
    if n <= 0 {
        0
    } else {
        count_tag(items, t, n - 1) + if items[n - 1].2 == t { 1nat } else { 0nat }
    }
}

/// The `n`-th occurrence of a type: the bare type first, then `TYPE_2`, `TYPE_3`, ...
pub open spec fn numbered(tag: Seq<char>, n: nat) -> Seq<char> {
    if n <= 1 {
        tag
    } else {
        tag + "_"@ + decimal(n)
    }
}

/// The parameter name of item `k`.
pub open spec fn name_at(items: Seq<CandV>, k: int, number: bool) -> Seq<char> {
    if number && should_number(items[k].2) {
        numbered(items[k].2, count_tag(items, items[k].2, k + 1))
    } else {
        items[k].2
    }
}

/// The text that replaces item `k` in the masked line.
pub open spec fn placeholder_at(items: Seq<CandV>, k: int, number: bool) -> Seq<char> {
    if number && should_number(items[k].2) {
        "<"@ + name_at(items, k, number) + ">"@
    } else {
        items[k].3
    }
}

pub open spec fn placeholders(items: Seq<CandV>, number: bool) -> Seq<Seq<char>> {
    Seq::new(items.len(), |k: int| placeholder_at(items, k, number))
}

/// The text from `from` on, with each item's span replaced by its text in `phs`.
pub open spec fn render(text: Seq<char>, items: Seq<CandV>, phs: Seq<Seq<char>>, from: int) -> Seq<char>
    decreases items.len(),
{
    if items.len() == 0 {
        text.subrange(from, text.len() as int)
    } else {
        text.subrange(from, items[0].0 as int) + phs[0] + render(
            text,
            items.drop_first(),
            phs.drop_first(),
            items[0].1 as int,
        )
    }
}

/// Each item's parameter name with the text it covered.
pub open spec fn value_pairs(text: Seq<char>, items: Seq<CandV>, number: bool) -> Seq<(Seq<char>, Seq<char>)> {
    Seq::new(items.len(), |k: int| (name_at(items, k, number), text.subrange(items[k].0 as int, items[k].1 as int)))
}

/// The masked line: accepted candidates replaced, numbered when `number` holds.
pub open spec fn masked_spec(text: Seq<char>, number: bool) -> Seq<char> {
    let items = selected(all_cands(text));
    render(text, items, placeholders(items, number), 0)
}

/// The extracted parameters, in the order met.
pub open spec fn params_spec(text: Seq<char>, number: bool) -> Seq<EntryV> {
    params_of(value_pairs(text, selected(all_cands(text)), number))
}

fn should_number_exec(tag: &Vec<char>) -> (r: bool)
    ensures
        r == should_number(tag@),
{
    let mut i: usize = 0;
    while i < tag.len()
        invariant
            i <= tag@.len(),
            forall|j: int| 0 <= j < i ==> tag@[j] != '_',
        decreases tag@.len() - i,
    {
        if tag[i] == '_' {
            assert(tag@.contains('_'));
            let last = tag[tag.len() - 1];
            return '0' <= last && last <= '9';
        }
        i += 1;
    }
    true
}

fn count_tag_exec(items: &Vec<Cand>, t: &Vec<char>, n: usize) -> (r: usize)
    requires
        n <= items@.len(),
    ensures
        r == count_tag(cands_view(items@), t@, n as int),
        r <= n,
{
    let ghost cv = cands_view(items@);
    let mut c: usize = 0;
    let mut i: usize = 0;
    while i < n
        invariant
            cv == cands_view(items@),
            n <= items@.len(),
            i <= n,
            c == count_tag(cv, t@, i as int),
            c <= i,
        decreases n - i,
    {
        assert(cv[i as int] == items@[i as int]@);
        if chars_eq(&items[i].tag, t) {
            c += 1;
        }
        i += 1;
    }
    c
}

fn name_exec(items: &Vec<Cand>, k: usize, number: bool) -> (r: Vec<char>)
    requires
        k < items@.len(),
    ensures
        r@ == name_at(cands_view(items@), k as int, number),
{
    let ghost cv = cands_view(items@);
    let tag = &items[k].tag;
    assert(cv[k as int].2 == tag@);
    if number && should_number_exec(tag) {
        let total = items.len();
        assert(k < total);
        let before = count_tag_exec(items, tag, k);
        let n = before + 1;
        assert(n == count_tag(cv, tag@, k + 1));
        if n <= 1 {
            tag.clone()
        } else {
            let mut r = tag.clone();
            r.push('_');
            let d = decimal_chars(n);
            append_chars(&mut r, &d);
            proof {
                reveal_strlit("_");
            }
            assert(r@ =~= tag@ + "_"@ + decimal(n as nat));
            r
        }
    } else {
        tag.clone()
    }
}

fn placeholder_exec(items: &Vec<Cand>, k: usize, number: bool) -> (r: Vec<char>)
    requires
        k < items@.len(),
    ensures
        r@ == placeholder_at(cands_view(items@), k as int, number),
{
    let ghost cv = cands_view(items@);
    assert(cv[k as int] == items@[k as int]@);
    if number && should_number_exec(&items[k].tag) {
        let name = name_exec(items, k, number);
        let mut r: Vec<char> = Vec::new();
        r.push('<');
        append_chars(&mut r, &name);
        r.push('>');
        proof {
            reveal_strlit("<");
            reveal_strlit(">");
        }
        assert(r@ =~= "<"@ + name@ + ">"@);
        r
    } else {
        items[k].rep.clone()
    }
}

proof fn lemma_render_step(text: Seq<char>, items: Seq<CandV>, phs: Seq<Seq<char>>, k: int, from: int)
    requires
        0 <= k < items.len(),
        phs.len() == items.len(),
    ensures
        render(text, items.subrange(k, items.len() as int), phs.subrange(k, phs.len() as int), from)
            == text.subrange(from, items[k].0 as int) + phs[k] + render(
            text,
            items.subrange(k + 1, items.len() as int),
            phs.subrange(k + 1, phs.len() as int),
            items[k].1 as int,
        ),
{
    let it = items.subrange(k, items.len() as int);
    let ph = phs.subrange(k, phs.len() as int);
    assert(it.drop_first() =~= items.subrange(k + 1, items.len() as int));
    assert(ph.drop_first() =~= phs.subrange(k + 1, phs.len() as int));
    assert(it[0] == items[k]);
    assert(ph[0] == phs[k]);
}

/// Masks and extracts over the accepted candidates `items` of `text`.
fn mask_items(text: &Vec<char>, items: &Vec<Cand>, number: bool) -> (r: MaskingResult)
    requires
        cands_wf(cands_view(items@), text@.len()),
        forall|k: int| 0 <= k < items@.len() - 1 ==> items@[k + 1].start >= #[trigger] items@[k].end,
    ensures
        r.masked_text@ == render(text@, cands_view(items@), placeholders(cands_view(items@), number), 0),
        r.extracted_params@ == params_of(value_pairs(text@, cands_view(items@), number)),
        r.extracted_params.wf(),
{
    let ghost cv = cands_view(items@);
    let ghost phs = placeholders(cv, number);
    let ghost pairs = value_pairs(text@, cv, number);
    let n = items.len();
    let mut out: Vec<char> = Vec::new();
    let mut params = ParamMap::new();
    let mut pos: usize = 0;
    let mut k: usize = 0;
    assert(cv.subrange(0, n as int) =~= cv);
    assert(phs.subrange(0, n as int) =~= phs);
    assert(pairs.subrange(0, 0) =~= Seq::<(Seq<char>, Seq<char>)>::empty());
    while k < n
        invariant
            n == items@.len(),
            cv == cands_view(items@),
            phs == placeholders(cv, number),
            pairs == value_pairs(text@, cv, number),
            cands_wf(cv, text@.len()),
            forall|k: int| 0 <= k < items@.len() - 1 ==> items@[k + 1].start >= #[trigger] items@[k].end,
            k <= n,
            pos <= text@.len(),
            k < n ==> pos <= items@[k as int].start,
            out@ + render(text@, cv.subrange(k as int, n as int), phs.subrange(k as int, n as int), pos as int)
                == render(text@, cv, phs, 0),
            params.wf(),
            params@ == params_of(pairs.subrange(0, k as int)),
        decreases n - k,
    {
        let it = &items[k];
        assert(cv[k as int] == it@);
        proof {
            lemma_render_step(text@, cv, phs, k as int, pos as int);
        }
        let ghost before = out@;
        let gap = slice_chars(text, pos, it.start);
        append_chars(&mut out, &gap);
        let ph = placeholder_exec(items, k, number);
        append_chars(&mut out, &ph);
        assert(out@ =~= before + text@.subrange(pos as int, cv[k as int].0 as int) + phs[k as int]);
        let name = name_exec(items, k, number);
        let value = slice_chars(text, it.start, it.end);
        params.push(&name, &value);
        assert(pairs.subrange(0, k + 1).drop_last() =~= pairs.subrange(0, k as int));
        assert(pairs.subrange(0, k + 1).last() == (name@, value@));
        pos = it.end;
        k += 1;
    }
    let tail = slice_chars(text, pos, text.len());
    append_chars(&mut out, &tail);
    assert(pairs.subrange(0, n as int) =~= pairs);
    MaskingResult { masked_text: string_of(out.as_slice()), extracted_params: params }
}

/// Masks `input` with the given candidate spans: overlaps resolved as
/// `selected` states, repeated types numbered when `number` holds.
pub fn mask_candidates(input: &str, cands: &Vec<Cand>, number: bool) -> (r: MaskingResult)
    requires
        cands_wf(cands_view(cands@), input@.len()),
    ensures
        r.masked_text@ == render(input@, selected(cands_view(cands@)), placeholders(selected(cands_view(cands@)), number), 0),
        r.extracted_params@ == params_of(value_pairs(input@, selected(cands_view(cands@)), number)),
        r.extracted_params.wf(),
{
    let text = chars_of(input);
    let items = select_cands(cands, Ghost(text@.len()));
    mask_items(&text, &items, number)
}

fn mask_line(input: &str, number: bool) -> (r: MaskingResult)
    ensures
        r.masked_text@ == masked_spec(input@, number),
        r.extracted_params@ == params_spec(input@, number),
        r.extracted_params.wf(),
        cands_wf(all_cands(input@), input@.len()),
{
    let text = chars_of(input);
    let cands = collect_cands(&text);
    let items = select_cands(&cands, Ghost(text@.len()));
    mask_items(&text, &items, number)
}

/// Masks a free-text line and records every masked value under its
/// placeholder type; repeated types share one placeholder.
pub fn mask_and_extract(input: &str) -> (r: MaskingResult)
    ensures
        r.masked_text@ == masked_spec(input@, false),
        r.extracted_params@ == params_spec(input@, false),
        r.extracted_params.wf(),
        cands_wf(all_cands(input@), input@.len()),
{
    mask_line(input, false)
}

/// Masks a free-text line; the second and later occurrences of a type
/// without a unit are numbered (`<NUM>`, `<NUM_2>`, ...), and each value is
/// recorded under its numbered name.
pub fn mask_and_extract_with_disambiguation(input: &str) -> (r: MaskingResult)
    ensures
        r.masked_text@ == masked_spec(input@, true),
        r.extracted_params@ == params_spec(input@, true),
        r.extracted_params.wf(),
        cands_wf(all_cands(input@), input@.len()),
{
    mask_line(input, true)
}

pub const RE_KV_EXTRACT: &'static str = r"\b(\w+)\s*=\s*([^\s,]+)";

/// What `char::is_alphanumeric` returns.
pub uninterp spec fn is_alnum(c: char) -> bool;

/// Relies on `char::is_alphanumeric`.
#[verifier::external_body]
fn alphanumeric(c: char) -> (r: bool)
    ensures
        r == is_alnum(c),
{
    c.is_alphanumeric()
}

/// The line holds `=` right after a letter, digit or underscore.
pub open spec fn kv_like(t: Seq<char>) -> bool {
    exists|i: int| 0 < i < t.len() && #[trigger] t[i] == '=' && (is_alnum(t[i - 1]) || t[i - 1] == '_')
}

/// Whether the line looks like it holds `key=value` pairs (see `kv_like`).
pub fn has_kv_pairs(input: &str) -> (r: bool)
    ensures
        r == kv_like(input@),
{
    let t = chars_of(input);
    let mut i: usize = 1;
    while i < t.len()
        invariant
            1 <= i,
            t@ == input@,
            forall|j: int| 0 < j < i && j < t@.len() ==> !(#[trigger] t@[j] == '=' && (is_alnum(t@[j - 1]) || t@[j - 1] == '_')),
        decreases t@.len() - i,
    {
        if t[i] == '=' && (alphanumeric(t[i - 1]) || t[i - 1] == '_') {
            return true;
        }
        i += 1;
    }
    false
}

/// Trailing commas removed.
pub open spec fn trim_commas(v: Seq<char>) -> Seq<char>
    decreases v.len(),
{
    if v.len() > 0 && v.last() == ',' {
        trim_commas(v.drop_last())
    } else {
        v
    }
}

/// What replaces one `key=value` match: kept as is for a source field, else
/// `key = <KEY>`.
pub open spec fn kv_piece(text: Seq<char>, m: Seq<Option<Span>>) -> Seq<char> {
    let key = group_text(text, m, 1);
    if is_source_field(key) {
        text.subrange(whole(m).0 as int, whole(m).1 as int)
    } else {
        key + " = <"@ + field_type(key) + ">"@
    }
}

pub open spec fn kv_render(text: Seq<char>, ms: Seq<Seq<Option<Span>>>, from: int) -> Seq<char>
    decreases ms.len(),
{
    if ms.len() == 0 {
        text.subrange(from, text.len() as int)
    } else {
        text.subrange(from, whole(ms[0]).0 as int) + kv_piece(text, ms[0]) + kv_render(
            text,
            ms.drop_first(),
            whole(ms[0]).1 as int,
        )
    }
}

/// The recorded values of the `key=value` matches, under their field types.
pub open spec fn kv_pairs(text: Seq<char>, ms: Seq<Seq<Option<Span>>>) -> Seq<(Seq<char>, Seq<char>)>
    decreases ms.len(),
{
    if ms.len() == 0 {
        Seq::empty()
    } else {
        let prev = kv_pairs(text, ms.drop_last());
        let key = group_text(text, ms.last(), 1);
        if is_source_field(key) {
            prev
        } else {
            prev.push((field_type(key), trim_commas(group_text(text, ms.last(), 2))))
        }
    }
}

fn trim_commas_exec(v: &Vec<char>) -> (r: Vec<char>)
    ensures
        r@ == trim_commas(v@),
{
    let mut n = v.len();
    assert(v@.subrange(0, n as int) =~= v@);
    while n > 0 && v[n - 1] == ','
        invariant
            n <= v@.len(),
            trim_commas(v@.subrange(0, n as int)) == trim_commas(v@),
        decreases n,
    {
        assert(v@.subrange(0, n as int).drop_last() =~= v@.subrange(0, n - 1));
        n -= 1;
    }
    slice_chars(v, 0, n)
}

proof fn lemma_kv_step(text: Seq<char>, ms: Seq<Seq<Option<Span>>>, i: int, pos: int)
    requires
        0 <= i < ms.len(),
    ensures
        kv_render(text, ms.subrange(i, ms.len() as int), pos) == text.subrange(pos, whole(ms[i]).0 as int)
            + kv_piece(text, ms[i]) + kv_render(text, ms.subrange(i + 1, ms.len() as int), whole(ms[i]).1 as int),
{
    let rest = ms.subrange(i, ms.len() as int);
    assert(rest.drop_first() =~= ms.subrange(i + 1, ms.len() as int));
    assert(rest[0] == ms[i]);
}

/// The `key=value` canonicalization of a line, with its recorded values.
pub open spec fn kv_masked(t: Seq<char>) -> Seq<char> {
    kv_render(t, matches_of(RE_KV_EXTRACT@, t), 0)
}

pub open spec fn kv_params(t: Seq<char>) -> Seq<EntryV> {
    params_of(kv_pairs(t, matches_of(RE_KV_EXTRACT@, t)))
}

#[verifier::rlimit(40)]
/// Rewrites each `key=value` of a line as `key = <KEY>`, keeping the text
/// around the pairs and the pairs of source fields as they are.
pub fn canonicalize_kv_structure(input: &str) -> (r: MaskingResult)
    ensures
        r.masked_text@ == kv_masked(input@),
        r.extracted_params@ == kv_params(input@),
        r.extracted_params.wf(),
{
    let text = chars_of(input);
    let ms = scan(RE_KV_EXTRACT, &text);
    let ghost gms = matches_view(ms@);
    let n = ms.len();
    let mut out: Vec<char> = Vec::new();
    let mut params = ParamMap::new();
    let mut pos: usize = 0;
    let mut i: usize = 0;
    assert(gms.subrange(0, n as int) =~= gms);
    assert(gms.subrange(0, 0) =~= Seq::<Seq<Option<Span>>>::empty());
    while i < n
        invariant
            n == ms@.len(),
            gms == matches_view(ms@),
            gms == matches_of(RE_KV_EXTRACT@, text@),
            text@ == input@,
            matches_wf(gms, text@.len()),
            i <= n,
            pos <= text@.len(),
            i < n ==> pos <= whole(gms[i as int]).0,
            out@ + kv_render(text@, gms.subrange(i as int, n as int), pos as int) == kv_render(text@, gms, 0),
            params.wf(),
            params@ == params_of(kv_pairs(text@, gms.subrange(0, i as int))),
        decreases n - i,
    {
        let m = &ms[i];
        let ghost gm = gms[i as int];
        assert(gm == m@);
        let sp = m[0].unwrap();
        proof {
            lemma_kv_step(text@, gms, i as int, pos as int);
        }
        let ghost before = out@;
        let gap = slice_chars(&text, pos, sp.0);
        append_chars(&mut out, &gap);
        let mut key: Vec<char> = Vec::new();
        if m.len() > 1 && m[1].is_some() {
            let g = m[1].unwrap();
            assert(gm[1] is Some);
            key = slice_chars(&text, g.0, g.1);
        }
        assert(key@ == group_text(text@, gm, 1));
        let mut value: Vec<char> = Vec::new();
        if m.len() > 2 && m[2].is_some() {
            let g = m[2].unwrap();
            assert(gm[2] is Some);
            value = slice_chars(&text, g.0, g.1);
        }
        assert(value@ == group_text(text@, gm, 2));
        let ghost sub = gms.subrange(0, i + 1);
        assert(sub.drop_last() =~= gms.subrange(0, i as int));
        assert(sub.last() == gm);
        assert(kv_pairs(text@, sub) == (if is_source_field(key@) {
            kv_pairs(text@, gms.subrange(0, i as int))
        } else {
            kv_pairs(text@, gms.subrange(0, i as int)).push((field_type(key@), trim_commas(value@)))
        }));
        let ks = string_of(key.as_slice());
        if should_skip_field(ks.as_str()) {
            let whole_text = slice_chars(&text, sp.0, sp.1);
            append_chars(&mut out, &whole_text);
        } else {
            let ty = field_type_exec(&key);
            let mut piece = key.clone();
            append_chars(&mut piece, &chars_of(" = <"));
            append_chars(&mut piece, &ty);
            piece.push('>');
            proof {
                reveal_strlit(">");
            }
            assert(piece@ =~= key@ + " = <"@ + field_type(key@) + ">"@);
            append_chars(&mut out, &piece);
            let clean = trim_commas_exec(&value);
            params.push(&ty, &clean);
            proof {
                let np = kv_pairs(text@, gms.subrange(0, i as int)).push((field_type(key@), trim_commas(value@)));
                assert(np.drop_last() =~= kv_pairs(text@, gms.subrange(0, i as int)));
                assert(params_of(np) == crate::params::add_value(params_of(np.drop_last()), ty@, clean@));
            }
        }
        assert(out@ =~= before + text@.subrange(pos as int, sp.0 as int) + kv_piece(text@, gm));
        pos = sp.1;
        i += 1;
    }
    let tail = slice_chars(&text, pos, text.len());
    append_chars(&mut out, &tail);
    MaskingResult { masked_text: string_of(out.as_slice()), extracted_params: params }
}

/// Pieces joined by single spaces.
pub open spec fn join(parts: Seq<Seq<char>>) -> Seq<char>
    decreases parts.len(),
{
    if parts.len() == 0 {
        Seq::empty()
    } else if parts.len() == 1 {
        parts[0]
    } else {
        join(parts.drop_last()) + " "@ + parts.last()
    }
}

/// `path = <PATH_TYPE>` for every field that is not a source field.
pub open spec fn json_pieces(f: Seq<(Seq<char>, Seq<char>)>) -> Seq<Seq<char>>
    decreases f.len(),
{
    if f.len() == 0 {
        Seq::empty()
    } else {
        let prev = json_pieces(f.drop_last());
        let k = f.last().0;
        if is_source_field(k) {
            prev
        } else {
            prev.push(k + " = <"@ + field_type(k) + ">"@)
        }
    }
}

/// The value of every field that is not a source field, under its field type.
pub open spec fn json_value_pairs(f: Seq<(Seq<char>, Seq<char>)>) -> Seq<(Seq<char>, Seq<char>)>
    decreases f.len(),
{
    if f.len() == 0 {
        Seq::empty()
    } else {
        let prev = json_value_pairs(f.drop_last());
        let k = f.last().0;
        if is_source_field(k) {
            prev
        } else {
            prev.push((field_type(k), f.last().1))
        }
    }
}

/// Renders flattened fields as `path = <PATH_TYPE>` pairs separated by
/// spaces, leaving out source fields, and records each value.
pub fn canonicalize_json_structure(fields: &Vec<(String, String)>) -> (r: MaskingResult)
    ensures
        r.masked_text@ == join(json_pieces(strpairs_view(fields@))),
        r.extracted_params@ == params_of(json_value_pairs(strpairs_view(fields@))),
        r.extracted_params.wf(),
{
    let ghost fv = strpairs_view(fields@);
    let mut out: Vec<char> = Vec::new();
    let mut count: usize = 0;
    let mut params = ParamMap::new();
    let mut i: usize = 0;
    assert(fv.subrange(0, 0) =~= Seq::<(Seq<char>, Seq<char>)>::empty());
    while i < fields.len()
        invariant
            fv == strpairs_view(fields@),
            i <= fields@.len(),
            count == json_pieces(fv.subrange(0, i as int)).len(),
            count <= i,
            out@ == join(json_pieces(fv.subrange(0, i as int))),
            params.wf(),
            params@ == params_of(json_value_pairs(fv.subrange(0, i as int))),
        decreases fields@.len() - i,
    {
        let ghost sub = fv.subrange(0, i + 1);
        assert(sub.drop_last() =~= fv.subrange(0, i as int));
        assert(sub.last() == (fields@[i as int].0@, fields@[i as int].1@));
        if !should_skip_field(fields[i].0.as_str()) {
            let key = chars_of(fields[i].0.as_str());
            let ty = field_type_exec(&key);
            let mut piece = key.clone();
            append_chars(&mut piece, &chars_of(" = <"));
            append_chars(&mut piece, &ty);
            piece.push('>');
            proof {
                reveal_strlit(">");
                reveal_strlit(" ");
            }
            assert(piece@ =~= key@ + " = <"@ + field_type(key@) + ">"@);
            let ghost prev_out = out@;
            if count > 0 {
                out.push(' ');
            }
            append_chars(&mut out, &piece);
            let ghost parts = json_pieces(sub);
            assert(parts.drop_last() == json_pieces(fv.subrange(0, i as int)));
            if count > 0 {
                assert(out@ =~= prev_out + " "@ + piece@);
            } else {
                assert(out@ =~= piece@);
            }
            let value = chars_of(fields[i].1.as_str());
            params.push(&ty, &value);
            proof {
                let np = json_value_pairs(sub);
                assert(np.drop_last() =~= json_value_pairs(fv.subrange(0, i as int)));
            }
            count += 1;
        }
        i += 1;
    }
    assert(fv.subrange(0, fields@.len() as int) =~= fv);
    MaskingResult { masked_text: string_of(out.as_slice()), extracted_params: params }
}

/// The sorted fields of a list of pairs.
pub open spec fn sorted_of(p: Seq<(Seq<char>, Seq<char>)>) -> Seq<(Seq<char>, Seq<char>)> {
    choose|f: Seq<(Seq<char>, Seq<char>)>| sorted_fields(f, p)
}

/// The canonical text of a line: a JSON object's sorted fields, else its
/// `key=value` pairs rewritten, else the template of a known access-log
/// shape, else the numbered fallback masking.
pub open spec fn canonical_masked(t: Seq<char>) -> Seq<char> {
    match flat_of_line(t) {
        Some(p) => join(json_pieces(sorted_of(p))),
        None => if kv_like(t) {
            kv_masked(t)
        } else {
            match access_format(t) {
                Some(f) => f.0,
                None => masked_spec(t, true),
            }
        },
    }
}

/// The parameters recorded with `canonical_masked`.
pub open spec fn canonical_params(t: Seq<char>) -> Seq<EntryV> {
    match flat_of_line(t) {
        Some(p) => params_of(json_value_pairs(sorted_of(p))),
        None => if kv_like(t) {
            kv_params(t)
        } else {
            match access_format(t) {
                Some(f) => params_of(f.1),
                None => params_spec(t, true),
            }
        },
    }
}

/// Canonicalizes a raw line for clustering (see `canonical_masked`).
pub fn canonicalize_for_drain(input: &str) -> (r: MaskingResult)
    ensures
        r.masked_text@ == canonical_masked(input@),
        r.extracted_params@ == canonical_params(input@),
        r.extracted_params.wf(),
{
    match try_flatten_json(input) {
        Some(fields) => {
            proof {
                let p = flat_of_line(input@)->Some_0;
                let f = strpairs_view(fields@);
                assert(sorted_fields(f, p));
                lemma_sorted_fields_unique(f, sorted_of(p), p);
            }
            canonicalize_json_structure(&fields)
        },
        None => {
            if has_kv_pairs(input) {
                canonicalize_kv_structure(input)
            } else {
                match match_access_format(input) {
                    Some((r, _)) => r,
                    None => mask_and_extract_with_disambiguation(input),
                }
            }
        },
    }
}

/// The values of structured fields under their field types, source fields left out.
pub open spec fn kv_field_pairs(f: Seq<(Seq<char>, Seq<char>)>) -> Seq<(Seq<char>, Seq<char>)> {
    json_value_pairs(f)
}

/// Records the value of every structured field that is not a source field,
/// under its field type.
pub fn extract_kv_params(flat_fields: &Vec<(String, String)>) -> (r: ParamMap)
    ensures
        r@ == params_of(kv_field_pairs(strpairs_view(flat_fields@))),
        r.wf(),
{
    let ghost fv = strpairs_view(flat_fields@);
    let mut params = ParamMap::new();
    let mut i: usize = 0;
    assert(fv.subrange(0, 0) =~= Seq::<(Seq<char>, Seq<char>)>::empty());
    while i < flat_fields.len()
        invariant
            fv == strpairs_view(flat_fields@),
            i <= flat_fields@.len(),
            params.wf(),
            params@ == params_of(json_value_pairs(fv.subrange(0, i as int))),
        decreases flat_fields@.len() - i,
    {
        let ghost sub = fv.subrange(0, i + 1);
        assert(sub.drop_last() =~= fv.subrange(0, i as int));
        assert(sub.last() == (flat_fields@[i as int].0@, flat_fields@[i as int].1@));
        if !should_skip_field(flat_fields[i].0.as_str()) {
            let key = chars_of(flat_fields[i].0.as_str());
            let ty = field_type_exec(&key);
            let value = chars_of(flat_fields[i].1.as_str());
            params.push(&ty, &value);
            proof {
                let np = json_value_pairs(sub);
                assert(np.drop_last() =~= json_value_pairs(fv.subrange(0, i as int)));
            }
        }
        i += 1;
    }
    assert(fv.subrange(0, flat_fields@.len() as int) =~= fv);
    params
}

/// Every pattern of the canonicalizer compiles.
pub open spec fn patterns_compile() -> bool {
    &&& crate::scan::regex_captures(crate::extract::RE_TIMESTAMP@, Seq::empty()) is Some
    &&& crate::scan::regex_captures(crate::extract::RE_NUM_UNIT@, Seq::empty()) is Some
    &&& crate::scan::regex_captures(crate::extract::RE_NUM_PERCENT@, Seq::empty()) is Some
    &&& crate::scan::regex_captures(crate::extract::RE_URL@, Seq::empty()) is Some
    &&& crate::scan::regex_captures(crate::extract::RE_IPV6@, Seq::empty()) is Some
    &&& crate::scan::regex_captures(crate::extract::RE_IPV4@, Seq::empty()) is Some
    &&& crate::scan::regex_captures(crate::extract::RE_EMAIL@, Seq::empty()) is Some
    &&& crate::scan::regex_captures(crate::extract::RE_UUID@, Seq::empty()) is Some
    &&& crate::scan::regex_captures(crate::extract::RE_PATH@, Seq::empty()) is Some
    &&& crate::scan::regex_captures(crate::extract::RE_NULL@, Seq::empty()) is Some
    &&& crate::scan::regex_captures(crate::extract::RE_B64@, Seq::empty()) is Some
    &&& crate::scan::regex_captures(crate::extract::RE_HEX@, Seq::empty()) is Some
    &&& crate::scan::regex_captures(crate::extract::RE_FLOAT@, Seq::empty()) is Some
    &&& crate::scan::regex_captures(crate::extract::RE_INT@, Seq::empty()) is Some
    &&& crate::scan::regex_captures(RE_KV_EXTRACT@, Seq::empty()) is Some
}

fn compiles(pattern: &str) -> (r: bool)
    ensures
        r == (crate::scan::regex_captures(pattern@, Seq::empty()) is Some),
{
    let empty = string_of(Vec::<char>::new().as_slice());
    assert(empty@ =~= Seq::<char>::empty());
    crate::scan::find_captures(pattern, empty.as_str()).is_some()
}

/// Compiles every pattern of the canonicalizer once, and tells whether all compile.
pub fn prewarm_regexes() -> (r: bool)
    ensures
        r == patterns_compile(),
{
    let a = compiles(crate::extract::RE_TIMESTAMP);
    let b = compiles(crate::extract::RE_NUM_UNIT);
    let c = compiles(crate::extract::RE_NUM_PERCENT);
    let d = compiles(crate::extract::RE_URL);
    let e = compiles(crate::extract::RE_IPV6);
    let f = compiles(crate::extract::RE_IPV4);
    let g = compiles(crate::extract::RE_EMAIL);
    let h = compiles(crate::extract::RE_UUID);
    let i = compiles(crate::extract::RE_PATH);
    let j = compiles(crate::extract::RE_NULL);
    let k = compiles(crate::extract::RE_B64);
    let l = compiles(crate::extract::RE_HEX);
    let m = compiles(crate::extract::RE_FLOAT);
    let n = compiles(crate::extract::RE_INT);
    let o = compiles(RE_KV_EXTRACT);
    a && b && c && d && e && f && g && h && i && j && k && l && m && n && o
}

fn merge_all(r: &mut ParamMap, src: &ParamMap)
    requires
        old(r).wf(),
    ensures
        final(r).wf(),
        final(r)@ == merged_from(old(r)@, all_pairs(src@)),
{
    let es = src.entries();
    let ghost ev = entries_view(es@);
    let ghost r0 = r@;
    let mut i: usize = 0;
    assert(ev.subrange(0, 0) =~= Seq::<EntryV>::empty());
    assert(all_pairs(ev.subrange(0, 0)) =~= Seq::<(Seq<char>, Seq<char>)>::empty());
    while i < es.len()
        invariant
            ev == entries_view(es@),
            ev == src@,
            i <= es@.len(),
            r.wf(),
            r@ == merged_from(r0, all_pairs(ev.subrange(0, i as int))),
        decreases es@.len() - i,
    {
        let key = chars_of(es[i].0.as_str());
        let vals = &es[i].1;
        let ghost e = ev[i as int];
        assert(e == (key@, strings_view(vals@)));
        let ghost base = all_pairs(ev.subrange(0, i as int));
        let ghost more = e.1.map_values(|v: Seq<char>| (e.0, v));
        let mut j: usize = 0;
        assert(base + more.subrange(0, 0) =~= base);
        while j < vals.len()
            invariant
                i < es@.len(),
                e == (key@, strings_view(vals@)),
                more == e.1.map_values(|v: Seq<char>| (e.0, v)),
                j <= vals@.len(),
                r.wf(),
                r@ == merged_from(r0, base + more.subrange(0, j as int)),
            decreases vals@.len() - j,
        {
            let v = chars_of(vals[j].as_str());
            r.merge_in(&key, &v);
            let ghost np = base + more.subrange(0, j + 1);
            assert(np.drop_last() =~= base + more.subrange(0, j as int));
            assert(np.last() == (key@, v@));
            j += 1;
        }
        let ghost sub = ev.subrange(0, i + 1);
        assert(sub.drop_last() =~= ev.subrange(0, i as int));
        assert(sub.last() == e);
        assert(more.subrange(0, vals@.len() as int) =~= more);
        assert(all_pairs(sub) == base + more);
        i += 1;
    }
    assert(ev.subrange(0, es@.len() as int) =~= ev);
}

/// Combines the parameters of masking with those of structured fields:
/// every value recorded once, values of a type in increasing order, types in
/// order of their first value.
pub fn merge_params(masked_params: ParamMap, kv_params: ParamMap) -> (r: ParamMap)
    ensures
        r@ == merged_from(merged_from(Seq::empty(), all_pairs(masked_params@)), all_pairs(kv_params@)),
        r.wf(),
{
    let mut r = ParamMap::new();
    merge_all(&mut r, &masked_params);
    merge_all(&mut r, &kv_params);
    r
}

} // verus!
