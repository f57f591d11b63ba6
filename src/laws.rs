//! Properties that relate the library's functions to one another.
use vstd::prelude::*;
use crate::ai::{schema_changes_of, malformed_lines, examples_of, hist_of, line_keys_of, sources_for, span_of, tally, texts, times_for};
use crate::extract::{CandV, all_cands, cands_wf};
use crate::select::{lemma_select_ordered, select, selected};
use crate::fields::{is_source_field};
use crate::json::{lemma_sorted_fields_unique, sorted_fields};
use crate::param_extractor::{MaskingResult, canonicalize_for_drain, mask_and_extract_with_disambiguation, count_tag, join, json_pieces, json_value_pairs, name_at, numbered, render, should_number, sorted_of, value_pairs};
use crate::params::EntryV;
use crate::sequence::{best_end, increasing, keys_of, lemma_min_gap, min_gap, on_run, run_of, run_start};
use crate::temporal::{BurstV, bucket_counts, bursts_of, hot, median_spec, scan_bursts};
use vstd::relations::{sorted_by, total_ordering};
use vstd::seq_lib::{group_to_multiset_ensures, lemma_sorted_unique};

verus! {

/// Canonicalization is a function of the line: any two results that
/// `canonicalize_for_drain` may return for one line have the same template
/// and parameters.
pub proof fn canonicalization_is_deterministic(x: &str, r1: MaskingResult, r2: MaskingResult)
    requires
        call_ensures(canonicalize_for_drain, (x,), r1),
        call_ensures(canonicalize_for_drain, (x,), r2),
    ensures
        r1.masked_text@ == r2.masked_text@,
        r1.extracted_params@ == r2.extracted_params@,
{
}

/// The fields of a JSON line render the same whichever sorted listing of
/// them is taken: the canonical text of a structured line is unique.
pub proof fn json_rendering_is_unique(pairs: Seq<(Seq<char>, Seq<char>)>, f: Seq<(Seq<char>, Seq<char>)>)
    requires
        sorted_fields(f, pairs),
    ensures
        join(json_pieces(f)) == join(json_pieces(sorted_of(pairs))),
        json_value_pairs(f) == json_value_pairs(sorted_of(pairs)),
{
    lemma_sorted_fields_unique(f, sorted_of(pairs), pairs);
}

proof fn lemma_count_all_same(items: Seq<CandV>, t: Seq<char>, n: int)
    requires
        0 <= n <= items.len(),
        forall|k: int| 0 <= k < items.len() ==> (#[trigger] items[k]).2 == t,
    ensures
        count_tag(items, t, n) == n,
    decreases n,
{
    if n > 0 {
        lemma_count_all_same(items, t, n - 1);
    }
}

/// The item texts in order, as placeholders.
pub open spec fn item_texts(text: Seq<char>, items: Seq<CandV>) -> Seq<Seq<char>> {
    Seq::new(items.len(), |k: int| text.subrange(items[k].0 as int, items[k].1 as int))
}

/// Items that lie in order within the text, from `from` on.
pub open spec fn in_order(items: Seq<CandV>, from: int, len: int) -> bool {
    &&& forall|k: int| 0 <= k < items.len() ==> (#[trigger] items[k]).0 <= items[k].1 <= len
    &&& items.len() > 0 ==> from <= items[0].0
    &&& forall|k: int| 1 <= k < items.len() ==> items[k - 1].1 <= (#[trigger] items[k]).0
}

proof fn lemma_render_texts(text: Seq<char>, items: Seq<CandV>, from: int)
    requires
        0 <= from <= text.len(),
        in_order(items, from, text.len() as int),
    ensures
        render(text, items, item_texts(text, items), from) == text.subrange(from, text.len() as int),
    decreases items.len(),
{
    if items.len() > 0 {
        let rest = items.drop_first();
        assert(item_texts(text, items).drop_first() =~= item_texts(text, rest));
        assert forall|k: int| 1 <= k < rest.len() implies rest[k - 1].1 <= (#[trigger] rest[k]).0 by {
            assert(rest[k] == items[k + 1]);
            assert(rest[k - 1] == items[k]);
        }
        if rest.len() > 0 {
            assert(rest[0] == items[1]);
        }
        lemma_render_texts(text, rest, items[0].1 as int);
        assert(text.subrange(from, items[0].0 as int) + text.subrange(items[0].0 as int, items[0].1 as int)
            + text.subrange(items[0].1 as int, text.len() as int) =~= text.subrange(from, text.len() as int));
    }
}

/// Repeated values of one numbered type become `TYPE`, `TYPE_2`, ...,
/// `TYPE_n` in order of appearance, one recorded value each; putting the
/// recorded values back in place of the placeholders gives the line back.
pub proof fn repeated_types_are_numbered(text: Seq<char>, items: Seq<CandV>, t: Seq<char>)
    requires
        should_number(t),
        forall|k: int| 0 <= k < items.len() ==> (#[trigger] items[k]).2 == t,
        in_order(items, 0, text.len() as int),
    ensures
        forall|k: int| 0 <= k < items.len() ==> #[trigger] name_at(items, k, true) == numbered(t, (k + 1) as nat),
        value_pairs(text, items, true).len() == items.len(),
        forall|k: int| 0 <= k < items.len() ==> (#[trigger] value_pairs(text, items, true)[k]) == (
            numbered(t, (k + 1) as nat),
            text.subrange(items[k].0 as int, items[k].1 as int),
        ),
        render(text, items, item_texts(text, items), 0) == text,
{
    assert forall|k: int| 0 <= k < items.len() implies #[trigger] name_at(items, k, true) == numbered(t, (k + 1) as nat) by {
        lemma_count_all_same(items, t, k + 1);
    }
    lemma_render_texts(text, items, 0);
    assert(text.subrange(0, text.len() as int) =~= text);
}

/// The lines of a sequence of chunks, in order.
pub open spec fn all_lines(chunks: Seq<Seq<String>>) -> Seq<String>
    decreases chunks.len(),
{
    if chunks.len() == 0 {
        Seq::empty()
    } else {
        all_lines(chunks.drop_last()) + chunks.last()
    }
}

/// The lines a streaming summarizer holds after ingesting `chunks` in
/// order (what `ingest_chunk` adds, chunk after chunk).
pub open spec fn streamed_lines(chunks: Seq<Seq<String>>) -> Seq<Seq<char>>
    decreases chunks.len(),
{
    if chunks.len() == 0 {
        Seq::empty()
    } else {
        streamed_lines(chunks.drop_last()) + texts(chunks.last())
    }
}

/// Streaming and batch agree: however the lines are cut into chunks, the
/// streaming summarizer ends up with the lines a batch summary of all of
/// them sees, so totals, time span, template set, per-template counts,
/// example lines, minute buckets, source breakdowns, parameter histograms
/// (hence parameter cardinalities), malformed-line positions and schema
/// changes are the same.
pub proof fn streaming_matches_batch(chunks: Seq<Seq<String>>)
    ensures
        streamed_lines(chunks) == texts(all_lines(chunks)),
        tally(line_keys_of(streamed_lines(chunks))) == tally(line_keys_of(texts(all_lines(chunks)))),
        forall|k: Seq<char>| #[trigger] hist_of(streamed_lines(chunks), k) == hist_of(texts(all_lines(chunks)), k),
        forall|k: Seq<char>| #[trigger] examples_of(streamed_lines(chunks), k) == examples_of(texts(all_lines(chunks)), k),
        forall|year: int| #[trigger] span_of(streamed_lines(chunks), year) == span_of(texts(all_lines(chunks)), year),
        forall|k: Seq<char>, year: int| #[trigger] times_for(streamed_lines(chunks), k, year) == times_for(texts(all_lines(chunks)), k, year),
        forall|k: Seq<char>, host: bool| #[trigger] sources_for(streamed_lines(chunks), k, host) == sources_for(texts(all_lines(chunks)), k, host),
        malformed_lines(streamed_lines(chunks)) == malformed_lines(texts(all_lines(chunks))),
        schema_changes_of(streamed_lines(chunks)) == schema_changes_of(texts(all_lines(chunks))),
    decreases chunks.len(),
{
    if chunks.len() > 0 {
        streaming_matches_batch(chunks.drop_last());
        assert(texts(all_lines(chunks.drop_last()) + chunks.last()) =~= texts(all_lines(chunks.drop_last()))
            + texts(chunks.last()));
    } else {
        assert(texts(Seq::<String>::empty()) =~= Seq::<Seq<char>>::empty());
    }
}

/// The fields that shape a template: all but the source fields.
pub open spec fn shaping_fields(f: Seq<(Seq<char>, Seq<char>)>) -> Seq<(Seq<char>, Seq<char>)>
    decreases f.len(),
{
    if f.len() == 0 {
        Seq::empty()
    } else if is_source_field(f.last().0) {
        shaping_fields(f.drop_last())
    } else {
        shaping_fields(f.drop_last()).push(f.last())
    }
}

proof fn lemma_shaping_idem(f: Seq<(Seq<char>, Seq<char>)>)
    ensures
        json_pieces(shaping_fields(f)) == json_pieces(f),
        json_value_pairs(shaping_fields(f)) == json_value_pairs(f),
    decreases f.len(),
{
    if f.len() > 0 {
        lemma_shaping_idem(f.drop_last());
        let s = shaping_fields(f.drop_last());
        if !is_source_field(f.last().0) {
            assert(s.push(f.last()).drop_last() =~= s);
        }
    }
}

/// Source fields (`host`, `service`, `kubernetes.*`, ...) never shape a
/// template: two structured records whose other fields agree get the same
/// template and the same parameters, whatever their source fields hold.
pub proof fn source_fields_do_not_shape_templates(f1: Seq<(Seq<char>, Seq<char>)>, f2: Seq<(Seq<char>, Seq<char>)>)
    requires
        shaping_fields(f1) == shaping_fields(f2),
    ensures
        join(json_pieces(f1)) == join(json_pieces(f2)),
        json_value_pairs(f1) == json_value_pairs(f2),
{
    lemma_shaping_idem(f1);
    lemma_shaping_idem(f2);
}

/// Bucket counts all 1 but one bucket at `peak`.
pub open spec fn one_hot(v: Seq<(int, nat)>, h: int, peak: nat) -> bool {
    &&& 0 <= h < v.len()
    &&& v[h].1 == peak
    &&& forall|i: int| 0 <= i < v.len() && i != h ==> (#[trigger] v[i]).1 == 1
}

proof fn lemma_one_hot_median(v: Seq<(int, nat)>, h: int)
    requires
        one_hot(v, h, 5),
        v.len() >= 3,
    ensures
        median_spec(bucket_counts(v)) == 1,
{
    broadcast use group_to_multiset_ensures;

    let c = bucket_counts(v);
    let n = c.len() as int;
    let s = Seq::new(n as nat, |i: int| if i == n - 1 { 5int } else { 1int });
    let leq = |x: int, y: int| x <= y;
    assert(sorted_by(s, leq)) by {
        assert forall|a: int, b: int| 0 <= a < b < s.len() implies #[trigger] leq(s[a], s[b]) by {}
    }
    let ones = Seq::new((n - 1) as nat, |i: int| 1int);
    assert(c.remove(h) =~= ones) by {
        assert forall|i: int| 0 <= i < n - 1 implies c.remove(h)[i] == 1 by {
            if i < h {
                assert(c.remove(h)[i] == c[i]);
            } else {
                assert(c.remove(h)[i] == c[i + 1]);
            }
        }
    }
    assert(s.remove(n - 1) =~= ones);
    assert(c[h] == 5);
    assert(s[n - 1] == 5);
    assert(c.to_multiset() =~= ones.to_multiset().insert(5)) by {
        assert(c.remove(h).to_multiset() =~= c.to_multiset().remove(c[h]));
        assert(c.to_multiset().count(5) > 0) by {
            assert(c.contains(5));
        }
    }
    assert(s.to_multiset() =~= ones.to_multiset().insert(5)) by {
        assert(s.remove(n - 1).to_multiset() =~= s.to_multiset().remove(s[n - 1]));
        assert(s.to_multiset().count(5) > 0) by {
            assert(s.contains(5));
        }
    }
    c.lemma_sort_ensures();
    assert(total_ordering(leq));
    lemma_sorted_unique(c.sort(), s, leq);
    assert(c.sort() == s);
}

proof fn lemma_scan_quiet(v: Seq<(int, nat)>, w: int, i: int, med: nat, num: nat, den: nat)
    requires
        0 <= i <= v.len(),
        forall|k: int| i <= k < v.len() ==> !hot(#[trigger] v[k].1, med, num, den),
    ensures
        scan_bursts(v, w, i, None, med, num, den) == Seq::<BurstV>::empty(),
    decreases v.len() - i,
{
    if i < v.len() {
        lemma_scan_quiet(v, w, i + 1, med, num, den);
    }
}

proof fn lemma_scan_to_peak(v: Seq<(int, nat)>, w: int, i: int, h: int, med: nat, num: nat, den: nat)
    requires
        0 <= i <= h < v.len(),
        hot(v[h].1, med, num, den),
        forall|k: int| 0 <= k < v.len() && k != h ==> !hot(#[trigger] v[k].1, med, num, den),
    ensures
        scan_bursts(v, w, i, None, med, num, den) == seq![(v[h].0, v[h].0, v[h].1, med)],
    decreases h - i,
{
    if i < h {
        assert(!hot(v[i].1, med, num, den));
        lemma_scan_to_peak(v, w, i + 1, h, med, num, den);
        assert(scan_bursts(v, w, i, None, med, num, den) == scan_bursts(v, w, i + 1, None, med, num, den));
    } else {
        assert(scan_bursts(v, w, h, None, med, num, den) == scan_bursts(v, w, h + 1, Some((v[h].0, v[h].1)), med, num, den));
        if h + 1 < v.len() {
            assert(!hot(v[h + 1].1, med, num, den));
            lemma_scan_quiet(v, w, h + 2, med, num, den);
            assert(scan_bursts(v, w, h + 1, Some((v[h].0, v[h].1)), med, num, den) == seq![(v[h].0, v[h].0, v[h].1, med)]
                + scan_bursts(v, w, h + 2, None, med, num, den));
        }
        assert(seq![(v[h].0, v[h].0, v[h].1, med)] + Seq::<BurstV>::empty() =~= seq![(v[h].0, v[h].0, v[h].1, med)]);
        if h + 1 == v.len() {
            assert(v.last() == v[h]);
        }
    }
}

/// One bucket at five times a baseline of one event per bucket (three
/// buckets or more, so the median is 1), with the threshold at three times
/// the median: exactly one burst, that bucket, with a peak of 5.
pub proof fn single_hot_bucket_is_one_burst(v: Seq<(int, nat)>, w: int, h: int)
    requires
        one_hot(v, h, 5),
        v.len() >= 3,
    ensures
        bursts_of(v, w, 3, 1) == seq![(v[h].0, v[h].0, 5nat, 1nat)],
{
    lemma_one_hot_median(v, h);
    let med = median_spec(bucket_counts(v)) as nat;
    assert(med == 1);
    assert forall|k: int| 0 <= k < v.len() && k != h implies !hot(#[trigger] v[k].1, med, 3, 1) by {}
    lemma_scan_to_peak(v, w, 0, h, med, 3, 1);
}

proof fn lemma_run_from_zero(x: Seq<int>, d: int, i: int)
    requires
        0 <= i < x.len(),
        forall|k: int| 1 <= k < x.len() ==> #[trigger] on_run(x, d, k),
    ensures
        run_start(x, d, i) == 0,
    decreases i,
{
    if i > 0 {
        lemma_run_from_zero(x, d, i - 1);
    }
}

proof fn lemma_best_is_last(x: Seq<int>, d: int, n: int)
    requires
        1 <= n <= x.len(),
        forall|k: int| 1 <= k < x.len() ==> #[trigger] on_run(x, d, k),
    ensures
        best_end(x, d, n) == n - 1,
    decreases n,
{
    if n > 1 {
        lemma_best_is_last(x, d, n - 1);
        lemma_run_from_zero(x, d, n - 1);
        lemma_run_from_zero(x, d, n - 2);
    }
}

/// Values whose gaps are one or two steps of 1, at least one of them 1,
/// make one run from the first value to the last.
proof fn lemma_one_run(x: Seq<int>, g: int)
    requires
        x.len() >= 2,
        increasing(x),
        1 <= g < x.len(),
        x[g] - x[g - 1] == 1,
        forall|k: int| 1 <= k < x.len() ==> #[trigger] on_run(x, 1, k),
    ensures
        min_gap(x, x.len() as int) == 1,
        best_end(x, 1, x.len() as int) == x.len() - 1,
        run_start(x, 1, x.len() - 1) == 0,
{
    lemma_min_gap(x, x.len() as int);
    assert(min_gap(x, x.len() as int) <= x[g] - x[g - 1]);
    lemma_best_is_last(x, 1, x.len() as int);
    lemma_run_from_zero(x, 1, x.len() - 1);
}

/// Consecutive integers compact into one run over all of them, covering
/// it fully; with one interior value removed (from four or more), the run
/// keeps its first and last value and its coverage falls below full.
pub proof fn consecutive_values_compact(h: Seq<(i64, usize)>, a: int, n: int, h2: Seq<(i64, usize)>, m: int)
    requires
        n >= 4,
        keys_of(h) == Seq::new(n as nat, |i: int| a + i),
        0 < m < n - 1,
        keys_of(h2) == Seq::new((n - 1) as nat, |i: int| if i < m { a + i } else { a + i + 1 }),
    ensures
        run_of(h).0 == a && run_of(h).1 == a + n - 1 && run_of(h).2 == 1,
        run_of(h).3 == n && run_of(h).4 == n,
        run_of(h2).0 == a && run_of(h2).1 == a + n - 1 && run_of(h2).2 == 1,
        run_of(h2).3 == n - 1 && run_of(h2).4 == n,
{
    let x = keys_of(h);
    assert(x.len() == n);
    assert(increasing(x));
    assert forall|k: int| 1 <= k < x.len() implies #[trigger] on_run(x, 1, k) by {}
    lemma_one_run(x, 1);
    let y = keys_of(h2);
    assert(y.len() == n - 1);
    assert(increasing(y));
    assert forall|k: int| 1 <= k < y.len() implies #[trigger] on_run(y, 1, k) by {
        if k == m {
            assert(y[k] - y[k - 1] == 2);
        }
    }
    if m == 1 {
        lemma_one_run(y, n - 2);
        assert(y[n - 2] - y[n - 3] == 1);
    } else {
        lemma_one_run(y, 1);
    }
    assert(y[0] == a);
    assert(y[n - 2] == a + n - 1);
    assert(x[n - 1] == a + n - 1);
    assert((n - 1) / 1 == n - 1);
}

} // verus!

verus! {

/// Text `p` followed by a line, on a new line when `p` is not empty.
pub open spec fn then_line(p: Seq<char>, line: Seq<char>) -> Seq<char> {
    if p.len() == 0 { line } else { p + "\n"@ + line }
}

/// What a push hands out, followed by what stays pending.
pub open spec fn handed_then_pending(o: Option<Seq<char>>, pending: Seq<char>) -> Seq<char> {
    match o {
        None => pending,
        Some(x) => if pending.len() == 0 { x } else { x + "\n"@ + pending },
    }
}

/// No line is lost or reordered by the multi-line joiner: after each push,
/// the record handed out (if any) followed by the text still pending is the
/// text pending before followed by the new line.
pub proof fn joiner_keeps_every_line(s: crate::multiline::AggV, line: Seq<char>, new_entry: bool)
    requires
        line.len() > 0,
        s.3 ==> s.0.len() > 0,
    ensures
        ({
            let (s2, o) = crate::multiline::push_spec(s, line, new_entry);
            &&& handed_then_pending(o, s2.0) == then_line(s.0, line)
            &&& (s2.3 ==> s2.0.len() > 0)
        }),
{
}

} // verus!

verus! {

proof fn lemma_count_monotone(items: Seq<CandV>, t: Seq<char>, a: int, b: int)
    requires
        0 <= a <= b <= items.len(),
    ensures
        count_tag(items, t, a) <= count_tag(items, t, b),
        count_tag(items, t, b) <= b,
    decreases b - a,
{
    if a < b {
        lemma_count_monotone(items, t, a, b - 1);
    } else {
        lemma_count_bound_at(items, t, b);
    }
}

proof fn lemma_count_bound_at(items: Seq<CandV>, t: Seq<char>, b: int)
    requires
        0 <= b <= items.len(),
    ensures
        count_tag(items, t, b) <= b,
    decreases b,
{
    if b > 0 {
        lemma_count_bound_at(items, t, b - 1);
    }
}

/// Numbering on any line: the occurrences of one numbered type get the
/// numbers 1, 2, ..., n in the order they are met (the first bare, then
/// `_2`, ...), each number once, n being how many there are.
pub proof fn occurrences_are_numbered_in_order(items: Seq<CandV>, t: Seq<char>)
    requires
        should_number(t),
    ensures
        forall|k: int| 0 <= k < items.len() && (#[trigger] items[k]).2 == t ==>
            name_at(items, k, true) == numbered(t, count_tag(items, t, k + 1))
            && 1 <= count_tag(items, t, k + 1) <= count_tag(items, t, items.len() as int),
        forall|k1: int, k2: int| 0 <= k1 < k2 < items.len() && (#[trigger] items[k1]).2 == t && (#[trigger] items[k2]).2 == t ==>
            count_tag(items, t, k1 + 1) < count_tag(items, t, k2 + 1),
{
    assert forall|k: int| 0 <= k < items.len() && (#[trigger] items[k]).2 == t implies
        name_at(items, k, true) == numbered(t, count_tag(items, t, k + 1))
        && 1 <= count_tag(items, t, k + 1) <= count_tag(items, t, items.len() as int) by {
        lemma_count_monotone(items, t, k + 1, items.len() as int);
        lemma_count_monotone(items, t, 0, k);
    }
    assert forall|k1: int, k2: int| 0 <= k1 < k2 < items.len() && (#[trigger] items[k1]).2 == t && (#[trigger] items[k2]).2 == t implies
        count_tag(items, t, k1 + 1) < count_tag(items, t, k2 + 1) by {
        lemma_count_monotone(items, t, k1 + 1, k2);
    }
}

/// Reconstruction on any line: putting back the text each accepted match
/// covered, in place of its placeholder, gives the line back.
pub proof fn values_put_back_give_the_line(text: Seq<char>)
    requires
        cands_wf(all_cands(text), text.len()),
    ensures
        render(text, selected(all_cands(text)), item_texts(text, selected(all_cands(text))), 0) == text,
{
    let c = all_cands(text);
    let fuel = c.len();
    lemma_select_ordered(c, 0, -1, fuel);
    let s = select(c, 0, -1, fuel);
    let items = selected(c);
    assert(items == s.map_values(|j: int| c[j]));
    assert forall|k: int| 1 <= k < items.len() implies items[k - 1].1 <= (#[trigger] items[k]).0 by {
        assert(items[k] == c[s[k]]);
        assert(items[k - 1] == c[s[k - 1]]);
    }
    assert forall|k: int| 0 <= k < items.len() implies (#[trigger] items[k]).0 <= items[k].1 <= text.len() by {
        assert(items[k] == c[s[k]]);
    }
    lemma_render_texts(text, items, 0);
    assert(text.subrange(0, text.len() as int) =~= text);
}

} // verus!

verus! {

/// Disambiguation on any line given to `mask_and_extract_with_disambiguation`:
/// the masked line replaces the accepted matches, in order, by their
/// placeholders; the occurrences of each numbered type are numbered 1..n in
/// the order met; and putting back the text each match covered gives the
/// line back.
pub proof fn disambiguation_on_any_line(x: &str, r: MaskingResult, t: Seq<char>)
    requires
        call_ensures(mask_and_extract_with_disambiguation, (x,), r),
        should_number(t),
    ensures
        ({
            let items = selected(all_cands(x@));
            &&& r.masked_text@ == render(x@, items, crate::param_extractor::placeholders(items, true), 0)
            &&& render(x@, items, item_texts(x@, items), 0) == x@
            &&& forall|k: int| 0 <= k < items.len() && (#[trigger] items[k]).2 == t ==>
                name_at(items, k, true) == numbered(t, count_tag(items, t, k + 1))
                && 1 <= count_tag(items, t, k + 1) <= count_tag(items, t, items.len() as int)
            &&& forall|k1: int, k2: int| 0 <= k1 < k2 < items.len() && (#[trigger] items[k1]).2 == t && (#[trigger] items[k2]).2 == t ==>
                count_tag(items, t, k1 + 1) < count_tag(items, t, k2 + 1)
        }),
{
    values_put_back_give_the_line(x@);
    occurrences_are_numbered_in_order(selected(all_cands(x@)), t);
}

} // verus!
