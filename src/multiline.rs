//! Joins physical lines into logical records: multi-line JSON documents
//! and stack traces become one record each.
use vstd::prelude::*;
use crate::scan::{matches_of, regex_captures, find_captures};
use crate::text::{append_chars, chars_of, string_of};
use crate::timestamp::{detect_timestamp_in_text, stamp_in};

verus! {

/// What `char::is_whitespace` returns.
pub uninterp spec fn is_ws(c: char) -> bool;

/// Relies on `char::is_whitespace`.
#[verifier::external_body]
fn whitespace(c: char) -> (r: bool)
    ensures
        r == is_ws(c),
{
    c.is_whitespace()
}

/// The first character that is not white space opens a JSON object or array.
pub open spec fn json_start(t: Seq<char>) -> bool {
    exists|i: int| 0 <= i < t.len() && (forall|j: int| 0 <= j < i ==> is_ws(#[trigger] t[j])) && !is_ws(t[i]) && (t[i] == '{' || t[i] == '[')
}

/// Opening minus closing braces and brackets.
pub open spec fn balance_delta(t: Seq<char>) -> int
    decreases t.len(),
{
    if t.len() == 0 {
        0
    } else {
        balance_delta(t.drop_last()) + if t.last() == '{' || t.last() == '[' {
            1int
        } else if t.last() == '}' || t.last() == ']' {
            -1int
        } else {
            0int
        }
    }
}

pub const RE_CONT: &'static str = r"^(\s+|\tat\s|Caused by:|\.\.\. \d+ more)";
pub const RE_LEADING_SPACE: &'static str = r"^\s+";

/// The line continues the previous record: it is indented, or a stack frame,
/// a cause, or an elision.
pub open spec fn continues(t: Seq<char>) -> bool {
    match regex_captures(RE_CONT@, t) {
        Some(ms) => ms.len() > 0,
        None => matches_of(RE_LEADING_SPACE@, t).len() > 0,
    }
}

pub open spec fn clamp(x: int) -> int {
    if x > i128::MAX { i128::MAX as int } else if x < i128::MIN { i128::MIN as int } else { x }
}

/// The state of the aggregator: pending text, inside a JSON document,
/// brace balance, and whether the pending text is already a finished record
/// (a one-line JSON document that came while other text was pending).
pub type AggV = (Seq<char>, bool, int, bool);

/// The state after a line when nothing is pending, and the record it
/// completes (a JSON document on one line).
pub open spec fn start_spec(line: Seq<char>) -> (AggV, Option<Seq<char>>) {
    if json_start(line) {
        let nb = balance_delta(line);
        if nb <= 0 {
            ((Seq::empty(), false, 0, false), Some(line))
        } else {
            ((line, true, nb, false), None)
        }
    } else {
        ((line, false, 0, false), None)
    }
}

/// The state after a line and the record it hands out, given whether the
/// line starts a new timestamped entry. A line that opens a JSON document
/// while other text is pending hands that text out first; nothing pending
/// is ever dropped.
pub open spec fn push_spec(s: AggV, line: Seq<char>, new_entry: bool) -> (AggV, Option<Seq<char>>) {
    let (buf, in_json, bal, done) = s;
    if done {
        let (s2, o2) = start_spec(line);
        match o2 {
            Some(x) => ((x, false, 0, true), Some(buf)),
            None => (s2, Some(buf)),
        }
    } else if in_json {
        let b = if buf.len() > 0 { buf + "\n"@ + line } else { line };
        let nb = clamp(bal + balance_delta(line));
        if nb <= 0 {
            ((Seq::empty(), false, 0, false), Some(b))
        } else {
            ((b, true, nb, false), None)
        }
    } else if json_start(line) {
        let nb = balance_delta(line);
        if buf.len() == 0 {
            start_spec(line)
        } else if nb <= 0 {
            ((line, false, 0, true), Some(buf))
        } else {
            ((line, true, nb, false), Some(buf))
        }
    } else if buf.len() == 0 {
        ((line, false, bal, false), None)
    } else if new_entry && !continues(line) {
        ((line, false, bal, false), Some(buf))
    } else {
        ((buf + "\n"@ + line, false, bal, false), None)
    }
}

pub(crate) fn is_json_start(line: &Vec<char>) -> (r: bool)
    ensures
        r == json_start(line@),
{
    let mut i: usize = 0;
    while i < line.len()
        invariant
            i <= line@.len(),
            forall|j: int| 0 <= j < i ==> is_ws(#[trigger] line@[j]),
        decreases line@.len() - i,
    {
        if !whitespace(line[i]) {
            let c = line[i];
            if c == '{' || c == '[' {
                return true;
            }
            assert forall|k: int| 0 <= k < line@.len() && (forall|j: int| 0 <= j < k ==> is_ws(#[trigger] line@[j])) && !is_ws(line@[k])
                implies !(line@[k] == '{' || line@[k] == '[') by {
                if k < i {
                } else if k > i {
                    assert(is_ws(line@[i as int]));
                }
            }
            return false;
        }
        i += 1;
    }
    false
}

fn json_balance_delta(line: &Vec<char>) -> (r: i128)
    ensures
        r as int == balance_delta(line@),
{
    let n = line.len();
    let mut bal: i128 = 0;
    let mut i: usize = 0;
    while i < n
        invariant
            n == line@.len(),
            i <= n,
            bal as int == balance_delta(line@.subrange(0, i as int)),
            -(i as int) <= bal <= i as int,
        decreases n - i,
    {
        assert(line@.subrange(0, i + 1).drop_last() =~= line@.subrange(0, i as int));
        let c = line[i];
        if c == '{' || c == '[' {
            bal = bal + 1;
        } else if c == '}' || c == ']' {
            bal = bal - 1;
        }
        i += 1;
    }
    assert(line@.subrange(0, n as int) =~= line@);
    bal
}

fn is_continuation(line: &Vec<char>) -> (r: bool)
    ensures
        r == continues(line@),
{
    let s = string_of(line.as_slice());
    match find_captures(RE_CONT, s.as_str()) {
        Some(ms) => ms.len() > 0,
        None => crate::scan::scan(RE_LEADING_SPACE, line).len() > 0,
    }
}

/// Collects lines into logical records.
pub struct MultiLineAggregator {
    buf: Vec<char>,
    in_json: bool,
    brace_balance: i128,
    done: bool,
}

impl View for MultiLineAggregator {
    type V = AggV;

    closed spec fn view(&self) -> AggV {
        (self.buf@, self.in_json, self.brace_balance as int, self.done)
    }
}

pub open spec fn opt_view(o: Option<String>) -> Option<Seq<char>> {
    match o {
        Some(s) => Some(s@),
        None => None,
    }
}

impl Default for MultiLineAggregator {
    fn default() -> (r: MultiLineAggregator)
        ensures
            r@ == (Seq::<char>::empty(), false, 0int, false),
    {
        MultiLineAggregator::new()
    }
}

impl MultiLineAggregator {
    /// An aggregator with nothing pending.
    pub fn new() -> (r: MultiLineAggregator)
        ensures
            r@ == (Seq::<char>::empty(), false, 0int, false),
    {
        MultiLineAggregator { buf: Vec::new(), in_json: false, brace_balance: 0, done: false }
    }

    fn take(&mut self) -> (r: String)
        ensures
            r@ == old(self)@.0,
            final(self)@ == (Seq::<char>::empty(), false, 0int, false),
    {
        let r = string_of(self.buf.as_slice());
        self.buf = Vec::new();
        self.in_json = false;
        self.brace_balance = 0;
        self.done = false;
        r
    }

    /// Starts from nothing pending with `l` (see `start_spec`).
    fn start(&mut self, l: Vec<char>) -> (r: Option<String>)
        requires
            old(self)@.0.len() == 0,
        ensures
            (final(self)@, opt_view(r)) == start_spec(l@),
    {
        if is_json_start(&l) {
            let d = json_balance_delta(&l);
            self.buf = l;
            self.done = false;
            if d <= 0 {
                let out = self.take();
                return Some(out);
            }
            self.in_json = true;
            self.brace_balance = d;
            None
        } else {
            self.buf = l;
            self.in_json = false;
            self.brace_balance = 0;
            self.done = false;
            None
        }
    }

    /// Adds a line, `new_entry` telling whether it starts with a new
    /// timestamped entry; returns the record it completes, if any (see `push_spec`).
    pub fn push_with(&mut self, line: &str, new_entry: bool) -> (r: Option<String>)
        ensures
            (final(self)@, opt_view(r)) == push_spec(old(self)@, line@, new_entry),
    {
        let l = chars_of(line);
        proof {
            reveal_strlit("\n");
        }
        if self.done {
            let out = self.take();
            let o2 = self.start(l);
            match o2 {
                Some(x) => {
                    self.buf = chars_of(x.as_str());
                    self.done = true;
                },
                None => {},
            }
            return Some(out);
        }
        if self.in_json {
            if self.buf.len() > 0 {
                self.buf.push('\n');
            }
            append_chars(&mut self.buf, &l);
            let d = json_balance_delta(&l);
            let sum = self.brace_balance as i128;
            let nb: i128 = if d > 0 && sum > i128::MAX - d {
                i128::MAX
            } else if d < 0 && sum < i128::MIN - d {
                i128::MIN
            } else {
                sum + d
            };
            if nb <= 0 {
                let out = self.take();
                return Some(out);
            }
            self.brace_balance = nb;
            return None;
        }
        if is_json_start(&l) {
            if self.buf.len() == 0 {
                return self.start(l);
            }
            let d = json_balance_delta(&l);
            let out = string_of(self.buf.as_slice());
            self.buf = l;
            if d <= 0 {
                self.in_json = false;
                self.brace_balance = 0;
                self.done = true;
            } else {
                self.in_json = true;
                self.brace_balance = d;
            }
            return Some(out);
        }
        let is_cont = is_continuation(&l);
        if self.buf.len() == 0 {
            self.buf = l;
            return None;
        }
        if new_entry && !is_cont {
            let out = string_of(self.buf.as_slice());
            self.buf = l;
            return Some(out);
        }
        self.buf.push('\n');
        append_chars(&mut self.buf, &l);
        None
    }

    /// Adds a line; whether it starts a new entry is told by the timestamp
    /// found in it, if any (syslog stamps taken in the current year).
    pub fn push(&mut self, line: &str) -> (r: Option<String>)
        ensures
            exists|year: int| (final(self)@, opt_view(r)) == push_spec(old(self)@, line@, stamp_in(line@, year) is Some),
    {
        let ts = detect_timestamp_in_text(line);
        let new_entry = ts.is_some();
        proof {
            let year = choose|year: i32| match ts {
                Some(t) => stamp_in(line@, year as int) == Some((t.secs, t.nanos)),
                None => stamp_in(line@, year as int) is None,
            };
            assert(new_entry == (stamp_in(line@, year as int) is Some));
        }
        self.push_with(line, new_entry)
    }

    /// The pending record, if any; nothing is pending afterwards.
    pub fn finish(&mut self) -> (r: Option<String>)
        ensures
            old(self)@.0.len() == 0 ==> r is None,
            old(self)@.0.len() > 0 ==> r is Some && r->Some_0@ == old(self)@.0,
            final(self)@ == (Seq::<char>::empty(), old(self)@.1, old(self)@.2, false),
    {
        self.done = false;
        if self.buf.len() == 0 {
            None
        } else {
            let r = string_of(self.buf.as_slice());
            self.buf = Vec::new();
            Some(r)
        }
    }
}

} // verus!
