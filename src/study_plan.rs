//! The day-label splitter: cuts a study plan into `Day N:` sections, each
//! with the trimmed text up to the next day label.

use vstd::prelude::*;
use vstd::utf8::*;
use vstd::string::StringSliceAdditionalSpecFns;
use crate::text::{digits_end, lemma_digits_end_bounds, skip_digits, decode_window};

verus! {

/// One section of a plan: its label (`Day 3:`) and its tasks.
pub struct DayEntry {
    pub day: String,
    pub tasks: String,
}

/// A character with the Unicode White_Space property.
pub open spec fn is_white_space(c: char) -> bool {
    let u = c as u32;
    ||| 9 <= u <= 13
    ||| u == 0x20 || u == 0x85 || u == 0xa0 || u == 0x1680
    ||| 0x2000 <= u <= 0x200a
    ||| u == 0x2028 || u == 0x2029 || u == 0x202f || u == 0x205f || u == 0x3000
}

/// First index at or after `i` that is not White_Space, or the length.
pub open spec fn lead_ws_end(s: Seq<char>, i: int) -> int
    decreases s.len() - i,
{
    if 0 <= i < s.len() && is_white_space(s[i]) {
        lead_ws_end(s, i + 1)
    } else {
        i
    }
}

/// The end of `s[lo..hi]` once trailing White_Space is dropped.
pub open spec fn trail_ws_end(s: Seq<char>, lo: int, hi: int) -> int
    decreases hi - lo,
{
    if lo < hi && is_white_space(s[hi - 1]) {
        trail_ws_end(s, lo, hi - 1)
    } else {
        hi
    }
}

/// `s` with leading and trailing White_Space removed.
pub open spec fn unicode_trim(s: Seq<char>) -> Seq<char> {
    let lo = lead_ws_end(s, 0);
    s.subrange(lo, trail_ws_end(s, lo, s.len() as int))
}

/// Relies on str::trim: leading and trailing characters with the Unicode
/// White_Space property are removed.
#[verifier::external_body]
fn trim(s: &str) -> (r: &str)
    ensures
        r@ == unicode_trim(s@),
{
    s.trim()
}

/// Whitespace between plan sections: space, tab, line feed, carriage return.
pub open spec fn is_gap(c: u8) -> bool {
    c == 32 || c == 9 || c == 10 || c == 13
}

/// First index at or after `i` that is not a gap byte, or the length.
pub open spec fn gap_end(b: Seq<u8>, i: int) -> int
    decreases b.len() - i,
{
    if 0 <= i < b.len() && is_gap(b[i]) {
        gap_end(b, i + 1)
    } else {
        i
    }
}

/// First index at or after `i` that is neither space nor tab, or the length.
pub open spec fn blank_end(b: Seq<u8>, i: int) -> int
    decreases b.len() - i,
{
    if 0 <= i < b.len() && (b[i] == 32 || b[i] == 9) {
        blank_end(b, i + 1)
    } else {
        i
    }
}

/// First index at or after `i` that is neither line feed nor carriage
/// return, or the length.
pub open spec fn newline_end(b: Seq<u8>, i: int) -> int
    decreases b.len() - i,
{
    if 0 <= i < b.len() && (b[i] == 10 || b[i] == 13) {
        newline_end(b, i + 1)
    } else {
        i
    }
}

/// `Day ` starts at `i`.
pub open spec fn is_day_word_at(b: Seq<u8>, i: int) -> bool {
    0 <= i && i + 4 <= b.len() && b[i] == 68 && b[i + 1] == 97 && b[i + 2] == 121 && b[i + 3]
        == 32
}

/// A full day label `Day <digits>:` starts at `i`.
pub open spec fn is_label_at(b: Seq<u8>, i: int) -> bool {
    let d = digits_end(b, i + 4, b.len() as int);
    is_day_word_at(b, i) && d > i + 4 && d < b.len() && b[d] == 58
}

/// The end of the text of a section that starts at `i`: the start of the
/// next day label, or the end of the input.
pub open spec fn tasks_end(b: Seq<u8>, i: int) -> int
    decreases b.len() - i,
{
    if 0 <= i < b.len() && !is_label_at(b, i) {
        tasks_end(b, i + 1)
    } else {
        i
    }
}

/// The sections found from position `pos` on: label bytes and raw task
/// bytes, for each section whose two parts are valid UTF-8.
pub open spec fn days_from(b: Seq<u8>, pos: int) -> Seq<(Seq<u8>, Seq<u8>)>
    decreases b.len() - pos,
    via days_from_decreases
{
    let p = gap_end(b, pos);
    if pos < 0 || p >= b.len() {
        seq![]
    } else if is_label_at(b, p) {
        let d = digits_end(b, p + 4, b.len() as int);
        let start = newline_end(b, blank_end(b, d + 1));
        let end = tasks_end(b, start);
        let label = b.subrange(p, d + 1);
        let tasks = b.subrange(start, end);
        let rest = days_from(b, end);
        if valid_utf8(label) && valid_utf8(tasks) {
            seq![(label, tasks)] + rest
        } else {
            rest
        }
    } else {
        days_from(b, p + 1)
    }
}

proof fn lemma_gap_end_bounds(b: Seq<u8>, i: int)
    requires
        0 <= i <= b.len(),
    ensures
        i <= gap_end(b, i) <= b.len(),
    decreases b.len() - i,
{
    if i < b.len() && is_gap(b[i]) {
        lemma_gap_end_bounds(b, i + 1);
    }
}

proof fn lemma_blank_end_bounds(b: Seq<u8>, i: int)
    requires
        0 <= i <= b.len(),
    ensures
        i <= blank_end(b, i) <= b.len(),
    decreases b.len() - i,
{
    if i < b.len() && (b[i] == 32 || b[i] == 9) {
        lemma_blank_end_bounds(b, i + 1);
    }
}

proof fn lemma_newline_end_bounds(b: Seq<u8>, i: int)
    requires
        0 <= i <= b.len(),
    ensures
        i <= newline_end(b, i) <= b.len(),
    decreases b.len() - i,
{
    if i < b.len() && (b[i] == 10 || b[i] == 13) {
        lemma_newline_end_bounds(b, i + 1);
    }
}

proof fn lemma_tasks_end_bounds(b: Seq<u8>, i: int)
    requires
        0 <= i <= b.len(),
    ensures
        i <= tasks_end(b, i) <= b.len(),
    decreases b.len() - i,
{
    if i < b.len() && !is_label_at(b, i) {
        lemma_tasks_end_bounds(b, i + 1);
    }
}

#[via_fn]
proof fn days_from_decreases(b: Seq<u8>, pos: int) {
    if 0 <= pos <= b.len() {
        lemma_gap_end_bounds(b, pos);
        let p = gap_end(b, pos);
        if p < b.len() && is_day_word_at(b, p) {
            lemma_digits_end_bounds(b, p + 4, b.len() as int);
            let d = digits_end(b, p + 4, b.len() as int);
            if d < b.len() {
                lemma_blank_end_bounds(b, d + 1);
                lemma_newline_end_bounds(b, blank_end(b, d + 1));
                lemma_tasks_end_bounds(b, newline_end(b, blank_end(b, d + 1)));
            }
        }
    }
}

/// The sections of a plan.
pub open spec fn days_of(b: Seq<u8>) -> Seq<(Seq<u8>, Seq<u8>)> {
    days_from(b, 0)
}

/// The entries are the sections of `b`, in order: the label as text and the
/// tasks as text with surrounding White_Space removed.
pub open spec fn is_plan_of(r: Seq<DayEntry>, b: Seq<u8>) -> bool {
    &&& r.len() == days_of(b).len()
    &&& forall|k: int|
        0 <= k < r.len() ==> (#[trigger] r[k]).day@ == decode_utf8(days_of(b)[k].0) && r[k].tasks@
            == unicode_trim(decode_utf8(days_of(b)[k].1))
}

fn is_gap_byte(c: u8) -> (r: bool)
    ensures
        r == is_gap(c),
{
    c == 32 || c == 9 || c == 10 || c == 13
}

/// Where a full day label starts at `i`, the index of its colon.
fn label_at(b: &[u8], i: usize) -> (r: Option<usize>)
    requires
        i <= b@.len(),
    ensures
        r.is_some() == is_label_at(b@, i as int),
        r matches Some(d) ==> d == digits_end(b@, i + 4, b@.len() as int) && i + 4 < d < b@.len(),
{
    let len = b.len();
    if !is_day_word(b, i) {
        return None;
    }
    let d = skip_digits(b, i + 4, len);
    if d > i + 4 && d < len && b[d] == 58 {
        Some(d)
    } else {
        None
    }
}

fn is_day_word(b: &[u8], i: usize) -> (r: bool)
    requires
        i <= b@.len(),
    ensures
        r == is_day_word_at(b@, i as int),
{
    b.len() >= 4 && i <= b.len() - 4 && b[i] == 68 && b[i + 1] == 97 && b[i + 2] == 121 && b[i + 3]
        == 32
}

/// Splits a plan, given as bytes, into its day sections.
pub fn parse_study_plan_bytes(b: &[u8]) -> (r: Vec<DayEntry>)
    ensures
        is_plan_of(r@, b@),
{
    let len = b.len();
    let mut out: Vec<DayEntry> = Vec::new();
    let mut pos: usize = 0;
    while pos < len
        invariant
            len == b@.len(),
            pos <= len,
            out@.len() + days_from(b@, pos as int).len() == days_of(b@).len(),
            forall|k: int|
                0 <= k < out@.len() ==> (#[trigger] out@[k]).day@ == decode_utf8(days_of(b@)[k].0)
                    && out@[k].tasks@ == unicode_trim(decode_utf8(days_of(b@)[k].1)),
            forall|k: int|
                0 <= k < days_from(b@, pos as int).len() ==> #[trigger] days_from(
                    b@,
                    pos as int,
                )[k] == days_of(b@)[out@.len() + k],
        decreases len - pos,
    {
        let ghost here = days_from(b@, pos as int);
        let mut p: usize = pos;
        while p < len && is_gap_byte(b[p])
            invariant
                pos <= p <= len,
                len == b@.len(),
                gap_end(b@, p as int) == gap_end(b@, pos as int),
            decreases len - p,
        {
            p = p + 1;
        }
        if p >= len {
            assert(here =~= seq![]);
            pos = len;
            assert(days_from(b@, pos as int) =~= seq![]);
        } else {
            let lab = label_at(b, p);
            if let Some(d) = lab {
                let mut s: usize = d + 1;
                while s < len && (b[s] == 32 || b[s] == 9)
                    invariant
                        d + 1 <= s <= len,
                        len == b@.len(),
                        blank_end(b@, s as int) == blank_end(b@, d + 1),
                    decreases len - s,
                {
                    s = s + 1;
                }
                let ghost s0 = s;
                while s < len && (b[s] == 10 || b[s] == 13)
                    invariant
                        s0 <= s <= len,
                        len == b@.len(),
                        newline_end(b@, s as int) == newline_end(b@, s0 as int),
                    decreases len - s,
                {
                    s = s + 1;
                }
                let mut e: usize = s;
                while e < len && label_at(b, e).is_none()
                    invariant
                        s <= e <= len,
                        len == b@.len(),
                        tasks_end(b@, e as int) == tasks_end(b@, s as int),
                    decreases len - e,
                {
                    e = e + 1;
                }
                let ghost rest = days_from(b@, e as int);
                let label = decode_window(b, p, d + 1);
                let tasks = decode_window(b, s, e);
                match (label, tasks) {
                    (Some(l), Some(t)) => {
                        let entry = DayEntry { day: l.to_owned(), tasks: trim(t).to_owned() };
                        assert(here == seq![(b@.subrange(p as int, d + 1), b@.subrange(s as int, e as int))] + rest);
                        assert(here[0] == days_of(b@)[out@.len() as int]);
                        out.push(entry);
                        assert forall|k: int| 0 <= k < rest.len() implies #[trigger] rest[k]
                            == days_of(b@)[out@.len() + k] by {
                            assert(here[k + 1] == rest[k]);
                        }
                    },
                    _ => {
                        assert(here == rest);
                    },
                }
                pos = e;
            } else {
                assert(here == days_from(b@, p + 1));
                pos = p + 1;
            }
        }
    }
    assert(days_from(b@, pos as int) =~= seq![]);
    out
}

/// Splits a plan into its `Day N:` sections, in order of appearance.
pub fn parse_study_plan(plan_text: &str) -> (r: Vec<DayEntry>)
    ensures
        is_plan_of(r@, plan_text.spec_bytes()),
{
    parse_study_plan_bytes(plan_text.as_bytes())
}

} // verus!
