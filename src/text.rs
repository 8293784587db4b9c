//! Byte classes, skipping and trimming over a window `[lo, hi)` of a byte
//! sequence, and the checked decode of a window into text.

use vstd::prelude::*;
use vstd::utf8::*;
use vstd::slice::slice_subrange;
use vstd::string::StringSliceAdditionalSpecFns;

verus! {

/// ASCII whitespace: space, tab, line feed, form feed, carriage return.
pub open spec fn is_ws(c: u8) -> bool {
    c == 32 || c == 9 || c == 10 || c == 12 || c == 13
}

/// An ASCII decimal digit.
pub open spec fn is_digit(c: u8) -> bool {
    48 <= c <= 57
}

/// Punctuation stripped from the end of an answer: `. , ! ? ; :`.
pub open spec fn is_answer_punct(c: u8) -> bool {
    c == 46 || c == 44 || c == 33 || c == 63 || c == 59 || c == 58
}

/// First index at or after `i` (and below `hi`) that is not whitespace, or `hi`.
pub open spec fn ws_end(b: Seq<u8>, i: int, hi: int) -> int
    decreases hi - i,
{
    if i < hi && is_ws(b[i]) {
        ws_end(b, i + 1, hi)
    } else {
        i
    }
}

/// First index at or after `i` (and below `hi`) that is not a digit, or `hi`.
pub open spec fn digits_end(b: Seq<u8>, i: int, hi: int) -> int
    decreases hi - i,
{
    if i < hi && is_digit(b[i]) {
        digits_end(b, i + 1, hi)
    } else {
        i
    }
}

/// The end of `[lo, hi)` once trailing whitespace is dropped (never below `lo`).
pub open spec fn ws_trim_hi(b: Seq<u8>, lo: int, hi: int) -> int
    decreases hi - lo,
{
    if lo < hi && is_ws(b[hi - 1]) {
        ws_trim_hi(b, lo, hi - 1)
    } else {
        hi
    }
}

/// The end of `[lo, hi)` once trailing whitespace and answer punctuation are dropped.
pub open spec fn answer_trim_hi(b: Seq<u8>, lo: int, hi: int) -> int
    decreases hi - lo,
{
    if lo < hi && (is_ws(b[hi - 1]) || is_answer_punct(b[hi - 1])) {
        answer_trim_hi(b, lo, hi - 1)
    } else {
        hi
    }
}

/// The window `[lo, hi)` with surrounding whitespace removed.
pub open spec fn trimmed(b: Seq<u8>, lo: int, hi: int) -> Seq<u8> {
    let s = ws_end(b, lo, hi);
    b.subrange(s, ws_trim_hi(b, s, hi))
}

/// The window `[lo, hi)` with leading whitespace and trailing whitespace or
/// punctuation removed.
pub open spec fn answer_trimmed(b: Seq<u8>, lo: int, hi: int) -> Seq<u8> {
    let s = ws_end(b, lo, hi);
    b.subrange(s, answer_trim_hi(b, s, hi))
}

pub proof fn lemma_ws_end_bounds(b: Seq<u8>, i: int, hi: int)
    requires
        i <= hi,
    ensures
        i <= ws_end(b, i, hi) <= hi,
        0 <= i && ws_end(b, i, hi) < hi ==> !is_ws(b[ws_end(b, i, hi)]),
    decreases hi - i,
{
    if i < hi && is_ws(b[i]) {
        lemma_ws_end_bounds(b, i + 1, hi);
    }
}

pub proof fn lemma_digits_end_bounds(b: Seq<u8>, i: int, hi: int)
    requires
        i <= hi,
    ensures
        i <= digits_end(b, i, hi) <= hi,
    decreases hi - i,
{
    if i < hi && is_digit(b[i]) {
        lemma_digits_end_bounds(b, i + 1, hi);
    }
}

pub proof fn lemma_ws_trim_hi_bounds(b: Seq<u8>, lo: int, hi: int)
    requires
        lo <= hi,
    ensures
        lo <= ws_trim_hi(b, lo, hi) <= hi,
        lo < ws_trim_hi(b, lo, hi) ==> !is_ws(b[ws_trim_hi(b, lo, hi) - 1]),
    decreases hi - lo,
{
    if lo < hi && is_ws(b[hi - 1]) {
        lemma_ws_trim_hi_bounds(b, lo, hi - 1);
    }
}

pub proof fn lemma_answer_trim_hi_bounds(b: Seq<u8>, lo: int, hi: int)
    requires
        lo <= hi,
    ensures
        lo <= answer_trim_hi(b, lo, hi) <= hi,
        lo < answer_trim_hi(b, lo, hi) ==> !is_ws(b[answer_trim_hi(b, lo, hi) - 1])
            && !is_answer_punct(b[answer_trim_hi(b, lo, hi) - 1]),
    decreases hi - lo,
{
    if lo < hi && (is_ws(b[hi - 1]) || is_answer_punct(b[hi - 1])) {
        lemma_answer_trim_hi_bounds(b, lo, hi - 1);
    }
}

/// Trimming `t` of whitespace leaves it as it is.
pub open spec fn is_trimmed(t: Seq<u8>) -> bool {
    ws_end(t, 0, t.len() as int) == 0 && ws_trim_hi(t, 0, t.len() as int) == t.len()
}

/// Trimming `t` as an answer leaves it as it is.
pub open spec fn is_answer_trimmed(t: Seq<u8>) -> bool {
    ws_end(t, 0, t.len() as int) == 0 && answer_trim_hi(t, 0, t.len() as int) == t.len()
}

/// A window trimmed of whitespace has no whitespace left at either end.
pub proof fn lemma_trimmed_is_trimmed(b: Seq<u8>, lo: int, hi: int)
    requires
        0 <= lo <= hi <= b.len(),
    ensures
        is_trimmed(trimmed(b, lo, hi)),
{
    lemma_ws_end_bounds(b, lo, hi);
    let s = ws_end(b, lo, hi);
    lemma_ws_trim_hi_bounds(b, s, hi);
    let t = trimmed(b, lo, hi);
    if t.len() > 0 {
        assert(t[0] == b[s]);
        assert(t[t.len() - 1] == b[ws_trim_hi(b, s, hi) - 1]);
        assert(ws_end(t, 0, t.len() as int) == 0);
        assert(ws_trim_hi(t, 0, t.len() as int) == t.len());
    }
}

/// A window trimmed as an answer has no whitespace at its start and no
/// whitespace or punctuation at its end.
pub proof fn lemma_answer_trimmed_is_trimmed(b: Seq<u8>, lo: int, hi: int)
    requires
        0 <= lo <= hi <= b.len(),
    ensures
        is_answer_trimmed(answer_trimmed(b, lo, hi)),
{
    lemma_ws_end_bounds(b, lo, hi);
    let s = ws_end(b, lo, hi);
    lemma_answer_trim_hi_bounds(b, s, hi);
    let t = answer_trimmed(b, lo, hi);
    if t.len() > 0 {
        assert(t[0] == b[s]);
        assert(t[t.len() - 1] == b[answer_trim_hi(b, s, hi) - 1]);
        assert(ws_end(t, 0, t.len() as int) == 0);
        assert(answer_trim_hi(t, 0, t.len() as int) == t.len());
    }
}

pub fn is_ascii_ws(c: u8) -> (r: bool)
    ensures
        r == is_ws(c),
{
    c == 32 || c == 9 || c == 10 || c == 12 || c == 13
}

pub fn is_ascii_digit(c: u8) -> (r: bool)
    ensures
        r == is_digit(c),
{
    48 <= c && c <= 57
}

/// Index of the first non-whitespace byte of `[i, hi)`, or `hi`.
pub fn skip_ws(b: &[u8], i: usize, hi: usize) -> (r: usize)
    requires
        i <= hi <= b@.len(),
    ensures
        r == ws_end(b@, i as int, hi as int),
        i <= r <= hi,
{
    let mut p: usize = i;
    while p < hi && is_ascii_ws(b[p])
        invariant
            i <= p <= hi <= b@.len(),
            ws_end(b@, p as int, hi as int) == ws_end(b@, i as int, hi as int),
        decreases hi - p,
    {
        p = p + 1;
    }
    p
}

/// Index of the first non-digit byte of `[i, hi)`, or `hi`.
pub fn skip_digits(b: &[u8], i: usize, hi: usize) -> (r: usize)
    requires
        i <= hi <= b@.len(),
    ensures
        r == digits_end(b@, i as int, hi as int),
        i <= r <= hi,
{
    let mut p: usize = i;
    while p < hi && is_ascii_digit(b[p])
        invariant
            i <= p <= hi <= b@.len(),
            digits_end(b@, p as int, hi as int) == digits_end(b@, i as int, hi as int),
        decreases hi - p,
    {
        p = p + 1;
    }
    p
}

/// The bounds of `[lo, hi)` with surrounding whitespace removed.
pub fn trim_bytes(b: &[u8], lo: usize, hi: usize) -> (r: (usize, usize))
    requires
        lo <= hi <= b@.len(),
    ensures
        r.0 == ws_end(b@, lo as int, hi as int),
        r.1 == ws_trim_hi(b@, r.0 as int, hi as int),
        lo <= r.0 <= r.1 <= hi,
{
    let start = skip_ws(b, lo, hi);
    let mut end: usize = hi;
    while end > start && is_ascii_ws(b[end - 1])
        invariant
            lo <= start <= end <= hi <= b@.len(),
            ws_trim_hi(b@, start as int, end as int) == ws_trim_hi(b@, start as int, hi as int),
        decreases end,
    {
        end = end - 1;
    }
    (start, end)
}

pub fn is_answer_trailer(c: u8) -> (r: bool)
    ensures
        r == (is_ws(c) || is_answer_punct(c)),
{
    is_ascii_ws(c) || c == 46 || c == 44 || c == 33 || c == 63 || c == 59 || c == 58
}

/// The bounds of `[lo, hi)` with leading whitespace and trailing whitespace or
/// answer punctuation removed.
pub fn trim_answer_bytes(b: &[u8], lo: usize, hi: usize) -> (r: (usize, usize))
    requires
        lo <= hi <= b@.len(),
    ensures
        r.0 == ws_end(b@, lo as int, hi as int),
        r.1 == answer_trim_hi(b@, r.0 as int, hi as int),
        lo <= r.0 <= r.1 <= hi,
{
    let start = skip_ws(b, lo, hi);
    let mut end: usize = hi;
    while end > start && is_answer_trailer(b[end - 1])
        invariant
            lo <= start <= end <= hi <= b@.len(),
            answer_trim_hi(b@, start as int, end as int) == answer_trim_hi(
                b@,
                start as int,
                hi as int,
            ),
        decreases end,
    {
        end = end - 1;
    }
    (start, end)
}

/// Relies on std::str::from_utf8: it succeeds exactly on valid UTF-8, and the
/// text it returns is made of the given bytes.
#[verifier::external_body]
fn from_utf8(v: &[u8]) -> (r: Option<&str>)
    ensures
        r.is_some() == valid_utf8(v@),
        r matches Some(s) ==> s.spec_bytes() == v@,
{
    std::str::from_utf8(v).ok()
}

/// The bytes of `[lo, hi)` as text, or `None` where they are not valid UTF-8.
pub fn decode_window(b: &[u8], lo: usize, hi: usize) -> (r: Option<&str>)
    requires
        lo <= hi <= b@.len(),
    ensures
        r.is_some() == valid_utf8(b@.subrange(lo as int, hi as int)),
        r matches Some(s) ==> s@ == decode_utf8(b@.subrange(lo as int, hi as int)),
{
    let w = slice_subrange(b, lo, hi);
    let r = from_utf8(w);
    proof {
        if let Some(s) = r {
            encode_utf8_decode_utf8(s@);
        }
    }
    r
}

/// The window `[lo, hi)` trimmed of whitespace, as text; `None` where it is not
/// valid UTF-8.
pub fn safe_trim_to_str(b: &[u8], lo: usize, hi: usize) -> (r: Option<&str>)
    requires
        lo <= hi <= b@.len(),
    ensures
        r.is_some() == valid_utf8(trimmed(b@, lo as int, hi as int)),
        r matches Some(s) ==> s@ == decode_utf8(trimmed(b@, lo as int, hi as int)),
{
    let (s, e) = trim_bytes(b, lo, hi);
    decode_window(b, s, e)
}

/// The window `[lo, hi)` trimmed as an answer, as text; `None` where nothing is
/// left or it is not valid UTF-8.
pub fn safe_trim_answer_to_str(b: &[u8], lo: usize, hi: usize) -> (r: Option<&str>)
    requires
        lo <= hi <= b@.len(),
    ensures
        r.is_some() == (answer_trimmed(b@, lo as int, hi as int).len() >= 1 && valid_utf8(
            answer_trimmed(b@, lo as int, hi as int),
        )),
        r matches Some(s) ==> s@ == decode_utf8(answer_trimmed(b@, lo as int, hi as int)),
{
    let (s, e) = trim_answer_bytes(b, lo, hi);
    if e - s >= 1 {
        decode_window(b, s, e)
    } else {
        None
    }
}

} // verus!
