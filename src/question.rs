//! The block parser and validator: locates the four option labels of a
//! block, slices out the question text and the answers, and decides whether
//! the result is a question worth emitting.

use vstd::prelude::*;
use vstd::utf8::*;
use vstd::string::StrSliceExecFns;
use crate::text::{
    ws_end, digits_end, trimmed, answer_trimmed, skip_ws, skip_digits, safe_trim_to_str,
    safe_trim_answer_to_str, lemma_ws_end_bounds, lemma_digits_end_bounds, is_trimmed,
    is_answer_trimmed, lemma_trimmed_is_trimmed, lemma_answer_trimmed_is_trimmed,
};
use crate::block::QuestionBlock;

verus! {

/// A question in terms of characters: its text, its four answers in the
/// order `a`, `b`, `c`, `d`, and the letter of the correct one.
pub struct QuestionModel {
    pub question: Seq<char>,
    pub answers: Seq<Seq<char>>,
    pub correct: char,
}

/// A parsed block: views into the input for the question text and the four
/// answers, and the correctness letter.
pub struct ParsedQuestion<'a> {
    pub text: &'a str,
    pub answers: [&'a str; 4],
    pub correct: char,
}

impl<'a> ParsedQuestion<'a> {
    pub open spec fn model(&self) -> QuestionModel {
        QuestionModel {
            question: self.text@,
            answers: seq![self.answers@[0]@, self.answers@[1]@, self.answers@[2]@, self.answers@[3]@],
            correct: self.correct,
        }
    }
}

/// The byte of the closing parenthesis of an option label.
pub open spec fn close_paren() -> u8 {
    41u8
}

/// The byte of option letter `t` (0 for `a` up to 3 for `d`).
pub open spec fn option_letter(t: int) -> u8 {
    (97 + t) as u8
}

/// The end of the question number label in `[s, e)`: after leading
/// whitespace, a run of digits, and one `.` where it directly follows at
/// least one digit.
pub open spec fn number_end(b: Seq<u8>, s: int, e: int) -> int {
    let w = ws_end(b, s, e);
    let d = digits_end(b, w, e);
    if w < d && d < e && b[d] == 46u8 {
        d + 1
    } else {
        d
    }
}

/// Where the question proper starts in `[s, e)`: after the number label and
/// the whitespace that follows it.
pub open spec fn prefix_end(b: Seq<u8>, s: int, e: int) -> int {
    ws_end(b, number_end(b, s, e), e)
}

proof fn lemma_prefix_end_bounds(b: Seq<u8>, s: int, e: int)
    requires
        s <= e,
    ensures
        s <= number_end(b, s, e) <= prefix_end(b, s, e) <= e,
{
    lemma_ws_end_bounds(b, s, e);
    lemma_digits_end_bounds(b, ws_end(b, s, e), e);
    lemma_ws_end_bounds(b, number_end(b, s, e), e);
}

/// The first position `i` in `[lo, hi - 1)` with `b[i] == x` and `b[i + 1]`
/// a closing parenthesis, or `hi` where there is none.
pub open spec fn first_label(b: Seq<u8>, lo: int, hi: int, x: u8) -> int
    decreases hi - lo,
{
    if lo + 1 >= hi {
        hi
    } else if b[lo] == x && b[lo + 1] == close_paren() {
        lo
    } else {
        first_label(b, lo + 1, hi, x)
    }
}

/// The text of an answer spanning `[lo, hi)`: `None` where the span is
/// inverted, nothing is left after trimming, or the rest is not valid UTF-8.
pub open spec fn answer_text(b: Seq<u8>, lo: int, hi: int) -> Option<Seq<char>> {
    let t = answer_trimmed(b, lo, hi);
    if lo <= hi && t.len() >= 1 && valid_utf8(t) {
        Some(decode_utf8(t))
    } else {
        None
    }
}

/// What parsing the raw range `[s, e)` of a block gives.
pub open spec fn parse_range(b: Seq<u8>, s: int, e: int, correct: char) -> Option<QuestionModel> {
    let p = prefix_end(b, s, e);
    let la = first_label(b, p, e, 97u8);
    let lb = first_label(b, p, e, 98u8);
    let lc = first_label(b, p, e, 99u8);
    let ld = first_label(b, p, e, 100u8);
    let q = trimmed(b, p, la);
    let aa = answer_text(b, la + 2, lb);
    let ab = answer_text(b, lb + 2, lc);
    let ac = answer_text(b, lc + 2, ld);
    let ad = answer_text(b, ld + 2, e);
    if p >= e || la >= e || lb >= e || lc >= e || ld >= e {
        None
    } else if valid_utf8(q) && aa.is_some() && ab.is_some() && ac.is_some() && ad.is_some() {
        Some(
            QuestionModel {
                question: decode_utf8(q),
                answers: seq![aa.unwrap(), ab.unwrap(), ac.unwrap(), ad.unwrap()],
                correct,
            },
        )
    } else {
        None
    }
}

/// What parsing a block gives.
pub open spec fn parse_block_spec(b: Seq<u8>, blk: QuestionBlock) -> Option<QuestionModel> {
    parse_range(b, blk.start as int, blk.end as int, blk.correct)
}

/// A question that may be emitted: at least five characters of text, four
/// non-empty answers, and a correctness letter in `a`-`d`.
pub open spec fn is_valid_model(q: QuestionModel) -> bool {
    &&& q.question.len() >= 5
    &&& q.answers.len() == 4
    &&& forall|t: int| 0 <= t < 4 ==> #[trigger] q.answers[t].len() >= 1
    &&& (q.correct == 'a' || q.correct == 'b' || q.correct == 'c' || q.correct == 'd')
}

pub open spec fn parsed_model(r: Option<ParsedQuestion>) -> Option<QuestionModel> {
    match r {
        Some(q) => Some(q.model()),
        None => None,
    }
}

proof fn lemma_first_label_bounds(b: Seq<u8>, lo: int, hi: int, x: u8)
    requires
        lo <= hi,
    ensures
        lo <= first_label(b, lo, hi, x) <= hi,
        first_label(b, lo, hi, x) < hi ==> first_label(b, lo, hi, x) + 2 <= hi,
    decreases hi - lo,
{
    if lo + 1 < hi && !(b[lo] == x && b[lo + 1] == close_paren()) {
        lemma_first_label_bounds(b, lo + 1, hi, x);
    }
}

/// The text and the answers of a parsed block are already trimmed: trimming
/// them again changes nothing.
pub proof fn lemma_parse_range_trimmed(b: Seq<u8>, s: int, e: int, correct: char)
    requires
        0 <= s <= e <= b.len(),
        parse_range(b, s, e, correct) is Some,
    ensures
        is_trimmed(encode_utf8(parse_range(b, s, e, correct)->0.question)),
        forall|t: int|
            0 <= t < 4 ==> is_answer_trimmed(
                encode_utf8(#[trigger] parse_range(b, s, e, correct)->0.answers[t]),
            ),
{
    lemma_prefix_end_bounds(b, s, e);
    let p = prefix_end(b, s, e);
    let la = first_label(b, p, e, 97u8);
    let lb = first_label(b, p, e, 98u8);
    let lc = first_label(b, p, e, 99u8);
    let ld = first_label(b, p, e, 100u8);
    lemma_first_label_bounds(b, p, e, 97u8);
    lemma_first_label_bounds(b, p, e, 98u8);
    lemma_first_label_bounds(b, p, e, 99u8);
    lemma_first_label_bounds(b, p, e, 100u8);
    let q = parse_range(b, s, e, correct)->0;
    lemma_trimmed_is_trimmed(b, p, la);
    decode_utf8_encode_utf8(trimmed(b, p, la));
    lemma_answer_trimmed_is_trimmed(b, la + 2, lb);
    decode_utf8_encode_utf8(answer_trimmed(b, la + 2, lb));
    lemma_answer_trimmed_is_trimmed(b, lb + 2, lc);
    decode_utf8_encode_utf8(answer_trimmed(b, lb + 2, lc));
    lemma_answer_trimmed_is_trimmed(b, lc + 2, ld);
    decode_utf8_encode_utf8(answer_trimmed(b, lc + 2, ld));
    lemma_answer_trimmed_is_trimmed(b, ld + 2, e);
    decode_utf8_encode_utf8(answer_trimmed(b, ld + 2, e));
    assert forall|t: int| 0 <= t < 4 implies is_answer_trimmed(
        encode_utf8(#[trigger] q.answers[t]),
    ) by {
        if t == 0 {
            assert(q.answers[t] == decode_utf8(answer_trimmed(b, la + 2, lb)));
        } else if t == 1 {
            assert(q.answers[t] == decode_utf8(answer_trimmed(b, lb + 2, lc)));
        } else if t == 2 {
            assert(q.answers[t] == decode_utf8(answer_trimmed(b, lc + 2, ld)));
        } else {
            assert(q.answers[t] == decode_utf8(answer_trimmed(b, ld + 2, e)));
        }
    }
}

/// Skips leading whitespace, a question number (with one `.` after its
/// digits) and whitespace in `[s, e)`;
/// `None` where that consumes the whole range.
pub fn skip_whitespace_and_number(b: &[u8], s: usize, e: usize) -> (r: Option<usize>)
    requires
        s <= e <= b@.len(),
    ensures
        r.is_some() == (prefix_end(b@, s as int, e as int) < e),
        r matches Some(p) ==> p == prefix_end(b@, s as int, e as int),
{
    let p0 = skip_ws(b, s, e);
    let p1 = skip_digits(b, p0, e);
    let n = if p0 < p1 && p1 < e && b[p1] == 46 {
        p1 + 1
    } else {
        p1
    };
    let p2 = skip_ws(b, n, e);
    if p2 < e {
        Some(p2)
    } else {
        None
    }
}

/// Finds the first label of each option `a)` .. `d)` in `[lo, hi)`; `None`
/// where one of them is missing.
pub fn find_option_positions(b: &[u8], lo: usize, hi: usize) -> (r: Option<Vec<usize>>)
    requires
        lo <= hi <= b@.len(),
    ensures
        r.is_some() == (forall|t: int|
            0 <= t < 4 ==> #[trigger] first_label(b@, lo as int, hi as int, option_letter(t))
                < hi),
        r matches Some(pos) ==> pos@.len() == 4 && forall|t: int|
            0 <= t < 4 ==> pos@[t] == #[trigger] first_label(
                b@,
                lo as int,
                hi as int,
                option_letter(t),
            ),
{
    let mut pos: Vec<usize> = vec![0, 0, 0, 0];
    let mut seen: Vec<bool> = vec![false, false, false, false];
    let mut i: usize = lo;
    while hi > 0 && i < hi - 1 && !(seen[0] && seen[1] && seen[2] && seen[3])
        invariant
            lo <= i <= hi <= b@.len(),
            pos@.len() == 4,
            seen@.len() == 4,
            forall|t: int|
                0 <= t < 4 && #[trigger] seen@[t] ==> pos@[t] == first_label(
                    b@,
                    lo as int,
                    hi as int,
                    option_letter(t),
                ) && pos@[t] < hi,
            forall|t: int|
                0 <= t < 4 && !#[trigger] seen@[t] ==> first_label(
                    b@,
                    i as int,
                    hi as int,
                    option_letter(t),
                ) == first_label(b@, lo as int, hi as int, option_letter(t)),
        decreases hi - i,
    {
        let c = b[i];
        if 97 <= c && c <= 100 && b[i + 1] == 41 {
            let idx = (c - 97) as usize;
            if !seen[idx] {
                pos.set(idx, i);
                seen.set(idx, true);
            }
            proof {
                assert forall|t: int| 0 <= t < 4 && !seen@[t] implies first_label(
                    b@,
                    i + 2,
                    hi as int,
                    option_letter(t),
                ) == first_label(b@, lo as int, hi as int, option_letter(t)) by {
                    assert(option_letter(t) != c);
                    assert(first_label(b@, i as int, hi as int, option_letter(t)) == first_label(
                        b@,
                        i + 1,
                        hi as int,
                        option_letter(t),
                    ));
                    assert(first_label(b@, i + 1, hi as int, option_letter(t)) == first_label(
                        b@,
                        i + 2,
                        hi as int,
                        option_letter(t),
                    ));
                }
            }
            i = i + 2;
        } else {
            proof {
                assert forall|t: int| 0 <= t < 4 && !seen@[t] implies first_label(
                    b@,
                    i + 1,
                    hi as int,
                    option_letter(t),
                ) == first_label(b@, lo as int, hi as int, option_letter(t)) by {
                    assert(first_label(b@, i as int, hi as int, option_letter(t)) == first_label(
                        b@,
                        i + 1,
                        hi as int,
                        option_letter(t),
                    ));
                }
            }
            i = i + 1;
        }
    }
    if seen[0] && seen[1] && seen[2] && seen[3] {
        Some(pos)
    } else {
        proof {
            let t = choose|t: int| 0 <= t < 4 && !seen@[t];
            assert(first_label(b@, i as int, hi as int, option_letter(t)) == hi);
        }
        None
    }
}

/// Parses one block into its question text and four answers; `None` where the
/// block has no question after its number, lacks an option label, has an
/// answer span that ends before it starts, an empty answer, or text that is
/// not valid UTF-8.
pub fn parse_block<'a>(b: &'a [u8], blk: &QuestionBlock) -> (r: Option<ParsedQuestion<'a>>)
    requires
        blk.start <= blk.end <= b@.len(),
    ensures
        parsed_model(r) == parse_block_spec(b@, *blk),
{
    let s = blk.start;
    let e = blk.end;
    proof {
        lemma_prefix_end_bounds(b@, s as int, e as int);
    }
    let p = match skip_whitespace_and_number(b, s, e) {
        Some(p) => p,
        None => {
            return None;
        },
    };
    let pos = match find_option_positions(b, p, e) {
        Some(pos) => pos,
        None => {
            assert(!(forall|t: int|
                0 <= t < 4 ==> #[trigger] first_label(b@, p as int, e as int, option_letter(t))
                    < e));
            let ghost t = choose|t: int|
                0 <= t < 4 && !(#[trigger] first_label(b@, p as int, e as int, option_letter(t))
                    < e);
            assert(t == 0 || t == 1 || t == 2 || t == 3);
            assert(option_letter(0) == 97u8);
            assert(option_letter(1) == 98u8);
            assert(option_letter(2) == 99u8);
            assert(option_letter(3) == 100u8);
            return None;
        },
    };
    let la = pos[0];
    let lb = pos[1];
    let lc = pos[2];
    let ld = pos[3];
    proof {
        assert(la == first_label(b@, p as int, e as int, option_letter(0)));
        assert(lb == first_label(b@, p as int, e as int, option_letter(1)));
        assert(lc == first_label(b@, p as int, e as int, option_letter(2)));
        assert(ld == first_label(b@, p as int, e as int, option_letter(3)));
        assert(option_letter(0) == 97u8);
        assert(option_letter(1) == 98u8);
        assert(option_letter(2) == 99u8);
        assert(option_letter(3) == 100u8);
        lemma_first_label_bounds(b@, p as int, e as int, 97u8);
        lemma_first_label_bounds(b@, p as int, e as int, 98u8);
        lemma_first_label_bounds(b@, p as int, e as int, 99u8);
        lemma_first_label_bounds(b@, p as int, e as int, 100u8);
    }
    let text = match safe_trim_to_str(b, p, la) {
        Some(t) => t,
        None => {
            return None;
        },
    };
    if lb < la + 2 || lc < lb + 2 || ld < lc + 2 {
        return None;
    }
    let aa = match safe_trim_answer_to_str(b, la + 2, lb) {
        Some(t) => t,
        None => {
            return None;
        },
    };
    let ab = match safe_trim_answer_to_str(b, lb + 2, lc) {
        Some(t) => t,
        None => {
            return None;
        },
    };
    let ac = match safe_trim_answer_to_str(b, lc + 2, ld) {
        Some(t) => t,
        None => {
            return None;
        },
    };
    let ad = match safe_trim_answer_to_str(b, ld + 2, e) {
        Some(t) => t,
        None => {
            return None;
        },
    };
    let r = ParsedQuestion { text, answers: [aa, ab, ac, ad], correct: blk.correct };
    assert(r.model().answers =~= parse_block_spec(b@, *blk).unwrap().answers);
    Some(r)
}

/// Whether a parsed question may be emitted: at least five characters of
/// text, no empty answer, and a correctness letter in `a`-`d`.
pub fn is_valid_question(q: &ParsedQuestion) -> (r: bool)
    ensures
        r == is_valid_model(q.model()),
{
    if q.text.unicode_len() < 5 {
        return false;
    }
    let mut t: usize = 0;
    while t < 4
        invariant
            t <= 4,
            forall|k: int| 0 <= k < t ==> #[trigger] q.model().answers[k].len() >= 1,
        decreases 4 - t,
    {
        if q.answers[t].is_empty() {
            assert(q.model().answers[t as int].len() == 0);
            return false;
        }
        t = t + 1;
    }
    q.correct == 'a' || q.correct == 'b' || q.correct == 'c' || q.correct == 'd'
}

} // verus!
