//! The question block extractor: one forward scan that cuts the input into
//! the runs of text that precede each `|CORRECT:<letter>|` marker.

use vstd::prelude::*;
use crate::text::{is_ws, ws_end, lemma_ws_end_bounds, skip_ws};

verus! {

/// One question's raw text `[start, end)` (its marker excluded) and the
/// normalized letter of its correct option.
pub struct QuestionBlock {
    pub start: usize,
    pub end: usize,
    pub correct: char,
}

/// Length of the marker literal `|CORRECT:`.
pub const MARKER_LEN: usize = 9;

/// Fewest bytes a block must span to be kept.
pub const MIN_BLOCK_LEN: usize = 10;

/// The marker literal `|CORRECT:` as bytes.
pub open spec fn marker() -> Seq<u8> {
    seq![124u8, 67u8, 79u8, 82u8, 82u8, 69u8, 67u8, 84u8, 58u8]
}

/// The marker literal starts at `i`.
pub open spec fn is_marker_at(b: Seq<u8>, i: int) -> bool {
    0 <= i && i + 9 <= b.len() && b.subrange(i, i + 9) == marker()
}

/// The correctness letter for a raw byte: `a`-`d` in either case give that
/// letter in lower case; anything else gives `a`.
pub open spec fn normalize_correct(c: u8) -> char {
    if c == 98 || c == 66 {
        'b'
    } else if c == 99 || c == 67 {
        'c'
    } else if c == 100 || c == 68 {
        'd'
    } else {
        'a'
    }
}

/// First index at or after `i` that holds `|`, or the length of `b`.
pub open spec fn pipe_end(b: Seq<u8>, i: int) -> int
    decreases b.len() - i,
{
    if 0 <= i < b.len() && b[i] != 124u8 {
        pipe_end(b, i + 1)
    } else {
        i
    }
}

pub proof fn lemma_pipe_end_bounds(b: Seq<u8>, i: int)
    requires
        0 <= i <= b.len(),
    ensures
        i <= pipe_end(b, i) <= b.len(),
        pipe_end(b, i) < b.len() ==> b[pipe_end(b, i)] == 124u8,
    decreases b.len() - i,
{
    if i < b.len() && b[i] != 124u8 {
        lemma_pipe_end_bounds(b, i + 1);
    }
}

/// The blocks found by a scan at position `i`, where the current block
/// started at `start`.
pub open spec fn blocks_from(b: Seq<u8>, start: int, i: int) -> Seq<QuestionBlock>
    decreases b.len() - i,
    via blocks_from_decreases
{
    if i < 0 || i + 9 >= b.len() {
        seq![]
    } else if is_marker_at(b, i) {
        let j = ws_end(b, i + 9, b.len() as int);
        if j >= b.len() {
            seq![]
        } else {
            let k = pipe_end(b, j);
            if k >= b.len() {
                seq![]
            } else {
                let rest = blocks_from(b, k + 1, k + 1);
                if i - start >= 10 {
                    seq![QuestionBlock { start: start as usize, end: i as usize, correct: normalize_correct(b[j]) }] + rest
                } else {
                    rest
                }
            }
        }
    } else {
        blocks_from(b, start, i + 1)
    }
}

#[via_fn]
proof fn blocks_from_decreases(b: Seq<u8>, start: int, i: int) {
    if !(i < 0 || i + 9 >= b.len()) && is_marker_at(b, i) {
        lemma_ws_end_bounds(b, i + 9, b.len() as int);
        let j = ws_end(b, i + 9, b.len() as int);
        if j < b.len() {
            lemma_pipe_end_bounds(b, j);
        }
    }
}

/// All question blocks of the input, in order of appearance.
pub open spec fn blocks_of(b: Seq<u8>) -> Seq<QuestionBlock> {
    blocks_from(b, 0, 0)
}

/// Whether the marker literal starts at `i`.
fn marker_at(b: &[u8], i: usize) -> (r: bool)
    requires
        i + MARKER_LEN <= b@.len(),
    ensures
        r == is_marker_at(b@, i as int),
{
    let n = b.len();
    let m: [u8; 9] = [124u8, 67u8, 79u8, 82u8, 82u8, 69u8, 67u8, 84u8, 58u8];
    assert(m@ == marker());
    // cheap reject on the first and last byte before the full comparison
    if b[i] != m[0] || b[i + 8] != m[8] {
        assert(b@.subrange(i as int, i + 9)[0] != marker()[0] || b@.subrange(i as int, i + 9)[8] != marker()[8]);
        return false;
    }
    let mut k: usize = 0;
    while k < MARKER_LEN
        invariant
            k <= MARKER_LEN,
            i + MARKER_LEN <= b@.len(),
            n == b@.len(),
            m@ == marker(),
            forall|t: int| 0 <= t < k ==> b@[i + t] == m@[t],
        decreases MARKER_LEN - k,
    {
        if b[i + k] != m[k] {
            assert(b@.subrange(i as int, i + 9)[k as int] != marker()[k as int]);
            return false;
        }
        k = k + 1;
    }
    assert(b@.subrange(i as int, i + 9) =~= marker());
    true
}

/// Maps the raw byte read after a marker to a letter in `a`-`d`, falling back
/// to `a`.
pub fn normalize_answer_char(c: u8) -> (r: char)
    ensures
        r == normalize_correct(c),
        r == 'a' || r == 'b' || r == 'c' || r == 'd',
{
    if c == 98 || c == 66 {
        'b'
    } else if c == 99 || c == 67 {
        'c'
    } else if c == 100 || c == 68 {
        'd'
    } else {
        'a'
    }
}

/// First index at or after `i` that holds `|`, or the length of `b`.
fn find_pipe(b: &[u8], i: usize) -> (r: usize)
    requires
        i <= b@.len(),
    ensures
        r == pipe_end(b@, i as int),
{
    let mut p: usize = i;
    while p < b.len() && b[p] != 124u8
        invariant
            i <= p <= b@.len(),
            pipe_end(b@, p as int) == pipe_end(b@, i as int),
        decreases b@.len() - p,
    {
        p = p + 1;
    }
    p
}

/// Scans the input once and returns every question block, in order of
/// appearance.
pub fn extract_blocks(b: &[u8]) -> (r: Vec<QuestionBlock>)
    ensures
        r@ == blocks_of(b@),
{
    let len = b.len();
    let mut blocks: Vec<QuestionBlock> = Vec::new();
    let mut start: usize = 0;
    let mut i: usize = 0;
    while len > MARKER_LEN && i < len - MARKER_LEN
        invariant
            len == b@.len(),
            start <= i <= len,
            blocks@ + blocks_from(b@, start as int, i as int) == blocks_of(b@),
        decreases len - i,
    {
        if marker_at(b, i) {
            let j = skip_ws(b, i + MARKER_LEN, len);
            if j >= len {
                assert(blocks_from(b@, start as int, i as int) =~= seq![]);
                assert(blocks@ + seq![] =~= blocks@);
                i = len;
            } else {
                let correct = normalize_answer_char(b[j]);
                let k = find_pipe(b, j);
                proof {
                    lemma_pipe_end_bounds(b@, j as int);
                }
                if k >= len {
                    assert(blocks_from(b@, start as int, i as int) =~= seq![]);
                    assert(blocks@ + seq![] =~= blocks@);
                    i = len;
                } else {
                    let ghost rest = blocks_from(b@, k + 1, k + 1);
                    if i - start >= MIN_BLOCK_LEN {
                        let blk = QuestionBlock { start, end: i, correct };
                        let ghost before = blocks@;
                        assert(blocks_from(b@, start as int, i as int) == seq![blk] + rest);
                        blocks.push(blk);
                        assert(blocks@ + rest =~= before + (seq![blk] + rest));
                    }
                    start = k + 1;
                    i = k + 1;
                }
            }
        } else {
            i = i + 1;
        }
    }
    assert(blocks_from(b@, start as int, i as int) =~= seq![]);
    assert(blocks@ + seq![] =~= blocks@);
    blocks
}

} // verus!
