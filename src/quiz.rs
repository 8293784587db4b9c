//! Output assembly: runs the extractor, the parser and the validator over an
//! input and numbers the accepted questions, at most twenty of them.

use vstd::prelude::*;
use vstd::string::StringSliceAdditionalSpecFns;
use vstd::utf8::encode_utf8;
use crate::text::{is_trimmed, is_answer_trimmed};
use crate::block::{QuestionBlock, blocks_of, blocks_from, extract_blocks, normalize_correct};
use crate::question::{
    QuestionModel, parse_block_spec, is_valid_model, parse_block, is_valid_question,
    lemma_parse_range_trimmed,
};

verus! {

/// The most questions one input yields.
pub const MAX_QUESTIONS: usize = 20;

/// One emitted question: its 1-based identifier, its text, its answers in the
/// order `a`, `b`, `c`, `d`, and the letter of the correct one.
pub struct QuizQuestion {
    pub id: usize,
    pub question: String,
    pub answers: [String; 4],
    pub correct: char,
}

impl QuizQuestion {
    pub open spec fn model(&self) -> QuestionModel {
        QuestionModel {
            question: self.question@,
            answers: seq![self.answers@[0]@, self.answers@[1]@, self.answers@[2]@, self.answers@[3]@],
            correct: self.correct,
        }
    }

    /// The answer text of option `letter` (`a` to `d`), if it is one.
    pub fn answer(&self, letter: char) -> (r: Option<&str>)
        ensures
            letter == 'a' ==> r is Some && r->0@ == self.answers@[0]@,
            letter == 'b' ==> r is Some && r->0@ == self.answers@[1]@,
            letter == 'c' ==> r is Some && r->0@ == self.answers@[2]@,
            letter == 'd' ==> r is Some && r->0@ == self.answers@[3]@,
            r.is_none() == !(letter == 'a' || letter == 'b' || letter == 'c' || letter == 'd'),
    {
        if letter == 'a' {
            Some(self.answers[0].as_str())
        } else if letter == 'b' {
            Some(self.answers[1].as_str())
        } else if letter == 'c' {
            Some(self.answers[2].as_str())
        } else if letter == 'd' {
            Some(self.answers[3].as_str())
        } else {
            None
        }
    }
}

/// The indices of the blocks that are emitted: in order, each block that
/// parses into a valid question, until twenty have been taken.
pub open spec fn accepted_from(b: Seq<u8>, blocks: Seq<QuestionBlock>) -> Seq<int>
    decreases blocks.len(),
{
    if blocks.len() == 0 {
        seq![]
    } else {
        let rest = accepted_from(b, blocks.drop_last());
        let q = parse_block_spec(b, blocks.last());
        if rest.len() < 20 && q is Some && is_valid_model(q->0) {
            rest.push(blocks.len() - 1)
        } else {
            rest
        }
    }
}

/// The indices, among the blocks of the input, of those that are emitted.
pub open spec fn accepted(b: Seq<u8>) -> Seq<int> {
    accepted_from(b, blocks_of(b))
}

/// The questions emitted for an input, in order.
pub open spec fn quiz_spec(b: Seq<u8>) -> Seq<QuestionModel> {
    accepted(b).map_values(|j: int| parse_block_spec(b, blocks_of(b)[j])->0)
}

/// What a call on `b` returns: the questions of `quiz_spec(b)`, numbered
/// from 1.
pub open spec fn is_quiz_of(r: Seq<QuizQuestion>, b: Seq<u8>) -> bool {
    &&& r.len() == quiz_spec(b).len()
    &&& forall|k: int| 0 <= k < r.len() ==> #[trigger] r[k].id == k + 1
    &&& forall|k: int| 0 <= k < r.len() ==> #[trigger] r[k].model() == quiz_spec(b)[k]
}

proof fn lemma_accepted_from_props(b: Seq<u8>, blocks: Seq<QuestionBlock>)
    ensures
        accepted_from(b, blocks).len() <= 20,
        forall|k: int|
            0 <= k < accepted_from(b, blocks).len() ==> 0 <= #[trigger] accepted_from(
                b,
                blocks,
            )[k] < blocks.len(),
        forall|k: int, l: int|
            0 <= k < l < accepted_from(b, blocks).len() ==> #[trigger] accepted_from(b, blocks)[k]
                < #[trigger] accepted_from(b, blocks)[l],
        forall|k: int|
            0 <= k < accepted_from(b, blocks).len() ==> {
                let q = parse_block_spec(b, blocks[#[trigger] accepted_from(b, blocks)[k]]);
                q is Some && is_valid_model(q->0)
            },
    decreases blocks.len(),
{
    if blocks.len() > 0 {
        let rest = blocks.drop_last();
        lemma_accepted_from_props(b, rest);
        assert forall|j: int| 0 <= j < rest.len() implies rest[j] == blocks[j] by {}
    }
}

proof fn lemma_blocks_from_props(b: Seq<u8>, s: int, i: int)
    requires
        0 <= s <= i,
        b.len() <= usize::MAX,
    ensures
        forall|k: int|
            0 <= k < blocks_from(b, s, i).len() ==> {
                let blk = #[trigger] blocks_from(b, s, i)[k];
                &&& s <= blk.start
                &&& blk.start + 10 <= blk.end
                &&& blk.end + 9 < b.len()
            },
        forall|k: int, l: int|
            0 <= k < l < blocks_from(b, s, i).len() ==> (#[trigger] blocks_from(b, s, i)[k]).end
                < (#[trigger] blocks_from(b, s, i)[l]).start,
    decreases b.len() - i,
{
    if !(i < 0 || i + 9 >= b.len()) {
        if crate::block::is_marker_at(b, i) {
            crate::text::lemma_ws_end_bounds(b, i + 9, b.len() as int);
            let j = crate::text::ws_end(b, i + 9, b.len() as int);
            if j < b.len() {
                crate::block::lemma_pipe_end_bounds(b, j);
                let k = crate::block::pipe_end(b, j);
                if k < b.len() {
                    lemma_blocks_from_props(b, k + 1, k + 1);
                    let rest = blocks_from(b, k + 1, k + 1);
                    if i - s >= 10 {
                        let blk = QuestionBlock {
                            start: s as usize,
                            end: i as usize,
                            correct: normalize_correct(b[j]),
                        };
                        let all = seq![blk] + rest;
                        assert(blocks_from(b, s, i) == all);
                        assert forall|m: int| 0 < m < all.len() implies all[m] == rest[m - 1] by {}
                        assert forall|m: int, l: int| 0 <= m < l < all.len() implies (
                        #[trigger] all[m]).end < (#[trigger] all[l]).start by {
                            if m > 0 {
                                assert(all[m] == rest[m - 1]);
                            }
                            assert(all[l] == rest[l - 1]);
                        }
                    } else {
                        assert(blocks_from(b, s, i) == rest);
                    }
                }
            }
        } else {
            lemma_blocks_from_props(b, s, i + 1);
            assert(blocks_from(b, s, i) == blocks_from(b, s, i + 1));
        }
    }
}

/// Every block of an input lies within it, spans at least the minimum
/// length, and ends before the next one starts.
pub proof fn lemma_blocks_in_order(b: Seq<u8>)
    requires
        b.len() <= usize::MAX,
    ensures
        forall|k: int|
            0 <= k < blocks_of(b).len() ==> {
                let blk = #[trigger] blocks_of(b)[k];
                &&& blk.start + 10 <= blk.end
                &&& blk.end + 9 < b.len()
            },
        forall|k: int, l: int|
            0 <= k < l < blocks_of(b).len() ==> (#[trigger] blocks_of(b)[k]).end
                < (#[trigger] blocks_of(b)[l]).start,
{
    lemma_blocks_from_props(b, 0, 0);
}

/// No input yields more than twenty questions.
pub proof fn lemma_at_most_max_questions(b: Seq<u8>)
    ensures
        quiz_spec(b).len() <= MAX_QUESTIONS,
{
    lemma_accepted_from_props(b, blocks_of(b));
}

proof fn lemma_emitted_valid(b: Seq<u8>)
    ensures
        forall|k: int| 0 <= k < quiz_spec(b).len() ==> is_valid_model(#[trigger] quiz_spec(b)[k]),
{
    lemma_accepted_from_props(b, blocks_of(b));
    assert forall|k: int| 0 <= k < quiz_spec(b).len() implies is_valid_model(
        #[trigger] quiz_spec(b)[k],
    ) by {
        let j = accepted(b)[k];
        assert(is_valid_model(parse_block_spec(b, blocks_of(b)[j])->0));
    }
}

/// Every emitted question has text of at least five characters and four
/// answers that are not empty; text and answers are already trimmed, so
/// trimming them again changes nothing.
pub proof fn lemma_emitted_text_and_answers(b: Seq<u8>)
    requires
        b.len() <= usize::MAX,
    ensures
        forall|k: int|
            0 <= k < quiz_spec(b).len() ==> {
                let q = #[trigger] quiz_spec(b)[k];
                &&& q.question.len() >= 5
                &&& is_trimmed(encode_utf8(q.question))
                &&& q.answers.len() == 4
                &&& forall|t: int| 0 <= t < 4 ==> #[trigger] q.answers[t].len() >= 1
                &&& forall|t: int| 0 <= t < 4 ==> is_answer_trimmed(encode_utf8(#[trigger] q.answers[t]))
            },
{
    lemma_emitted_valid(b);
    lemma_accepted_from_props(b, blocks_of(b));
    lemma_blocks_in_order(b);
    assert forall|k: int| 0 <= k < quiz_spec(b).len() implies {
        let q = #[trigger] quiz_spec(b)[k];
        &&& is_trimmed(encode_utf8(q.question))
        &&& forall|t: int| 0 <= t < 4 ==> is_answer_trimmed(encode_utf8(#[trigger] q.answers[t]))
    } by {
        let blk = blocks_of(b)[accepted(b)[k]];
        lemma_parse_range_trimmed(b, blk.start as int, blk.end as int, blk.correct);
    }
}

/// The correctness letter of every emitted question is one of `a`-`d`.
pub proof fn lemma_emitted_correct_letter(b: Seq<u8>)
    ensures
        forall|k: int|
            0 <= k < quiz_spec(b).len() ==> {
                let c = (#[trigger] quiz_spec(b)[k]).correct;
                c == 'a' || c == 'b' || c == 'c' || c == 'd'
            },
{
    lemma_emitted_valid(b);
}

/// Parsing depends on the input alone: equal inputs give equal questions.
pub proof fn lemma_parse_deterministic(b1: Seq<u8>, b2: Seq<u8>)
    requires
        b1 == b2,
    ensures
        quiz_spec(b1) == quiz_spec(b2),
{
}

/// The emitted questions follow the order of their blocks in the input:
/// question `k` comes from an earlier block than question `k + 1`, and
/// earlier blocks lie earlier in the input.
pub proof fn lemma_order_preserved(b: Seq<u8>)
    requires
        b.len() <= usize::MAX,
    ensures
        forall|k: int|
            0 <= k < quiz_spec(b).len() ==> 0 <= #[trigger] accepted(b)[k] < blocks_of(b).len()
                && quiz_spec(b)[k] == parse_block_spec(b, blocks_of(b)[accepted(b)[k]])->0,
        forall|k: int, l: int|
            0 <= k < l < quiz_spec(b).len() ==> #[trigger] accepted(b)[k] < #[trigger] accepted(
                b,
            )[l] && blocks_of(b)[accepted(b)[k]].end < blocks_of(b)[accepted(b)[l]].start,
{
    lemma_accepted_from_props(b, blocks_of(b));
    lemma_blocks_in_order(b);
}

/// Empty input yields no question.
pub proof fn lemma_empty_input()
    ensures
        quiz_spec(Seq::<u8>::empty()).len() == 0,
{
    assert(blocks_of(Seq::<u8>::empty()) =~= seq![]);
}

/// Parses a byte sequence into its numbered questions.
pub fn parse_quiz_bytes(b: &[u8]) -> (r: Vec<QuizQuestion>)
    ensures
        is_quiz_of(r@, b@),
        r@.len() <= MAX_QUESTIONS,
{
    let blocks = extract_blocks(b);
    let n = b.len();
    proof {
        lemma_blocks_in_order(b@);
    }
    let mut out: Vec<QuizQuestion> = Vec::new();
    let mut j: usize = 0;
    while j < blocks.len()
        invariant
            j <= blocks@.len(),
            blocks@ == blocks_of(b@),
            forall|k: int|
                0 <= k < blocks@.len() ==> (#[trigger] blocks@[k]).start <= blocks@[k].end
                    <= b@.len(),
            out@.len() == accepted_from(b@, blocks@.take(j as int)).len(),
            out@.len() <= MAX_QUESTIONS,
            forall|k: int| 0 <= k < out@.len() ==> #[trigger] out@[k].id == k + 1,
            forall|k: int|
                0 <= k < out@.len() ==> #[trigger] out@[k].model() == parse_block_spec(
                    b@,
                    blocks@[accepted_from(b@, blocks@.take(j as int))[k]],
                )->0,
        decreases blocks@.len() - j,
    {
        let ghost prev = accepted_from(b@, blocks@.take(j as int));
        proof {
            lemma_accepted_from_props(b@, blocks@.take(j as int));
            assert(blocks@.take(j + 1).drop_last() =~= blocks@.take(j as int));
        }
        let blk = &blocks[j];
        if out.len() < MAX_QUESTIONS {
            if let Some(parsed) = parse_block(b, blk) {
                if is_valid_question(&parsed) {
                    let q = QuizQuestion {
                        id: out.len() + 1,
                        question: parsed.text.to_owned(),
                        answers: [
                            parsed.answers[0].to_owned(),
                            parsed.answers[1].to_owned(),
                            parsed.answers[2].to_owned(),
                            parsed.answers[3].to_owned(),
                        ],
                        correct: parsed.correct,
                    };
                    assert(q.model().answers =~= parsed.model().answers);
                    out.push(q);
                }
            }
        }
        proof {
            let cur = accepted_from(b@, blocks@.take(j + 1));
            assert forall|k: int| 0 <= k < prev.len() implies cur[k] == prev[k] by {}
        }
        j = j + 1;
    }
    assert(blocks@.take(blocks@.len() as int) =~= blocks@);
    out
}

/// Parses a text into its numbered questions; empty text, or text without a
/// valid block, gives none.
pub fn parse_quiz(quiz: &str) -> (r: Vec<QuizQuestion>)
    ensures
        is_quiz_of(r@, quiz.spec_bytes()),
        r@.len() <= MAX_QUESTIONS,
{
    parse_quiz_bytes(quiz.as_bytes())
}

} // verus!
