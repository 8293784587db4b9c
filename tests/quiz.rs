use quiz_parser::block::{extract_blocks, normalize_answer_char};
use quiz_parser::quiz::{parse_quiz, parse_quiz_bytes, QuizQuestion, MAX_QUESTIONS};

fn block(text: &str, letter: &str) -> String {
    format!("{} a) red b) green c) blue d) black|CORRECT: {}|", text, letter)
}

fn answers(q: &QuizQuestion) -> Vec<&str> {
    q.answers.iter().map(|a| a.as_str()).collect()
}

#[test]
fn single_numbered_question() {
    let r = parse_quiz("1. What is 2+2? a) 3 b) 4 c) 5 d) 6|CORRECT: b|");
    assert_eq!(r.len(), 1);
    assert_eq!(r[0].id, 1);
    assert_eq!(r[0].question, "What is 2+2?");
    assert_eq!(answers(&r[0]), vec!["3", "4", "5", "6"]);
    assert_eq!(r[0].correct, 'b');
}

#[test]
fn number_label_followed_by_space() {
    let r = parse_quiz("1 What is 2+2? a) 3 b) 4 c) 5 d) 6|CORRECT: b|");
    assert_eq!(r.len(), 1);
    assert_eq!(r[0].question, "What is 2+2?");
    assert_eq!(r[0].answer('b'), Some("4"));
    assert_eq!(r[0].answer('e'), None);
}

#[test]
fn missing_question_text_is_rejected() {
    let r = parse_quiz("a) x b) y c) z d) w|CORRECT:q|");
    assert!(r.is_empty());
}

#[test]
fn two_blocks_numbered_in_order() {
    let input = format!("{}\n{}", block("First question here?", "a"), block("Second question here?", "d"));
    let r = parse_quiz(&input);
    assert_eq!(r.len(), 2);
    assert_eq!(r[0].id, 1);
    assert_eq!(r[1].id, 2);
    assert_eq!(r[0].question, "First question here?");
    assert_eq!(r[1].question, "Second question here?");
    assert_eq!(r[0].correct, 'a');
    assert_eq!(r[1].correct, 'd');
}

#[test]
fn empty_input_gives_nothing() {
    assert!(parse_quiz("").is_empty());
    assert!(parse_quiz_bytes(&[]).is_empty());
}

#[test]
fn marker_without_letter_is_dropped() {
    assert!(parse_quiz("1. What is 2+2? a) 3 b) 4 c) 5 d) 6|CORRECT:").is_empty());
    assert!(parse_quiz("1. What is 2+2? a) 3 b) 4 c) 5 d) 6|CORRECT:   ").is_empty());
}

#[test]
fn marker_without_closing_bar_is_dropped() {
    assert!(parse_quiz("1. What is 2+2? a) 3 b) 4 c) 5 d) 6|CORRECT: b").is_empty());
}

#[test]
fn twenty_one_blocks_give_twenty() {
    let mut input = String::new();
    for k in 0..21 {
        input.push_str(&block(&format!("Question number {}?", k), "c"));
    }
    let r = parse_quiz(&input);
    assert_eq!(r.len(), MAX_QUESTIONS);
    for (k, q) in r.iter().enumerate() {
        assert_eq!(q.id, k + 1);
        assert_eq!(q.question, format!("Question number {}?", k));
    }
}

#[test]
fn cap_counts_accepted_questions_only() {
    let mut input = block("Hi?", "a");
    for k in 0..21 {
        input.push_str(&block(&format!("Question number {}?", k), "c"));
    }
    let r = parse_quiz(&input);
    assert_eq!(r.len(), 20);
    assert_eq!(r[0].question, "Question number 0?");
    assert_eq!(r[19].question, "Question number 19?");
}

#[test]
fn parsing_twice_gives_the_same() {
    let input = format!("{}{}", block("Which colour is the sky?", "C"), block("Which colour is grass?", "b"));
    let r1 = parse_quiz(&input);
    let r2 = parse_quiz(&input);
    assert_eq!(r1.len(), r2.len());
    for (x, y) in r1.iter().zip(r2.iter()) {
        assert_eq!(x.id, y.id);
        assert_eq!(x.question, y.question);
        assert_eq!(answers(x), answers(y));
        assert_eq!(x.correct, y.correct);
    }
}

#[test]
fn emitted_records_are_valid() {
    let input = format!(
        "{}{}{}",
        block("Valid question one?", "b"),
        block("Abc", "a"),
        "Another question? a) . b) y c) z d) w|CORRECT: a|"
    );
    let r = parse_quiz(&input);
    assert_eq!(r.len(), 1);
    for q in &r {
        assert!(q.question.chars().count() >= 5);
        assert!(q.answers.iter().all(|a| !a.is_empty()));
        assert!(matches!(q.correct, 'a' | 'b' | 'c' | 'd'));
    }
}

#[test]
fn garbage_letter_falls_back_to_a() {
    let r = parse_quiz("What is the answer? a) x b) y c) z d) w|CORRECT:q|");
    assert_eq!(r.len(), 1);
    assert_eq!(r[0].correct, 'a');
}

#[test]
fn upper_case_letter_is_lowered() {
    let r = parse_quiz("What is the answer? a) x b) y c) z d) w|CORRECT: D |");
    assert_eq!(r.len(), 1);
    assert_eq!(r[0].correct, 'd');
}

#[test]
fn normalizer_maps_every_byte() {
    assert_eq!(normalize_answer_char(b'a'), 'a');
    assert_eq!(normalize_answer_char(b'B'), 'b');
    assert_eq!(normalize_answer_char(b'c'), 'c');
    assert_eq!(normalize_answer_char(b'D'), 'd');
    assert_eq!(normalize_answer_char(b'e'), 'a');
    assert_eq!(normalize_answer_char(b'|'), 'a');
}

#[test]
fn answer_punctuation_is_trimmed() {
    let r = parse_quiz("  Pick the best one:\n a) yes. b) no!  c) maybe?; d) never,:|CORRECT:a|");
    assert_eq!(r.len(), 1);
    assert_eq!(r[0].question, "Pick the best one:");
    assert_eq!(answers(&r[0]), vec!["yes", "no", "maybe", "never"]);
}

#[test]
fn answer_of_only_punctuation_drops_block() {
    assert!(parse_quiz("What is the answer? a) ... b) y c) z d) w|CORRECT:b|").is_empty());
}

#[test]
fn missing_option_drops_block() {
    assert!(parse_quiz("What is the answer? a) x b) y c) z|CORRECT:b|").is_empty());
}

#[test]
fn options_out_of_order_drop_block() {
    assert!(parse_quiz("What is the answer? b) y a) x c) z d) w|CORRECT:b|").is_empty());
}

#[test]
fn first_label_of_each_option_counts() {
    let r = parse_quiz("What is the answer? a) x a) again b) y c) z d) w|CORRECT:b|");
    assert_eq!(r.len(), 1);
    assert_eq!(answers(&r[0]), vec!["x a) again", "y", "z", "w"]);
}

#[test]
fn short_block_is_dropped() {
    assert!(parse_quiz("a)b)c)d)|CORRECT:a|").is_empty());
}

#[test]
fn question_length_counts_characters() {
    assert!(parse_quiz("éééé a) x b) y c) z d) w|CORRECT:a|").is_empty());
    let r = parse_quiz("ééééé a) x b) y c) z d) w|CORRECT:a|");
    assert_eq!(r.len(), 1);
    assert_eq!(r[0].question, "ééééé");
}

#[test]
fn invalid_utf8_drops_block() {
    let mut bytes = b"What is \xff this? a) x b) y c) z d) w|CORRECT:a|".to_vec();
    bytes.extend_from_slice(b"What is that? a) x b) y c) z d) w|CORRECT:c|");
    let r = parse_quiz_bytes(&bytes);
    assert_eq!(r.len(), 1);
    assert_eq!(r[0].id, 1);
    assert_eq!(r[0].question, "What is that?");
}

#[test]
fn blocks_follow_markers() {
    let input = "Question one? a) 1 b) 2 c) 3 d) 4|CORRECT:a|Question two? a) 1 b) 2 c) 3 d) 4|CORRECT:b|";
    let blocks = extract_blocks(input.as_bytes());
    assert_eq!(blocks.len(), 2);
    assert_eq!((blocks[0].start, blocks[0].end, blocks[0].correct), (0, 33, 'a'));
    assert_eq!((blocks[1].start, blocks[1].end, blocks[1].correct), (44, 77, 'b'));
}

#[test]
fn emitted_text_has_no_surrounding_whitespace() {
    let r = parse_quiz("\n\t  Spaced out question?  \n a)   x. \t b) y  c)\nz d) w \n|CORRECT:c|");
    assert_eq!(r.len(), 1);
    assert_eq!(r[0].question, "Spaced out question?");
    assert_eq!(answers(&r[0]), vec!["x", "y", "z", "w"]);
    assert_eq!(r[0].question.trim(), r[0].question);
}

#[test]
fn period_after_number_is_skipped() {
    let r = parse_quiz("12.Which one is it? a) x b) y c) z d) w|CORRECT:a|");
    assert_eq!(r.len(), 1);
    assert_eq!(r[0].question, "Which one is it?");
}

#[test]
fn period_without_number_stays() {
    let r = parse_quiz(". Which one is it? a) x b) y c) z d) w|CORRECT:a|");
    assert_eq!(r.len(), 1);
    assert_eq!(r[0].question, ". Which one is it?");
}
