use quiz_parser::study_plan::{parse_study_plan, parse_study_plan_bytes, DayEntry};

fn pairs(r: &[DayEntry]) -> Vec<(&str, &str)> {
    r.iter().map(|e| (e.day.as_str(), e.tasks.as_str())).collect()
}

#[test]
fn splits_days_in_order() {
    let r = parse_study_plan("Day 1: Read chapter 1\nDay 2:\n  Practice problems  \n");
    assert_eq!(pairs(&r), vec![("Day 1:", "Read chapter 1"), ("Day 2:", "Practice problems")]);
}

#[test]
fn text_before_first_day_is_ignored() {
    let r = parse_study_plan("My plan\nDay 12: Review\n");
    assert_eq!(pairs(&r), vec![("Day 12:", "Review")]);
}

#[test]
fn day_word_without_digit_stays_in_tasks() {
    let r = parse_study_plan("Day 1: Day off Day x rest\nDay 2: Work");
    assert_eq!(pairs(&r), vec![("Day 1:", "Day off Day x rest"), ("Day 2:", "Work")]);
}

#[test]
fn label_without_colon_is_skipped() {
    let r = parse_study_plan("Day 3 no colon here\nDay 4: Go");
    assert_eq!(pairs(&r), vec![("Day 4:", "Go")]);
}

#[test]
fn empty_plan_gives_nothing() {
    assert!(parse_study_plan("").is_empty());
    assert!(parse_study_plan("   \n\t").is_empty());
    assert!(parse_study_plan_bytes(b"Day :").is_empty());
}

#[test]
fn empty_section_between_labels() {
    let r = parse_study_plan("Day 1:\nDay 2: Something");
    assert_eq!(pairs(&r), vec![("Day 1:", ""), ("Day 2:", "Something")]);
}

#[test]
fn tasks_are_trimmed_of_unicode_whitespace() {
    let r = parse_study_plan("Day 1: Read\u{3000}\u{a0}");
    assert_eq!(pairs(&r), vec![("Day 1:", "Read")]);
}

#[test]
fn day_without_colon_stays_in_tasks() {
    let r = parse_study_plan("Day 1: rest on Day 2 then");
    assert_eq!(pairs(&r), vec![("Day 1:", "rest on Day 2 then")]);
}

#[test]
fn section_runs_to_next_full_label() {
    let r = parse_study_plan("Day 1: see Day 2 notes\nDay 2: Work");
    assert_eq!(pairs(&r), vec![("Day 1:", "see Day 2 notes"), ("Day 2:", "Work")]);
}

#[test]
fn trim_keeps_characters_outside_white_space() {
    let r = parse_study_plan("Day 1:\u{2028}Read\u{200b}\u{85}\u{3000}");
    assert_eq!(pairs(&r), vec![("Day 1:", "Read\u{200b}")]);
}
