use quiz_parser::grade::{submit_result, GradeError};

fn pairs(v: &[(&str, &str)]) -> Vec<(String, String)> {
    v.iter().map(|(a, b)| (a.to_string(), b.to_string())).collect()
}

#[test]
fn empty_quiz_is_an_error() {
    let r = submit_result(&Vec::new(), &pairs(&[("1", "a")]));
    assert!(matches!(r, Err(GradeError::NoQuizData)));
}

#[test]
fn grades_case_insensitively() {
    let quiz = pairs(&[("1", "b"), ("2", "c"), ("3", "")]);
    let user = pairs(&[("1", "B"), ("2", "a"), ("3", "")]);
    let rep = submit_result(&quiz, &user).ok().unwrap();
    assert_eq!(rep.score, 1);
    assert_eq!(rep.total, 3);
    assert_eq!(rep.percentage_tenths, 333);
    assert_eq!(rep.results.len(), 3);
    assert_eq!(rep.results[0].id, "1");
    assert_eq!(rep.results[0].user, "B");
    assert!(rep.results[0].right);
    assert!(!rep.results[1].right);
    assert!(!rep.results[2].right);
}

#[test]
fn missing_answer_counts_as_wrong() {
    let quiz = pairs(&[("1", "a"), ("2", "d"), ("3", "c")]);
    let user = pairs(&[("1", "a"), ("3", "c")]);
    let rep = submit_result(&quiz, &user).ok().unwrap();
    assert_eq!(rep.score, 2);
    assert_eq!(rep.results[1].user, "");
    assert!(!rep.results[1].right);
    assert_eq!(rep.percentage_tenths, 667);
}

#[test]
fn percentage_rounds_half_up() {
    let mut quiz = Vec::new();
    for k in 0..16 {
        quiz.push((k.to_string(), "a".to_string()));
    }
    let user = pairs(&[("0", "a")]);
    let rep = submit_result(&quiz, &user).ok().unwrap();
    assert_eq!(rep.score, 1);
    assert_eq!(rep.percentage_tenths, 63);
}

#[test]
fn all_right_is_full_marks() {
    let quiz = pairs(&[("1", "a"), ("2", "b")]);
    let rep = submit_result(&quiz, &quiz.clone()).ok().unwrap();
    assert_eq!(rep.score, 2);
    assert_eq!(rep.percentage_tenths, 1000);
}
