//! The grader: compares the correct letters of a quiz with the answers a user
//! submitted, and computes the score and the percentage.

use vstd::prelude::*;

verus! {

/// The outcome for one question.
pub struct QuestionResult {
    pub id: String,
    pub correct: String,
    pub user: String,
    pub right: bool,
}

/// The outcome of grading a quiz; `percentage_tenths` is the percentage of
/// right answers in tenths of a percent, rounded half up.
pub struct GradeReport {
    pub score: usize,
    pub total: usize,
    pub percentage_tenths: usize,
    pub results: Vec<QuestionResult>,
}

pub enum GradeError {
    /// The quiz holds no question.
    NoQuizData,
}

/// The code of `c` with `A`-`Z` mapped to `a`-`z`.
pub open spec fn ascii_lower(c: char) -> u32 {
    if 65 <= c as u32 <= 90 {
        (c as u32 + 32) as u32
    } else {
        c as u32
    }
}

/// The two texts are equal up to the case of ASCII letters.
pub open spec fn eq_ascii_ci(a: Seq<char>, b: Seq<char>) -> bool {
    a.len() == b.len() && forall|i: int| 0 <= i < a.len() ==> ascii_lower(#[trigger] a[i]) == ascii_lower(b[i])
}

/// Relies on str::eq_ignore_ascii_case: equal after mapping ASCII upper case
/// letters to lower case.
#[verifier::external_body]
fn eq_ignore_ascii_case(a: &str, b: &str) -> (r: bool)
    ensures
        r == eq_ascii_ci(a@, b@),
{
    a.eq_ignore_ascii_case(b)
}

/// The answer submitted for question `id`: the first entry with that key,
/// or empty text where there is none.
pub open spec fn answer_for(user: Seq<(String, String)>, id: Seq<char>) -> Seq<char>
    decreases user.len(),
{
    if user.len() == 0 {
        seq![]
    } else if user[0].0@ == id {
        user[0].1@
    } else {
        answer_for(user.drop_first(), id)
    }
}

/// An answer is right when the expected letter is not empty and matches it up
/// to ASCII case.
pub open spec fn is_right(correct: Seq<char>, user: Seq<char>) -> bool {
    correct.len() > 0 && eq_ascii_ci(correct, user)
}

/// The number of right answers among the first `n` questions.
pub open spec fn score_upto(quiz: Seq<(String, String)>, user: Seq<(String, String)>, n: int) -> nat
    decreases n,
{
    if n <= 0 {
        0
    } else {
        score_upto(quiz, user, n - 1) + if is_right(quiz[n - 1].1@, answer_for(user, quiz[n - 1].0@)) {
            1nat
        } else {
            0nat
        }
    }
}

/// The percentage of `score` over `total`, in tenths, rounded half up.
pub open spec fn percentage_tenths(score: int, total: int) -> int {
    (2000 * score + total) / (2 * total)
}

/// `rep` grades `quiz` against `user`.
pub open spec fn is_report_of(rep: GradeReport, quiz: Seq<(String, String)>, user: Seq<(String, String)>) -> bool {
    &&& rep.total == quiz.len()
    &&& rep.score == score_upto(quiz, user, quiz.len() as int)
    &&& rep.percentage_tenths == percentage_tenths(rep.score as int, rep.total as int)
    &&& rep.results@.len() == quiz.len()
    &&& forall|k: int|
        0 <= k < quiz.len() ==> {
            let res = #[trigger] rep.results@[k];
            &&& res.id@ == quiz[k].0@
            &&& res.correct@ == quiz[k].1@
            &&& res.user@ == answer_for(user, quiz[k].0@)
            &&& res.right == is_right(quiz[k].1@, answer_for(user, quiz[k].0@))
        }
}

proof fn lemma_score_bound(quiz: Seq<(String, String)>, user: Seq<(String, String)>, n: int)
    requires
        0 <= n,
    ensures
        score_upto(quiz, user, n) <= n,
    decreases n,
{
    if n > 0 {
        lemma_score_bound(quiz, user, n - 1);
    }
}

/// The answer submitted for question `id`, or empty text.
fn find_answer(user: &Vec<(String, String)>, id: &String) -> (r: String)
    ensures
        r@ == answer_for(user@, id@),
{
    let mut k: usize = 0;
    assert(user@.subrange(0, user@.len() as int) =~= user@);
    while k < user.len()
        invariant
            k <= user@.len(),
            answer_for(user@.subrange(k as int, user@.len() as int), id@) == answer_for(user@, id@),
        decreases user@.len() - k,
    {
        let ghost tail = user@.subrange(k as int, user@.len() as int);
        if user[k].0 == *id {
            return user[k].1.clone();
        }
        assert(tail.drop_first() =~= user@.subrange(k + 1, user@.len() as int));
        k = k + 1;
    }
    assert(user@.subrange(k as int, user@.len() as int) =~= seq![]);
    String::new()
}

/// Grades a quiz, given as pairs of question identifier and correct letter,
/// against the submitted answers, given as pairs of question identifier and
/// answer; an empty quiz is an error.
pub fn submit_result(quiz: &Vec<(String, String)>, user_answers: &Vec<(String, String)>) -> (r: Result<GradeReport, GradeError>)
    ensures
        r is Err <==> quiz@.len() == 0,
        r matches Ok(rep) ==> is_report_of(rep, quiz@, user_answers@),
{
    let total = quiz.len();
    if total == 0 {
        return Err(GradeError::NoQuizData);
    }
    let mut score: usize = 0;
    let mut results: Vec<QuestionResult> = Vec::new();
    let mut k: usize = 0;
    while k < total
        invariant
            total == quiz@.len(),
            k <= total,
            score == score_upto(quiz@, user_answers@, k as int),
            results@.len() == k,
            forall|j: int|
                0 <= j < k ==> {
                    let res = #[trigger] results@[j];
                    &&& res.id@ == quiz@[j].0@
                    &&& res.correct@ == quiz@[j].1@
                    &&& res.user@ == answer_for(user_answers@, quiz@[j].0@)
                    &&& res.right == is_right(quiz@[j].1@, answer_for(user_answers@, quiz@[j].0@))
                },
        decreases total - k,
    {
        proof {
            lemma_score_bound(quiz@, user_answers@, k as int);
        }
        let id = quiz[k].0.clone();
        let correct = quiz[k].1.clone();
        let user = find_answer(user_answers, &id);
        let right = !correct.as_str().is_empty() && eq_ignore_ascii_case(correct.as_str(), user.as_str());
        if right {
            score = score + 1;
        }
        results.push(QuestionResult { id, correct, user, right });
        k = k + 1;
    }
    proof {
        lemma_score_bound(quiz@, user_answers@, total as int);
    }
    let pct = ((score as u128) * 2000 + (total as u128)) / (2 * (total as u128));
    assert(pct <= 1000) by (nonlinear_arith)
        requires
            pct == (2000 * score + total) / (2 * total),
            score <= total,
            total > 0,
    {
        assert(2000 * score + total <= 1000 * (2 * total) + (2 * total) - 1);
    }
    Ok(GradeReport { score, total, percentage_tenths: pct as usize, results })
}

} // verus!
