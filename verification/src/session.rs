use vstd::prelude::*;
use vstd::set_lib::{lemma_int_range, lemma_subset_equality, set_int_range};

use rand::rngs::ThreadRng;

use crate::config::{config_outcome, resolved, Config};
use crate::error::AppError;
use crate::paths::{quiz_title, title_for};
use crate::quiz::{valid_quiz, Answer, Question, Quiz};
use crate::random::{
    compose, identity, is_permutation, is_rearrangement, lemma_compose, lemma_compose_permutations,
    lemma_identity, new_rng, random_below, rearranged_by, shuffle,
};
use crate::validate::valid_question;

verus! {

/// One question as a session asks it: the prompt, the options in the order shown, the
/// correct option and the optional explanation.
#[derive(Debug)]
pub struct RuntimeQuestion {
    pub prompt: String,
    pub options: Vec<String>,
    pub answer: String,
    pub explanation: Option<String>,
}

/// A key press that the session reacts to.
#[derive(Clone, Copy, Debug, PartialEq, Eq)]
pub enum Key {
    Char(char),
    Up,
    Down,
    Enter,
    Esc,
    Other,
}

/// The state of a quiz session: which question is asked, which option is selected,
/// what was answered so far, and the timer.
pub struct App {
    title: String,
    questions: Vec<RuntimeQuestion>,
    question_index: usize,
    selected_option: usize,
    answered: bool,
    score: usize,
    question_results: Vec<Option<bool>>,
    config: Config,
    question_started_at: u64,
    timed_out: bool,
    options_revealed: bool,
    rng: Option<ThreadRng>,
    source: Ghost<Seq<RuntimeQuestion>>,
    origin: Ghost<Seq<int>>,
}

/// A session as values. `source` lists the quiz's questions in file order, and question
/// `i` of `questions` is `source[origin[i]]` with its options in some order.
pub struct AppView {
    pub title: Seq<char>,
    pub questions: Seq<RuntimeQuestion>,
    pub question_index: int,
    pub selected_option: int,
    pub answered: bool,
    pub score: int,
    pub results: Seq<Option<bool>>,
    pub config: Config,
    pub started_ms: int,
    pub timed_out: bool,
    pub options_revealed: bool,
    pub source: Seq<RuntimeQuestion>,
    pub origin: Seq<int>,
}

impl View for App {
    type V = AppView;

    closed spec fn view(&self) -> AppView {
        AppView {
            title: self.title@,
            questions: self.questions@,
            question_index: self.question_index as int,
            selected_option: self.selected_option as int,
            answered: self.answered,
            score: self.score as int,
            results: self.question_results@,
            config: self.config,
            started_ms: self.question_started_at as int,
            timed_out: self.timed_out,
            options_revealed: self.options_revealed,
            source: self.source@,
            origin: self.origin@,
        }
    }
}

/// Question `q` asks `src`: the same prompt, answer and explanation, and the same options
/// in some order.
pub open spec fn follows(q: RuntimeQuestion, src: RuntimeQuestion) -> bool {
    &&& q.prompt@ == src.prompt@
    &&& q.answer@ == src.answer@
    &&& q.explanation == src.explanation
    &&& is_rearrangement(q.options@, src.options@)
}

/// How many of `results` are correct answers.
pub open spec fn count_correct(results: Seq<Option<bool>>) -> int
    decreases results.len(),
{
    if results.len() == 0 {
        0
    } else {
        count_correct(results.drop_last()) + if results.last() == Some(true) {
            1int
        } else {
            0int
        }
    }
}

/// The invariant of a session.
pub open spec fn app_wf(v: AppView) -> bool {
    let n = v.questions.len() as int;
    &&& n >= 1
    &&& v.results.len() == n
    &&& 0 <= v.question_index < n
    &&& forall|i: int| 0 <= i < n ==> (#[trigger] v.questions[i]).options@.len() >= 1
    &&& 0 <= v.selected_option < v.questions[v.question_index].options@.len()
    &&& v.score == count_correct(v.results)
    &&& v.answered <==> v.results[v.question_index] is Some
    &&& forall|j: int| 0 <= j < v.question_index ==> (#[trigger] v.results[j]) is Some
    &&& forall|j: int| v.question_index < j < n ==> (#[trigger] v.results[j]) is None
    &&& v.timed_out ==> v.results[v.question_index] == Some(false)
    &&& !v.options_revealed ==> !v.answered
    &&& v.config.question_timer_seconds matches Some(s) ==> s > 0
    &&& v.source.len() == n
    &&& is_permutation(v.origin, n)
    &&& forall|i: int| 0 <= i < n ==> follows(#[trigger] v.questions[i], v.source[v.origin[i]])
}

/// The runtime question that a quiz question and its answer make.
pub open spec fn runtime_of(q: Question, a: Answer) -> RuntimeQuestion {
    RuntimeQuestion { prompt: q.question, options: q.options, answer: a.answer, explanation: q.explanation }
}

/// The questions of `quiz` as a session asks them, in file order; a question without an
/// answer is left out, as are answers without a question.
pub open spec fn quiz_questions(quiz: Quiz) -> Seq<RuntimeQuestion> {
    let n = if quiz.questions.len() <= quiz.answers.len() {
        quiz.questions.len()
    } else {
        quiz.answers.len()
    };
    Seq::new(n as nat, |i: int| runtime_of(quiz.questions@[i], quiz.answers@[i]))
}

/// A session can be held for `quiz`: it has a question, and every question an option.
pub open spec fn playable(quiz: Quiz) -> bool {
    let qs = quiz_questions(quiz);
    &&& qs.len() >= 1
    &&& forall|i: int| 0 <= i < qs.len() ==> (#[trigger] qs[i]).options@.len() >= 1
}

/// The configuration as a session uses it: a timer of zero seconds is no timer.
pub open spec fn normalized(config: Config) -> Config {
    Config {
        question_timer_seconds: match config.question_timer_seconds {
            Some(s) => if s > 0 {
                Some(s)
            } else {
                None
            },
            None => None,
        },
        ..config
    }
}

/// The cursor of a freshly shown question starts at the first option unless the
/// configuration asks for a random start.
pub open spec fn start_rule(v: AppView) -> bool {
    !v.config.random_start_cursor ==> v.selected_option == 0
}

/// No result is recorded yet, so none is correct.
pub proof fn lemma_count_none(results: Seq<Option<bool>>)
    requires
        forall|j: int| 0 <= j < results.len() ==> (#[trigger] results[j]) is None,
    ensures
        count_correct(results) == 0,
    decreases results.len(),
{
    if results.len() > 0 {
        lemma_count_none(results.drop_last());
    }
}

/// Recording result `x` where none was counts it.
pub proof fn lemma_count_update(results: Seq<Option<bool>>, i: int, x: Option<bool>)
    requires
        0 <= i < results.len(),
        results[i] is None,
    ensures
        count_correct(results.update(i, x)) == count_correct(results) + if x == Some(true) {
            1int
        } else {
            0int
        },
    decreases results.len(),
{
    let u = results.update(i, x);
    if i == results.len() - 1 {
        assert(u.drop_last() =~= results.drop_last());
    } else {
        lemma_count_update(results.drop_last(), i, x);
        assert(u.drop_last() =~= results.drop_last().update(i, x));
    }
}

/// No more results are correct than there are results.
pub proof fn lemma_count_bounds(results: Seq<Option<bool>>)
    ensures
        0 <= count_correct(results) <= results.len(),
    decreases results.len(),
{
    if results.len() > 0 {
        lemma_count_bounds(results.drop_last());
    }
}

/// Every quiz that passes validation can be played: it has a question, each question an
/// answer and at least two options.
pub proof fn lemma_valid_quiz_is_playable(quiz: Quiz)
    requires
        valid_quiz(quiz@),
    ensures
        playable(quiz),
        quiz_questions(quiz).len() == quiz.questions.len(),
{
    let qs = quiz_questions(quiz);
    assert forall|i: int| 0 <= i < qs.len() implies (#[trigger] qs[i]).options@.len() >= 1 by {
        assert(valid_question(quiz@.questions[i], quiz@.answers[i]));
        assert(quiz@.questions[i] == quiz.questions@[i]@);
    }
}

/// In every state of a session the score counts the correct answers, and is at most the
/// number of questions.
pub proof fn lemma_score_counts_correct_answers(v: AppView)
    requires
        app_wf(v),
    ensures
        v.score == count_correct(v.results),
        0 <= v.score <= v.questions.len(),
{
    lemma_count_bounds(v.results);
}

/// In every state of a session each question of the quiz is asked exactly once: at
/// exactly one position, with its prompt, answer and explanation, and its options in
/// some order.
pub proof fn lemma_each_question_asked_once(v: AppView, j: int)
    requires
        app_wf(v),
        0 <= j < v.source.len(),
    ensures
        exists|i: int| 0 <= i < v.questions.len() && v.origin[i] == j && follows(v.questions[i], v.source[j]),
        forall|i: int, k: int|
            0 <= i < v.questions.len() && 0 <= k < v.questions.len() && v.origin[i] == j && v.origin[k] == j
                ==> i == k,
{
    broadcast use vstd::set::group_set_axioms;
    let n = v.questions.len() as int;
    let range = set_int_range(0, n);
    lemma_int_range(0, n);
    assert(v.origin.no_duplicates()) by {
        assert forall|a: int, b: int| 0 <= a < n && 0 <= b < n && a != b implies v.origin[a] != v.origin[b] by {
            if a < b {
                assert(v.origin[a] != v.origin[b]);
            } else {
                assert(v.origin[b] != v.origin[a]);
            }
        }
    }
    v.origin.unique_seq_to_set();
    assert(v.origin.to_set().subset_of(range)) by {
        assert forall|x: int| v.origin.to_set().contains(x) implies range.contains(x) by {
            let i = choose|i: int| 0 <= i < v.origin.len() && v.origin[i] == x;
            assert(0 <= v.origin[i] < n);
        }
    }
    vstd::seq_lib::seq_to_set_is_finite(v.origin);
    lemma_subset_equality(v.origin.to_set(), range);
    assert(range.contains(j));
    assert(v.origin.to_set().contains(j));
    let i = choose|i: int| 0 <= i < v.origin.len() && v.origin[i] == j;
    assert(follows(v.questions[i], v.source[v.origin[i]]));
    assert forall|a: int, b: int|
        0 <= a < n && 0 <= b < n && v.origin[a] == j && v.origin[b] == j implies a == b by {
        if a < b {
            assert(v.origin[a] != v.origin[b]);
        } else if b < a {
            assert(v.origin[b] != v.origin[a]);
        }
    }
}

/// `a` is `b` with its options put in some order.
pub open spec fn reshuffled_options(a: RuntimeQuestion, b: RuntimeQuestion) -> bool {
    &&& a.prompt == b.prompt
    &&& a.answer == b.answer
    &&& a.explanation == b.explanation
    &&& is_rearrangement(a.options@, b.options@)
}

/// A question that follows `src` still does after its options are put in another order.
pub proof fn lemma_follows_reshuffled(a: RuntimeQuestion, b: RuntimeQuestion, src: RuntimeQuestion)
    requires
        follows(b, src),
        reshuffled_options(a, b),
    ensures
        follows(a, src),
{
    let p = choose|p: Seq<int>| rearranged_by(a.options@, b.options@, p);
    let q = choose|q: Seq<int>| rearranged_by(b.options@, src.options@, q);
    lemma_compose(a.options@, b.options@, src.options@, p, q);
}

/// Puts the options of every question in a random order.
fn shuffle_each_options(questions: &mut Vec<RuntimeQuestion>, rng: &mut ThreadRng)
    ensures
        final(questions)@.len() == old(questions)@.len(),
        forall|i: int|
            0 <= i < final(questions)@.len() ==> reshuffled_options(
                #[trigger] final(questions)@[i],
                old(questions)@[i],
            ),
{
    let ghost before = questions@;
    let mut i: usize = 0;
    while i < questions.len()
        invariant
            i <= questions.len(),
            questions@.len() == before.len(),
            forall|j: int| 0 <= j < i ==> reshuffled_options(#[trigger] questions@[j], before[j]),
            forall|j: int| i <= j < questions@.len() ==> #[trigger] questions@[j] == before[j],
        decreases questions.len() - i,
    {
        let mut q = RuntimeQuestion {
            prompt: String::new(),
            options: Vec::new(),
            answer: String::new(),
            explanation: None,
        };
        questions.set_and_swap(i, &mut q);
        let ghost taken = q;
        shuffle(&mut q.options, rng);
        proof {
            assert(taken == before[i as int]);
        }
        questions.set_and_swap(i, &mut q);
        i += 1;
    }
}

/// Whole seconds since the current question's clock started, none where the clock reads
/// earlier.
pub open spec fn elapsed_seconds(v: AppView, now_ms: int) -> int {
    if now_ms >= v.started_ms {
        (now_ms - v.started_ms) / 1000
    } else {
        0
    }
}

/// The countdown is running: there is a timer, and the options of the unanswered
/// question are shown.
pub open spec fn timer_runs(v: AppView) -> bool {
    v.config.question_timer_seconds is Some && !v.answered && v.options_revealed
}

/// The session after the current question's time ran out: answered, timed out, and
/// recorded as wrong.
pub open spec fn expired(v: AppView) -> AppView {
    AppView {
        answered: true,
        timed_out: true,
        results: v.results.update(v.question_index, Some(false)),
        ..v
    }
}

/// What one tick of the timer, the clock reading `now_ms`, makes of session `v`: `w` is
/// the session afterwards and `r` what the tick returns.
pub open spec fn polled(v: AppView, w: AppView, now_ms: int, r: Option<u64>) -> bool {
    match v.config.question_timer_seconds {
        Some(total) if timer_runs(v) => if elapsed_seconds(v, now_ms) >= total {
            r == Some(total) && w == expired(v)
        } else {
            r == Some((total - elapsed_seconds(v, now_ms)) as u64) && w == v
        },
        _ => r is None && w == v,
    }
}

/// The seconds left that the session `v` reports, the clock reading `now_ms`.
pub open spec fn seconds_left(v: AppView, now_ms: int) -> Option<u64> {
    match v.config.question_timer_seconds {
        None => None,
        Some(total) => if v.answered || !v.options_revealed {
            Some(total)
        } else if elapsed_seconds(v, now_ms) >= total {
            Some(0u64)
        } else {
            Some((total - elapsed_seconds(v, now_ms)) as u64)
        },
    }
}

/// A running countdown of `total` seconds goes by the milliseconds since the question's
/// clock started, whatever the clock reads: as soon as `total` whole seconds have gone
/// by, a tick ends the question as answered wrongly and returns `total`; before that it
/// returns the whole seconds not yet gone by and changes nothing.
pub proof fn lemma_countdown(v: AppView, w: AppView, now_ms: int, r: Option<u64>, total: u64)
    requires
        app_wf(v),
        timer_runs(v),
        v.config.question_timer_seconds == Some(total),
        v.started_ms <= now_ms,
        polled(v, w, now_ms, r),
    ensures
        now_ms - v.started_ms >= total * 1000 ==> {
            &&& r == Some(total)
            &&& w.answered
            &&& w.timed_out
            &&& w.question_index == v.question_index
            &&& w.results == v.results.update(v.question_index, Some(false))
            &&& w.score == v.score
        },
        now_ms - v.started_ms < total * 1000 ==> {
            &&& r == Some((total - (now_ms - v.started_ms) / 1000) as u64)
            &&& 0 < total - (now_ms - v.started_ms) / 1000 <= total
            &&& w == v
        },
{
    assert((now_ms - v.started_ms) / 1000 >= total <==> now_ms - v.started_ms >= total * 1000)
        by (nonlinear_arith)
        requires
            now_ms - v.started_ms >= 0,
    ;
    assert((now_ms - v.started_ms) / 1000 >= 0) by (nonlinear_arith)
        requires
            now_ms - v.started_ms >= 0,
    ;
}

/// While the countdown of `total` seconds runs, the seconds left are `total` less the
/// whole seconds since the question's clock started, and none once those reach `total`.
pub proof fn lemma_seconds_left(v: AppView, now_ms: int, total: u64)
    requires
        timer_runs(v),
        v.config.question_timer_seconds == Some(total),
        v.started_ms <= now_ms,
    ensures
        seconds_left(v, now_ms) == if now_ms - v.started_ms >= total * 1000 {
            Some(0u64)
        } else {
            Some((total - (now_ms - v.started_ms) / 1000) as u64)
        },
{
    assert((now_ms - v.started_ms) / 1000 >= total <==> now_ms - v.started_ms >= total * 1000)
        by (nonlinear_arith)
        requires
            now_ms - v.started_ms >= 0,
    ;
}

/// The key quits the session: `q`, Escape, or ctrl-c.
pub open spec fn quits(key: Key, control: bool) -> bool {
    key == Key::Char('q') || key == Key::Esc || (key == Key::Char('c') && control)
}

/// The key moves the cursor up: the up arrow, `k` or `w`.
pub open spec fn moves_up(key: Key) -> bool {
    key == Key::Up || key == Key::Char('k') || key == Key::Char('w')
}

/// The key moves the cursor down: the down arrow, `j` or `s`.
pub open spec fn moves_down(key: Key) -> bool {
    key == Key::Down || key == Key::Char('j') || key == Key::Char('s')
}

/// The session after the selected option was given as the answer: the result is
/// recorded, and the score counts it where it is correct.
pub open spec fn answered_with_selection(v: AppView) -> AppView {
    let q = v.questions[v.question_index];
    let correct = q.options@[v.selected_option]@ == q.answer@;
    AppView {
        answered: true,
        results: v.results.update(v.question_index, Some(correct)),
        score: v.score + if correct {
            1int
        } else {
            0int
        },
        ..v
    }
}

/// `w` shows the question after the one that `v` shows, fresh, its clock started at
/// `now_ms`.
pub open spec fn advanced(v: AppView, w: AppView, now_ms: int) -> bool {
    &&& w == AppView {
        question_index: v.question_index + 1,
        selected_option: w.selected_option,
        answered: false,
        started_ms: now_ms,
        timed_out: false,
        options_revealed: !v.config.hide_options_until_interact,
        ..v
    }
    &&& start_rule(w)
}

/// `w` starts the quiz of `v` over at its first question, with no result recorded and
/// the clock started at `now_ms`; the questions and options are shuffled anew where the
/// configuration asks for it.
pub open spec fn restarted(v: AppView, w: AppView, now_ms: int) -> bool {
    &&& w.title == v.title
    &&& w.config == v.config
    &&& w.source == v.source
    &&& w.questions.len() == v.questions.len()
    &&& w.question_index == 0
    &&& !w.answered
    &&& w.score == 0
    &&& w.results == Seq::new(v.results.len(), |i: int| None::<bool>)
    &&& !w.timed_out
    &&& w.options_revealed == !v.config.hide_options_until_interact
    &&& w.started_ms == now_ms
    &&& start_rule(w)
    &&& !v.config.shuffle_questions ==> w.origin == v.origin
    &&& !v.config.shuffle_options ==> is_rearrangement(w.questions, v.questions)
    &&& !v.config.shuffle_questions && !v.config.shuffle_options ==> w.questions == v.questions
}

/// What a key press does to the session `v`, the clock reading `now_ms`: whether `w`
/// is the session afterwards.
pub open spec fn key_step(v: AppView, w: AppView, key: Key, control: bool, now_ms: int) -> bool {
    if quits(key, control) {
        w == v
    } else if !v.options_revealed && !v.answered {
        w == AppView { options_revealed: true, started_ms: now_ms, ..v }
    } else if moves_up(key) && !v.answered {
        w == AppView {
            selected_option: if v.selected_option > 0 {
                v.selected_option - 1
            } else {
                0
            },
            ..v
        }
    } else if moves_down(key) && !v.answered {
        let last = v.questions[v.question_index].options@.len() - 1;
        w == AppView {
            selected_option: if v.selected_option + 1 <= last {
                v.selected_option + 1
            } else {
                last
            },
            ..v
        }
    } else if key == Key::Enter && !v.answered {
        w == answered_with_selection(v)
    } else if key == Key::Enter && v.question_index + 1 < v.questions.len() {
        advanced(v, w, now_ms)
    } else if key == Key::Enter {
        restarted(v, w, now_ms)
    } else {
        w == v
    }
}

/// Enter on an unanswered question whose options are shown records, for that question,
/// whether the option under the cursor is that question's answer, and counts it in the
/// score exactly when it is. Nothing else about the session changes.
pub proof fn lemma_enter_scores_the_selection(v: AppView, w: AppView, control: bool, now_ms: int)
    requires
        app_wf(v),
        v.options_revealed,
        !v.answered,
        key_step(v, w, Key::Enter, control, now_ms),
    ensures
        w.answered,
        w.question_index == v.question_index,
        w.selected_option == v.selected_option,
        w.questions == v.questions,
        w.results.len() == v.results.len(),
        w.results[v.question_index] == Some(true) <==> v.questions[v.question_index].options@[v.selected_option]@
            == v.questions[v.question_index].answer@,
        w.results[v.question_index] == Some(false) <==> v.questions[v.question_index].options@[v.selected_option]@
            != v.questions[v.question_index].answer@,
        forall|j: int| 0 <= j < v.results.len() && j != v.question_index ==> w.results[j] == v.results[j],
        w.score == v.score + 1 <==> v.questions[v.question_index].options@[v.selected_option]@
            == v.questions[v.question_index].answer@,
        w.score == v.score <==> v.questions[v.question_index].options@[v.selected_option]@
            != v.questions[v.question_index].answer@,
        w.timed_out == v.timed_out,
        w.started_ms == v.started_ms,
{
}

/// A key that moves the cursor, while the options of an unanswered question are shown,
/// moves it by one option up or down, and stops at the first and the last option;
/// nothing else about the session changes.
pub proof fn lemma_cursor_moves_by_one(v: AppView, w: AppView, key: Key, control: bool, now_ms: int)
    requires
        app_wf(v),
        v.options_revealed,
        !v.answered,
        !quits(key, control),
        moves_up(key) || moves_down(key),
        key_step(v, w, key, control, now_ms),
    ensures
        moves_up(key) ==> w.selected_option == if v.selected_option == 0 {
            0
        } else {
            v.selected_option - 1
        },
        moves_down(key) ==> w.selected_option == if v.selected_option + 1
            == v.questions[v.question_index].options@.len() {
            v.selected_option
        } else {
            v.selected_option + 1
        },
        0 <= w.selected_option < v.questions[v.question_index].options@.len(),
        !w.answered,
        w.results == v.results,
        w.score == v.score,
        w.question_index == v.question_index,
        w.started_ms == v.started_ms,
{
}

/// Enter on an answered question that is not the last one shows the next question,
/// unanswered and with its clock started at `now_ms`; the results so far and the score
/// stay.
pub proof fn lemma_enter_after_answer_moves_on(v: AppView, w: AppView, control: bool, now_ms: int)
    requires
        app_wf(v),
        v.answered,
        v.question_index + 1 < v.questions.len(),
        key_step(v, w, Key::Enter, control, now_ms),
    ensures
        w.question_index == v.question_index + 1,
        !w.answered,
        !w.timed_out,
        w.results == v.results,
        w.results[w.question_index] is None,
        w.score == v.score,
        w.questions == v.questions,
        w.started_ms == now_ms,
        w.options_revealed == !v.config.hide_options_until_interact,
{
}

/// Enter on the answered last question starts over: the first question, no result, no
/// score, the same number of questions, the clock started at `now_ms`.
pub proof fn lemma_enter_on_last_starts_over(v: AppView, w: AppView, control: bool, now_ms: int)
    requires
        app_wf(v),
        v.answered,
        v.question_index + 1 == v.questions.len(),
        key_step(v, w, Key::Enter, control, now_ms),
    ensures
        w.question_index == 0,
        !w.answered,
        !w.timed_out,
        w.score == 0,
        w.results.len() == v.results.len(),
        forall|j: int| 0 <= j < w.results.len() ==> w.results[j] is None,
        w.questions.len() == v.questions.len(),
        w.config == v.config,
        w.started_ms == now_ms,
{
}

/// A key that quits leaves the session as it is.
pub proof fn lemma_quit_changes_nothing(v: AppView, w: AppView, key: Key, control: bool, now_ms: int)
    requires
        quits(key, control),
        key_step(v, w, key, control, now_ms),
    ensures
        w == v,
{
}

/// While the options are hidden, any key but one that quits, Enter among them, only
/// shows the options and starts the question's clock at `now_ms`: the question stays
/// unanswered, and no result and no score change.
pub proof fn lemma_hidden_options_key_only_reveals(
    v: AppView,
    w: AppView,
    key: Key,
    control: bool,
    now_ms: int,
)
    requires
        app_wf(v),
        !v.options_revealed,
        !quits(key, control),
        key_step(v, w, key, control, now_ms),
    ensures
        w.options_revealed,
        w.started_ms == now_ms,
        !w.answered,
        !w.timed_out,
        w.results == v.results,
        w.score == v.score,
        w.question_index == v.question_index,
        w.selected_option == v.selected_option,
        w.questions == v.questions,
        w.config == v.config,
{
}

impl App {
    /// The invariant that every operation keeps.
    pub open spec fn wf(&self) -> bool {
        app_wf(self@)
    }

    /// A start position for the cursor on the current question: the first option, or one
    /// drawn from the session's generator, made first where there is none yet, where the
    /// configuration asks for a random start. Which option is drawn rests on chance.
    fn next_start_index(&mut self) -> (r: usize)
        requires
            old(self).question_index < old(self).questions.len(),
            old(self).questions@[old(self).question_index as int].options@.len() >= 1,
        ensures
            final(self)@ == old(self)@,
            r < final(self)@.questions[final(self)@.question_index].options@.len(),
            !final(self)@.config.random_start_cursor ==> r == 0 && final(self).rng == old(self).rng,
            final(self)@.config.random_start_cursor ==> final(self).rng is Some,
    {
        let len: usize = self.questions[self.question_index].options.len();
        if self.config.random_start_cursor {
            let mut rng = match self.rng.take() {
                Some(rng) => rng,
                None => new_rng(),
            };
            let k: usize = random_below(&mut rng, len);
            self.rng = Some(rng);
            k
        } else {
            0
        }
    }

    /// The quiz title shown in the header.
    pub fn title(&self) -> (r: &str)
        ensures
            r@ == self@.title,
    {
        self.title.as_str()
    }

    /// How many questions the session asks.
    pub fn question_count(&self) -> (r: usize)
        ensures
            r == self@.questions.len(),
    {
        self.questions.len()
    }

    /// The position of the current question, from 0.
    pub fn question_index(&self) -> (r: usize)
        ensures
            r == self@.question_index,
    {
        self.question_index
    }

    /// The position of the selected option, from 0.
    pub fn selected_option(&self) -> (r: usize)
        ensures
            r == self@.selected_option,
    {
        self.selected_option
    }

    /// The current question has been answered, or its time ran out.
    pub fn answered(&self) -> (r: bool)
        ensures
            r == self@.answered,
    {
        self.answered
    }

    /// How many questions were answered correctly.
    pub fn score(&self) -> (r: usize)
        ensures
            r == self@.score,
    {
        self.score
    }

    /// The current question's time ran out.
    pub fn timed_out(&self) -> (r: bool)
        ensures
            r == self@.timed_out,
    {
        self.timed_out
    }

    /// The options of the current question are shown.
    pub fn options_revealed(&self) -> (r: bool)
        ensures
            r == self@.options_revealed,
    {
        self.options_revealed
    }

    /// The result of each question: correct, wrong, or none yet.
    pub fn question_results(&self) -> (r: &Vec<Option<bool>>)
        ensures
            r@ == self@.results,
    {
        &self.question_results
    }

    /// The configuration in use.
    pub fn config(&self) -> (r: &Config)
        ensures
            *r == self@.config,
    {
        &self.config
    }

    /// The current question.
    pub fn current(&self) -> (r: &RuntimeQuestion)
        requires
            self.wf(),
        ensures
            *r == self@.questions[self@.question_index],
    {
        &self.questions[self.question_index]
    }

    /// The countdown is running: there is a timer, and the options of the unanswered
    /// question are shown.
    pub fn timer_running(&self) -> (r: bool)
        ensures
            r == timer_runs(self@),
    {
        self.config.question_timer_seconds.is_some() && !self.answered && self.options_revealed
    }

    /// Whole seconds since the current question's clock started, the clock reading `now_ms`.
    fn elapsed_seconds(&self, now_ms: u64) -> (r: u64)
        ensures
            r == elapsed_seconds(self@, now_ms as int),
    {
        if now_ms >= self.question_started_at {
            (now_ms - self.question_started_at) / 1000
        } else {
            0
        }
    }

    /// The seconds left to answer, the clock reading `now_ms`: the whole time while the
    /// countdown is not running, none without a timer.
    pub fn remaining_seconds(&self, now_ms: u64) -> (r: Option<u64>)
        ensures
            r == match self@.config.question_timer_seconds {
                None => None,
                Some(total) => if self@.answered || !self@.options_revealed {
                    Some(total)
                } else if elapsed_seconds(self@, now_ms as int) >= total {
                    Some(0u64)
                } else {
                    Some((total - elapsed_seconds(self@, now_ms as int)) as u64)
                },
            },
            r == seconds_left(self@, now_ms as int),
    {
        let total: u64 = match self.config.question_timer_seconds {
            Some(total) => total,
            None => return None,
        };
        if self.answered || !self.options_revealed {
            return Some(total);
        }
        let elapsed: u64 = self.elapsed_seconds(now_ms);
        Some(total.saturating_sub(elapsed))
    }

    /// One tick of the timer, the clock reading `now_ms`. Where the time is up, the
    /// question counts as answered wrongly and the whole time is returned; while the
    /// countdown runs, the seconds left; otherwise nothing.
    pub fn poll_timer(&mut self, now_ms: u64) -> (r: Option<u64>)
        requires
            old(self).wf(),
        ensures
            final(self).wf(),
            match old(self)@.config.question_timer_seconds {
                Some(total) if timer_runs(old(self)@) => if elapsed_seconds(
                    old(self)@,
                    now_ms as int,
                ) >= total {
                    r == Some(total) && final(self)@ == expired(old(self)@)
                } else {
                    r == Some((total - elapsed_seconds(old(self)@, now_ms as int)) as u64)
                        && final(self)@ == old(self)@
                },
                _ => r is None && final(self)@ == old(self)@,
            },
            polled(old(self)@, final(self)@, now_ms as int, r),
    {
        let total: u64 = match self.config.question_timer_seconds {
            Some(total) => total,
            None => return None,
        };
        if self.answered || !self.options_revealed {
            return None;
        }
        let elapsed: u64 = self.elapsed_seconds(now_ms);
        if elapsed >= total {
            proof {
                lemma_count_update(self.question_results@, self.question_index as int, Some(false));
            }
            self.answered = true;
            self.timed_out = true;
            self.question_results.set(self.question_index, Some(false));
            return Some(total);
        }
        Some(total - elapsed)
    }

    /// How long the event loop may sleep, the clock reading `now_ms`: to the next whole
    /// second of the countdown while it runs, an hour otherwise.
    pub fn wake_after_ms(&self, now_ms: u64) -> (r: u64)
        ensures
            r == if timer_runs(self@) {
                let into = if now_ms >= self@.started_ms {
                    (now_ms - self@.started_ms) % 1000
                } else {
                    0
                };
                1000 - if into <= 999 {
                    into
                } else {
                    999
                }
            } else {
                3_600_000
            },
    {
        if self.timer_running() {
            let into: u64 = if now_ms >= self.question_started_at {
                (now_ms - self.question_started_at) % 1000
            } else {
                0
            };
            1000 - if into <= 999 {
                into
            } else {
                999
            }
        } else {
            3_600_000
        }
    }

    /// Starts the quiz over, the clock reading `now_ms`.
    #[verifier::rlimit(30)]
    fn restart(&mut self, now_ms: u64)
        requires
            old(self).wf(),
        ensures
            final(self).wf(),
            restarted(old(self)@, final(self)@, now_ms as int),
    {
        let ghost v = self@;
        let n: usize = self.questions.len();
        let p = rearrange(
            &mut self.questions,
            &mut self.rng,
            self.config.shuffle_questions,
            self.config.shuffle_options,
        );
        proof {
            lemma_compose_permutations(p@, v.origin, n as int);
            assert forall|k: int| 0 <= k < n implies follows(#[trigger] self.questions@[k], v.source[compose(p@, v.origin)[k]]) by {
                assert(0 <= p@[k] < n);
                lemma_follows_reshuffled(self.questions@[k], v.questions[p@[k]], v.source[v.origin[p@[k]]]);
            }
            assert forall|j: int| 0 <= j < n implies (#[trigger] self.questions@[j]).options@.len() >= 1 by {
                assert(0 <= p@[j] < n);
                let q = choose|q: Seq<int>| rearranged_by(self.questions@[j].options@, v.questions[p@[j]].options@, q);
            }
            if !v.config.shuffle_questions {
                assert(compose(p@, v.origin) =~= v.origin);
            }
            if !v.config.shuffle_options {
                assert(rearranged_by(self.questions@, v.questions, p@));
            }
            if !v.config.shuffle_questions && !v.config.shuffle_options {
                assert(self.questions@ =~= v.questions);
            }
        }
        self.origin = Ghost(compose(p@, v.origin));
        self.question_index = 0;
        self.selected_option = self.next_start_index();
        self.answered = false;
        self.score = 0;
        clear_results(&mut self.question_results);
        proof {
            lemma_count_none(self.question_results@);
        }
        self.question_started_at = now_ms;
        self.timed_out = false;
        self.options_revealed = !self.config.hide_options_until_interact;
    }

    /// Reacts to a key press, the clock reading `now_ms`; `control` tells whether the
    /// control key was held. Returns whether the session is to end.
    #[verifier::rlimit(40)]
    pub fn handle_key(&mut self, key: Key, control: bool, now_ms: u64) -> (quit: bool)
        requires
            old(self).wf(),
        ensures
            final(self).wf(),
            quit == quits(key, control),
            key_step(old(self)@, final(self)@, key, control, now_ms as int),
    {
        let ghost v = self@;
        proof {
            assert(v.question_index < v.questions.len());
        }
        match key {
            Key::Char('q') | Key::Esc => return true,
            Key::Char('c') => {
                if control {
                    return true;
                }
            },
            _ => {},
        }
        if !self.options_revealed && !self.answered {
            self.options_revealed = true;
            self.question_started_at = now_ms;
            return false;
        }
        let up = match key {
            Key::Up | Key::Char('k') | Key::Char('w') => true,
            _ => false,
        };
        let down = match key {
            Key::Down | Key::Char('j') | Key::Char('s') => true,
            _ => false,
        };
        let enter = match key {
            Key::Enter => true,
            _ => false,
        };
        if up && !self.answered {
            if self.selected_option > 0 {
                self.selected_option = self.selected_option - 1;
            }
        } else if down && !self.answered {
            let last: usize = self.questions[self.question_index].options.len() - 1;
            if self.selected_option + 1 <= last {
                self.selected_option = self.selected_option + 1;
            } else {
                self.selected_option = last;
            }
        } else if enter && !self.answered {
            self.answer_selection();
        } else if enter {
            if self.question_index < self.questions.len() - 1 {
                self.advance(now_ms);
            } else {
                self.restart(now_ms);
            }
        }
        false
    }

    /// Gives the selected option as the answer to the current question.
    fn answer_selection(&mut self)
        requires
            old(self).wf(),
            !old(self)@.answered,
            old(self)@.options_revealed,
        ensures
            final(self).wf(),
            final(self)@ == answered_with_selection(old(self)@),
    {
        let ghost v = self@;
        let qi: usize = self.question_index;
        let count: usize = self.question_results.len();
        let correct = self.questions[qi].options[self.selected_option].eq(&self.questions[qi].answer);
        proof {
            lemma_count_update(v.results, qi as int, Some(correct));
            lemma_count_bounds(v.results.update(qi as int, Some(correct)));
        }
        self.answered = true;
        self.question_results.set(qi, Some(correct));
        if correct {
            proof {
                assert(self.score + 1 <= count);
            }
            self.score = self.score + 1;
        }
        proof {
            let w = self@;
            assert(w.results == v.results.update(qi as int, Some(correct)));
            assert forall|j: int| 0 <= j < w.question_index implies (#[trigger] w.results[j]) is Some by {
                assert(w.results[j] == v.results[j]);
            }
            assert forall|j: int| w.question_index < j < w.results.len() implies (#[trigger] w.results[j]) is None by {
                assert(w.results[j] == v.results[j]);
            }
            assert(w == answered_with_selection(v));
        }
    }

    /// Moves on to the next question, the clock reading `now_ms`.
    fn advance(&mut self, now_ms: u64)
        requires
            old(self).wf(),
            old(self)@.answered,
            old(self)@.question_index + 1 < old(self)@.questions.len(),
        ensures
            final(self).wf(),
            advanced(old(self)@, final(self)@, now_ms as int),
    {
        let ghost v = self@;
        assert(self.question_index + 1 < self.questions.len());
        self.question_index = self.question_index + 1;
        proof {
            let v = self@;
            assert(v.questions[v.question_index].options@.len() >= 1);
        }
        self.selected_option = self.next_start_index();
        self.answered = false;
        self.question_started_at = now_ms;
        self.timed_out = false;
        self.options_revealed = !self.config.hide_options_until_interact;
    }

    /// A session over `quiz`, started at `now_ms` on the caller's clock in milliseconds.
    /// A timer of zero seconds is no timer; the questions, and the options of each, are
    /// shuffled where the configuration asks for it.
    pub fn new(quiz: Quiz, config: Config, title: String, now_ms: u64) -> (app: App)
        requires
            playable(quiz),
        ensures
            app.wf(),
            app@.title == title@,
            app@.config == normalized(config),
            app@.source == quiz_questions(quiz),
            app@.question_index == 0,
            !app@.answered,
            !app@.timed_out,
            app@.score == 0,
            app@.results == Seq::new(app@.questions.len(), |i: int| None::<bool>),
            app@.options_revealed == !config.hide_options_until_interact,
            app@.started_ms == now_ms,
            start_rule(app@),
            !config.shuffle_questions ==> app@.origin == identity(app@.questions.len() as int),
            !config.shuffle_options ==> forall|i: int|
                0 <= i < app@.questions.len() ==> #[trigger] app@.questions[i]
                    == app@.source[app@.origin[i]],
    {
        let mut config = config;
        config.question_timer_seconds = match config.question_timer_seconds {
            Some(s) => if s > 0 {
                Some(s)
            } else {
                None
            },
            None => None,
        };
        let hide = config.hide_options_until_interact;
        let listed = runtime_questions(quiz);
        let ghost source = listed@;
        let n: usize = listed.len();
        let (questions, rng, origin) = arrange_questions(
            listed,
            config.shuffle_questions,
            config.shuffle_options,
        );
        let results = no_results(n);
        proof {
            lemma_count_none(results@);
            assert forall|j: int| 0 <= j < n implies (#[trigger] questions@[j]).options@.len() >= 1 by {
                assert(0 <= origin@[j] < n);
                let src = source[origin@[j]];
                let p = choose|p: Seq<int>| rearranged_by(questions@[j].options@, src.options@, p);
            }
        }
        let mut app = App {
            title,
            questions,
            question_index: 0,
            selected_option: 0,
            answered: false,
            score: 0,
            question_results: results,
            config,
            question_started_at: now_ms,
            timed_out: false,
            options_revealed: !hide,
            rng,
            source: Ghost(source),
            origin,
        };
        app.selected_option = app.next_start_index();
        app
    }
}

/// The questions of `quiz` as a session asks them, in file order.
fn runtime_questions(quiz: Quiz) -> (r: Vec<RuntimeQuestion>)
    ensures
        r@ == quiz_questions(quiz),
{
    let ghost source = quiz_questions(quiz);
    let n: usize = if quiz.questions.len() <= quiz.answers.len() {
        quiz.questions.len()
    } else {
        quiz.answers.len()
    };
    let ghost quiz_questions_before = quiz.questions@;
    let ghost quiz_answers_before = quiz.answers@;
    let mut qs = quiz.questions;
    let mut ans = quiz.answers;
    let mut questions: Vec<RuntimeQuestion> = Vec::new();
    let mut i: usize = 0;
    while i < n
        invariant
            i <= n,
            n <= qs.len(),
            n <= ans.len(),
            source.len() == n,
            forall|j: int| 0 <= j < n ==> #[trigger] source[j] == runtime_of(
                quiz_questions_before[j],
                quiz_answers_before[j],
            ),
            qs@.len() == quiz_questions_before.len(),
            ans@.len() == quiz_answers_before.len(),
            forall|j: int| i <= j < qs@.len() ==> #[trigger] qs@[j] == quiz_questions_before[j],
            forall|j: int| i <= j < ans@.len() ==> #[trigger] ans@[j] == quiz_answers_before[j],
            questions@ =~= source.take(i as int),
        decreases n - i,
    {
        let mut q = Question { question: String::new(), options: Vec::new(), explanation: None };
        qs.set_and_swap(i, &mut q);
        let mut a = Answer { answer: String::new() };
        ans.set_and_swap(i, &mut a);
        questions.push(
            RuntimeQuestion {
                prompt: q.question,
                options: q.options,
                answer: a.answer,
                explanation: q.explanation,
            },
        );
        i += 1;
    }
    proof {
        assert(questions@ =~= source);
    }
    questions
}

/// `n` results, none recorded.
fn no_results(n: usize) -> (r: Vec<Option<bool>>)
    ensures
        r@ == Seq::new(n as nat, |j: int| None::<bool>),
{
    let mut results: Vec<Option<bool>> = Vec::new();
    let mut k: usize = 0;
    while k < n
        invariant
            k <= n,
            results@ =~= Seq::new(k as nat, |j: int| None::<bool>),
        decreases n - k,
    {
        results.push(None);
        k += 1;
    }
    results
}

/// Every result cleared.
fn clear_results(results: &mut Vec<Option<bool>>)
    ensures
        final(results)@ == Seq::new(old(results)@.len(), |j: int| None::<bool>),
{
    let ghost n = results@.len();
    let mut k: usize = 0;
    while k < results.len()
        invariant
            k <= results.len(),
            results@.len() == n,
            forall|j: int| 0 <= j < k ==> (#[trigger] results@[j]) is None,
        decreases results.len() - k,
    {
        results.set(k, None);
        k += 1;
    }
    assert(results@ =~= Seq::new(n, |j: int| None::<bool>));
}

/// Puts `questions` in a random order where `shuffle_questions`, then the options of each
/// question where `shuffle_options`, with the generator in `rng`, made there where none
/// is yet. Question `k` afterwards is question `p[k]` before.
fn rearrange(
    questions: &mut Vec<RuntimeQuestion>,
    rng: &mut Option<ThreadRng>,
    shuffle_questions: bool,
    shuffle_options: bool,
) -> (p: Ghost<Seq<int>>)
    ensures
        final(questions)@.len() == old(questions)@.len(),
        is_permutation(p@, old(questions)@.len() as int),
        forall|k: int|
            0 <= k < old(questions)@.len() ==> reshuffled_options(
                #[trigger] final(questions)@[k],
                old(questions)@[p@[k]],
            ),
        !shuffle_questions ==> p@ == identity(old(questions)@.len() as int),
        !shuffle_options ==> forall|k: int|
            0 <= k < old(questions)@.len() ==> #[trigger] final(questions)@[k] == old(questions)@[p@[k]],
{
    let ghost before = questions@;
    let n: usize = questions.len();
    let ghost mut perm = identity(n as int);
    proof {
        lemma_identity(before);
    }
    if shuffle_questions {
        let mut generator = match rng.take() {
            Some(g) => g,
            None => new_rng(),
        };
        shuffle(questions, &mut generator);
        proof {
            perm = choose|p: Seq<int>| rearranged_by(questions@, before, p);
        }
        *rng = Some(generator);
    }
    let ghost middle = questions@;
    proof {
        assert forall|k: int| 0 <= k < n implies #[trigger] middle[k] == before[perm[k]] by {
            if shuffle_questions {
            } else {
                assert(middle[k] == before[k]);
            }
        }
    }
    if shuffle_options {
        let mut generator = match rng.take() {
            Some(g) => g,
            None => new_rng(),
        };
        shuffle_each_options(questions, &mut generator);
        *rng = Some(generator);
    }
    proof {
        assert forall|k: int| 0 <= k < n implies reshuffled_options(#[trigger] questions@[k], before[perm[k]]) by {
            if !shuffle_options {
                lemma_identity(questions@[k].options@);
            }
        }
    }
    Ghost(perm)
}

/// Puts `listed` in a random order where `shuffle_questions`, and the options of each
/// question where `shuffle_options`. Question `k` of the result asks question
/// `origin[k]` of `listed`. The generator is made only where one is needed.
fn arrange_questions(listed: Vec<RuntimeQuestion>, shuffle_questions: bool, shuffle_options: bool) -> (r: (
    Vec<RuntimeQuestion>,
    Option<ThreadRng>,
    Ghost<Seq<int>>,
))
    ensures
        r.0@.len() == listed@.len(),
        is_permutation(r.2@, listed@.len() as int),
        forall|k: int| 0 <= k < listed@.len() ==> follows(#[trigger] r.0@[k], listed@[r.2@[k]]),
        !shuffle_questions ==> r.2@ == identity(listed@.len() as int),
        !shuffle_options ==> forall|k: int|
            0 <= k < listed@.len() ==> #[trigger] r.0@[k] == listed@[r.2@[k]],
{
    let ghost source = listed@;
    let n: usize = listed.len();
    let mut questions = listed;
    let mut rng: Option<ThreadRng> = None;
    let p = rearrange(&mut questions, &mut rng, shuffle_questions, shuffle_options);
    proof {
        assert forall|k: int| 0 <= k < n implies follows(#[trigger] questions@[k], source[p@[k]]) by {
            assert(0 <= p@[k] < n);
            lemma_identity(source[p@[k]].options@);
            lemma_follows_reshuffled(questions@[k], source[p@[k]], source[p@[k]]);
        }
    }
    (questions, rng, p)
}

impl App {
    /// Sets up the session for the quiz at `quiz_path`, read into `quiz`, with `base` the
    /// settings from the configuration file: the quiz file's own `[config]` table overrides
    /// them, and the title is the file stem. Fails where that table breaks the schema.
    pub fn start(quiz_path: &str, quiz: Quiz, base: Config, now_ms: u64) -> (r: Result<App, AppError>)
        requires
            valid_quiz(quiz@),
            quiz.config is Some ==> (base.question_timer_seconds matches Some(s) ==> s <= i64::MAX),
        ensures
            match quiz.config {
                None => r matches Ok(app) && app@.config == normalized(base),
                Some(e) => match config_outcome(e@) {
                    Err(m) => r matches Err(err) && err.is_toml(quiz_path@, m),
                    Ok(_) => r matches Ok(app) && app@.config == normalized(resolved(base, e@)),
                },
            },
            r matches Ok(app) ==> {
                &&& app.wf()
                &&& app@.title == title_for(quiz_path@)
                &&& app@.source == quiz_questions(quiz)
                &&& app@.question_index == 0
                &&& !app@.answered
                &&& !app@.timed_out
                &&& app@.score == 0
                &&& app@.results == Seq::new(app@.questions.len(), |i: int| None::<bool>)
                &&& app@.options_revealed == !app@.config.hide_options_until_interact
                &&& app@.started_ms == now_ms
            },
    {
        let Quiz { questions, answers, config: embedded } = quiz;
        let quiz = Quiz { questions, answers, config: None };
        let config = match Config::resolve(base, quiz_path, embedded) {
            Ok(c) => c,
            Err(e) => return Err(e),
        };
        let title = quiz_title(quiz_path);
        proof {
            lemma_valid_quiz_is_playable(quiz);
        }
        Ok(App::new(quiz, config, title, now_ms))
    }
}

} // verus!
