use vstd::prelude::*;

use crate::error::AppError;
use crate::locate::{excerpt, excerpt_of, locate_key, location, location_view};
use crate::quiz::{Answer, Question, QuestionView};
use crate::rules::{
    labelled, label, option_bad, options_outcome, options_value, string_content, string_outcome,
    string_value,
};
use crate::search::{first_where, lemma_first_where_found, lemma_first_where_none};
use crate::text::{all_whitespace, chars_of, decimal, push_all, push_decimal};
use crate::toml::{find_key, has_key, TomlEntry, TomlValue};

verus! {

/// What goes wrong first with question `n` of table `t`, if anything.
pub open spec fn question_error(t: Seq<TomlEntry>, n: nat) -> Option<Seq<char>> {
    match string_outcome(t, labelled('q', n)) {
        Err(m) => Some(m),
        Ok(_) => match options_outcome(t, labelled('o', n)) {
            Err(m) => Some(m),
            Ok(_) => match string_outcome(t, labelled('a', n)) {
                Err(m) => Some(m),
                Ok(_) => if has_key(t, labelled('e', n)) {
                    match string_outcome(t, labelled('e', n)) {
                        Err(m) => Some(m),
                        Ok(_) => None,
                    }
                } else {
                    None
                },
            },
        },
    }
}

/// A question that keeps the rules of the quiz format: a non-blank prompt, at least two
/// distinct non-blank options, a non-blank answer that is one of them, and a non-blank
/// explanation when there is one.
pub open spec fn valid_question(q: QuestionView, answer: Seq<char>) -> bool {
    &&& !all_whitespace(q.question)
    &&& q.options.len() >= 2
    &&& forall|i: int| 0 <= i < q.options.len() ==> !all_whitespace(#[trigger] q.options[i])
    &&& forall|i: int, j: int| 0 <= i < j < q.options.len() ==> q.options[i] != q.options[j]
    &&& q.options.contains(answer)
    &&& !all_whitespace(answer)
    &&& q.explanation matches Some(e) ==> !all_whitespace(e)
}

/// The questions, 1-based number `k + 1`, that have something wrong.
pub open spec fn question_fails(t: Seq<TomlEntry>) -> spec_fn(int) -> bool {
    |k: int| question_error(t, (k + 1) as nat) is Some
}

/// Question `n` of table `t`, when it has nothing wrong.
pub open spec fn question_view(t: Seq<TomlEntry>, n: nat) -> QuestionView {
    QuestionView {
        question: string_outcome(t, labelled('q', n))->Ok_0,
        options: options_outcome(t, labelled('o', n))->Ok_0,
        explanation: if has_key(t, labelled('e', n)) {
            Some(string_outcome(t, labelled('e', n))->Ok_0)
        } else {
            None
        },
    }
}

/// The answer to question `n` of table `t`, when it has nothing wrong.
pub open spec fn answer_view(t: Seq<TomlEntry>, n: nat) -> Seq<char> {
    string_outcome(t, labelled('a', n))->Ok_0
}

/// Question `n` has an answer that is not one of its options.
pub open spec fn answer_invalid(t: Seq<TomlEntry>, n: nat) -> bool {
    !question_view(t, n).options.contains(answer_view(t, n))
}

/// The numbers up to `k`, ascending, of questions whose answer is not an option.
pub open spec fn invalid_answers(t: Seq<TomlEntry>, k: nat) -> Seq<nat>
    decreases k,
{
    if k == 0 {
        Seq::empty()
    } else {
        invalid_answers(t, (k - 1) as nat) + if answer_invalid(t, k) {
            seq![k]
        } else {
            Seq::empty()
        }
    }
}

/// The greater of two numbers.
pub open spec fn max_nat(a: nat, b: nat) -> nat {
    if a < b {
        b
    } else {
        a
    }
}

/// The line of a location, or 1 when there is none.
pub open spec fn line_or_one(l: Option<(nat, nat, Seq<char>)>) -> nat {
    match l {
        Some((line, _, _)) => line,
        None => 1,
    }
}

/// The last line number that the report for the answers `ms` shows, or 1.
pub open spec fn max_line(source: Seq<char>, ms: Seq<nat>) -> nat
    decreases ms.len(),
{
    if ms.len() == 0 {
        1
    } else {
        let n = ms.last();
        let o = location(source, "quiczk"@, labelled('o', n));
        let a = location(source, "quiczk"@, labelled('a', n));
        let own = if o is None && a is None {
            1
        } else if o is None {
            line_or_one(a)
        } else if a is None {
            line_or_one(o)
        } else {
            max_nat(line_or_one(o), line_or_one(a))
        };
        max_nat(max_line(source, ms.drop_last()), own)
    }
}

/// The excerpts for the answers `ms`, line numbers `width` wide.
pub open spec fn excerpts(source: Seq<char>, ms: Seq<nat>, width: nat) -> Seq<char>
    decreases ms.len(),
{
    if ms.len() == 0 {
        Seq::empty()
    } else {
        let n = ms.last();
        excerpts(source, ms.drop_last(), width) + excerpt(
            location(source, "quiczk"@, labelled('o', n)),
            location(source, "quiczk"@, labelled('a', n)),
            width,
        )
    }
}

/// The report of the invalid answers `ms`: how many, then where each stands.
pub open spec fn answer_report(source: Seq<char>, ms: Seq<nat>) -> Seq<char> {
    decimal(ms.len()) + " invalid answer"@ + (if ms.len() == 1 {
        Seq::empty()
    } else {
        "s"@
    }) + excerpts(source, ms, decimal(max_line(source, ms)).len())
}

/// The questions and answers of table `t`, numbered 1 to `count`, or what is wrong first.
pub open spec fn questions_outcome(source: Seq<char>, t: Seq<TomlEntry>, count: nat) -> Result<
    (Seq<QuestionView>, Seq<Seq<char>>),
    Seq<char>,
> {
    match first_where(count as int, question_fails(t)) {
        Some(k) => Err(question_error(t, (k + 1) as nat)->Some_0),
        None => {
            let ms = invalid_answers(t, count);
            if ms.len() > 0 {
                Err(answer_report(source, ms))
            } else {
                Ok(
                    (
                        Seq::new(count, |k: int| question_view(t, (k + 1) as nat)),
                        Seq::new(count, |k: int| answer_view(t, (k + 1) as nat)),
                    ),
                )
            }
        },
    }
}

/// Whether `options` holds `answer`.
fn contains_text(options: &Vec<String>, answer: &String) -> (r: bool)
    ensures
        r == options@.map_values(|s: String| s@).contains(answer@),
{
    let ghost views = options@.map_values(|s: String| s@);
    let mut k: usize = 0;
    while k < options.len()
        invariant
            k <= options.len(),
            views == options@.map_values(|s: String| s@),
            forall|j: int| 0 <= j < k ==> views[j] != answer@,
        decreases options.len() - k,
    {
        if options[k].eq(answer) {
            assert(views[k as int] == answer@);
            return true;
        }
        k += 1;
    }
    false
}

/// The greater of two numbers.
fn max_usize(a: usize, b: usize) -> (r: usize)
    ensures
        r as nat == max_nat(a as nat, b as nat),
{
    if a < b {
        b
    } else {
        a
    }
}

/// The line of a location, or 1.
fn line_or_one_exec(l: &Option<(usize, usize, String)>) -> (r: usize)
    ensures
        r as nat == line_or_one(location_view(*l)),
{
    match l {
        Some((line, _, _)) => *line,
        None => 1,
    }
}

/// The report of the invalid answers numbered `ms`, located in `source`.
fn report(source: &str, ms: &Vec<usize>, locations: &Vec<(Option<(usize, usize, String)>, Option<(usize, usize, String)>)>) -> (r: String)
    requires
        locations.len() == ms.len(),
        forall|k: int|
            0 <= k < ms.len() ==> location_view((#[trigger] locations@[k]).0) == location(
                source@,
                "quiczk"@,
                labelled('o', ms@[k] as nat),
            ) && location_view(locations@[k].1) == location(
                source@,
                "quiczk"@,
                labelled('a', ms@[k] as nat),
            ),
    ensures
        r@ == answer_report(source@, ms@.map_values(|n: usize| n as nat)),
{
    let ghost nums = ms@.map_values(|n: usize| n as nat);
    let mut max: usize = 1;
    let mut k: usize = 0;
    while k < ms.len()
        invariant
            k <= ms.len(),
            locations.len() == ms.len(),
            nums == ms@.map_values(|n: usize| n as nat),
            forall|j: int|
                0 <= j < ms.len() ==> location_view((#[trigger] locations@[j]).0) == location(
                    source@,
                    "quiczk"@,
                    labelled('o', ms@[j] as nat),
                ) && location_view(locations@[j].1) == location(
                    source@,
                    "quiczk"@,
                    labelled('a', ms@[j] as nat),
                ),
            max as nat == max_line(source@, nums.take(k as int)),
        decreases ms.len() - k,
    {
        let (option_location, answer_location) = &locations[k];
        let own = if option_location.is_none() && answer_location.is_none() {
            1
        } else if option_location.is_none() {
            line_or_one_exec(answer_location)
        } else if answer_location.is_none() {
            line_or_one_exec(option_location)
        } else {
            max_usize(line_or_one_exec(option_location), line_or_one_exec(answer_location))
        };
        max = max_usize(max, own);
        proof {
            assert(nums.take(k + 1).drop_last() =~= nums.take(k as int));
            assert(nums.take(k + 1).last() == ms@[k as int] as nat);
        }
        k += 1;
    }
    assert(nums.take(k as int) =~= nums);
    let mut digits = String::new();
    push_decimal(&mut digits, max as u64);
    let width = chars_of(digits.as_str()).len();
    let mut out = String::new();
    push_decimal(&mut out, ms.len() as u64);
    push_all(&mut out, " invalid answer");
    if ms.len() != 1 {
        push_all(&mut out, "s");
    }
    let ghost head = out@;
    let mut k: usize = 0;
    while k < ms.len()
        invariant
            k <= ms.len(),
            locations.len() == ms.len(),
            nums == ms@.map_values(|n: usize| n as nat),
            forall|j: int|
                0 <= j < ms.len() ==> location_view((#[trigger] locations@[j]).0) == location(
                    source@,
                    "quiczk"@,
                    labelled('o', ms@[j] as nat),
                ) && location_view(locations@[j].1) == location(
                    source@,
                    "quiczk"@,
                    labelled('a', ms@[j] as nat),
                ),
            out@ == head + excerpts(source@, nums.take(k as int), width as nat),
        decreases ms.len() - k,
    {
        let piece = excerpt_of(&locations[k].0, &locations[k].1, width);
        push_all(&mut out, piece.as_str());
        proof {
            assert(nums.take(k + 1).drop_last() =~= nums.take(k as int));
            assert(nums.take(k + 1).last() == ms@[k as int] as nat);
        }
        k += 1;
    }
    assert(nums.take(k as int) =~= nums);
    assert(out@ =~= answer_report(source@, nums));
    out
}

/// The questions and answers of the `[quiczk]` table, numbered 1 to `count`, or the first
/// thing wrong with them.
#[verifier::rlimit(40)]
pub fn build_questions(table: &Vec<TomlEntry>, count: usize, source: &str, path: &str) -> (r: Result<
    (Vec<Question>, Vec<Answer>),
    AppError,
>)
    ensures
        match questions_outcome(source@, table@, count as nat) {
            Ok((qs, ans)) => r matches Ok((q, a)) && q@.map_values(|x: Question| x@) == qs
                && a@.map_values(|x: Answer| x.answer@) == ans,
            Err(m) => r matches Err(e) && e.is_validation(path@, m),
        },
        r is Ok ==> forall|k: int| 0 <= k < count ==> valid_question(
            #[trigger] question_view(table@, (k + 1) as nat),
            answer_view(table@, (k + 1) as nat),
        ),
{
    let ghost t = table@;
    let ghost fails = question_fails(t);
    let mut questions: Vec<Question> = Vec::new();
    let mut answers: Vec<Answer> = Vec::new();
    let mut invalid: Vec<usize> = Vec::new();
    let mut locations: Vec<(Option<(usize, usize, String)>, Option<(usize, usize, String)>)> =
        Vec::new();
    let mut k: usize = 0;
    while k < count
        invariant
            k <= count,
            t == table@,
            fails == question_fails(t),
            questions.len() == k,
            answers.len() == k,
            forall|j: int| 0 <= j < k ==> !#[trigger] fails(j),
            questions@.map_values(|x: Question| x@) == Seq::new(
                k as nat,
                |j: int| question_view(t, (j + 1) as nat),
            ),
            answers@.map_values(|x: Answer| x.answer@) == Seq::new(
                k as nat,
                |j: int| answer_view(t, (j + 1) as nat),
            ),
            invalid@.map_values(|n: usize| n as nat) == invalid_answers(t, k as nat),
            locations.len() == invalid.len(),
            forall|j: int|
                0 <= j < invalid.len() ==> location_view((#[trigger] locations@[j]).0) == location(
                    source@,
                    "quiczk"@,
                    labelled('o', invalid@[j] as nat),
                ) && location_view(locations@[j].1) == location(
                    source@,
                    "quiczk"@,
                    labelled('a', invalid@[j] as nat),
                ),
        decreases count - k,
    {
        let n: usize = k + 1;
        let question_key = label('q', n);
        let option_key = label('o', n);
        let answer_key = label('a', n);
        let explanation_key = label('e', n);
        let question = match string_value(table, question_key.as_str(), path) {
            Ok(v) => v,
            Err(e) => {
                proof {
                    assert(fails(k as int));
                    lemma_first_where_found(count as int, fails, k as int);
                }
                return Err(e);
            },
        };
        let options = match options_value(table, option_key.as_str(), path) {
            Ok(v) => v,
            Err(e) => {
                proof {
                    assert(fails(k as int));
                    lemma_first_where_found(count as int, fails, k as int);
                }
                return Err(e);
            },
        };
        let answer = match string_value(table, answer_key.as_str(), path) {
            Ok(v) => v,
            Err(e) => {
                proof {
                    assert(fails(k as int));
                    lemma_first_where_found(count as int, fails, k as int);
                }
                return Err(e);
            },
        };
        let explanation = if find_key(table, explanation_key.as_str()).is_some() {
            match string_value(table, explanation_key.as_str(), path) {
                Ok(v) => Some(v),
                Err(e) => {
                    proof {
                        assert(fails(k as int));
                        lemma_first_where_found(count as int, fails, k as int);
                    }
                    return Err(e);
                },
            }
        } else {
            None
        };
        proof {
            assert(!fails(k as int));
        }
        let ghost before_invalid = invalid@;
        if !contains_text(&options, &answer) {
            let option_location = locate_key(source, "quiczk", option_key.as_str());
            let answer_location = locate_key(source, "quiczk", answer_key.as_str());
            invalid.push(n);
            locations.push((option_location, answer_location));
        }
        let item = Question { question, options, explanation };
        assert(item@ == question_view(t, n as nat));
        assert(answer@ == answer_view(t, n as nat));
        let ghost old_questions = questions@;
        let ghost old_answers = answers@;
        let ghost item_view = item@;
        let ghost answer_text = answer@;
        questions.push(item);
        answers.push(Answer { answer });
        proof {
            assert(questions@[k as int]@ == item_view);
            assert(answers@[k as int].answer@ == answer_text);
            assert forall|j: int| 0 <= j < k + 1 implies questions@[j]@ == question_view(t, (j + 1) as nat) by {
                if j < k {
                    assert(questions@[j] == old_questions[j]);
                    assert(old_questions.map_values(|x: Question| x@)[j] == question_view(t, (j + 1) as nat));
                } else {
                    assert(questions@[j] == questions@[k as int]);
                }
            }
            assert forall|j: int| 0 <= j < k + 1 implies answers@[j].answer@ == answer_view(t, (j + 1) as nat) by {
                if j < k {
                    assert(answers@[j] == old_answers[j]);
                    assert(old_answers.map_values(|x: Answer| x.answer@)[j] == answer_view(t, (j + 1) as nat));
                }
            }
            assert(questions@.map_values(|x: Question| x@) =~= Seq::new(
                (k + 1) as nat,
                |j: int| question_view(t, (j + 1) as nat),
            ));
            assert(answers@.map_values(|x: Answer| x.answer@) =~= Seq::new(
                (k + 1) as nat,
                |j: int| answer_view(t, (j + 1) as nat),
            ));
            assert(invalid@.map_values(|m: usize| m as nat) =~= invalid_answers(t, (k + 1) as nat));
        }
        k += 1;
    }
    proof {
        lemma_first_where_none(count as int, fails);
    }
    if invalid.len() > 0 {
        let message = report(source, &invalid, &locations);
        return Err(AppError::validation(path, message));
    }
    proof {
        assert(invalid_answers(t, count as nat).len() == 0);
        lemma_no_invalid_answers(t, count as nat);
        assert forall|k: int| 0 <= k < count implies valid_question(
            #[trigger] question_view(t, (k + 1) as nat),
            answer_view(t, (k + 1) as nat),
        ) by {
            assert(!fails(k));
            lemma_question_valid(t, (k + 1) as nat);
        }
    }
    Ok((questions, answers))
}

/// No invalid answers up to `k` means every answer up to `k` is among its options.
proof fn lemma_no_invalid_answers(t: Seq<TomlEntry>, k: nat)
    requires
        invalid_answers(t, k).len() == 0,
    ensures
        forall|n: nat| 1 <= n <= k ==> !#[trigger] answer_invalid(t, n),
    decreases k,
{
    if k > 0 {
        lemma_no_invalid_answers(t, (k - 1) as nat);
    }
}

/// A question with nothing wrong and a valid answer keeps the rules of the quiz format.
proof fn lemma_question_valid(t: Seq<TomlEntry>, n: nat)
    requires
        question_error(t, n) is None,
        !answer_invalid(t, n),
    ensures
        valid_question(question_view(t, n), answer_view(t, n)),
{
    let key = labelled('o', n);
    let items = lookup_items(t, key);
    let bad = option_bad(items);
    assert forall|j: int| 0 <= j < items.len() implies !#[trigger] bad(j) by {
        if bad(j) {
            crate::search::lemma_first_where_exists(items.len() as int, bad, j);
        }
    }
    let options = question_view(t, n).options;
    assert forall|i: int| 0 <= i < options.len() implies !all_whitespace(#[trigger] options[i]) by {
        assert(!bad(i));
    }
    assert forall|i: int, j: int| 0 <= i < j < options.len() implies options[i] != options[j] by {
        assert(!bad(j));
        assert(!bad(i));
        if options[i] == options[j] {
            assert(string_content(items[i]) == string_content(items[j]));
            assert(items[i] is String);
        }
    }
}

/// The items of the array stored under `key`, when there is one.
pub open spec fn lookup_items(t: Seq<TomlEntry>, key: Seq<char>) -> Seq<TomlValue> {
    match crate::toml::lookup(t, key) {
        Some(TomlValue::Array(items)) => items@,
        _ => Seq::empty(),
    }
}

} // verus!
