use vstd::prelude::*;

use crate::session::{app_wf, App, AppView};
use crate::text::{decimal, push_all, push_decimal};

verus! {

/// How a progress marker is coloured: a correct answer, a wrong one, the current
/// question, or one still to come.
#[derive(Clone, Copy, Debug, PartialEq, Eq)]
pub enum Tone {
    Correct,
    Wrong,
    Current,
    Pending,
}

/// How an option is marked: under the cursor, unmarked, the correct answer, the wrong
/// answer given, or dimmed after the answer.
#[derive(Clone, Copy, Debug, PartialEq, Eq)]
pub enum Mark {
    Cursor,
    Plain,
    Right,
    Wrong,
    Dimmed,
}

/// One line of the question area below the progress display, in the order shown.
#[derive(Clone, Copy, Debug, PartialEq, Eq)]
pub enum ScreenLine {
    /// An empty line.
    Blank,
    /// The 1-based number of the current question.
    Number(usize),
    /// The prompt of the current question.
    Prompt,
    /// The notice that a key reveals the options.
    RevealHint,
    /// Option `index` of the current question, with its mark.
    Choice(usize, Mark),
    /// The explanation of the current question.
    Explanation,
    /// The score line.
    Score,
    /// The instruction what to do next.
    Instruction,
    /// The hint how to quit.
    QuitHint,
}

/// The lines of the question area for session `v`: the question's number and prompt,
/// then its options (or the notice that a key reveals them), and once it has a result
/// its explanation where it has one, the score after the last question, the instruction
/// and the hint how to quit.
pub open spec fn screen_lines_of(v: AppView) -> Seq<ScreenLine> {
    let q = v.questions[v.question_index];
    seq![
        ScreenLine::Blank,
        ScreenLine::Number((v.question_index + 1) as usize),
        ScreenLine::Prompt,
        ScreenLine::Blank,
    ] + (if !v.options_revealed {
        seq![ScreenLine::RevealHint]
    } else {
        Seq::new(q.options@.len(), |k: int| ScreenLine::Choice(k as usize, mark_of(v, k)))
    }) + match v.results[v.question_index] {
        None => Seq::empty(),
        Some(_) => (if q.explanation is Some {
            seq![ScreenLine::Blank, ScreenLine::Explanation]
        } else {
            Seq::empty()
        }) + seq![ScreenLine::Blank] + (if on_last_question(v) {
            seq![ScreenLine::Score]
        } else {
            Seq::empty()
        }) + seq![ScreenLine::Instruction, ScreenLine::QuitHint],
    }
}

/// Once the current question has a result, whether right or wrong, the question area
/// shows its explanation exactly when it has one: right after the options, a blank line
/// and then the explanation.
pub proof fn lemma_explanation_shown_for_any_result(v: AppView)
    requires
        app_wf(v),
        v.results[v.question_index] is Some,
    ensures
        screen_lines_of(v).contains(ScreenLine::Explanation) <==> v.questions[v.question_index].explanation is Some,
        v.questions[v.question_index].explanation is Some ==> {
            &&& 4 + v.questions[v.question_index].options@.len() + 1 < screen_lines_of(v).len()
            &&& screen_lines_of(v)[4 + v.questions[v.question_index].options@.len() as int] == ScreenLine::Blank
            &&& screen_lines_of(v)[4 + v.questions[v.question_index].options@.len() as int + 1]
                == ScreenLine::Explanation
        },
{
    let q = v.questions[v.question_index];
    let m = q.options@.len() as int;
    let lines = screen_lines_of(v);
    assert(v.options_revealed);
    let head = seq![ScreenLine::Blank, ScreenLine::Number((v.question_index + 1) as usize), ScreenLine::Prompt, ScreenLine::Blank];
    let opts = Seq::new(q.options@.len(), |k: int| ScreenLine::Choice(k as usize, mark_of(v, k)));
    let expl = if q.explanation is Some {
        seq![ScreenLine::Blank, ScreenLine::Explanation]
    } else {
        Seq::<ScreenLine>::empty()
    };
    let rest = seq![ScreenLine::Blank] + (if on_last_question(v) {
        seq![ScreenLine::Score]
    } else {
        Seq::<ScreenLine>::empty()
    }) + seq![ScreenLine::Instruction, ScreenLine::QuitHint];
    assert(lines =~= head + opts + (expl + rest));
    assert forall|k: int| 0 <= k < rest.len() implies rest[k] != ScreenLine::Explanation by {
        if on_last_question(v) {
            assert(rest =~= seq![ScreenLine::Blank, ScreenLine::Score, ScreenLine::Instruction, ScreenLine::QuitHint]);
        } else {
            assert(rest =~= seq![ScreenLine::Blank, ScreenLine::Instruction, ScreenLine::QuitHint]);
        }
    }
    if q.explanation is Some {
        assert(lines[4 + m] == ScreenLine::Blank);
        assert(lines[4 + m + 1] == ScreenLine::Explanation);
    } else {
        assert forall|k: int| 0 <= k < lines.len() implies lines[k] != ScreenLine::Explanation by {
            if k < 4 {
                assert(lines[k] == head[k]);
            } else if k < 4 + m {
                assert(lines[k] == opts[k - 4]);
            } else {
                assert(lines[k] == rest[k - 4 - m]);
            }
        }
    }
}

/// The part of `line` that is shown in a style of its own before the rest: an option's
/// mark, or the label of the explanation.
pub open spec fn line_lead(line: ScreenLine) -> Seq<char> {
    match line {
        ScreenLine::Choice(_, mark) => mark_str(mark),
        ScreenLine::Explanation => "Explanation: "@,
        _ => Seq::empty(),
    }
}

/// The rest of `line` for session `v`.
pub open spec fn line_body(v: AppView, line: ScreenLine) -> Seq<char> {
    let q = v.questions[v.question_index];
    match line {
        ScreenLine::Blank => Seq::empty(),
        ScreenLine::Number(n) => decimal(n as nat) + "."@,
        ScreenLine::Prompt => q.prompt@,
        ScreenLine::RevealHint => "Press any key to reveal options."@,
        ScreenLine::Choice(index, _) => q.options@[index as int]@,
        ScreenLine::Explanation => match q.explanation {
            Some(e) => e@,
            None => Seq::empty(),
        },
        ScreenLine::Score => score_text(v),
        ScreenLine::Instruction => instruction_text(v),
        ScreenLine::QuitHint => "Press q or ctrl-c to quit."@,
    }
}

/// The text of `line` for session `v`.
pub open spec fn line_text(v: AppView, line: ScreenLine) -> Seq<char> {
    line_lead(line) + line_body(v, line)
}

/// `line` can be shown for session `v`: an option's line names an option of the current
/// question.
pub open spec fn line_shown(v: AppView, line: ScreenLine) -> bool {
    line matches ScreenLine::Choice(index, _) ==> index < v.questions[v.question_index].options@.len()
}

/// The width in terminal columns of `text` shown as one line, as `ratatui` measures it.
pub uninterp spec fn line_width(text: Seq<char>) -> nat;

/// The width of `text` as `ratatui::text::Line::raw(text).width()` gives it: the Unicode
/// display widths of its parts between line breaks, added up. Claimed: the result is a
/// function of `text` alone, named `line_width`.
#[verifier::external_body]
fn line_width_of(text: &str) -> (w: usize)
    ensures
        w == line_width(text@),
{
    ratatui::text::Line::raw(text).width()
}

/// "question" or "questions", as `n` asks.
pub open spec fn question_noun(n: int) -> Seq<char> {
    if n == 1 {
        "question"@
    } else {
        "questions"@
    }
}

/// The header of the progress line: the title, the number of questions, the seconds left
/// where a timer runs, and a closing space.
pub open spec fn header_text(title: Seq<char>, n: nat, remaining: Option<u64>) -> Seq<char> {
    title + " | "@ + decimal(n) + " "@ + question_noun(n as int) + match remaining {
        Some(s) => " | ["@ + decimal(s as nat) + "s]"@,
        None => Seq::empty(),
    } + " "@
}

/// How many markers fit on a row after the header, whose width is `prefix`, on a screen
/// `width` columns wide, one column between markers; at least one.
pub open spec fn row_capacity(prefix: int, width: int) -> int {
    if prefix < width {
        (width - prefix + 1) / 2
    } else {
        1
    }
}

/// `m` markers laid out in rows of `cap`, the last row holding what is left.
pub open spec fn chunks(m: int, cap: int) -> Seq<int>
    decreases m,
{
    if m <= 0 || cap <= 0 {
        Seq::empty()
    } else if m <= cap {
        seq![m]
    } else {
        seq![cap] + chunks(m - cap, cap)
    }
}

/// The number of markers on each row of the progress display: the header's row takes
/// what fits after the header (none where the header fills the screen), each further
/// row, indented by the header's width, as many as fit but at least one.
pub open spec fn marker_rows_spec(prefix: int, width: int, n: int) -> Seq<int> {
    let w = if width >= 1 {
        width
    } else {
        1
    };
    let cap = row_capacity(prefix, w);
    let first = if prefix < w {
        if n <= cap {
            n
        } else {
            cap
        }
    } else {
        0
    };
    seq![first] + chunks(n - first, cap)
}

/// The total of a sequence of numbers.
pub open spec fn total(s: Seq<int>) -> int
    decreases s.len(),
{
    if s.len() == 0 {
        0
    } else {
        s[0] + total(s.drop_first())
    }
}

/// Rows of `cap` hold all `m` markers, none empty.
pub proof fn lemma_chunks_total(m: int, cap: int)
    requires
        m >= 0,
        cap >= 1,
    ensures
        total(chunks(m, cap)) == m,
        forall|k: int| 0 <= k < chunks(m, cap).len() ==> 1 <= #[trigger] chunks(m, cap)[k] <= cap,
    decreases m,
{
    if m > cap {
        lemma_chunks_total(m - cap, cap);
        let rest = chunks(m - cap, cap);
        assert(chunks(m, cap) == seq![cap] + rest);
        assert((seq![cap] + rest)[0] == cap);
        assert((seq![cap] + rest).drop_first() =~= rest);
        assert(total(chunks(m, cap)) == cap + total(rest));
        assert forall|k: int| 0 <= k < chunks(m, cap).len() implies 1 <= #[trigger] chunks(m, cap)[k]
            <= cap by {
            if k > 0 {
                assert(chunks(m, cap)[k] == rest[k - 1]);
            }
        }
    } else if m > 0 {
        assert(chunks(m, cap) == seq![m]);
        assert(seq![m].drop_first() =~= Seq::<int>::empty());
        assert(total(seq![m]) == m + total(Seq::<int>::empty()));
    }
}

/// The progress display shows exactly one marker per question, every row after the
/// header's holding at least one.
pub proof fn lemma_one_marker_per_question(prefix: int, width: int, n: int)
    requires
        prefix >= 0,
        n >= 0,
    ensures
        total(marker_rows_spec(prefix, width, n)) == n,
        forall|k: int|
            1 <= k < marker_rows_spec(prefix, width, n).len() ==> #[trigger] marker_rows_spec(
                prefix,
                width,
                n,
            )[k] >= 1,
{
    let w = if width >= 1 {
        width
    } else {
        1
    };
    let cap = row_capacity(prefix, w);
    let first = if prefix < w {
        if n <= cap {
            n
        } else {
            cap
        }
    } else {
        0
    };
    assert(cap >= 1);
    lemma_chunks_total(n - first, cap);
    let rows = marker_rows_spec(prefix, width, n);
    assert(rows.drop_first() =~= chunks(n - first, cap));
    assert forall|k: int| 1 <= k < rows.len() implies #[trigger] rows[k] >= 1 by {
        assert(rows[k] == chunks(n - first, cap)[k - 1]);
    }
}

/// No row of the progress display holds a negative number of markers.
pub proof fn lemma_rows_nonnegative(prefix: int, width: int, n: int)
    requires
        prefix >= 0,
        n >= 0,
    ensures
        forall|k: int|
            0 <= k < marker_rows_spec(prefix, width, n).len() ==> #[trigger] marker_rows_spec(
                prefix,
                width,
                n,
            )[k] >= 0,
{
    lemma_one_marker_per_question(prefix, width, n);
    let rows = marker_rows_spec(prefix, width, n);
    assert(rows[0] >= 0);
}

/// `c` markers joined by single spaces.
pub open spec fn markers(c: nat) -> Seq<char>
    decreases c,
{
    if c == 0 {
        Seq::empty()
    } else if c == 1 {
        seq!['■']
    } else {
        markers((c - 1) as nat) + seq![' ', '■']
    }
}

/// `n` spaces.
pub open spec fn spaces(n: nat) -> Seq<char> {
    Seq::new(n, |i: int| ' ')
}

/// The text of row `k` of the progress display, holding `c` markers: the header on the
/// first row, as many spaces as the header is wide (`prefix`) on the others.
pub open spec fn row_text(header: Seq<char>, prefix: nat, k: int, c: nat) -> Seq<char> {
    (if k == 0 {
        header
    } else {
        spaces(prefix)
    }) + markers(c)
}

/// The tones of `c` markers from question `start` on.
pub open spec fn row_tones(v: AppView, start: int, c: nat) -> Seq<Tone> {
    Seq::new(c, |j: int| tone_of(v.results[start + j], start + j, v.question_index))
}

/// `c` markers take `2c - 1` characters, none take none.
pub proof fn lemma_markers_len(c: nat)
    ensures
        markers(c).len() == if c == 0 {
            0
        } else {
            2 * c - 1
        },
    decreases c,
{
    if c > 1 {
        lemma_markers_len((c - 1) as nat);
    }
}

/// Adding a number to the end adds it to the total.
pub proof fn lemma_total_push(s: Seq<int>, x: int)
    ensures
        total(s.push(x)) == total(s) + x,
    decreases s.len(),
{
    if s.len() > 0 {
        lemma_total_push(s.drop_first(), x);
        assert(s.push(x).drop_first() =~= s.drop_first().push(x));
        assert(s.push(x)[0] == s[0]);
    } else {
        assert(s.push(x).drop_first() =~= Seq::<int>::empty());
        assert(total(Seq::<int>::empty()) == 0);
        assert(s.push(x)[0] == x);
    }
}

/// The totals of the prefixes of a sequence of non-negative numbers grow to its total.
pub proof fn lemma_total_prefix(s: Seq<int>, k: int)
    requires
        0 <= k < s.len(),
        forall|j: int| 0 <= j < s.len() ==> s[j] >= 0,
    ensures
        total(s.take(k + 1)) == total(s.take(k)) + s[k],
        total(s.take(k + 1)) <= total(s),
    decreases s.len() - k,
{
    assert(s.take(k + 1) =~= s.take(k).push(s[k]));
    lemma_total_push(s.take(k), s[k]);
    if k + 1 < s.len() {
        lemma_total_prefix(s, k + 1);
    } else {
        assert(s.take(k + 1) =~= s);
    }
}

/// No row of the progress display is wider than the screen, or than the header with one
/// marker where the header alone fills the screen: the prefix (the header, or spaces as
/// wide) and the markers take at most that many columns.
pub proof fn lemma_rows_fit(prefix: int, width: int, n: int)
    requires
        prefix >= 0,
        width >= 0,
        n >= 0,
    ensures
        forall|k: int|
            0 <= k < marker_rows_spec(prefix, width, n).len() ==> prefix + markers(
                #[trigger] marker_rows_spec(prefix, width, n)[k] as nat,
            ).len() <= if width >= prefix + 1 {
                width
            } else {
                prefix + 1
            },
{
    let w = if width >= 1 {
        width
    } else {
        1
    };
    let cap = row_capacity(prefix, w);
    let first = if prefix < w {
        if n <= cap {
            n
        } else {
            cap
        }
    } else {
        0
    };
    lemma_chunks_total(n - first, cap);
    let rows = marker_rows_spec(prefix, width, n);
    assert forall|k: int| 0 <= k < rows.len() implies prefix + markers(#[trigger] rows[k] as nat).len()
        <= if width >= prefix + 1 {
        width
    } else {
        prefix + 1
    } by {
        let c = rows[k];
        assert(0 <= c <= cap) by {
            if k > 0 {
                assert(rows[k] == chunks(n - first, cap)[k - 1]);
            }
        }
        lemma_markers_len(c as nat);
        if prefix < w && c >= 1 {
            assert(2 * c - 1 <= w - prefix) by (nonlinear_arith)
                requires
                    c <= (w - prefix + 1) / 2,
                    w - prefix >= 1,
            ;
        }
    }
}

/// The tone of the marker for question `index`, whose result is `result`, while the
/// session shows question `current`.
pub open spec fn tone_of(result: Option<bool>, index: int, current: int) -> Tone {
    match result {
        Some(true) => Tone::Correct,
        Some(false) => Tone::Wrong,
        None => if index == current {
            Tone::Current
        } else {
            Tone::Pending
        },
    }
}

/// The mark of option `index` of the current question.
pub open spec fn mark_of(v: AppView, index: int) -> Mark {
    let q = v.questions[v.question_index];
    if !v.answered {
        if index == v.selected_option {
            Mark::Cursor
        } else {
            Mark::Plain
        }
    } else if q.options@[index]@ == q.answer@ {
        Mark::Right
    } else if index == v.selected_option && !v.timed_out {
        Mark::Wrong
    } else {
        Mark::Dimmed
    }
}

/// Before the answer only the option under the cursor is marked, as the cursor. After
/// it, every option that is the answer is marked right, the option given is marked wrong
/// where it is not the answer and the time did not run out, and every other option is
/// dimmed.
pub proof fn lemma_marks_tell_the_answer(v: AppView, k: int)
    requires
        app_wf(v),
        0 <= k < v.questions[v.question_index].options@.len(),
    ensures
        !v.answered ==> (mark_of(v, k) == Mark::Cursor <==> k == v.selected_option),
        !v.answered ==> (mark_of(v, k) == Mark::Plain <==> k != v.selected_option),
        v.answered ==> (mark_of(v, k) == Mark::Right <==> v.questions[v.question_index].options@[k]@
            == v.questions[v.question_index].answer@),
        v.answered ==> (mark_of(v, k) == Mark::Wrong <==> {
            &&& k == v.selected_option
            &&& v.questions[v.question_index].options@[k]@ != v.questions[v.question_index].answer@
            &&& !v.timed_out
        }),
        v.answered ==> (mark_of(v, k) == Mark::Dimmed <==> {
            &&& v.questions[v.question_index].options@[k]@ != v.questions[v.question_index].answer@
            &&& (k != v.selected_option || v.timed_out)
        }),
{
}

/// The current question is the last one.
pub open spec fn on_last_question(v: AppView) -> bool {
    v.question_index + 1 == v.questions.len()
}

/// What to do next, shown once the current question has a result.
pub open spec fn instruction_text(v: AppView) -> Seq<char> {
    if on_last_question(v) {
        if v.timed_out {
            "Time expired. Press Enter to restart."@
        } else {
            "Press Enter to restart."@
        }
    } else if v.timed_out {
        "Time expired. Press Enter to go to the next question."@
    } else {
        "Press Enter to go to the next question."@
    }
}

/// The instruction is shown in green: the answer was correct and the quiz goes on.
pub open spec fn instruction_green(v: AppView) -> bool {
    !on_last_question(v) && !v.timed_out && v.results[v.question_index] == Some(true)
}

/// The score as a whole percentage of the questions, rounded down, the product
/// saturating at `usize::MAX`.
pub open spec fn percentage(score: int, n: int) -> int {
    let product = if score * 100 <= usize::MAX {
        score * 100
    } else {
        usize::MAX as int
    };
    product / n
}

/// The score line shown after the last question.
pub open spec fn score_text(v: AppView) -> Seq<char> {
    let n = v.questions.len() as int;
    "Score: "@ + decimal(v.score as nat) + "/"@ + decimal(n as nat) + " ("@ + decimal(
        percentage(v.score, n) as nat,
    ) + "%)"@
}

/// The marker rows of the progress display: `r[k]` markers on row `k`, row 0 being the
/// header's. See `marker_rows_spec`.
pub fn marker_rows(prefix_width: usize, width: u16, count: usize) -> (rows: Vec<usize>)
    ensures
        rows@.len() == marker_rows_spec(prefix_width as int, width as int, count as int).len(),
        forall|k: int|
            0 <= k < rows@.len() ==> rows@[k] as int == #[trigger] marker_rows_spec(
                prefix_width as int,
                width as int,
                count as int,
            )[k],
{
    let w: usize = if width >= 1 {
        width as usize
    } else {
        1
    };
    let cap: usize = if prefix_width < w {
        (w - prefix_width + 1) / 2
    } else {
        1
    };
    let first: usize = if prefix_width < w {
        if count <= cap {
            count
        } else {
            cap
        }
    } else {
        0
    };
    let ghost target = marker_rows_spec(prefix_width as int, width as int, count as int);
    let mut rows: Vec<usize> = Vec::new();
    rows.push(first);
    let mut left: usize = count - first;
    proof {
        assert(target == seq![first as int] + chunks(count - first, cap as int));
    }
    while left > 0
        invariant
            cap >= 1,
            left <= count,
            target == seq![first as int] + chunks(count - first, cap as int),
            rows@.len() + chunks(left as int, cap as int).len() == target.len(),
            forall|k: int| 0 <= k < rows@.len() ==> rows@[k] as int == #[trigger] target[k],
            forall|k: int|
                0 <= k < chunks(left as int, cap as int).len() ==> #[trigger] chunks(
                    left as int,
                    cap as int,
                )[k] == target[rows@.len() + k],
        decreases left,
    {
        let take: usize = if left <= cap {
            left
        } else {
            cap
        };
        let ghost before = chunks(left as int, cap as int);
        let ghost after = chunks(left - take, cap as int);
        proof {
            if left <= cap {
                assert(before == seq![left as int]);
                assert(after == Seq::<int>::empty());
            } else {
                assert(before == seq![cap as int] + after);
                assert forall|k: int| 0 <= k < after.len() implies #[trigger] after[k] == before[k + 1] by {
                }
            }
            assert(before[0] == take as int);
        }
        rows.push(take);
        left = left - take;
        proof {
            assert forall|k: int| 0 <= k < chunks(left as int, cap as int).len() implies #[trigger] chunks(
                left as int,
                cap as int,
            )[k] == target[rows@.len() + k] by {
                assert(after[k] == before[k + 1]);
            }
        }
    }
    proof {
        assert(chunks(0, cap as int).len() == 0);
    }
    rows
}

/// The tone of the marker for question `index`, whose result is `result`, while the
/// session shows question `current`.
pub fn marker_tone(result: Option<bool>, index: usize, current: usize) -> (t: Tone)
    ensures
        t == tone_of(result, index as int, current as int),
{
    match result {
        Some(true) => Tone::Correct,
        Some(false) => Tone::Wrong,
        None => if index == current {
            Tone::Current
        } else {
            Tone::Pending
        },
    }
}

/// The text that starts an option's line for `mark`.
pub open spec fn mark_str(mark: Mark) -> Seq<char> {
    match mark {
        Mark::Cursor => "> "@,
        Mark::Right => "✓ "@,
        Mark::Wrong => "✗ "@,
        _ => "  "@,
    }
}

/// The text that starts an option's line for `mark`.
pub fn mark_text(mark: Mark) -> (r: &'static str)
    ensures
        r@ == mark_str(mark),
{
    match mark {
        Mark::Cursor => "> ",
        Mark::Right => "✓ ",
        Mark::Wrong => "✗ ",
        _ => "  ",
    }
}

impl App {
    /// The header of the progress line, `remaining` being the seconds left, where a timer
    /// runs.
    pub fn progress_header(&self, remaining: Option<u64>) -> (r: String)
        ensures
            r@ == header_text(self@.title, self@.questions.len(), remaining),
    {
        let n: usize = self.question_count();
        let mut header = String::new();
        push_all(&mut header, self.title());
        push_all(&mut header, " | ");
        push_decimal(&mut header, n as u64);
        push_all(&mut header, " ");
        if n == 1 {
            push_all(&mut header, "question");
        } else {
            push_all(&mut header, "questions");
        }
        match remaining {
            Some(s) => {
                push_all(&mut header, " | [");
                push_decimal(&mut header, s);
                push_all(&mut header, "s]");
            },
            None => {},
        }
        push_all(&mut header, " ");
        proof {
            assert(header@ =~= header_text(self@.title, self@.questions.len(), remaining));
        }
        header
    }

    /// The layout of the progress display under `header` on a screen `width` columns wide:
    /// the header's width, by which further rows are indented, and how many markers stand
    /// on each row, one marker per question in order.
    pub fn progress_rows(&self, header: &str, width: u16) -> (r: (usize, Vec<usize>))
        ensures
            r.0 == line_width(header@),
            r.1@.len() == marker_rows_spec(
                line_width(header@) as int,
                width as int,
                self@.questions.len() as int,
            ).len(),
            forall|k: int|
                0 <= k < r.1@.len() ==> r.1@[k] as int == #[trigger] marker_rows_spec(
                    line_width(header@) as int,
                    width as int,
                    self@.questions.len() as int,
                )[k],
    {
        let prefix_width: usize = line_width_of(header);
        (prefix_width, marker_rows(prefix_width, width, self.question_count()))
    }

    /// The lines of the question area, in the order shown.
    pub fn screen_lines(&self) -> (r: Vec<ScreenLine>)
        requires
            self.wf(),
        ensures
            r@ == screen_lines_of(self@),
            forall|k: int| 0 <= k < r@.len() ==> line_shown(self@, #[trigger] r@[k]),
    {
        let ghost v = self@;
        let q = self.current();
        let qi: usize = self.question_index();
        let n: usize = self.question_count();
        let mut lines: Vec<ScreenLine> = Vec::new();
        lines.push(ScreenLine::Blank);
        lines.push(ScreenLine::Number(qi + 1));
        lines.push(ScreenLine::Prompt);
        lines.push(ScreenLine::Blank);
        let ghost head = lines@;
        if !self.options_revealed() {
            lines.push(ScreenLine::RevealHint);
        } else {
            let mut k: usize = 0;
            while k < q.options.len()
                invariant
                    self.wf(),
                    v == self@,
                    *q == v.questions[v.question_index],
                    k <= q.options@.len(),
                    lines@ =~= head + Seq::new(k as nat, |j: int| ScreenLine::Choice(j as usize, mark_of(v, j))),
                decreases q.options.len() - k,
            {
                let mark = self.option_mark(k);
                lines.push(ScreenLine::Choice(k, mark));
                k += 1;
            }
        }
        let ghost middle = lines@;
        let results = self.question_results();
        if results[qi].is_some() {
            if q.explanation.is_some() {
                lines.push(ScreenLine::Blank);
                lines.push(ScreenLine::Explanation);
            }
            lines.push(ScreenLine::Blank);
            if qi == n - 1 {
                lines.push(ScreenLine::Score);
            }
            lines.push(ScreenLine::Instruction);
            lines.push(ScreenLine::QuitHint);
        }
        proof {
            assert(lines@ =~= screen_lines_of(v));
        }
        lines
    }

    /// The text of `line`, as its lead, shown in a style of its own, and the rest.
    pub fn line_parts(&self, line: ScreenLine) -> (r: (String, String))
        requires
            self.wf(),
            line_shown(self@, line),
        ensures
            r.0@ == line_lead(line),
            r.1@ == line_body(self@, line),
            r.0@ + r.1@ == line_text(self@, line),
    {
        let q = self.current();
        let mut lead = String::new();
        let mut body = String::new();
        match line {
            ScreenLine::Blank => {},
            ScreenLine::Number(n) => {
                push_decimal(&mut body, n as u64);
                push_all(&mut body, ".");
            },
            ScreenLine::Prompt => push_all(&mut body, q.prompt.as_str()),
            ScreenLine::RevealHint => push_all(&mut body, "Press any key to reveal options."),
            ScreenLine::Choice(index, mark) => {
                push_all(&mut lead, mark_text(mark));
                push_all(&mut body, q.options[index].as_str());
            },
            ScreenLine::Explanation => {
                push_all(&mut lead, "Explanation: ");
                match &q.explanation {
                    Some(e) => push_all(&mut body, e.as_str()),
                    None => {},
                }
            },
            ScreenLine::Score => {
                body = self.score_text_line();
            },
            ScreenLine::Instruction => push_all(&mut body, self.instruction_line()),
            ScreenLine::QuitHint => push_all(&mut body, "Press q or ctrl-c to quit."),
        }
        (lead, body)
    }

    /// The rows of the progress display under `header` on a screen `width` columns wide:
    /// each row's text and the tones of its markers. Row 0 is the header and its markers,
    /// every later row as many spaces as the header is wide and its markers; markers are
    /// `■`, joined by single spaces, one per question in order.
    pub fn progress_texts(&self, header: &str, width: u16) -> (r: Vec<(String, Vec<Tone>)>)
        requires
            self.wf(),
        ensures
            ({
                let prefix = line_width(header@);
                let rows = marker_rows_spec(prefix as int, width as int, self@.questions.len() as int);
                &&& r@.len() == rows.len()
                &&& forall|k: int|
                    0 <= k < r@.len() ==> {
                        &&& (#[trigger] r@[k]).0@ == row_text(header@, prefix, k, rows[k] as nat)
                        &&& r@[k].1@ == row_tones(self@, total(rows.take(k)), rows[k] as nat)
                    }
            }),
    {
        let (prefix, rows) = self.progress_rows(header, width);
        let ghost spec_rows = marker_rows_spec(prefix as int, width as int, self@.questions.len() as int);
        proof {
            lemma_one_marker_per_question(prefix as int, width as int, self@.questions.len() as int);
            lemma_rows_nonnegative(prefix as int, width as int, self@.questions.len() as int);
        }
        let results = self.question_results();
        let qi: usize = self.question_index();
        let n: usize = self.question_count();
        let mut out: Vec<(String, Vec<Tone>)> = Vec::new();
        let mut index: usize = 0;
        let mut k: usize = 0;
        while k < rows.len()
            invariant
                self.wf(),
                results@ == self@.results,
                qi == self@.question_index,
                n == self@.questions.len(),
                prefix == line_width(header@),
                rows@.len() == spec_rows.len(),
                forall|x: int| 0 <= x < rows@.len() ==> rows@[x] as int == #[trigger] spec_rows[x],
                forall|x: int| 0 <= x < spec_rows.len() ==> #[trigger] spec_rows[x] >= 0,
                total(spec_rows) == self@.questions.len(),
                k <= rows.len(),
                index == total(spec_rows.take(k as int)),
                out@.len() == k,
                forall|x: int|
                    0 <= x < k ==> {
                        &&& (#[trigger] out@[x]).0@ == row_text(header@, prefix as nat, x, spec_rows[x] as nat)
                        &&& out@[x].1@ == row_tones(self@, total(spec_rows.take(x)), spec_rows[x] as nat)
                    },
            decreases rows.len() - k,
        {
            proof {
                assert(rows@[k as int] as int == spec_rows[k as int]);
                lemma_total_prefix(spec_rows, k as int);
            }
            let mut text = String::new();
            if k == 0 {
                push_all(&mut text, header);
            } else {
                let mut s: usize = 0;
                while s < prefix
                    invariant
                        s <= prefix,
                        text@ == spaces(s as nat),
                    decreases prefix - s,
                {
                    push_all(&mut text, " ");
                    proof {
                        reveal_strlit(" ");
                        assert(text@ =~= spaces((s + 1) as nat));
                    }
                    s += 1;
                }
            }
            let ghost lead = text@;
            let ghost start = index as int;
            let count: usize = rows[k];
            let mut tones: Vec<Tone> = Vec::new();
            let mut j: usize = 0;
            while j < count
                invariant
                    self.wf(),
                    results@ == self@.results,
                    qi == self@.question_index,
                    j <= count,
                    n == self@.questions.len(),
                    index == start + j,
                    start + count <= self@.questions.len(),
                    text@ == lead + markers(j as nat),
                    tones@ == row_tones(self@, start, j as nat),
                decreases count - j,
            {
                if j > 0 {
                    push_all(&mut text, " ");
                }
                push_all(&mut text, "■");
                proof {
                    reveal_strlit(" ");
                    reveal_strlit("■");
                    if j > 0 {
                        assert(markers((j + 1) as nat) == markers(j as nat) + seq![' ', '■']);
                    } else {
                        assert(markers(1) == seq!['■']);
                    }
                    assert(text@ =~= lead + markers((j + 1) as nat));
                }
                let tone = marker_tone(results[index], index, qi);
                tones.push(tone);
                proof {
                    assert(tones@ =~= row_tones(self@, start, (j + 1) as nat));
                }
                index += 1;
                j += 1;
            }
            out.push((text, tones));
            proof {
                assert(out@[k as int].0@ == row_text(header@, prefix as nat, k as int, spec_rows[k as int] as nat));
            }
            k += 1;
        }
        out
    }

    /// The mark of option `index` of the current question.
    pub fn option_mark(&self, index: usize) -> (m: Mark)
        requires
            self.wf(),
            index < self@.questions[self@.question_index].options@.len(),
        ensures
            m == mark_of(self@, index as int),
    {
        let q = self.current();
        if !self.answered() {
            if index == self.selected_option() {
                Mark::Cursor
            } else {
                Mark::Plain
            }
        } else if q.options[index].eq(&q.answer) {
            Mark::Right
        } else if index == self.selected_option() && !self.timed_out() {
            Mark::Wrong
        } else {
            Mark::Dimmed
        }
    }

    /// What to do next and whether it is shown in green, once the current question has a
    /// result; nothing before.
    pub fn instruction(&self) -> (r: Option<(&'static str, bool)>)
        requires
            self.wf(),
        ensures
            match r {
                Some((text, green)) => self@.results[self@.question_index] is Some && text@
                    == instruction_text(self@) && green == instruction_green(self@),
                None => self@.results[self@.question_index] is None,
            },
    {
        let results = self.question_results();
        let qi: usize = self.question_index();
        let correct = match results[qi] {
            Some(c) => c,
            None => return None,
        };
        let n: usize = self.question_count();
        let last = qi == n - 1;
        Some((self.instruction_line(), !last && !self.timed_out() && correct))
    }

    /// What to do next, as the instruction line says it.
    fn instruction_line(&self) -> (r: &'static str)
        requires
            self.wf(),
        ensures
            r@ == instruction_text(self@),
    {
        let qi: usize = self.question_index();
        let n: usize = self.question_count();
        if qi == n - 1 {
            if self.timed_out() {
                "Time expired. Press Enter to restart."
            } else {
                "Press Enter to restart."
            }
        } else if self.timed_out() {
            "Time expired. Press Enter to go to the next question."
        } else {
            "Press Enter to go to the next question."
        }
    }

    /// The score line, shown once the last question has a result.
    pub fn score_line(&self) -> (r: Option<String>)
        requires
            self.wf(),
        ensures
            match r {
                Some(line) => self@.results[self@.question_index] is Some && on_last_question(
                    self@,
                ) && line@ == score_text(self@),
                None => self@.results[self@.question_index] is None || !on_last_question(self@),
            },
    {
        let results = self.question_results();
        let qi: usize = self.question_index();
        let n: usize = self.question_count();
        if results[qi].is_none() || qi != n - 1 {
            return None;
        }
        Some(self.score_text_line())
    }

    /// The score line's text.
    fn score_text_line(&self) -> (r: String)
        requires
            self.wf(),
        ensures
            r@ == score_text(self@),
    {
        let n: usize = self.question_count();
        let score: usize = self.score();
        let product: usize = if score <= usize::MAX / 100 {
            score * 100
        } else {
            usize::MAX
        };
        proof {
            if score > usize::MAX / 100 {
                assert(score * 100 > usize::MAX) by (nonlinear_arith)
                    requires
                        score > usize::MAX / 100,
                ;
            }
        }
        let pct: usize = product / n;
        let mut line = String::new();
        push_all(&mut line, "Score: ");
        push_decimal(&mut line, score as u64);
        push_all(&mut line, "/");
        push_decimal(&mut line, n as u64);
        push_all(&mut line, " (");
        push_decimal(&mut line, pct as u64);
        push_all(&mut line, "%)");
        proof {
            assert(line@ =~= score_text(self@));
        }
        line
    }
}

} // verus!
