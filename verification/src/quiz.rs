use vstd::prelude::*;

use crate::error::AppError;
use crate::paths::{is_toml_path, spec_is_toml_path};
use crate::rules::{
    gap_message, has_gap, labelled, mismatch_message, mismatched_numbers, number_set, numbered_bad,
    numbered_keys, numbered_message, numbers, orphan_numbers, section, unsupported_key,
    validate_contiguous, validate_explanations, validate_key_prefixes, validate_matching_numbers,
};
use crate::search::{
    first_where, holds, least, lemma_first_where_exists, lemma_first_where_found,
    lemma_first_where_none,
};
use crate::text::{chars_of, decimal, push_all, push_decimal};
use crate::toml::{find_key, lookup, parse_toml, toml_document, TomlEntry, TomlValue};
use crate::validate::{build_questions, question_view, answer_view, questions_outcome, valid_question};

verus! {

/// A validated quiz: questions with their options, and the answer to each.
#[derive(Debug)]
pub struct Quiz {
    pub questions: Vec<Question>,
    pub answers: Vec<Answer>,
    /// The quiz file's own `[config]` table, when it has one.
    pub config: Option<Vec<TomlEntry>>,
}

/// One question and the options offered for it.
#[derive(Debug)]
pub struct Question {
    pub question: String,
    pub options: Vec<String>,
    pub explanation: Option<String>,
}

/// The correct option of one question.
#[derive(Debug)]
pub struct Answer {
    pub answer: String,
}

/// A question as text.
pub struct QuestionView {
    pub question: Seq<char>,
    pub options: Seq<Seq<char>>,
    pub explanation: Option<Seq<char>>,
}

/// A quiz as text.
pub struct QuizView {
    pub questions: Seq<QuestionView>,
    pub answers: Seq<Seq<char>>,
    pub config: Option<Seq<TomlEntry>>,
}

impl View for Question {
    type V = QuestionView;

    open spec fn view(&self) -> QuestionView {
        QuestionView {
            question: self.question@,
            options: self.options@.map_values(|o: String| o@),
            explanation: match self.explanation {
                Some(e) => Some(e@),
                None => None,
            },
        }
    }
}

impl View for Quiz {
    type V = QuizView;

    open spec fn view(&self) -> QuizView {
        QuizView {
            questions: self.questions@.map_values(|q: Question| q@),
            answers: self.answers@.map_values(|a: Answer| a.answer@),
            config: match self.config {
                Some(c) => Some(c@),
                None => None,
            },
        }
    }
}

/// The upper-case hexadecimal digit for `d`, which is below sixteen.
pub open spec fn hex_digit(d: nat) -> char {
    if d < 10 {
        (('0' as u32) + d) as char
    } else {
        (('A' as u32) + d - 10) as char
    }
}

/// How one character is written inside a TOML basic string.
pub open spec fn escape_char(c: char) -> Seq<char> {
    let u = c as u32;
    if c == '\\' {
        seq!['\\', '\\']
    } else if c == '"' {
        seq!['\\', '"']
    } else if u == 0x8 {
        seq!['\\', 'b']
    } else if c == '\t' {
        seq!['\\', 't']
    } else if c == '\n' {
        seq!['\\', 'n']
    } else if u == 0xc {
        seq!['\\', 'f']
    } else if c == '\r' {
        seq!['\\', 'r']
    } else if u == 0x1b {
        seq!['\\', 'e']
    } else if u <= 0x1f || u == 0x7f {
        seq!['\\', 'u', '0', '0', hex_digit((u / 16) as nat), hex_digit((u % 16) as nat)]
    } else {
        seq![c]
    }
}

/// The characters of `s`, each escaped.
pub open spec fn escape(s: Seq<char>) -> Seq<char>
    decreases s.len(),
{
    if s.len() == 0 {
        Seq::empty()
    } else {
        escape(s.drop_last()) + escape_char(s.last())
    }
}

/// `s` as a TOML basic string: escaped and put between double quotes.
pub open spec fn spec_quoted(s: Seq<char>) -> Seq<char> {
    seq!['"'] + escape(s) + seq!['"']
}

/// `c` is no control character: neither `U+0000` to `U+001F` nor `U+007F`.
pub open spec fn printable(c: char) -> bool {
    (c as u32) > 0x1f && (c as u32) != 0x7f
}

/// The escaped form of a character holds no control character.
proof fn lemma_escape_char_printable(c: char)
    ensures
        forall|i: int| 0 <= i < escape_char(c).len() ==> printable(#[trigger] escape_char(c)[i]),
{
    let u = c as u32;
    if !(c == '\\' || c == '"' || u == 0x8 || c == '\t' || c == '\n' || u == 0xc || c == '\r'
        || u == 0x1b) && (u <= 0x1f || u == 0x7f) {
        assert(u / 16 < 16 && u % 16 < 16);
        let hi = hex_digit((u / 16) as nat);
        let lo = hex_digit((u % 16) as nat);
        assert(printable(hi) && printable(lo));
        assert(printable('\\') && printable('u') && printable('0'));
    }
}

/// The escaped form of a text holds no control character.
proof fn lemma_escape_printable(s: Seq<char>)
    ensures
        forall|i: int| 0 <= i < escape(s).len() ==> printable(#[trigger] escape(s)[i]),
    decreases s.len(),
{
    if s.len() > 0 {
        lemma_escape_printable(s.drop_last());
        lemma_escape_char_printable(s.last());
        let front = escape(s.drop_last());
        let back = escape_char(s.last());
        assert forall|i: int| 0 <= i < escape(s).len() implies printable(#[trigger] escape(s)[i]) by {
            if i < front.len() {
                assert(escape(s)[i] == front[i]);
            } else {
                assert(escape(s)[i] == back[i - front.len()]);
            }
        }
    }
}

/// A quoted text is a TOML basic string: it starts and ends with `"` and holds no control
/// character.
pub proof fn lemma_quoted_is_a_basic_string(s: Seq<char>)
    ensures
        spec_quoted(s).len() >= 2,
        spec_quoted(s)[0] == '"',
        spec_quoted(s).last() == '"',
        forall|i: int| 0 <= i < spec_quoted(s).len() ==> printable(#[trigger] spec_quoted(s)[i]),
{
    lemma_escape_printable(s);
    let q = spec_quoted(s);
    let e = escape(s);
    assert forall|i: int| 0 <= i < q.len() implies printable(#[trigger] q[i]) by {
        if 0 < i < q.len() - 1 {
            assert(q[i] == e[i - 1]);
        }
    }
}

/// The character that `\` followed by `e` stands for in a TOML basic string, for the
/// escapes of a single letter or sign.
pub open spec fn short_escape(e: char) -> Option<char> {
    if e == '\\' {
        Some('\\')
    } else if e == '"' {
        Some('"')
    } else if e == 'b' {
        Some('\u{8}')
    } else if e == 't' {
        Some('\t')
    } else if e == 'n' {
        Some('\n')
    } else if e == 'f' {
        Some('\u{c}')
    } else if e == 'r' {
        Some('\r')
    } else if e == 'e' {
        Some('\u{1b}')
    } else {
        None
    }
}

/// The value of the hexadecimal digit `d`, in either case.
pub open spec fn hex_value(d: char) -> Option<nat> {
    let u = d as u32;
    if 0x30 <= u <= 0x39 {
        Some((u - 0x30) as nat)
    } else if 0x41 <= u <= 0x46 {
        Some((u - 0x41 + 10) as nat)
    } else if 0x61 <= u <= 0x66 {
        Some((u - 0x61 + 10) as nat)
    } else {
        None
    }
}

/// The number that the four hexadecimal digits `d` spell.
pub open spec fn hex_quad(d: Seq<char>) -> Option<nat> {
    if d.len() == 4 && hex_value(d[0]) is Some && hex_value(d[1]) is Some && hex_value(d[2]) is Some
        && hex_value(d[3]) is Some {
        Some(
            hex_value(d[0])->0 * 4096 + hex_value(d[1])->0 * 256 + hex_value(d[2])->0 * 16 + hex_value(
                d[3],
            )->0,
        )
    } else {
        None
    }
}

/// The text that TOML reads from `e` between the quotes of a basic string, read from the
/// front: printable characters other than `\` and `"` stand for themselves, and
/// `\\ \" \b \t \n \f \r \e \uXXXX` for the characters they escape. None where `e` holds
/// anything else.
pub open spec fn unescape(e: Seq<char>) -> Option<Seq<char>>
    decreases e.len(),
{
    if e.len() == 0 {
        Some(Seq::empty())
    } else if e[0] != '\\' {
        if printable(e[0]) && e[0] != '"' {
            match unescape(e.drop_first()) {
                Some(t) => Some(seq![e[0]] + t),
                None => None,
            }
        } else {
            None
        }
    } else if e.len() >= 2 && short_escape(e[1]) is Some {
        match unescape(e.subrange(2, e.len() as int)) {
            Some(t) => Some(seq![short_escape(e[1])->0] + t),
            None => None,
        }
    } else if e.len() >= 6 && e[1] == 'u' && hex_quad(e.subrange(2, 6)) is Some && !(0xD800
        <= hex_quad(e.subrange(2, 6))->0 <= 0xDFFF) {
        let v = hex_quad(e.subrange(2, 6))->0;
        match unescape(e.subrange(6, e.len() as int)) {
            Some(t) => Some(seq![(v as u32) as char] + t),
            None => None,
        }
    } else {
        None
    }
}

/// The digit `hex_digit(d)` has the value `d`.
proof fn lemma_hex_digit_value(d: nat)
    requires
        d < 16,
    ensures
        hex_value(hex_digit(d)) == Some(d),
{
    if d < 10 {
        let x: u32 = (0x30 + d) as u32;
        assert(hex_digit(d) == x as char);
        assert((x as char) as u32 == x);
    } else {
        let x: u32 = (0x41 + d - 10) as u32;
        assert(hex_digit(d) == x as char);
        assert((x as char) as u32 == x);
    }
}

/// TOML reads the escaped form of `c`, and whatever follows it, as `c` followed by what
/// it reads from the rest.
proof fn lemma_unescape_escape_char(c: char, rest: Seq<char>)
    ensures
        unescape(escape_char(c) + rest) == match unescape(rest) {
            Some(t) => Some(seq![c] + t),
            None => None::<Seq<char>>,
        },
{
    let u = c as u32;
    let e = escape_char(c) + rest;
    if c == '\\' || c == '"' || u == 0x8 || c == '\t' || c == '\n' || u == 0xc || c == '\r' || u
        == 0x1b {
        assert(e.subrange(2, e.len() as int) =~= rest);
        assert(short_escape(e[1]) == Some(c));
    } else if u <= 0x1f || u == 0x7f {
        lemma_hex_digit_value((u / 16) as nat);
        lemma_hex_digit_value((u % 16) as nat);
        assert(hex_value('0') == Some(0nat));
        let d = e.subrange(2, 6);
        assert(d =~= seq!['0', '0', hex_digit((u / 16) as nat), hex_digit((u % 16) as nat)]);
        assert(hex_quad(d) == Some(u as nat));
        assert(e.subrange(6, e.len() as int) =~= rest);
        vstd::utf8::char_u32_cast(c, u);
    } else {
        assert(e.drop_first() =~= rest);
    }
}

/// The escaped form of a text is the escaped form of its first character followed by
/// that of the rest.
proof fn lemma_escape_front(s: Seq<char>)
    requires
        s.len() > 0,
    ensures
        escape(s) == escape_char(s[0]) + escape(s.drop_first()),
    decreases s.len(),
{
    if s.len() == 1 {
        assert(s.drop_last() =~= Seq::<char>::empty());
        assert(s.drop_first() =~= Seq::<char>::empty());
        assert(escape(s.drop_last()) == Seq::<char>::empty());
        assert(escape(s.drop_first()) == Seq::<char>::empty());
        assert(s.last() == s[0]);
        assert(escape(s) =~= escape_char(s[0]) + escape(s.drop_first()));
    } else {
        lemma_escape_front(s.drop_last());
        assert(s.drop_last().drop_first() =~= s.drop_first().drop_last());
        assert(s.drop_first().last() == s.last());
        assert(s.drop_last()[0] == s[0]);
        assert(escape(s) =~= escape_char(s[0]) + escape(s.drop_first()));
    }
}

/// Every character of every text is escaped only in ways that TOML reads back: TOML
/// reads the escaped form of `s` as `s` itself.
pub proof fn lemma_escape_reads_back(s: Seq<char>)
    ensures
        unescape(escape(s)) == Some(s),
    decreases s.len(),
{
    if s.len() > 0 {
        lemma_escape_front(s);
        lemma_escape_reads_back(s.drop_first());
        lemma_unescape_escape_char(s[0], escape(s.drop_first()));
        assert(seq![s[0]] + s.drop_first() =~= s);
    }
}

/// A printable character other than `\` and `"` is written as itself; every other
/// character as an escape that TOML reads as that character.
pub proof fn lemma_escape_char_reads_back(c: char)
    ensures
        printable(c) && c != '\\' && c != '"' ==> escape_char(c) == seq![c],
        unescape(escape_char(c)) == Some(seq![c]),
{
    lemma_unescape_escape_char(c, Seq::empty());
    assert(escape_char(c) + Seq::<char>::empty() =~= escape_char(c));
    assert(seq![c] + Seq::<char>::empty() =~= seq![c]);
}

/// TOML reads the quoted form of `s`, between its two double quotes, as `s`.
pub proof fn lemma_quoted_reads_back(s: Seq<char>)
    ensures
        spec_quoted(s).len() >= 2,
        spec_quoted(s)[0] == '"',
        spec_quoted(s).last() == '"',
        unescape(spec_quoted(s).subrange(1, spec_quoted(s).len() - 1)) == Some(s),
{
    lemma_escape_reads_back(s);
    assert(spec_quoted(s).subrange(1, spec_quoted(s).len() - 1) =~= escape(s));
}

/// The lines that list `options`, one quoted option per line.
pub open spec fn options_lines(options: Seq<Seq<char>>) -> Seq<char>
    decreases options.len(),
{
    if options.len() == 0 {
        Seq::empty()
    } else {
        options_lines(options.drop_last()) + "  "@ + spec_quoted(options.last()) + ",\n"@
    }
}

/// The line that sets key `key` numbered `n` to the string `value`.
pub open spec fn keyed_line(key: Seq<char>, n: nat, value: Seq<char>) -> Seq<char> {
    key + decimal(n) + " = "@ + spec_quoted(value) + "\n"@
}

/// The block for question `n`: its `q`, `o`, `a` and optional `e` keys.
pub open spec fn question_block(n: nat, question: QuestionView, answer: Seq<char>) -> Seq<char> {
    keyed_line("q"@, n, question.question) + "o"@ + decimal(n) + " = [\n"@ + options_lines(
        question.options,
    ) + "]\n"@ + keyed_line("a"@, n, answer) + match question.explanation {
        Some(e) => keyed_line("e"@, n, e),
        None => Seq::empty(),
    }
}

/// The blocks of the first `k` questions, separated by blank lines.
pub open spec fn question_blocks(quiz: QuizView, k: nat) -> Seq<char>
    decreases k,
{
    if k == 0 {
        Seq::empty()
    } else {
        question_blocks(quiz, (k - 1) as nat) + question_block(
            k,
            quiz.questions[k - 1],
            quiz.answers[k - 1],
        ) + if k != quiz.questions.len() {
            "\n"@
        } else {
            Seq::empty()
        }
    }
}

/// The canonical source of a quiz: the `[quiczk]` header, then one block per question
/// that has an answer.
pub open spec fn formatted(quiz: QuizView) -> Seq<char> {
    let count = if quiz.questions.len() <= quiz.answers.len() {
        quiz.questions.len()
    } else {
        quiz.answers.len()
    };
    "[quiczk]\n"@ + question_blocks(quiz, count)
}

/// Appends the escaped form of `c`.
fn push_escaped(out: &mut String, c: char)
    ensures
        final(out)@ == old(out)@ + escape_char(c),
{
    let u = c as u32;
    if c == '\\' {
        push_all(out, "\\\\");
    } else if c == '"' {
        push_all(out, "\\\"");
    } else if u == 0x8 {
        push_all(out, "\\b");
    } else if c == '\t' {
        push_all(out, "\\t");
    } else if c == '\n' {
        push_all(out, "\\n");
    } else if u == 0xc {
        push_all(out, "\\f");
    } else if c == '\r' {
        push_all(out, "\\r");
    } else if u == 0x1b {
        push_all(out, "\\e");
    } else if u <= 0x1f || u == 0x7f {
        push_all(out, "\\u00");
        out.push(hex_char((u / 16) as u8));
        out.push(hex_char((u % 16) as u8));
    } else {
        out.push(c);
    }
    proof {
        reveal_strlit("\\\\");
        reveal_strlit("\\\"");
        reveal_strlit("\\b");
        reveal_strlit("\\t");
        reveal_strlit("\\n");
        reveal_strlit("\\f");
        reveal_strlit("\\r");
        reveal_strlit("\\e");
        reveal_strlit("\\u00");
    }
    assert(out@ =~= old(out)@ + escape_char(c));
}

/// The upper-case hexadecimal digit for `d`.
fn hex_char(d: u8) -> (c: char)
    requires
        d < 16,
    ensures
        c == hex_digit(d as nat),
{
    if d < 10 {
        (48u8 + d) as char
    } else {
        (55u8 + d) as char
    }
}

/// `value` as a TOML basic string.
pub fn quoted(value: &str) -> (r: String)
    ensures
        r@ == spec_quoted(value@),
{
    let chars = chars_of(value);
    let mut out = String::new();
    out.push('"');
    let mut i: usize = 0;
    while i < chars.len()
        invariant
            i <= chars.len(),
            out@ == seq!['"'] + escape(chars@.take(i as int)),
        decreases chars.len() - i,
    {
        push_escaped(&mut out, chars[i]);
        proof {
            assert(chars@.take(i + 1).drop_last() =~= chars@.take(i as int));
        }
        i += 1;
    }
    out.push('"');
    assert(chars@.take(i as int) =~= value@);
    out
}

/// Appends the option lines of `options`.
fn push_options(out: &mut String, options: &Vec<String>)
    ensures
        final(out)@ == old(out)@ + options_lines(options@.map_values(|o: String| o@)),
{
    let ghost views = options@.map_values(|o: String| o@);
    let mut i: usize = 0;
    while i < options.len()
        invariant
            i <= options.len(),
            views == options@.map_values(|o: String| o@),
            out@ == old(out)@ + options_lines(views.take(i as int)),
        decreases options.len() - i,
    {
        push_all(out, "  ");
        let q = quoted(options[i].as_str());
        push_all(out, q.as_str());
        push_all(out, ",\n");
        proof {
            assert(views.take(i + 1).drop_last() =~= views.take(i as int));
            assert(views.take(i + 1).last() == options@[i as int]@);
        }
        i += 1;
    }
    assert(views.take(i as int) =~= views);
}

/// Appends the line that sets key `key` numbered `n` to the string `value`.
fn push_keyed(out: &mut String, key: &str, n: u64, value: &str)
    ensures
        final(out)@ == old(out)@ + keyed_line(key@, n as nat, value@),
{
    push_all(out, key);
    push_decimal(out, n);
    push_all(out, " = ");
    push_all(out, quoted(value).as_str());
    push_all(out, "\n");
    assert(out@ =~= old(out)@ + keyed_line(key@, n as nat, value@));
}

/// Appends the block of question `n`.
fn push_block(out: &mut String, n: u64, question: &Question, answer: &Answer)
    ensures
        final(out)@ == old(out)@ + question_block(n as nat, question@, answer.answer@),
{
    push_keyed(out, "q", n, question.question.as_str());
    push_all(out, "o");
    push_decimal(out, n);
    push_all(out, " = [\n");
    push_options(out, &question.options);
    push_all(out, "]\n");
    push_keyed(out, "a", n, answer.answer.as_str());
    match &question.explanation {
        Some(explanation) => {
            push_keyed(out, "e", n, explanation.as_str());
        },
        None => {},
    }
    assert(out@ =~= old(out)@ + question_block(n as nat, question@, answer.answer@));
}

impl Quiz {
    /// The canonical TOML source of this quiz, as `quiczk fmt` writes it.
    pub fn format_source(&self) -> (r: String)
        ensures
            r@ == formatted(self@),
    {
        let mut out = String::new();
        push_all(&mut out, "[quiczk]\n");
        let count: usize = if self.questions.len() <= self.answers.len() {
            self.questions.len()
        } else {
            self.answers.len()
        };
        let ghost quiz = self@;
        let mut i: usize = 0;
        while i < count
            invariant
                i <= count,
                quiz == self@,
                count <= self.questions.len(),
                count <= self.answers.len(),
                out@ == "[quiczk]\n"@ + question_blocks(quiz, i as nat),
            decreases count - i,
        {
            let number: usize = i + 1;
            push_block(&mut out, number as u64, &self.questions[i], &self.answers[i]);
            if number != self.questions.len() {
                out.push('\n');
            }
            proof {
                reveal_strlit("\n");
                assert(quiz.questions[i as int] == self.questions@[i as int]@);
                assert(quiz.answers[i as int] == self.answers@[i as int].answer@);
            }
            assert(out@ =~= "[quiczk]\n"@ + question_blocks(quiz, (i + 1) as nat));
            i += 1;
        }
        out
    }
}

/// A quiz that keeps the rules of the format: at least one question, one answer per
/// question, and every question valid with its answer.
pub open spec fn valid_quiz(v: QuizView) -> bool {
    &&& v.questions.len() >= 1
    &&& v.questions.len() == v.answers.len()
    &&& forall|i: int| 0 <= i < v.questions.len() ==> valid_question(#[trigger] v.questions[i], v.answers[i])
}

/// A top-level table that a quiz file may hold.
pub open spec fn top_level_allowed(key: Seq<char>) -> bool {
    key == "quiczk"@ || key == "config"@
}

/// Top-level key `i` of `doc` is one a quiz file may not hold.
pub open spec fn unexpected_top(doc: Seq<TomlEntry>) -> spec_fn(int) -> bool {
    |i: int| !top_level_allowed(doc[i].key@)
}

/// The quiz file's own `[config]` table, or the complaint that it is no table.
pub open spec fn config_outcome(doc: Seq<TomlEntry>) -> Result<Option<Seq<TomlEntry>>, Seq<char>> {
    match lookup(doc, "config"@) {
        None => Ok(None),
        Some(TomlValue::Table(t)) => Ok(Some(t@)),
        Some(_) => Err("[config] must be a table"@),
    }
}

/// The key prefixes of the `[quiczk]` table: question, options, answer, explanation.
pub open spec fn quiz_prefixes() -> Seq<char> {
    seq!['q', 'o', 'a', 'e']
}

/// The members of `q` are 1 to `n`.
pub open spec fn runs_to(q: Set<nat>, n: nat) -> bool {
    forall|k: nat| q.contains(k) <==> 1 <= k <= n
}

/// The number of questions when the question numbers are 1 to that number.
pub open spec fn question_count(q: Set<nat>) -> nat {
    choose|n: nat| runs_to(q, n)
}

/// What the `[quiczk]` table gives once its keys are well numbered: the numbers of the
/// questions, options, answers and explanations must agree.
pub open spec fn numbers_outcome(
    source: Seq<char>,
    t: Seq<TomlEntry>,
    q: Set<nat>,
    o: Set<nat>,
    a: Set<nat>,
    e: Set<nat>,
) -> Result<(Seq<QuestionView>, Seq<Seq<char>>), Seq<char>> {
    if (forall|n: nat| !q.contains(n)) && (forall|n: nat| !o.contains(n)) && (forall|n: nat|
        !a.contains(n)) {
        Err("[quiczk] must not be empty"@)
    } else if exists|n: nat| mismatched_numbers(q, o, a).contains(n) {
        Err(mismatch_message(least(mismatched_numbers(q, o, a)), q, o, a))
    } else if has_gap(q) {
        Err(gap_message(q, 'q'))
    } else if exists|n: nat| orphan_numbers(e, q).contains(n) {
        let n = least(orphan_numbers(e, q));
        Err("[quiczk] "@ + labelled('e', n) + " is provided without matching "@ + labelled('q', n))
    } else {
        questions_outcome(source, t, question_count(q))
    }
}

/// What the `[quiczk]` table `t` gives: its questions and answers, or the first thing wrong.
pub open spec fn table_outcome(source: Seq<char>, t: Seq<TomlEntry>) -> Result<
    (Seq<QuestionView>, Seq<Seq<char>>),
    Seq<char>,
> {
    match first_where(t.len() as int, unsupported_key(t, quiz_prefixes())) {
        Some(i) => Err("quiczk"@ + "."@ + t[i].key@ + " uses an unsupported key name"@),
        None => match first_where(t.len() as int, numbered_bad(t, 'q')) {
            Some(i) => Err(numbered_message("quiczk"@, t, 'q', i)),
            None => match first_where(t.len() as int, numbered_bad(t, 'o')) {
                Some(i) => Err(numbered_message("quiczk"@, t, 'o', i)),
                None => match first_where(t.len() as int, numbered_bad(t, 'a')) {
                    Some(i) => Err(numbered_message("quiczk"@, t, 'a', i)),
                    None => match first_where(t.len() as int, numbered_bad(t, 'e')) {
                        Some(i) => Err(numbered_message("quiczk"@, t, 'e', i)),
                        None => numbers_outcome(
                            source,
                            t,
                            numbers(t, 'q'),
                            numbers(t, 'o'),
                            numbers(t, 'a'),
                            numbers(t, 'e'),
                        ),
                    },
                },
            },
        },
    }
}

/// What the TOML document `doc`, read from `source`, gives: a quiz, or the first rule of
/// the quiz format that it breaks.
pub open spec fn quiz_outcome(source: Seq<char>, doc: Seq<TomlEntry>) -> Result<QuizView, Seq<char>> {
    match first_where(doc.len() as int, unexpected_top(doc)) {
        Some(i) => Err("unexpected top-level table `"@ + doc[i].key@ + "`"@),
        None => match lookup(doc, "quiczk"@) {
            Some(TomlValue::Table(t)) => match table_outcome(source, t@) {
                Err(m) => Err(m),
                Ok((qs, ans)) => match config_outcome(doc) {
                    Err(m) => Err(m),
                    Ok(config) => Ok(QuizView { questions: qs, answers: ans, config }),
                },
            },
            _ => Err("["@ + "quiczk"@ + "] table is required"@),
        },
    }
}

/// When no index satisfies the first-match search, none satisfies the predicate.
proof fn lemma_first_where_none_all(n: int, p: spec_fn(int) -> bool)
    requires
        first_where(n, p) is None,
    ensures
        forall|j: int| 0 <= j < n ==> !#[trigger] p(j),
{
    assert forall|j: int| 0 <= j < n implies !#[trigger] p(j) by {
        if p(j) {
            lemma_first_where_exists(n, p, j);
        }
    }
}

/// The numbers of well-numbered keys are positive.
proof fn lemma_numbers_positive(t: Seq<TomlEntry>, p: char, v: Seq<usize>)
    requires
        first_where(t.len() as int, numbered_bad(t, p)) is None,
        forall|n: nat| holds(v, n) <==> numbers(t, p).contains(n),
    ensures
        forall|k: int| 0 <= k < v.len() ==> v[k] >= 1,
        number_set(v) == numbers(t, p),
{
    lemma_first_where_none_all(t.len() as int, numbered_bad(t, p));
    assert forall|k: int| 0 <= k < v.len() implies v[k] >= 1 by {
        assert(holds(v, v[k] as nat));
        assert(numbers(t, p).contains(v[k] as nat));
        let i = choose|i: int|
            0 <= i < t.len() && crate::rules::starts_with_char(t[i].key@, p) && #[trigger] crate::rules::key_number(
                t,
                i,
            ) == Some(v[k] as nat);
        assert(!numbered_bad(t, p)(i));
    }
    assert(number_set(v) =~= numbers(t, p));
}

/// Numbers that run 1, 2, ... without a gap count themselves.
proof fn lemma_question_count(v: Seq<usize>)
    requires
        forall|k: int| 0 <= k < v.len() ==> v[k] == k + 1,
    ensures
        question_count(number_set(v)) == v.len(),
{
    let q = number_set(v);
    assert forall|k: nat| q.contains(k) <==> 1 <= k <= v.len() by {
        if 1 <= k <= v.len() {
            assert(v[k - 1] == k);
        }
    }
    assert(runs_to(q, v.len()));
    let n = question_count(q);
    assert(runs_to(q, n));
    if n < v.len() {
        assert(q.contains(v.len()));
    }
    if n > v.len() {
        assert(q.contains(n));
    }
}

/// The questions and answers of the `[quiczk]` table `quiz`, or the first rule it breaks.
#[verifier::rlimit(60)]
fn check_table(path: &str, source: &str, quiz: &Vec<TomlEntry>) -> (r: Result<(Vec<Question>, Vec<Answer>), AppError>)
    ensures
        match table_outcome(source@, quiz@) {
            Ok((qs, ans)) => r matches Ok((q, a)) && q@.map_values(|x: Question| x@) == qs
                && a@.map_values(|x: Answer| x.answer@) == ans,
            Err(m) => r matches Err(e) && e.is_validation(path@, m),
        },
        r matches Ok((q, a)) ==> valid_quiz(
            QuizView {
                questions: q@.map_values(|x: Question| x@),
                answers: a@.map_values(|x: Answer| x.answer@),
                config: None,
            },
        ),
{
    let ghost t = quiz@;
    let prefixes: Vec<char> = vec!['q', 'o', 'a', 'e'];
    assert(prefixes@ =~= quiz_prefixes());
    match validate_key_prefixes(quiz, prefixes.as_slice(), "quiczk", path) {
        Ok(_) => {},
        Err(e) => return Err(e),
    }
    let question_numbers = match numbered_keys(quiz, 'q', "quiczk", path) {
        Ok(v) => v,
        Err(e) => return Err(e),
    };
    let option_numbers = match numbered_keys(quiz, 'o', "quiczk", path) {
        Ok(v) => v,
        Err(e) => return Err(e),
    };
    let answer_numbers = match numbered_keys(quiz, 'a', "quiczk", path) {
        Ok(v) => v,
        Err(e) => return Err(e),
    };
    let explanation_numbers = match numbered_keys(quiz, 'e', "quiczk", path) {
        Ok(v) => v,
        Err(e) => return Err(e),
    };
    proof {
        lemma_numbers_positive(t, 'q', question_numbers@);
        lemma_numbers_positive(t, 'o', option_numbers@);
        lemma_numbers_positive(t, 'a', answer_numbers@);
        lemma_numbers_positive(t, 'e', explanation_numbers@);
    }
    if question_numbers.len() == 0 && option_numbers.len() == 0 && answer_numbers.len() == 0 {
        let mut m = String::new();
        push_all(&mut m, "[quiczk] must not be empty");
        return Err(AppError::validation(path, m));
    }
    proof {
        if forall|n: nat| !numbers(t, 'q').contains(n) {
            if question_numbers.len() > 0 {
                assert(holds(question_numbers@, question_numbers@[0] as nat));
            }
        }
        if forall|n: nat| !numbers(t, 'o').contains(n) {
            if option_numbers.len() > 0 {
                assert(holds(option_numbers@, option_numbers@[0] as nat));
            }
        }
        if forall|n: nat| !numbers(t, 'a').contains(n) {
            if answer_numbers.len() > 0 {
                assert(holds(answer_numbers@, answer_numbers@[0] as nat));
            }
        }
    }
    match validate_matching_numbers(&question_numbers, &option_numbers, &answer_numbers, path) {
        Ok(_) => {},
        Err(e) => return Err(e),
    }
    match validate_contiguous(&question_numbers, 'q', path) {
        Ok(_) => {},
        Err(e) => return Err(e),
    }
    match validate_explanations(&explanation_numbers, &question_numbers, path) {
        Ok(_) => {},
        Err(e) => return Err(e),
    }
    proof {
        lemma_question_count(question_numbers@);
        if question_numbers.len() == 0 {
            let q = number_set(question_numbers@);
            let o = number_set(option_numbers@);
            let a = number_set(answer_numbers@);
            if option_numbers.len() > 0 {
                assert(holds(option_numbers@, option_numbers@[0] as nat));
                assert(mismatched_numbers(q, o, a).contains(option_numbers@[0] as nat));
            } else {
                assert(holds(answer_numbers@, answer_numbers@[0] as nat));
                assert(mismatched_numbers(q, o, a).contains(answer_numbers@[0] as nat));
            }
        }
    }
    let built = build_questions(quiz, question_numbers.len(), source, path);
    proof {
        if built is Ok {
            let q = built->Ok_0.0;
            let a = built->Ok_0.1;
            let v = QuizView {
                questions: q@.map_values(|x: Question| x@),
                answers: a@.map_values(|x: Answer| x.answer@),
                config: None,
            };
            assert forall|i: int| 0 <= i < v.questions.len() implies valid_question(
                #[trigger] v.questions[i],
                v.answers[i],
            ) by {
                assert(v.questions[i] == question_view(t, (i + 1) as nat));
                assert(v.answers[i] == answer_view(t, (i + 1) as nat));
            }
        }
    }
    built
}

impl Quiz {
    /// Checks, before anything is read, that `path` names a `.toml` file.
    pub fn check_path(path: &str) -> (r: Result<(), AppError>)
        ensures
            r is Ok <==> spec_is_toml_path(path@),
            r matches Err(e) ==> e.is_validation(path@, "not a .toml file"@),
    {
        if is_toml_path(path) {
            Ok(())
        } else {
            Err(AppError::validation(path, "not a .toml file".to_owned()))
        }
    }

    /// Reads a quiz from its TOML source. `path` names the source in error messages.
    pub fn from_source(path: &str, source: &str) -> (r: Result<Quiz, AppError>)
        ensures
            match toml_document(source@) {
                Err(m) => r matches Err(e) && e.is_toml(path@, m),
                Ok(doc) => match quiz_outcome(source@, doc) {
                    Ok(v) => r matches Ok(quiz) && quiz@ == v,
                    Err(m) => r matches Err(e) && e.is_validation(path@, m),
                },
            },
            r matches Ok(quiz) ==> valid_quiz(quiz@),
    {
        match parse_toml(source) {
            Ok(document) => Quiz::from_document(path, source, document),
            Err(message) => Err(AppError::toml(path, message.as_str())),
        }
    }

    /// Builds a quiz from a parsed TOML document, checking every rule of the quiz format.
    #[verifier::rlimit(60)]
    pub fn from_document(path: &str, source: &str, document: Vec<TomlEntry>) -> (r: Result<Quiz, AppError>)
        ensures
            match quiz_outcome(source@, document@) {
                Ok(v) => r matches Ok(quiz) && quiz@ == v,
                Err(m) => r matches Err(e) && e.is_validation(path@, m),
            },
            r matches Ok(quiz) ==> valid_quiz(quiz@),
    {
        let ghost doc = document@;
        let ghost unexpected = unexpected_top(doc);
        let quiczk_name = "quiczk".to_owned();
        let config_name = "config".to_owned();
        let mut i: usize = 0;
        while i < document.len()
            invariant
                i <= document.len(),
                doc == document@,
                unexpected == unexpected_top(doc),
                quiczk_name@ == "quiczk"@,
                config_name@ == "config"@,
                forall|j: int| 0 <= j < i ==> !#[trigger] unexpected(j),
            decreases document.len() - i,
        {
            if !document[i].key.eq(&quiczk_name) && !document[i].key.eq(&config_name) {
                let mut m = String::new();
                push_all(&mut m, "unexpected top-level table `");
                push_all(&mut m, document[i].key.as_str());
                push_all(&mut m, "`");
                proof {
                    lemma_first_where_found(doc.len() as int, unexpected, i as int);
                }
                return Err(AppError::validation(path, m));
            }
            i += 1;
        }
        proof {
            lemma_first_where_none(doc.len() as int, unexpected);
        }
        let (questions, answers) = {
            let quiz = match section(&document, "quiczk", path) {
                Ok(v) => v,
                Err(e) => return Err(e),
            };
            match check_table(path, source, quiz) {
                Ok(built) => built,
                Err(e) => return Err(e),
            }
        };
        let config = match find_key(&document, "config") {
            Some(k) => {
                let mut document = document;
                let entry = document.remove(k);
                match entry.value {
                    TomlValue::Table(table) => Some(table),
                    _ => {
                        let mut m = String::new();
                        push_all(&mut m, "[config] must be a table");
                        return Err(AppError::validation(path, m));
                    },
                }
            },
            None => None,
        };
        let quiz = Quiz { questions, answers, config };
        proof {
            assert(quiz@.questions =~= quiz.questions@.map_values(|x: Question| x@));
            assert forall|i: int| 0 <= i < quiz@.questions.len() implies valid_question(
                #[trigger] quiz@.questions[i],
                quiz@.answers[i],
            ) by {
                let v = QuizView {
                    questions: quiz.questions@.map_values(|x: Question| x@),
                    answers: quiz.answers@.map_values(|x: Answer| x.answer@),
                    config: None,
                };
                assert(v.questions[i] == quiz@.questions[i]);
            }
        }
        Ok(quiz)
    }
}

} // verus!
