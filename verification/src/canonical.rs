use vstd::prelude::*;

use crate::quiz::{
    numbers_outcome, question_count, quiz_outcome, quiz_prefixes, runs_to, table_outcome,
    config_outcome, formatted, question_blocks, unexpected_top, valid_quiz, QuestionView,
    QuizView,
};
use crate::rules::{
    digits_value, has_gap, has_known_prefix, is_ascii_digit, key_number, labelled,
    mismatched_numbers, numbered_bad, numbered_before, numbers, option_bad, options_outcome,
    orphan_numbers, parse_usize, starts_with_char, string_content, string_outcome,
    unsigned_digits,
};
use crate::search::{first_where, lemma_first_where_none};
use crate::validate::{
    answer_invalid, answer_view, invalid_answers, question_error, question_fails, question_view,
    questions_outcome, valid_question,
};
use crate::text::{decimal, digit_char};
use crate::toml::{has_key, lookup, TomlEntry, TomlValue};

verus! {

/// A decimal numeral is made of ASCII digits, at least one, and is worth its number.
pub proof fn lemma_decimal_digits(n: nat)
    ensures
        decimal(n).len() >= 1,
        forall|i: int| 0 <= i < decimal(n).len() ==> is_ascii_digit(#[trigger] decimal(n)[i]),
        digits_value(decimal(n)) == n,
    decreases n,
{
    if n < 10 {
        let d = decimal(n);
        assert(d == seq![digit_char(n)]);
        assert(d.drop_last() =~= Seq::<char>::empty());
        assert((digit_char(n) as u32) == 48 + n);
        assert(d.last() == digit_char(n));
        assert(digits_value(d) == digits_value(d.drop_last()) * 10 + ((d.last() as u32) - 48) as nat);
        assert(digits_value(d.drop_last()) == 0);
    } else {
        lemma_decimal_digits(n / 10);
        let d = decimal(n);
        let head = decimal(n / 10);
        assert(d == head.push(digit_char(n % 10)));
        assert(d.drop_last() =~= head);
        assert((digit_char(n % 10) as u32) == 48 + n % 10);
        assert forall|i: int| 0 <= i < d.len() implies is_ascii_digit(#[trigger] d[i]) by {
            if i < head.len() {
                assert(d[i] == head[i]);
            }
        }
        assert(d.last() == digit_char(n % 10));
        assert(digits_value(d) == digits_value(d.drop_last()) * 10 + ((d.last() as u32) - 48) as nat);
        assert(digits_value(head) == n / 10);
        assert(n == (n / 10) * 10 + n % 10) by (nonlinear_arith);
    }
}

/// A decimal numeral reads back as its number.
pub proof fn lemma_parse_decimal(n: nat)
    requires
        n <= usize::MAX,
    ensures
        parse_usize(decimal(n)) == Some(n),
{
    lemma_decimal_digits(n);
    assert(is_ascii_digit(decimal(n)[0]));
    assert(unsigned_digits(decimal(n)) == decimal(n));
}

/// A key names its prefix and number: two keys are equal only where both agree.
pub proof fn lemma_labelled_injective(c: char, n: nat, d: char, m: nat)
    requires
        labelled(c, n) == labelled(d, m),
    ensures
        c == d,
        n == m,
{
    assert(labelled(c, n)[0] == c);
    assert(labelled(d, m)[0] == d);
    assert(labelled(c, n).drop_first() =~= decimal(n));
    assert(labelled(d, m).drop_first() =~= decimal(m));
    lemma_decimal_digits(n);
    lemma_decimal_digits(m);
}

/// `items` are the strings `texts`, in order.
pub open spec fn strings_of(items: Seq<TomlValue>, texts: Seq<Seq<char>>) -> bool {
    &&& items.len() == texts.len()
    &&& forall|k: int|
        0 <= k < items.len() ==> ((#[trigger] items[k]) matches TomlValue::String(s) && s@ == texts[k])
}

/// `x` is the entry that the canonical layout of quiz `v` writes under the key with prefix
/// `p` and number `n`: the question, the options, the answer or the explanation.
pub open spec fn writes(v: QuizView, p: char, n: nat, x: TomlEntry) -> bool {
    &&& 1 <= n <= v.questions.len()
    &&& x.key@ == labelled(p, n)
    &&& if p == 'q' {
        x.value matches TomlValue::String(s) && s@ == v.questions[n - 1].question
    } else if p == 'o' {
        x.value matches TomlValue::Array(items) && strings_of(items@, v.questions[n - 1].options)
    } else if p == 'a' {
        x.value matches TomlValue::String(s) && s@ == v.answers[n - 1]
    } else {
        &&& p == 'e'
        &&& v.questions[n - 1].explanation matches Some(e)
        &&& x.value matches TomlValue::String(s)
        &&& s@ == e
    }
}

/// The table `t` holds exactly the entries that the canonical layout of `v` writes, each
/// once, in any order.
pub open spec fn canonical_table(t: Seq<TomlEntry>, v: QuizView) -> bool {
    &&& forall|i: int, j: int| 0 <= i < j < t.len() ==> t[i].key@ != t[j].key@
    &&& forall|i: int|
        #![trigger t[i]]
        0 <= i < t.len() ==> exists|p: char, n: nat| #[trigger] writes(v, p, n, t[i])
    &&& forall|n: nat|
        1 <= n <= v.questions.len() ==> {
            &&& has_key(t, #[trigger] labelled('q', n))
            &&& has_key(t, labelled('o', n))
            &&& has_key(t, labelled('a', n))
            &&& (has_key(t, labelled('e', n)) <==> v.questions[n - 1].explanation is Some)
        }
}

/// Where the keys of `t` are distinct, looking up the key of entry `i` finds entry `i`.
pub proof fn lemma_lookup_distinct(t: Seq<TomlEntry>, i: int)
    requires
        0 <= i < t.len(),
        forall|a: int, b: int| 0 <= a < b < t.len() ==> t[a].key@ != t[b].key@,
    ensures
        lookup(t, t[i].key@) == Some(t[i].value),
    decreases t.len(),
{
    if i > 0 {
        let rest = t.drop_first();
        assert(rest[i - 1] == t[i]);
        assert(t[0].key@ != t[i].key@);
        assert forall|a: int, b: int| 0 <= a < b < rest.len() implies rest[a].key@ != rest[b].key@ by {
            assert(rest[a] == t[a + 1] && rest[b] == t[b + 1]);
        }
        lemma_lookup_distinct(rest, i - 1);
    }
}

/// The prefix and number of entry `i` of a canonical table.
pub proof fn lemma_entry_written(t: Seq<TomlEntry>, v: QuizView, i: int) -> (r: (char, nat))
    requires
        canonical_table(t, v),
        0 <= i < t.len(),
    ensures
        writes(v, r.0, r.1, t[i]),
        r.0 == 'q' || r.0 == 'o' || r.0 == 'a' || r.0 == 'e',
{
    let (p, n) = choose|p: char, n: nat| #[trigger] writes(v, p, n, t[i]);
    (p, n)
}

/// In a canonical table, the entry under the key with prefix `p` and number `n` is the one
/// that the layout writes there.
pub proof fn lemma_lookup_written(t: Seq<TomlEntry>, v: QuizView, p: char, n: nat) -> (i: int)
    requires
        canonical_table(t, v),
        has_key(t, labelled(p, n)),
    ensures
        0 <= i < t.len(),
        t[i].key@ == labelled(p, n),
        writes(v, p, n, t[i]),
        lookup(t, labelled(p, n)) == Some(t[i].value),
{
    let i = choose|i: int| 0 <= i < t.len() && (#[trigger] t[i]).key@ == labelled(p, n);
    let (q, m) = lemma_entry_written(t, v, i);
    lemma_labelled_injective(q, m, p, n);
    lemma_lookup_distinct(t, i);
    i
}

/// Every key of a canonical table has one of the prefixes `q`, `o`, `a`, `e`.
pub proof fn lemma_known_prefixes(t: Seq<TomlEntry>, v: QuizView, i: int)
    requires
        canonical_table(t, v),
        0 <= i < t.len(),
    ensures
        has_known_prefix(t[i].key@, seq!['q', 'o', 'a', 'e']),
{
    let (p, n) = lemma_entry_written(t, v, i);
    let prefixes = seq!['q', 'o', 'a', 'e'];
    assert(t[i].key@[0] == p);
    if p == 'q' {
        assert(starts_with_char(t[i].key@, prefixes[0]));
    } else if p == 'o' {
        assert(starts_with_char(t[i].key@, prefixes[1]));
    } else if p == 'a' {
        assert(starts_with_char(t[i].key@, prefixes[2]));
    } else {
        assert(starts_with_char(t[i].key@, prefixes[3]));
    }
}

/// The key of entry `i` of a canonical table that begins with `p` has a number of its own,
/// from 1 to the number of questions.
pub proof fn lemma_entry_number(t: Seq<TomlEntry>, v: QuizView, p: char, i: int) -> (n: nat)
    requires
        canonical_table(t, v),
        v.questions.len() <= usize::MAX,
        0 <= i < t.len(),
        starts_with_char(t[i].key@, p),
    ensures
        writes(v, p, n, t[i]),
        key_number(t, i) == Some(n),
        1 <= n <= v.questions.len(),
{
    let (q, n) = lemma_entry_written(t, v, i);
    assert(t[i].key@[0] == q);
    assert(t[i].key@.drop_first() =~= decimal(n));
    lemma_parse_decimal(n);
    n
}

/// No key of a canonical table is badly numbered.
pub proof fn lemma_well_numbered(t: Seq<TomlEntry>, v: QuizView, p: char, i: int)
    requires
        canonical_table(t, v),
        v.questions.len() <= usize::MAX,
        0 <= i < t.len(),
    ensures
        !numbered_bad(t, p)(i),
{
    if starts_with_char(t[i].key@, p) {
        let n = lemma_entry_number(t, v, p, i);
        if numbered_before(t, p, i, n) {
            let j = choose|j: int|
                0 <= j < i && starts_with_char(t[j].key@, p) && #[trigger] key_number(t, j) == Some(n);
            let m = lemma_entry_number(t, v, p, j);
            assert(t[j].key@ == t[i].key@);
        }
    }
}

/// The numbers under prefix `p` of a canonical table: those of the questions for `q`, `o`
/// and `a`; some of them for `e`.
pub proof fn lemma_numbers(t: Seq<TomlEntry>, v: QuizView, p: char)
    requires
        canonical_table(t, v),
        v.questions.len() <= usize::MAX,
    ensures
        forall|n: nat| #[trigger] numbers(t, p).contains(n) ==> 1 <= n <= v.questions.len(),
        p == 'q' || p == 'o' || p == 'a' ==> forall|n: nat|
            #[trigger] numbers(t, p).contains(n) <==> 1 <= n <= v.questions.len(),
{
    assert forall|n: nat| #[trigger] numbers(t, p).contains(n) implies 1 <= n <= v.questions.len() by {
        let j = choose|j: int|
            0 <= j < t.len() && starts_with_char(t[j].key@, p) && #[trigger] key_number(t, j) == Some(n);
        lemma_entry_number(t, v, p, j);
    }
    if p == 'q' || p == 'o' || p == 'a' {
        assert forall|n: nat| 1 <= n <= v.questions.len() implies #[trigger] numbers(t, p).contains(n) by {
            assert(has_key(t, labelled('q', n)));
            assert(has_key(t, labelled(p, n)));
            let i = lemma_lookup_written(t, v, p, n);
            assert(t[i].key@[0] == p);
            let m = lemma_entry_number(t, v, p, i);
            lemma_labelled_injective(p, m, p, n);
            assert(key_number(t, i) == Some(n));
            assert(numbered_before(t, p, t.len() as int, n));
        }
    }
}

/// In a canonical table, the key with prefix `p` and number `n` holds a string with the
/// text `text`; where that text is not blank, reading it gives it back.
proof fn lemma_string_written(t: Seq<TomlEntry>, v: QuizView, p: char, n: nat, text: Seq<char>)
    requires
        canonical_table(t, v),
        has_key(t, labelled(p, n)),
        p == 'q' ==> text == v.questions[n - 1].question,
        p == 'a' ==> text == v.answers[n - 1],
        p == 'e' ==> v.questions[n - 1].explanation == Some(text),
        p == 'q' || p == 'a' || p == 'e',
        !crate::text::all_whitespace(text),
    ensures
        string_outcome(t, labelled(p, n)) == Ok::<Seq<char>, Seq<char>>(text),
{
    lemma_lookup_written(t, v, p, n);
}

/// In a canonical table, the options of question `n` read back as they are.
proof fn lemma_options_written(t: Seq<TomlEntry>, v: QuizView, n: nat)
    requires
        canonical_table(t, v),
        1 <= n <= v.questions.len(),
        valid_question(v.questions[n - 1], v.answers[n - 1]),
    ensures
        options_outcome(t, labelled('o', n)) == Ok::<Seq<Seq<char>>, Seq<char>>(
            v.questions[n - 1].options,
        ),
{
    assert(has_key(t, labelled('q', n)));
    let i = lemma_lookup_written(t, v, 'o', n);
    let options = v.questions[n - 1].options;
    let items = match t[i].value {
        TomlValue::Array(items) => items@,
        _ => Seq::empty(),
    };
    assert(strings_of(items, options));
    assert forall|k: int| 0 <= k < items.len() implies !#[trigger] option_bad(items)(k) by {
        assert(items[k] matches TomlValue::String(s) && s@ == options[k]);
        assert(!crate::text::all_whitespace(options[k]));
        assert forall|j: int| 0 <= j < k implies !(#[trigger] string_content(items[j]) == options[k]
            && items[j] is String) by {
            assert(items[j] matches TomlValue::String(s) && s@ == options[j]);
            assert(options[j] != options[k]);
        }
    }
    lemma_first_where_none(items.len() as int, option_bad(items));
    let mapped = items.map_values(|x: TomlValue| string_content(x));
    assert forall|k: int| 0 <= k < items.len() implies #[trigger] mapped[k] == options[k] by {
        assert(items[k] matches TomlValue::String(s) && s@ == options[k]);
    }
    assert(mapped =~= options);
}

/// In a canonical table of a valid quiz, question `n` reads back as it is, with its
/// answer, and nothing is wrong with it.
proof fn lemma_question_written(t: Seq<TomlEntry>, v: QuizView, n: nat)
    requires
        canonical_table(t, v),
        1 <= n <= v.questions.len(),
        v.answers.len() == v.questions.len(),
        valid_question(v.questions[n - 1], v.answers[n - 1]),
    ensures
        question_error(t, n) is None,
        question_view(t, n) == v.questions[n - 1],
        answer_view(t, n) == v.answers[n - 1],
        !answer_invalid(t, n),
{
    let q = v.questions[n - 1];
    assert(has_key(t, labelled('q', n)));
    lemma_string_written(t, v, 'q', n, q.question);
    lemma_options_written(t, v, n);
    lemma_string_written(t, v, 'a', n, v.answers[n - 1]);
    match q.explanation {
        Some(e) => {
            lemma_string_written(t, v, 'e', n, e);
        },
        None => {},
    }
    assert(question_view(t, n) == QuestionView {
        question: q.question,
        options: q.options,
        explanation: q.explanation,
    });
}

/// No question up to `k` has an answer outside its options, so none is reported.
proof fn lemma_no_invalid_answers(t: Seq<TomlEntry>, k: nat)
    requires
        forall|n: nat| 1 <= n <= k ==> !#[trigger] answer_invalid(t, n),
    ensures
        invalid_answers(t, k).len() == 0,
    decreases k,
{
    if k > 0 {
        lemma_no_invalid_answers(t, (k - 1) as nat);
        assert(!answer_invalid(t, k));
    }
}

/// The questions of a canonical table of a valid quiz read back as they are.
proof fn lemma_questions_written(source: Seq<char>, t: Seq<TomlEntry>, v: QuizView)
    requires
        canonical_table(t, v),
        valid_quiz(v),
    ensures
        questions_outcome(source, t, v.questions.len()) == Ok::<
            (Seq<QuestionView>, Seq<Seq<char>>),
            Seq<char>,
        >((v.questions, v.answers)),
{
    let count = v.questions.len();
    assert forall|n: nat| 1 <= n <= count implies {
        &&& question_error(t, n) is None
        &&& question_view(t, n) == v.questions[n - 1]
        &&& answer_view(t, n) == v.answers[n - 1]
        &&& !#[trigger] answer_invalid(t, n)
    } by {
        assert(valid_question(v.questions[n - 1], v.answers[n - 1]));
        lemma_question_written(t, v, n);
    }
    assert forall|k: int| 0 <= k < count implies !#[trigger] question_fails(t)(k) by {
        assert(!answer_invalid(t, (k + 1) as nat));
    }
    lemma_first_where_none(count as int, question_fails(t));
    lemma_no_invalid_answers(t, count);
    let qs = Seq::new(count, |k: int| question_view(t, (k + 1) as nat));
    let ans = Seq::new(count, |k: int| answer_view(t, (k + 1) as nat));
    assert forall|k: int| 0 <= k < count implies qs[k] == v.questions[k] && ans[k] == v.answers[k] by {
        assert(!answer_invalid(t, (k + 1) as nat));
    }
    assert(qs =~= v.questions);
    assert(ans =~= v.answers);
}

/// The canonical `[quiczk]` table of a valid quiz passes every rule of the quiz format and
/// reads back as the quiz's questions and answers.
pub proof fn lemma_canonical_table_outcome(source: Seq<char>, t: Seq<TomlEntry>, v: QuizView)
    requires
        canonical_table(t, v),
        valid_quiz(v),
        v.questions.len() <= usize::MAX,
    ensures
        table_outcome(source, t) == Ok::<(Seq<QuestionView>, Seq<Seq<char>>), Seq<char>>(
            (v.questions, v.answers),
        ),
{
    let n = v.questions.len();
    assert forall|i: int| 0 <= i < t.len() implies !#[trigger] crate::rules::unsupported_key(
        t,
        quiz_prefixes(),
    )(i) by {
        lemma_known_prefixes(t, v, i);
    }
    lemma_first_where_none(t.len() as int, crate::rules::unsupported_key(t, quiz_prefixes()));
    assert forall|i: int| 0 <= i < t.len() implies !#[trigger] numbered_bad(t, 'q')(i) by {
        lemma_well_numbered(t, v, 'q', i);
    }
    assert forall|i: int| 0 <= i < t.len() implies !#[trigger] numbered_bad(t, 'o')(i) by {
        lemma_well_numbered(t, v, 'o', i);
    }
    assert forall|i: int| 0 <= i < t.len() implies !#[trigger] numbered_bad(t, 'a')(i) by {
        lemma_well_numbered(t, v, 'a', i);
    }
    assert forall|i: int| 0 <= i < t.len() implies !#[trigger] numbered_bad(t, 'e')(i) by {
        lemma_well_numbered(t, v, 'e', i);
    }
    lemma_first_where_none(t.len() as int, numbered_bad(t, 'q'));
    lemma_first_where_none(t.len() as int, numbered_bad(t, 'o'));
    lemma_first_where_none(t.len() as int, numbered_bad(t, 'a'));
    lemma_first_where_none(t.len() as int, numbered_bad(t, 'e'));
    lemma_numbers(t, v, 'q');
    lemma_numbers(t, v, 'o');
    lemma_numbers(t, v, 'a');
    lemma_numbers(t, v, 'e');
    let q = numbers(t, 'q');
    let o = numbers(t, 'o');
    let a = numbers(t, 'a');
    let e = numbers(t, 'e');
    assert(q.contains(1));
    assert forall|m: nat| !#[trigger] mismatched_numbers(q, o, a).contains(m) by {
        if 1 <= m <= n {
            assert(q.contains(m) && o.contains(m) && a.contains(m));
        } else {
            assert(!q.contains(m) && !o.contains(m) && !a.contains(m));
        }
    }
    assert(!has_gap(q)) by {
        if has_gap(q) {
            let (k, m) = choose|k: nat, m: nat| 1 <= k < m && !q.contains(k) && q.contains(m);
            assert(q.contains(k));
        }
    }
    assert forall|m: nat| !#[trigger] orphan_numbers(e, q).contains(m) by {
        if e.contains(m) {
            assert(q.contains(m));
        }
    }
    assert(runs_to(q, n));
    let c = question_count(q);
    assert(runs_to(q, c));
    if c < n {
        assert(q.contains(n));
    }
    if c > n {
        assert(q.contains(c));
    }
    lemma_questions_written(source, t, v);
    assert(numbers_outcome(source, t, q, o, a, e) == questions_outcome(source, t, n));
}

/// A document that holds just a `[quiczk]` table: that table is the one found, nothing else
/// is there, and it has no `[config]`.
proof fn lemma_single_section(doc: Seq<TomlEntry>)
    requires
        doc.len() == 1,
        doc[0].key@ == "quiczk"@,
    ensures
        first_where(doc.len() as int, unexpected_top(doc)) is None,
        lookup(doc, "quiczk"@) == Some(doc[0].value),
        config_outcome(doc) == Ok::<Option<Seq<TomlEntry>>, Seq<char>>(None),
{
    assert(!unexpected_top(doc)(0));
    lemma_first_where_none(doc.len() as int, unexpected_top(doc));
    assert(doc.drop_first() =~= Seq::<TomlEntry>::empty());
    reveal_strlit("quiczk");
    reveal_strlit("config");
    assert(doc[0].key@ != "config"@) by {
        assert(doc[0].key@[0] == 'q');
        assert("config"@[0] == 'c');
    }
    assert(lookup(doc.drop_first(), "config"@) is None);
    assert(lookup(doc, "config"@) is None);
}

/// What `format_source` writes reads back as the quiz, as far as this library decides it:
/// where the `toml` crate reads a document that holds just a `[quiczk]` table with the
/// entries that the canonical layout of a valid quiz writes, in any order, the quiz format
/// gives back that quiz's questions and answers, without a `[config]` of its own, whatever
/// source text it is reported against.
pub proof fn lemma_canonical_document_reads_back(source: Seq<char>, doc: Seq<TomlEntry>, v: QuizView)
    requires
        valid_quiz(v),
        v.questions.len() <= usize::MAX,
        doc.len() == 1,
        doc[0].key@ == "quiczk"@,
        doc[0].value matches TomlValue::Table(t) && canonical_table(t@, v),
    ensures
        quiz_outcome(source, doc) == Ok::<QuizView, Seq<char>>(
            QuizView { questions: v.questions, answers: v.answers, config: None },
        ),
{
    let t = match doc[0].value {
        TomlValue::Table(t) => t@,
        _ => Seq::empty(),
    };
    lemma_canonical_table_outcome(source, t, v);
    lemma_single_section(doc);
}

/// The layout of a quiz does not depend on its own `[config]`.
proof fn lemma_blocks_ignore_config(v: QuizView, w: QuizView, k: nat)
    requires
        v.questions == w.questions,
        v.answers == w.answers,
    ensures
        question_blocks(v, k) == question_blocks(w, k),
    decreases k,
{
    if k > 0 {
        lemma_blocks_ignore_config(v, w, (k - 1) as nat);
    }
}

/// Formatting is stable, as far as this library decides it: where the `toml` crate reads
/// the canonical layout of a valid quiz back as its canonical table, the quiz read from it
/// is laid out exactly as before.
pub proof fn lemma_format_is_stable(doc: Seq<TomlEntry>, v: QuizView)
    requires
        valid_quiz(v),
        v.questions.len() <= usize::MAX,
        doc.len() == 1,
        doc[0].key@ == "quiczk"@,
        doc[0].value matches TomlValue::Table(t) && canonical_table(t@, v),
    ensures
        quiz_outcome(formatted(v), doc) matches Ok(w) && formatted(w) == formatted(v),
{
    lemma_canonical_document_reads_back(formatted(v), doc, v);
    let w = QuizView { questions: v.questions, answers: v.answers, config: None };
    lemma_blocks_ignore_config(v, w, v.questions.len());
}

} // verus!
