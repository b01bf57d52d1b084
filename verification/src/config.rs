use vstd::prelude::*;

use crate::error::AppError;
use crate::search::{first_where, lemma_first_where_found, lemma_first_where_none};
use crate::text::{chars_of, decimal, push_all, push_decimal};
use crate::toml::{find_key, has_key, lemma_lookup_has_key, lookup, TomlEntry, TomlValue};

verus! {

/// How a quiz session behaves.
#[derive(Clone, Copy, Debug, PartialEq, Eq)]
pub struct Config {
    pub shuffle_questions: bool,
    pub shuffle_options: bool,
    pub random_start_cursor: bool,
    pub question_timer_seconds: Option<u64>,
    pub hide_options_until_interact: bool,
}

/// The settings that apply when nothing else is configured.
pub open spec fn default_config() -> Config {
    Config {
        shuffle_questions: false,
        shuffle_options: true,
        random_start_cursor: true,
        question_timer_seconds: None,
        hide_options_until_interact: true,
    }
}

impl Default for Config {
    fn default() -> (c: Config)
        ensures
            c == default_config(),
    {
        Config {
            shuffle_questions: false,
            shuffle_options: true,
            random_start_cursor: true,
            question_timer_seconds: None,
            hide_options_until_interact: true,
        }
    }
}

/// The setting, numbered in declaration order, that a configuration key names.
pub open spec fn field_of(key: Seq<char>) -> Option<int> {
    if key == "shuffle_questions"@ {
        Some(0)
    } else if key == "shuffle_options"@ {
        Some(1)
    } else if key == "random_start_cursor"@ {
        Some(2)
    } else if key == "question_timer_seconds"@ {
        Some(3)
    } else if key == "hide_options_until_interact"@ {
        Some(4)
    } else {
        None
    }
}

/// `v` has the type of setting `field`: a non-negative integer for the timer, a boolean
/// for the others.
pub open spec fn value_fits(field: int, v: TomlValue) -> bool {
    if field == 3 {
        v matches TomlValue::Integer(n) && n >= 0
    } else {
        v is Boolean
    }
}

/// Entry `i` of `t` names no setting, repeats an earlier key, or has the wrong type.
pub open spec fn config_entry_bad(t: Seq<TomlEntry>) -> spec_fn(int) -> bool {
    |i: int|
        match field_of(t[i].key@) {
            None => true,
            Some(f) => (exists|j: int| 0 <= j < i && (#[trigger] t[j]).key@ == t[i].key@) || !value_fits(
                f,
                t[i].value,
            ),
        }
}

/// What the `Debug` format of a `str` gives for `text`: the text quoted, with escapes.
pub uninterp spec fn debug_str(text: Seq<char>) -> Seq<char>;

/// The `Debug` format of `text`, from `<str as Debug>::fmt`, which std documents as the
/// string quoted with its characters escaped. Claimed: the result is a function of
/// `text` alone, named `debug_str`.
#[verifier::external_body]
fn debug_text(text: &str) -> (r: String)
    ensures
        r@ == debug_str(text@),
{
    format!("{:?}", text)
}

/// The decimal numeral of `n`, with a `-` before a negative number.
pub open spec fn signed_decimal(n: i64) -> Seq<char> {
    if n < 0 {
        "-"@ + decimal((-n) as nat)
    } else {
        decimal(n as nat)
    }
}

/// `text` is one of the texts that `Display` gives for a float that is not finite.
pub open spec fn not_finite_text(text: Seq<char>) -> bool {
    text == "NaN"@ || text == "inf"@ || text == "-inf"@
}

/// A float as serde shows it in an error, given the text that its `Display` gives: a
/// finite number without a decimal point gets `.0` appended.
pub open spec fn float_shown(text: Seq<char>) -> Seq<char> {
    if not_finite_text(text) || text.contains('.') {
        text
    } else {
        text + ".0"@
    }
}

/// How serde's `Unexpected` describes the TOML value `v`, as the `toml` crate hands it
/// to a visitor, in a type error.
pub open spec fn unexpected_text(v: TomlValue) -> Seq<char> {
    match v {
        TomlValue::String(s) => "string "@ + debug_str(s@),
        TomlValue::Integer(n) => "integer `"@ + signed_decimal(n) + "`"@,
        TomlValue::Float(text) => "floating point `"@ + float_shown(text@) + "`"@,
        TomlValue::Boolean(b) => "boolean `"@ + (if b {
            "true"@
        } else {
            "false"@
        }) + "`"@,
        TomlValue::Datetime(text) => "string "@ + debug_str(text@),
        TomlValue::Array(_) => "sequence"@,
        TomlValue::Table(_) => "map"@,
    }
}

/// The list of settings that an unknown key is told about.
pub open spec fn expected_fields() -> Seq<char> {
    "`shuffle_questions`, `shuffle_options`, `random_start_cursor`, `question_timer_seconds`, `hide_options_until_interact`"@
}

/// The complaint about bad entry `i` of `t`, as the `toml` crate's error shows it: the
/// message on a line of its own, then, for a bad value, the key it stands under.
pub open spec fn config_message(t: Seq<TomlEntry>, i: int) -> Seq<char> {
    let key = t[i].key@;
    match field_of(key) {
        None => "unknown field `"@ + key + "`, expected one of "@ + expected_fields() + "\n"@,
        Some(f) => if exists|j: int| 0 <= j < i && (#[trigger] t[j]).key@ == key {
            "duplicate field `"@ + key + "`\n"@
        } else if f == 3 {
            match t[i].value {
                TomlValue::Integer(n) => "invalid value: integer `"@ + signed_decimal(n)
                    + "`, expected u64\nin `"@ + key + "`\n"@,
                _ => "invalid type: "@ + unexpected_text(t[i].value) + ", expected u64\nin `"@
                    + key + "`\n"@,
            }
        } else {
            "invalid type: "@ + unexpected_text(t[i].value) + ", expected a boolean\nin `"@ + key
                + "`\n"@
        },
    }
}

/// The boolean setting `name` of `t`, or `fallback` when `t` has none.
pub open spec fn flag_or(t: Seq<TomlEntry>, name: Seq<char>, fallback: bool) -> bool {
    match lookup(t, name) {
        Some(TomlValue::Boolean(b)) => b,
        _ => fallback,
    }
}

/// The settings that a valid table `t` gives; settings it lacks keep their defaults.
pub open spec fn decoded(t: Seq<TomlEntry>) -> Config {
    let d = default_config();
    Config {
        shuffle_questions: flag_or(t, "shuffle_questions"@, d.shuffle_questions),
        shuffle_options: flag_or(t, "shuffle_options"@, d.shuffle_options),
        random_start_cursor: flag_or(t, "random_start_cursor"@, d.random_start_cursor),
        question_timer_seconds: match lookup(t, "question_timer_seconds"@) {
            Some(TomlValue::Integer(n)) => Some(n as u64),
            _ => d.question_timer_seconds,
        },
        hide_options_until_interact: flag_or(
            t,
            "hide_options_until_interact"@,
            d.hide_options_until_interact,
        ),
    }
}

/// What decoding table `t` gives: the settings, or the complaint about its first bad entry.
pub open spec fn config_outcome(t: Seq<TomlEntry>) -> Result<Config, Seq<char>> {
    match first_where(t.len() as int, config_entry_bad(t)) {
        Some(i) => Err(config_message(t, i)),
        None => Ok(decoded(t)),
    }
}

/// What `lookup` gives after one more entry is appended.
pub proof fn lemma_lookup_push(s: Seq<TomlEntry>, e: TomlEntry, k: Seq<char>)
    ensures
        lookup(s.push(e), k) == if has_key(s, k) {
            lookup(s, k)
        } else if e.key@ == k {
            Some(e.value)
        } else {
            None
        },
    decreases s.len(),
{
    if s.len() == 0 {
        assert(s.push(e)[0] == e);
        assert(s.push(e).drop_first() =~= Seq::<TomlEntry>::empty());
        assert(lookup(s.push(e).drop_first(), k) is None);
        assert(!has_key(s, k));
    } else {
        assert(s.push(e)[0] == s[0]);
        assert(s.push(e).drop_first() =~= s.drop_first().push(e));
        lemma_lookup_push(s.drop_first(), e, k);
        assert(lookup(s.push(e), k) == if s[0].key@ == k {
            Some(s[0].value)
        } else {
            lookup(s.drop_first().push(e), k)
        });
        if s[0].key@ != k {
            assert(has_key(s, k) == has_key(s.drop_first(), k)) by {
                if has_key(s, k) {
                    let i = choose|i: int| 0 <= i < s.len() && (#[trigger] s[i]).key@ == k;
                    assert(s.drop_first()[i - 1] == s[i]);
                }
                if has_key(s.drop_first(), k) {
                    let i = choose|i: int|
                        0 <= i < s.drop_first().len() && (#[trigger] s.drop_first()[i]).key@ == k;
                    assert(s[i + 1] == s.drop_first()[i]);
                }
            }
        } else {
            assert(has_key(s, k)) by {
                assert(s[0].key@ == k);
            }
        }
    }
}

/// `c` with setting `field` taken from the value `v`, which fits it.
pub open spec fn with_setting(c: Config, field: int, v: TomlValue) -> Config {
    match v {
        TomlValue::Boolean(b) => if field == 0 {
            Config { shuffle_questions: b, ..c }
        } else if field == 1 {
            Config { shuffle_options: b, ..c }
        } else if field == 2 {
            Config { random_start_cursor: b, ..c }
        } else if field == 4 {
            Config { hide_options_until_interact: b, ..c }
        } else {
            c
        },
        TomlValue::Integer(n) => if field == 3 {
            Config { question_timer_seconds: Some(n as u64), ..c }
        } else {
            c
        },
        _ => c,
    }
}

/// Decoding one more entry, whose key is new, changes only the setting it names.
pub proof fn lemma_decoded_push(s: Seq<TomlEntry>, e: TomlEntry, field: int)
    requires
        !has_key(s, e.key@),
        field_of(e.key@) == Some(field),
        value_fits(field, e.value),
    ensures
        decoded(s.push(e)) == with_setting(decoded(s), field, e.value),
{
    reveal_strlit("shuffle_questions");
    reveal_strlit("shuffle_options");
    reveal_strlit("random_start_cursor");
    reveal_strlit("question_timer_seconds");
    reveal_strlit("hide_options_until_interact");
    lemma_lookup_push(s, e, "shuffle_questions"@);
    lemma_lookup_push(s, e, "shuffle_options"@);
    lemma_lookup_push(s, e, "random_start_cursor"@);
    lemma_lookup_push(s, e, "question_timer_seconds"@);
    lemma_lookup_push(s, e, "hide_options_until_interact"@);
    lemma_lookup_has_key(s, e.key@);
    lemma_lookup_has_key(s, "shuffle_questions"@);
    lemma_lookup_has_key(s, "shuffle_options"@);
    lemma_lookup_has_key(s, "random_start_cursor"@);
    lemma_lookup_has_key(s, "question_timer_seconds"@);
    lemma_lookup_has_key(s, "hide_options_until_interact"@);
    let k = e.key@;
    assert(lookup(s.push(e), k) == Some(e.value));
    let before = decoded(s);
    let after = decoded(s.push(e));
    assert(k != "shuffle_questions"@ ==> after.shuffle_questions == before.shuffle_questions);
    assert(k != "shuffle_options"@ ==> after.shuffle_options == before.shuffle_options);
    assert(k != "random_start_cursor"@ ==> after.random_start_cursor == before.random_start_cursor);
    assert(k != "question_timer_seconds"@ ==> after.question_timer_seconds == before.question_timer_seconds);
    assert(k != "hide_options_until_interact"@ ==> after.hide_options_until_interact == before.hide_options_until_interact);
    assert("shuffle_questions"@.len() == 17);
    assert("shuffle_options"@.len() == 15);
    assert("random_start_cursor"@.len() == 19);
    assert("question_timer_seconds"@.len() == 22);
    assert("hide_options_until_interact"@.len() == 27);
    assert("shuffle_questions"@ != "shuffle_options"@);
    assert("shuffle_questions"@ != "random_start_cursor"@);
    assert("shuffle_questions"@ != "question_timer_seconds"@);
    assert("shuffle_questions"@ != "hide_options_until_interact"@);
    assert("shuffle_options"@ != "random_start_cursor"@);
    assert("shuffle_options"@ != "question_timer_seconds"@);
    assert("shuffle_options"@ != "hide_options_until_interact"@);
    assert("random_start_cursor"@ != "question_timer_seconds"@);
    assert("random_start_cursor"@ != "hide_options_until_interact"@);
    assert("question_timer_seconds"@ != "hide_options_until_interact"@);
}

/// Whether `key` names a setting, and which.
fn field_index(key: &String) -> (r: Option<usize>)
    ensures
        match field_of(key@) {
            Some(f) => r == Some(f as usize),
            None => r is None,
        },
{
    if key.eq(&"shuffle_questions".to_owned()) {
        Some(0)
    } else if key.eq(&"shuffle_options".to_owned()) {
        Some(1)
    } else if key.eq(&"random_start_cursor".to_owned()) {
        Some(2)
    } else if key.eq(&"question_timer_seconds".to_owned()) {
        Some(3)
    } else if key.eq(&"hide_options_until_interact".to_owned()) {
        Some(4)
    } else {
        None
    }
}

/// Whether `text` is one of the texts that `Display` gives for a float that is not finite.
fn is_not_finite_text(text: &String) -> (r: bool)
    ensures
        r == not_finite_text(text@),
{
    let nan = "NaN".to_owned();
    let inf = "inf".to_owned();
    let minus_inf = "-inf".to_owned();
    text.eq(&nan) || text.eq(&inf) || text.eq(&minus_inf)
}

/// Whether `text` holds a `.`.
fn has_point(text: &str) -> (r: bool)
    ensures
        r == text@.contains('.'),
{
    let chars = chars_of(text);
    let mut i: usize = 0;
    while i < chars.len()
        invariant
            i <= chars.len(),
            chars@ == text@,
            forall|j: int| 0 <= j < i ==> chars@[j] != '.',
        decreases chars.len() - i,
    {
        if chars[i] == '.' {
            return true;
        }
        i += 1;
    }
    false
}

/// Appends how serde describes `v` in a type error.
fn push_unexpected(out: &mut String, v: &TomlValue)
    ensures
        final(out)@ == old(out)@ + unexpected_text(*v),
{
    match v {
        TomlValue::String(text) | TomlValue::Datetime(text) => {
            push_all(out, "string ");
            push_all(out, debug_text(text.as_str()).as_str());
        },
        TomlValue::Integer(n) => {
            push_all(out, "integer `");
            if *n < 0 {
                push_all(out, "-");
                push_decimal(out, (0 - (*n as i128)) as u64);
            } else {
                push_decimal(out, *n as u64);
            }
            push_all(out, "`");
        },
        TomlValue::Float(text) => {
            push_all(out, "floating point `");
            push_all(out, text.as_str());
            if !is_not_finite_text(text) && !has_point(text.as_str()) {
                push_all(out, ".0");
            }
            push_all(out, "`");
        },
        TomlValue::Boolean(b) => {
            push_all(out, "boolean `");
            if *b {
                push_all(out, "true");
            } else {
                push_all(out, "false");
            }
            push_all(out, "`");
        },
        TomlValue::Array(_) => push_all(out, "sequence"),
        TomlValue::Table(_) => push_all(out, "map"),
    }
    assert(out@ =~= old(out)@ + unexpected_text(*v));
}

impl Config {
    /// Decodes a table of settings. Every key must name a setting, once, with a value of
    /// its type; settings the table lacks keep their defaults. `path` names the source in
    /// error messages.
    #[verifier::rlimit(60)]
    pub fn from_table(table: &Vec<TomlEntry>, path: &str) -> (r: Result<Config, AppError>)
        ensures
            match config_outcome(table@) {
                Ok(c) => r == Ok::<Config, AppError>(c),
                Err(m) => r matches Err(e) && e.is_toml(path@, m),
            },
    {
        let ghost t = table@;
        let ghost bad = config_entry_bad(t);
        let mut config = Config::default();
        let mut i: usize = 0;
        assert(t.take(0) =~= Seq::<TomlEntry>::empty());
        while i < table.len()
            invariant
                i <= table.len(),
                t == table@,
                bad == config_entry_bad(t),
                forall|j: int| 0 <= j < i ==> !#[trigger] bad(j),
                config == decoded(t.take(i as int)),
            decreases table.len() - i,
        {
            let key = &table[i].key;
            let field = match field_index(key) {
                Some(f) => f,
                None => {
                    let mut m = String::new();
                    push_all(&mut m, "unknown field `");
                    push_all(&mut m, key.as_str());
                    push_all(&mut m, "`, expected one of ");
                    push_all(
                        &mut m,
                        "`shuffle_questions`, `shuffle_options`, `random_start_cursor`, `question_timer_seconds`, `hide_options_until_interact`",
                    );
                    push_all(&mut m, "\n");
                    proof {
                        lemma_first_where_found(t.len() as int, bad, i as int);
                    }
                    return Err(AppError::toml(path, m.as_str()));
                },
            };
            let mut j: usize = 0;
            while j < i
                invariant
                    j <= i < table.len(),
                    t == table@,
                    bad == config_entry_bad(t),
                    field_of(t[i as int].key@) is Some,
                    forall|x: int| 0 <= x < i ==> !#[trigger] bad(x),
                    key == &t[i as int].key,
                    forall|x: int| 0 <= x < j ==> (#[trigger] t[x]).key@ != t[i as int].key@,
                decreases i - j,
            {
                if table[j].key.eq(key) {
                    let mut m = String::new();
                    push_all(&mut m, "duplicate field `");
                    push_all(&mut m, key.as_str());
                    push_all(&mut m, "`\n");
                    proof {
                        assert(bad(i as int));
                        lemma_first_where_found(t.len() as int, bad, i as int);
                    }
                    return Err(AppError::toml(path, m.as_str()));
                }
                j += 1;
            }
            let ghost fresh = !has_key(t.take(i as int), t[i as int].key@);
            proof {
                assert(fresh) by {
                    if has_key(t.take(i as int), t[i as int].key@) {
                        let x = choose|x: int|
                            0 <= x < t.take(i as int).len() && (#[trigger] t.take(i as int)[x]).key@
                                == t[i as int].key@;
                        assert(t[x] == t.take(i as int)[x]);
                    }
                }
                assert(t.take(i + 1) =~= t.take(i as int).push(t[i as int]));
            }
            let ghost before = config;
            let fits = match (field, &table[i].value) {
                (3, TomlValue::Integer(n)) => {
                    if *n < 0 {
                        let mut m = String::new();
                        push_all(&mut m, "invalid value: integer `");
                        push_all(&mut m, "-");
                        push_decimal(&mut m, (0 - (*n as i128)) as u64);
                        push_all(&mut m, "`, expected u64\nin `");
                        push_all(&mut m, key.as_str());
                        push_all(&mut m, "`\n");
                        proof {
                            assert(bad(i as int));
                            lemma_first_where_found(t.len() as int, bad, i as int);
                            assert(field_of(t[i as int].key@) == Some(3int));
                            assert(t[i as int].value == TomlValue::Integer(*n));
                            assert(m@ =~= "invalid value: integer `"@ + signed_decimal(*n)
                                + "`, expected u64\nin `"@ + t[i as int].key@ + "`\n"@);
                        }
                        return Err(AppError::toml(path, m.as_str()));
                    }
                    config.question_timer_seconds = Some(*n as u64);
                    true
                },
                (0, TomlValue::Boolean(b)) => {
                    config.shuffle_questions = *b;
                    true
                },
                (1, TomlValue::Boolean(b)) => {
                    config.shuffle_options = *b;
                    true
                },
                (2, TomlValue::Boolean(b)) => {
                    config.random_start_cursor = *b;
                    true
                },
                (4, TomlValue::Boolean(b)) => {
                    config.hide_options_until_interact = *b;
                    true
                },
                _ => false,
            };
            if !fits {
                let mut m = String::new();
                push_all(&mut m, "invalid type: ");
                push_unexpected(&mut m, &table[i].value);
                if field == 3 {
                    push_all(&mut m, ", expected u64\nin `");
                } else {
                    push_all(&mut m, ", expected a boolean\nin `");
                }
                push_all(&mut m, key.as_str());
                push_all(&mut m, "`\n");
                proof {
                    assert(bad(i as int));
                    lemma_first_where_found(t.len() as int, bad, i as int);
                }
                return Err(AppError::toml(path, m.as_str()));
            }
            assert(config == with_setting(before, field as int, table@[i as int].value));
            proof {
                lemma_decoded_push(t.take(i as int), t[i as int], field as int);
                assert(!bad(i as int));
            }
            i += 1;
        }
        proof {
            lemma_first_where_none(t.len() as int, bad);
            assert(t.take(i as int) =~= t);
        }
        Ok(config)
    }
}

/// The last value stored under `key` in `entries`.
pub open spec fn lookup_last(entries: Seq<TomlEntry>, key: Seq<char>) -> Option<TomlValue>
    decreases entries.len(),
{
    if entries.len() == 0 {
        None
    } else if entries.last().key@ == key {
        Some(entries.last().value)
    } else {
        lookup_last(entries.drop_last(), key)
    }
}

/// No two entries of `t` share a key.
pub open spec fn distinct_keys(t: Seq<TomlEntry>) -> bool {
    forall|i: int, j: int| 0 <= i < j < t.len() ==> t[i].key@ != t[j].key@
}

/// Every entry of `t` names a setting and has a value of its type.
pub open spec fn settings_fit(t: Seq<TomlEntry>) -> bool {
    forall|i: int|
        0 <= i < t.len() ==> (#[trigger] field_of(t[i].key@)) is Some && value_fits(
            field_of(t[i].key@)->Some_0,
            t[i].value,
        )
}

/// What `lookup` gives after entry `i`, the first with its key, is replaced by one with the
/// same key.
pub proof fn lemma_lookup_set(s: Seq<TomlEntry>, i: int, e: TomlEntry, k: Seq<char>)
    requires
        0 <= i < s.len(),
        s[i].key@ == e.key@,
        forall|j: int| 0 <= j < i ==> (#[trigger] s[j]).key@ != e.key@,
    ensures
        lookup(s.update(i, e), k) == if k == e.key@ {
            Some(e.value)
        } else {
            lookup(s, k)
        },
    decreases i,
{
    if i > 0 {
        assert(s.update(i, e).drop_first() =~= s.drop_first().update(i - 1, e));
        assert forall|j: int| 0 <= j < i - 1 implies (#[trigger] s.drop_first()[j]).key@ != e.key@ by {
            assert(s.drop_first()[j] == s[j + 1]);
        }
        lemma_lookup_set(s.drop_first(), i - 1, e, k);
        assert(s.update(i, e)[0] == s[0]);
    } else {
        assert(s.update(i, e).drop_first() =~= s.drop_first());
    }
}

/// What `lookup_last` gives after one more entry is appended.
proof fn lemma_lookup_last_push(s: Seq<TomlEntry>, e: TomlEntry, k: Seq<char>)
    ensures
        lookup_last(s.push(e), k) == if e.key@ == k {
            Some(e.value)
        } else {
            lookup_last(s, k)
        },
        has_key(s.push(e), k) == (has_key(s, k) || e.key@ == k),
{
    assert(s.push(e).drop_last() =~= s);
    if has_key(s.push(e), k) {
        let i = choose|i: int| 0 <= i < s.push(e).len() && (#[trigger] s.push(e)[i]).key@ == k;
        if i < s.len() {
            assert(s[i] == s.push(e)[i]);
        }
    }
    if has_key(s, k) {
        let i = choose|i: int| 0 <= i < s.len() && (#[trigger] s[i]).key@ == k;
        assert(s.push(e)[i] == s[i]);
    }
    if e.key@ == k {
        assert(s.push(e)[s.len() as int] == e);
    }
}

/// `item` is an entry of `a` or of `b`.
pub open spec fn comes_from(a: Seq<TomlEntry>, b: Seq<TomlEntry>, item: TomlEntry) -> bool {
    (exists|j: int| 0 <= j < a.len() && a[j] == item) || (exists|j: int| 0 <= j < b.len() && b[j] == item)
}

/// Sets every key of `over` in `base`, replacing the value of a key `base` has and adding
/// one it lacks; later entries of `over` win.
pub fn overlay(base: &mut Vec<TomlEntry>, over: Vec<TomlEntry>)
    ensures
        forall|k: Seq<char>|
            #[trigger] lookup(final(base)@, k) == if has_key(over@, k) {
                lookup_last(over@, k)
            } else {
                lookup(old(base)@, k)
            },
        forall|x: int|
            0 <= x < final(base)@.len() ==> comes_from(old(base)@, over@, #[trigger] final(base)@[x]),
        distinct_keys(old(base)@) ==> distinct_keys(final(base)@),
{
    let ghost base0 = base@;
    let ghost over0 = over@;
    let mut over = over;
    let ghost mut done: Seq<TomlEntry> = Seq::empty();
    assert forall|x: int| 0 <= x < base@.len() implies comes_from(base0, over0, #[trigger] base@[x]) by {
        assert(base0[x] == base@[x]);
    }
    assert(done + over@ =~= over0);
    while over.len() > 0
        invariant
            done + over@ == over0,
            forall|k: Seq<char>|
                #[trigger] lookup(base@, k) == if has_key(done, k) {
                    lookup_last(done, k)
                } else {
                    lookup(base0, k)
                },
            forall|x: int| 0 <= x < base@.len() ==> comes_from(base0, over0, #[trigger] base@[x]),
            distinct_keys(base0) ==> distinct_keys(base@),
        decreases over.len(),
    {
        let ghost before = base@;
        let entry = over.remove(0);
        let ghost e = entry;
        proof {
            assert(over0[done.len() as int] == e);
        }
        match find_key(base, entry.key.as_str()) {
            Some(i) => {
                proof {
                    assert forall|k: Seq<char>| #[trigger] lookup(before.update(i as int, e), k) == if k == e.key@ {
                        Some(e.value)
                    } else {
                        lookup(before, k)
                    } by {
                        lemma_lookup_set(before, i as int, e, k);
                    }
                }
                base.set(i, entry);
            },
            None => {
                proof {
                    assert forall|k: Seq<char>| #[trigger] lookup(before.push(e), k) == if k == e.key@ {
                        Some(e.value)
                    } else {
                        lookup(before, k)
                    } by {
                        lemma_lookup_push(before, e, k);
                        lemma_lookup_has_key(before, k);
                    }
                }
                base.push(entry);
            },
        }
        proof {
            assert forall|k: Seq<char>| #[trigger] lookup(base@, k) == if has_key(done.push(e), k) {
                lookup_last(done.push(e), k)
            } else {
                lookup(base0, k)
            } by {
                lemma_lookup_last_push(done, e, k);
            }
            assert forall|x: int| 0 <= x < base@.len() implies comes_from(base0, over0, #[trigger] base@[x]) by {
                if base@[x] != e {
                    assert(base@[x] == before[x]);
                } else {
                    assert(over0[done.len() as int] == base@[x]);
                }
            }
            if distinct_keys(base0) {
                assert forall|a: int, b: int| 0 <= a < b < base@.len() implies base@[a].key@ != base@[b].key@ by {
                    if base@.len() > before.len() {
                        if b == before.len() {
                            assert(!has_key(before, e.key@));
                            assert(before[a] == base@[a]);
                        }
                    }
                }
            }
            done = done.push(e);
            assert(done + over@ =~= over0);
        }
    }
    proof {
        assert(done =~= over0);
    }
}

/// A table whose entries all fit and have distinct keys decodes without error.
pub proof fn lemma_fitting_table_decodes(t: Seq<TomlEntry>)
    requires
        settings_fit(t),
        distinct_keys(t),
    ensures
        config_outcome(t) == Ok::<Config, Seq<char>>(decoded(t)),
{
    assert forall|i: int| 0 <= i < t.len() implies !#[trigger] config_entry_bad(t)(i) by {
        assert(field_of(t[i].key@) is Some);
        if exists|j: int| 0 <= j < i && (#[trigger] t[j]).key@ == t[i].key@ {
            let j = choose|j: int| 0 <= j < i && (#[trigger] t[j]).key@ == t[i].key@;
            assert(t[j].key@ != t[i].key@);
        }
    }
    lemma_first_where_none(t.len() as int, config_entry_bad(t));
}

/// A table that decodes without error has fitting entries with distinct keys.
pub proof fn lemma_decoding_table_fits(t: Seq<TomlEntry>)
    requires
        config_outcome(t) is Ok,
    ensures
        settings_fit(t),
        distinct_keys(t),
{
    assert forall|i: int| 0 <= i < t.len() implies !#[trigger] config_entry_bad(t)(i) by {
        if config_entry_bad(t)(i) {
            crate::search::lemma_first_where_exists(t.len() as int, config_entry_bad(t), i);
        }
    }
    assert forall|i: int| 0 <= i < t.len() implies (#[trigger] field_of(t[i].key@)) is Some
        && value_fits(field_of(t[i].key@)->Some_0, t[i].value) by {
        assert(!config_entry_bad(t)(i));
    }
    assert forall|i: int, j: int| 0 <= i < j < t.len() implies t[i].key@ != t[j].key@ by {
        assert(!config_entry_bad(t)(j));
        if t[i].key@ == t[j].key@ {
            assert(exists|x: int| 0 <= x < j && (#[trigger] t[x]).key@ == t[j].key@);
        }
    }
}

/// With distinct keys, the last value under a key is the first.
pub proof fn lemma_last_is_first(t: Seq<TomlEntry>, k: Seq<char>)
    requires
        distinct_keys(t),
    ensures
        lookup_last(t, k) == lookup(t, k),
    decreases t.len(),
{
    if t.len() > 0 {
        let d = t.drop_last();
        assert forall|i: int, j: int| 0 <= i < j < d.len() implies d[i].key@ != d[j].key@ by {
            assert(d[i] == t[i] && d[j] == t[j]);
        }
        lemma_last_is_first(d, k);
        lemma_lookup_push(d, t.last(), k);
        lemma_lookup_has_key(d, k);
        assert(d.push(t.last()) =~= t);
        if t.last().key@ == k && has_key(d, k) {
            let i = choose|i: int| 0 <= i < d.len() && (#[trigger] d[i]).key@ == k;
            assert(t[i] == d[i]);
            assert(t[i].key@ != t[t.len() - 1].key@);
        }
    }
}

/// The settings of `base`, overridden by each setting that table `e` holds.
pub open spec fn resolved(base: Config, e: Seq<TomlEntry>) -> Config {
    let d = decoded(e);
    Config {
        shuffle_questions: if has_key(e, "shuffle_questions"@) {
            d.shuffle_questions
        } else {
            base.shuffle_questions
        },
        shuffle_options: if has_key(e, "shuffle_options"@) {
            d.shuffle_options
        } else {
            base.shuffle_options
        },
        random_start_cursor: if has_key(e, "random_start_cursor"@) {
            d.random_start_cursor
        } else {
            base.random_start_cursor
        },
        question_timer_seconds: if has_key(e, "question_timer_seconds"@) {
            d.question_timer_seconds
        } else {
            base.question_timer_seconds
        },
        hide_options_until_interact: if has_key(e, "hide_options_until_interact"@) {
            d.hide_options_until_interact
        } else {
            base.hide_options_until_interact
        },
    }
}

/// One entry of a settings table.
fn entry(key: &str, value: TomlValue) -> (e: TomlEntry)
    ensures
        e.key@ == key@,
        e.value == value,
{
    TomlEntry { key: key.to_owned(), value }
}

impl Config {
    /// These settings as a table, keys in the order the `toml` crate keeps them; a timer
    /// that is off has no key.
    pub fn to_table(&self) -> (t: Vec<TomlEntry>)
        requires
            self.question_timer_seconds matches Some(s) ==> s <= i64::MAX,
        ensures
            settings_fit(t@),
            distinct_keys(t@),
            decoded(t@) == *self,
    {
        let mut t: Vec<TomlEntry> = Vec::new();
        t.push(entry("hide_options_until_interact", TomlValue::Boolean(self.hide_options_until_interact)));
        match self.question_timer_seconds {
            Some(seconds) => {
                t.push(entry("question_timer_seconds", TomlValue::Integer(seconds as i64)));
            },
            None => {},
        }
        t.push(entry("random_start_cursor", TomlValue::Boolean(self.random_start_cursor)));
        t.push(entry("shuffle_options", TomlValue::Boolean(self.shuffle_options)));
        t.push(entry("shuffle_questions", TomlValue::Boolean(self.shuffle_questions)));
        proof {
            reveal_strlit("shuffle_questions");
            reveal_strlit("shuffle_options");
            reveal_strlit("random_start_cursor");
            reveal_strlit("question_timer_seconds");
            reveal_strlit("hide_options_until_interact");
            assert("shuffle_questions"@.len() == 17);
            assert("shuffle_options"@.len() == 15);
            assert("random_start_cursor"@.len() == 19);
            assert("question_timer_seconds"@.len() == 22);
            assert("hide_options_until_interact"@.len() == 27);
            reveal_with_fuel(lookup, 6);
        }
        t
    }

    /// The settings in force for a quiz: those of `base`, each overridden by the quiz file's
    /// own `[config]` table where it sets it. The embedded table is checked on its own
    /// first, so a bad key is reported against the quiz file `quiz_path`.
    pub fn resolve(base: Config, quiz_path: &str, embedded: Option<Vec<TomlEntry>>) -> (r: Result<
        Config,
        AppError,
    >)
        requires
            embedded is Some ==> (base.question_timer_seconds matches Some(s) ==> s <= i64::MAX),
        ensures
            match embedded {
                None => r == Ok::<Config, AppError>(base),
                Some(e) => match config_outcome(e@) {
                    Err(m) => r matches Err(err) && err.is_toml(quiz_path@, m),
                    Ok(_) => r == Ok::<Config, AppError>(resolved(base, e@)),
                },
            },
    {
        match embedded {
            None => Ok(base),
            Some(e) => {
                match Config::from_table(&e, quiz_path) {
                    Ok(_) => {},
                    Err(err) => return Err(err),
                }
                let ghost ev = e@;
                let mut merged = base.to_table();
                let ghost table = merged@;
                overlay(&mut merged, e);
                proof {
                    lemma_decoding_table_fits(ev);
                    assert forall|i: int| 0 <= i < merged@.len() implies (#[trigger] field_of(
                        merged@[i].key@,
                    )) is Some && value_fits(field_of(merged@[i].key@)->Some_0, merged@[i].value) by {
                        assert(comes_from(table, ev, merged@[i]));
                        if exists|j: int| 0 <= j < table.len() && table[j] == merged@[i] {
                            let j = choose|j: int| 0 <= j < table.len() && table[j] == merged@[i];
                            assert(field_of(table[j].key@) is Some);
                        } else {
                            let j = choose|j: int| 0 <= j < ev.len() && ev[j] == merged@[i];
                            assert(field_of(ev[j].key@) is Some);
                        }
                    }
                    lemma_fitting_table_decodes(merged@);
                    lemma_last_is_first(ev, "shuffle_questions"@);
                    lemma_last_is_first(ev, "shuffle_options"@);
                    lemma_last_is_first(ev, "random_start_cursor"@);
                    lemma_last_is_first(ev, "question_timer_seconds"@);
                    lemma_last_is_first(ev, "hide_options_until_interact"@);
                    assert(lookup(merged@, "shuffle_questions"@) == if has_key(ev, "shuffle_questions"@) { lookup(ev, "shuffle_questions"@) } else { lookup(table, "shuffle_questions"@) });
                    assert(lookup(merged@, "shuffle_options"@) == if has_key(ev, "shuffle_options"@) { lookup(ev, "shuffle_options"@) } else { lookup(table, "shuffle_options"@) });
                    assert(lookup(merged@, "random_start_cursor"@) == if has_key(ev, "random_start_cursor"@) { lookup(ev, "random_start_cursor"@) } else { lookup(table, "random_start_cursor"@) });
                    assert(lookup(merged@, "question_timer_seconds"@) == if has_key(ev, "question_timer_seconds"@) { lookup(ev, "question_timer_seconds"@) } else { lookup(table, "question_timer_seconds"@) });
                    assert(lookup(merged@, "hide_options_until_interact"@) == if has_key(ev, "hide_options_until_interact"@) { lookup(ev, "hide_options_until_interact"@) } else { lookup(table, "hide_options_until_interact"@) });
                    assert(decoded(merged@) == resolved(base, ev));
                }
                Config::from_table(&merged, quiz_path)
            },
        }
    }
}

} // verus!
