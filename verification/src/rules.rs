use vstd::prelude::*;

use crate::error::AppError;
use crate::search::{
    first_where, holds, increasing, insert_sorted, least, lemma_first_where_found,
    lemma_first_where_none, lemma_least,
};
use crate::text::{all_whitespace, chars_of, decimal, is_blank, push_all, push_decimal};
use crate::toml::{find_key, lookup, TomlEntry, TomlValue};

verus! {

/// `c` is one of the ASCII digits `0` to `9`.
pub open spec fn is_ascii_digit(c: char) -> bool {
    48 <= (c as u32) <= 57
}

/// The number that the ASCII digits `d` spell in decimal.
pub open spec fn digits_value(d: Seq<char>) -> nat
    decreases d.len(),
{
    if d.len() == 0 {
        0
    } else {
        digits_value(d.drop_last()) * 10 + ((d.last() as u32) - 48) as nat
    }
}

/// `s` without one leading `+`.
pub open spec fn unsigned_digits(s: Seq<char>) -> Seq<char> {
    if s.len() > 0 && s[0] == '+' {
        s.drop_first()
    } else {
        s
    }
}

/// What `s.parse::<usize>()` gives: an optional `+`, then one or more ASCII digits whose
/// value fits in `usize`.
pub open spec fn parse_usize(s: Seq<char>) -> Option<nat> {
    let d = unsigned_digits(s);
    if d.len() > 0 && (forall|i: int| 0 <= i < d.len() ==> is_ascii_digit(#[trigger] d[i]))
        && digits_value(d) <= usize::MAX {
        Some(digits_value(d))
    } else {
        None
    }
}

/// Digits only add to a number: a longer digit string is worth at least its prefix.
proof fn lemma_digits_monotone(d: Seq<char>, k: int)
    requires
        0 <= k <= d.len(),
        forall|i: int| 0 <= i < d.len() ==> is_ascii_digit(#[trigger] d[i]),
    ensures
        digits_value(d.take(k)) <= digits_value(d),
    decreases d.len(),
{
    if k < d.len() {
        assert(d.drop_last().take(k) =~= d.take(k));
        assert forall|i: int| 0 <= i < d.drop_last().len() implies is_ascii_digit(
            #[trigger] d.drop_last()[i],
        ) by {
            assert(d.drop_last()[i] == d[i]);
        }
        lemma_digits_monotone(d.drop_last(), k);
    } else {
        assert(d.take(k) =~= d);
    }
}

/// Parses `chars[from..]` as `str::parse::<usize>` does.
pub fn parse_usize_at(chars: &Vec<char>, from: usize) -> (r: Option<usize>)
    requires
        from <= chars.len(),
    ensures
        match r {
            Some(v) => parse_usize(chars@.skip(from as int)) == Some(v as nat),
            None => parse_usize(chars@.skip(from as int)) is None,
        },
{
    let ghost s = chars@.skip(from as int);
    let mut start: usize = from;
    if start < chars.len() && chars[start] == '+' {
        start += 1;
    }
    let ghost d = unsigned_digits(s);
    assert(d =~= chars@.skip(start as int));
    if start == chars.len() {
        return None;
    }
    let mut i: usize = start;
    let mut acc: usize = 0;
    while i < chars.len()
        invariant
            from <= start <= i <= chars.len(),
            start < chars.len(),
            d == chars@.skip(start as int),
            d == unsigned_digits(chars@.skip(from as int)),
            forall|j: int| 0 <= j < i - start ==> is_ascii_digit(#[trigger] d[j]),
            acc as nat == digits_value(d.take(i - start)),
        decreases chars.len() - i,
    {
        let c = chars[i];
        let u: u32 = c as u32;
        if u < 48 || u > 57 {
            assert(!is_ascii_digit(d[i - start]));
            return None;
        }
        let digit: usize = (u - 48) as usize;
        proof {
            assert(d.take(i - start + 1).drop_last() =~= d.take(i - start));
            assert(d.take(i - start + 1).last() == c);
        }
        if acc > (usize::MAX - digit) / 10 {
            proof {
                assert(acc * 10 + digit > usize::MAX) by (nonlinear_arith)
                    requires
                        acc > (usize::MAX - digit) / 10,
                        digit <= 9,
                ;
                if forall|j: int| 0 <= j < d.len() ==> is_ascii_digit(#[trigger] d[j]) {
                    lemma_digits_monotone(d, i - start + 1);
                }
            }
            return None;
        }
        proof {
            assert(acc * 10 + digit <= usize::MAX) by (nonlinear_arith)
                requires
                    acc <= (usize::MAX - digit) / 10,
                    digit <= 9,
            ;
        }
        acc = acc * 10 + digit;
        i += 1;
    }
    assert(d.take(i - start) =~= d);
    Some(acc)
}

/// `s` begins with the character `c`.
pub open spec fn starts_with_char(s: Seq<char>, c: char) -> bool {
    s.len() > 0 && s[0] == c
}

/// The number after the first character of key `i`.
pub open spec fn key_number(t: Seq<TomlEntry>, i: int) -> Option<nat> {
    parse_usize(t[i].key@.drop_first())
}

/// Key `j`, before `i`, has prefix `p` and number `n`.
pub open spec fn numbered_before(t: Seq<TomlEntry>, p: char, i: int, n: nat) -> bool {
    exists|j: int| 0 <= j < i && starts_with_char(t[j].key@, p) && #[trigger] key_number(t, j) == Some(n)
}

/// Key `i` has prefix `p` but no number, number zero, or a number an earlier key has.
pub open spec fn numbered_bad(t: Seq<TomlEntry>, p: char) -> spec_fn(int) -> bool {
    |i: int|
        starts_with_char(t[i].key@, p) && match key_number(t, i) {
            None => true,
            Some(n) => n == 0 || numbered_before(t, p, i, n),
        }
}

/// The complaint about key `i` of `section` when it is the first bad numbered key.
pub open spec fn numbered_message(section: Seq<char>, t: Seq<TomlEntry>, p: char, i: int) -> Seq<
    char,
> {
    match key_number(t, i) {
        None => section + "."@ + t[i].key@ + " must end with a number"@,
        Some(n) => if n == 0 {
            section + "."@ + t[i].key@ + " must start at 1"@
        } else {
            section + " contains duplicate numeric key "@ + seq![p] + decimal(n)
        },
    }
}

/// The numbers of the keys of `t` that begin with `p`.
pub open spec fn numbers(t: Seq<TomlEntry>, p: char) -> Set<nat> {
    Set::new(|n: nat| numbered_before(t, p, t.len() as int, n))
}

/// The numbers of the keys of `table` that begin with `prefix`, ascending, or the first
/// key that has no number, number zero, or a number seen before.
pub fn numbered_keys(table: &Vec<TomlEntry>, prefix: char, section: &str, path: &str) -> (r: Result<
    Vec<usize>,
    AppError,
>)
    ensures
        match first_where(table.len() as int, numbered_bad(table@, prefix)) {
            Some(i) => r matches Err(e) && e.is_validation(
                path@,
                numbered_message(section@, table@, prefix, i),
            ),
            None => r matches Ok(v) && increasing(v@) && forall|n: nat|
                holds(v@, n) <==> numbers(table@, prefix).contains(n),
        },
{
    let ghost t = table@;
    let ghost bad = numbered_bad(t, prefix);
    let mut v: Vec<usize> = Vec::new();
    let mut i: usize = 0;
    while i < table.len()
        invariant
            i <= table.len(),
            t == table@,
            bad == numbered_bad(t, prefix),
            increasing(v@),
            forall|j: int| 0 <= j < i ==> !#[trigger] bad(j),
            forall|n: nat| holds(v@, n) <==> numbered_before(t, prefix, i as int, n),
        decreases table.len() - i,
    {
        let key = chars_of(table[i].key.as_str());
        if key.len() > 0 && key[0] == prefix {
            let parsed = parse_usize_at(&key, 1);
            assert(key@.skip(1) =~= key@.drop_first());
            match parsed {
                None => {
                    let mut m = String::new();
                    push_all(&mut m, section);
                    push_all(&mut m, ".");
                    push_all(&mut m, table[i].key.as_str());
                    push_all(&mut m, " must end with a number");
                    proof {
                        assert(bad(i as int));
                        lemma_first_where_found(t.len() as int, bad, i as int);
                    }
                    return Err(AppError::validation(path, m));
                },
                Some(n) => {
                    if n == 0 {
                        let mut m = String::new();
                        push_all(&mut m, section);
                        push_all(&mut m, ".");
                        push_all(&mut m, table[i].key.as_str());
                        push_all(&mut m, " must start at 1");
                        proof {
                            assert(bad(i as int));
                            lemma_first_where_found(t.len() as int, bad, i as int);
                        }
                        return Err(AppError::validation(path, m));
                    }
                    if !insert_sorted(&mut v, n) {
                        let mut m = String::new();
                        push_all(&mut m, section);
                        push_all(&mut m, " contains duplicate numeric key ");
                        m.push(prefix);
                        push_decimal(&mut m, n as u64);
                        proof {
                            assert(numbered_before(t, prefix, i as int, n as nat));
                            assert(bad(i as int));
                            lemma_first_where_found(t.len() as int, bad, i as int);
                            assert(m@ =~= numbered_message(section@, t, prefix, i as int));
                        }
                        return Err(AppError::validation(path, m));
                    }
                    proof {
                        assert(!bad(i as int));
                        assert forall|m: nat| numbered_before(t, prefix, i + 1, m) implies holds(v@, m) by {
                            if numbered_before(t, prefix, i + 1, m) {
                                let j = choose|j: int|
                                    0 <= j < i + 1 && starts_with_char(t[j].key@, prefix)
                                        && #[trigger] key_number(t, j) == Some(m);
                                if j < i {
                                    assert(numbered_before(t, prefix, i as int, m));
                                }
                            }
                        }
                        assert forall|m: nat| holds(v@, m) implies numbered_before(t, prefix, i + 1, m) by {
                            if holds(v@, m) && m == n {
                                assert(key_number(t, i as int) == Some(m));
                            }
                            if holds(v@, m) && m != n {
                                let j = choose|j: int|
                                    0 <= j < i && starts_with_char(t[j].key@, prefix)
                                        && #[trigger] key_number(t, j) == Some(m);
                                assert(key_number(t, j) == Some(m));
                            }
                        }
                    }
                },
            }
        } else {
            proof {
                assert(!starts_with_char(t[i as int].key@, prefix));
                assert forall|m: nat| numbered_before(t, prefix, i + 1, m) implies numbered_before(
                    t,
                    prefix,
                    i as int,
                    m,
                ) by {
                    if numbered_before(t, prefix, i + 1, m) {
                        let j = choose|j: int|
                            0 <= j < i + 1 && starts_with_char(t[j].key@, prefix)
                                && #[trigger] key_number(t, j) == Some(m);
                        assert(j != i);
                    }
                }
                assert forall|m: nat| numbered_before(t, prefix, i as int, m) implies numbered_before(
                    t,
                    prefix,
                    i + 1,
                    m,
                ) by {
                    if numbered_before(t, prefix, i as int, m) {
                        let j = choose|j: int|
                            0 <= j < i && starts_with_char(t[j].key@, prefix)
                                && #[trigger] key_number(t, j) == Some(m);
                        assert(key_number(t, j) == Some(m));
                    }
                }
            }
        }
        i += 1;
    }
    proof {
        lemma_first_where_none(t.len() as int, bad);
    }
    Ok(v)
}

/// `key` begins with one of `prefixes`.
pub open spec fn has_known_prefix(key: Seq<char>, prefixes: Seq<char>) -> bool {
    exists|k: int| 0 <= k < prefixes.len() && starts_with_char(key, #[trigger] prefixes[k])
}

/// Key `i` of `t` begins with none of `prefixes`.
pub open spec fn unsupported_key(t: Seq<TomlEntry>, prefixes: Seq<char>) -> spec_fn(int) -> bool {
    |i: int| !has_known_prefix(t[i].key@, prefixes)
}

/// Fails on the first key of `table` that begins with none of `prefixes`.
pub fn validate_key_prefixes(table: &Vec<TomlEntry>, prefixes: &[char], section: &str, path: &str) -> (r:
    Result<(), AppError>)
    ensures
        match first_where(table.len() as int, unsupported_key(table@, prefixes@)) {
            Some(i) => r matches Err(e) && e.is_validation(
                path@,
                section@ + "."@ + table@[i].key@ + " uses an unsupported key name"@,
            ),
            None => r is Ok,
        },
{
    let ghost bad = unsupported_key(table@, prefixes@);
    let mut i: usize = 0;
    while i < table.len()
        invariant
            i <= table.len(),
            bad == unsupported_key(table@, prefixes@),
            forall|j: int| 0 <= j < i ==> !#[trigger] bad(j),
        decreases table.len() - i,
    {
        let key = chars_of(table[i].key.as_str());
        let mut k: usize = 0;
        let mut found = false;
        while k < prefixes.len()
            invariant
                k <= prefixes.len(),
                key@ == table@[i as int].key@,
                found == exists|x: int| 0 <= x < k && starts_with_char(key@, #[trigger] prefixes@[x]),
            decreases prefixes.len() - k,
        {
            if key.len() > 0 && key[0] == prefixes[k] {
                found = true;
            }
            k += 1;
        }
        if !found {
            let mut m = String::new();
            push_all(&mut m, section);
            push_all(&mut m, ".");
            push_all(&mut m, table[i].key.as_str());
            push_all(&mut m, " uses an unsupported key name");
            proof {
                lemma_first_where_found(table.len() as int, bad, i as int);
            }
            return Err(AppError::validation(path, m));
        }
        i += 1;
    }
    proof {
        lemma_first_where_none(table.len() as int, bad);
    }
    Ok(())
}

/// The table stored under `name` in `document`, or the complaint that there is none.
pub fn section<'a>(document: &'a Vec<TomlEntry>, name: &str, path: &str) -> (r: Result<
    &'a Vec<TomlEntry>,
    AppError,
>)
    ensures
        match lookup(document@, name@) {
            Some(TomlValue::Table(t)) => r matches Ok(found) && found@ == t@,
            _ => r matches Err(e) && e.is_validation(path@, "["@ + name@ + "] table is required"@),
        },
{
    match find_key(document, name) {
        Some(i) => match &document[i].value {
            TomlValue::Table(t) => {
                return Ok(t);
            },
            _ => {},
        },
        None => {},
    }
    let mut m = String::new();
    push_all(&mut m, "[");
    push_all(&mut m, name);
    push_all(&mut m, "] table is required");
    Err(AppError::validation(path, m))
}

/// What `string_value` gives for `key`: its non-blank string, or the complaint.
pub open spec fn string_outcome(t: Seq<TomlEntry>, key: Seq<char>) -> Result<Seq<char>, Seq<char>> {
    match lookup(t, key) {
        Some(TomlValue::String(s)) => if all_whitespace(s@) {
            Err(key + " must not be empty"@)
        } else {
            Ok(s@)
        },
        _ => Err(key + " must be a string"@),
    }
}

/// The string stored under `key`, which must not be blank.
pub fn string_value(table: &Vec<TomlEntry>, key: &str, path: &str) -> (r: Result<String, AppError>)
    ensures
        match string_outcome(table@, key@) {
            Ok(s) => r matches Ok(v) && v@ == s,
            Err(m) => r matches Err(e) && e.is_validation(path@, m),
        },
{
    match find_key(table, key) {
        Some(i) => match &table[i].value {
            TomlValue::String(s) => {
                if is_blank(s.as_str()) {
                    let mut m = String::new();
                    push_all(&mut m, key);
                    push_all(&mut m, " must not be empty");
                    return Err(AppError::validation(path, m));
                }
                return Ok(s.clone());
            },
            _ => {},
        },
        None => {},
    }
    let mut m = String::new();
    push_all(&mut m, key);
    push_all(&mut m, " must be a string");
    Err(AppError::validation(path, m))
}

/// The text of `v` when it is a string.
pub open spec fn string_content(v: TomlValue) -> Seq<char> {
    match v {
        TomlValue::String(s) => s@,
        _ => Seq::empty(),
    }
}

/// Item `i` of an options array is not a non-blank string, or repeats an earlier item.
pub open spec fn option_bad(items: Seq<TomlValue>) -> spec_fn(int) -> bool {
    |i: int|
        match items[i] {
            TomlValue::String(s) => all_whitespace(s@) || exists|j: int|
                0 <= j < i && #[trigger] string_content(items[j]) == s@ && items[j] is String,
            _ => true,
        }
}

/// The complaint about item `i` of the options under `key`.
pub open spec fn option_message(key: Seq<char>, items: Seq<TomlValue>, i: int) -> Seq<char> {
    match items[i] {
        TomlValue::String(s) => if all_whitespace(s@) {
            key + "["@ + decimal(i as nat) + "] must be a non-empty string"@
        } else {
            key + " contains duplicate option `"@ + s@ + "`"@
        },
        _ => key + "["@ + decimal(i as nat) + "] must be a non-empty string"@,
    }
}

/// What `options_value` gives for `key`: the options, or the complaint.
pub open spec fn options_outcome(t: Seq<TomlEntry>, key: Seq<char>) -> Result<Seq<Seq<char>>, Seq<char>> {
    match lookup(t, key) {
        Some(TomlValue::Array(items)) => if items.len() < 2 {
            Err(key + " must contain at least two options"@)
        } else {
            match first_where(items.len() as int, option_bad(items@)) {
                Some(i) => Err(option_message(key, items@, i)),
                None => Ok(items@.map_values(|v: TomlValue| string_content(v))),
            }
        },
        _ => Err(key + " must be an array"@),
    }
}

/// The options stored under `key`: at least two distinct non-blank strings.
pub fn options_value(table: &Vec<TomlEntry>, key: &str, path: &str) -> (r: Result<Vec<String>, AppError>)
    ensures
        match options_outcome(table@, key@) {
            Ok(o) => r matches Ok(v) && v@.map_values(|s: String| s@) == o,
            Err(m) => r matches Err(e) && e.is_validation(path@, m),
        },
{
    let items = match find_key(table, key) {
        Some(i) => match &table[i].value {
            TomlValue::Array(items) => items,
            _ => {
                let mut m = String::new();
                push_all(&mut m, key);
                push_all(&mut m, " must be an array");
                return Err(AppError::validation(path, m));
            },
        },
        None => {
            let mut m = String::new();
            push_all(&mut m, key);
            push_all(&mut m, " must be an array");
            return Err(AppError::validation(path, m));
        },
    };
    if items.len() < 2 {
        let mut m = String::new();
        push_all(&mut m, key);
        push_all(&mut m, " must contain at least two options");
        return Err(AppError::validation(path, m));
    }
    let ghost bad = option_bad(items@);
    let mut parsed: Vec<String> = Vec::new();
    let mut i: usize = 0;
    while i < items.len()
        invariant
            i <= items.len(),
            items.len() >= 2,
            bad == option_bad(items@),
            lookup(table@, key@) == Some(TomlValue::Array(*items)),
            forall|j: int| 0 <= j < i ==> !#[trigger] bad(j),
            parsed.len() == i,
            forall|j: int| 0 <= j < i ==> (#[trigger] items@[j]) is String,
            forall|j: int| 0 <= j < i ==> (#[trigger] parsed@[j])@ == string_content(items@[j]),
        decreases items.len() - i,
    {
        let value = match &items[i] {
            TomlValue::String(s) => {
                if is_blank(s.as_str()) {
                    None
                } else {
                    Some(s)
                }
            },
            _ => None,
        };
        match value {
            None => {
                let mut m = String::new();
                push_all(&mut m, key);
                push_all(&mut m, "[");
                push_decimal(&mut m, i as u64);
                push_all(&mut m, "] must be a non-empty string");
                proof {
                    lemma_first_where_found(items.len() as int, bad, i as int);
                }
                return Err(AppError::validation(path, m));
            },
            Some(s) => {
                let mut k: usize = 0;
                while k < parsed.len()
                    invariant
                        k <= parsed.len(),
                        parsed.len() == i,
                        i < items.len(),
                        items.len() >= 2,
                        bad == option_bad(items@),
                        forall|j: int| 0 <= j < i ==> !#[trigger] bad(j),
                        lookup(table@, key@) == Some(TomlValue::Array(*items)),
                        forall|j: int| 0 <= j < i ==> (#[trigger] items@[j]) is String,
                        forall|j: int|
                            0 <= j < i ==> (#[trigger] parsed@[j])@ == string_content(items@[j]),
                        items@[i as int] == TomlValue::String(*s),
                        !all_whitespace(s@),
                        forall|j: int| 0 <= j < k ==> (#[trigger] parsed@[j])@ != s@,
                    decreases parsed.len() - k,
                {
                    if parsed[k].eq(s) {
                        let mut m = String::new();
                        push_all(&mut m, key);
                        push_all(&mut m, " contains duplicate option `");
                        push_all(&mut m, s.as_str());
                        push_all(&mut m, "`");
                        proof {
                            assert(string_content(items@[k as int]) == s@);
                            assert(bad(i as int));
                            lemma_first_where_found(items.len() as int, bad, i as int);
                            assert(m@ =~= option_message(key@, items@, i as int));
                        }
                        return Err(AppError::validation(path, m));
                    }
                    k += 1;
                }
                proof {
                    assert forall|j: int| 0 <= j < i && items@[j] is String implies #[trigger] string_content(items@[j]) != s@ by {
                        assert(parsed@[j]@ == string_content(items@[j]));
                    }
                    assert(!bad(i as int));
                }
                parsed.push(s.clone());
            },
        }
        i += 1;
    }
    proof {
        lemma_first_where_none(items.len() as int, bad);
        assert(parsed@.map_values(|s: String| s@) =~= items@.map_values(|v: TomlValue| string_content(v)));
    }
    Ok(parsed)
}

/// The numbers in `v`, as a set.
pub open spec fn number_set(v: Seq<usize>) -> Set<nat> {
    Set::new(|n: nat| holds(v, n))
}

/// Numbers that some of `q`, `o`, `a` have and some lack.
pub open spec fn mismatched_numbers(q: Set<nat>, o: Set<nat>, a: Set<nat>) -> Set<nat> {
    Set::new(
        |n: nat|
            (q.contains(n) || o.contains(n) || a.contains(n)) && !(q.contains(n) && o.contains(n)
                && a.contains(n)),
    )
}

/// The key named by prefix `c` and number `n`.
pub open spec fn labelled(c: char, n: nat) -> Seq<char> {
    seq![c] + decimal(n)
}

/// The keys among `q{n}`, `o{n}`, `a{n}` whose presence is `want`, in that order.
pub open spec fn keys_with(n: nat, q: bool, o: bool, a: bool, want: bool) -> Seq<Seq<char>> {
    (if q == want {
        seq![labelled('q', n)]
    } else {
        Seq::empty()
    }) + (if o == want {
        seq![labelled('o', n)]
    } else {
        Seq::empty()
    }) + (if a == want {
        seq![labelled('a', n)]
    } else {
        Seq::empty()
    })
}

/// `items` joined with ` and `.
pub open spec fn join_and(items: Seq<Seq<char>>) -> Seq<char>
    decreases items.len(),
{
    if items.len() == 0 {
        Seq::empty()
    } else if items.len() == 1 {
        items[0]
    } else {
        join_and(items.drop_last()) + " and "@ + items.last()
    }
}

/// The complaint that number `n` lacks some of its three keys.
pub open spec fn mismatch_message(n: nat, q: Set<nat>, o: Set<nat>, a: Set<nat>) -> Seq<char> {
    let missing = keys_with(n, q.contains(n), o.contains(n), a.contains(n), false);
    let present = keys_with(n, q.contains(n), o.contains(n), a.contains(n), true);
    "[quiczk] "@ + join_and(missing) + (if missing.len() == 1 {
        " is"@
    } else {
        " are"@
    }) + " required for "@ + join_and(present)
}

/// Whether `n` occurs in `v`.
pub fn contains_number(v: &Vec<usize>, n: usize) -> (r: bool)
    ensures
        r == holds(v@, n as nat),
{
    let mut k: usize = 0;
    while k < v.len()
        invariant
            k <= v.len(),
            forall|j: int| 0 <= j < k ==> v@[j] != n,
        decreases v.len() - k,
    {
        if v[k] == n {
            return true;
        }
        k += 1;
    }
    false
}

/// `items` joined with ` and `.
fn join_strings(items: &Vec<String>) -> (r: String)
    ensures
        r@ == join_and(items@.map_values(|s: String| s@)),
{
    let ghost views = items@.map_values(|s: String| s@);
    let mut out = String::new();
    let mut i: usize = 0;
    while i < items.len()
        invariant
            i <= items.len(),
            views == items@.map_values(|s: String| s@),
            out@ == join_and(views.take(i as int)),
        decreases items.len() - i,
    {
        if i > 0 {
            push_all(&mut out, " and ");
        }
        push_all(&mut out, items[i].as_str());
        proof {
            assert(views.take(i + 1).drop_last() =~= views.take(i as int));
            if i == 0 {
                assert(join_and(views.take(1)) == views[0]);
                assert(out@ =~= join_and(views.take(i + 1)));
            }
        }
        i += 1;
    }
    assert(views.take(i as int) =~= views);
    out
}

/// The key with prefix `c` and number `n`.
pub fn label(c: char, n: usize) -> (r: String)
    ensures
        r@ == labelled(c, n as nat),
{
    let mut s = String::new();
    s.push(c);
    push_decimal(&mut s, n as u64);
    assert(s@ =~= labelled(c, n as nat));
    s
}

/// The keys among `q{n}`, `o{n}`, `a{n}` whose presence is `want`.
fn keys_present(n: usize, q: bool, o: bool, a: bool, want: bool) -> (r: Vec<String>)
    ensures
        r@.map_values(|s: String| s@) == keys_with(n as nat, q, o, a, want),
{
    let mut r: Vec<String> = Vec::new();
    if q == want {
        r.push(label('q', n));
    }
    if o == want {
        r.push(label('o', n));
    }
    if a == want {
        r.push(label('a', n));
    }
    assert(r@.map_values(|s: String| s@) =~= keys_with(n as nat, q, o, a, want));
    r
}

/// Fails on the least number that has some but not all of its `q`, `o`, `a` keys.
pub fn validate_matching_numbers(
    question_numbers: &Vec<usize>,
    option_numbers: &Vec<usize>,
    answer_numbers: &Vec<usize>,
    path: &str,
) -> (r: Result<(), AppError>)
    requires
        increasing(question_numbers@),
        increasing(option_numbers@),
        increasing(answer_numbers@),
    ensures
        ({
            let q = number_set(question_numbers@);
            let o = number_set(option_numbers@);
            let a = number_set(answer_numbers@);
            let bad = mismatched_numbers(q, o, a);
            if exists|n: nat| bad.contains(n) {
                r matches Err(e) && e.is_validation(path@, mismatch_message(least(bad), q, o, a))
            } else {
                r is Ok
            }
        }),
{
    let ghost q = number_set(question_numbers@);
    let ghost o = number_set(option_numbers@);
    let ghost a = number_set(answer_numbers@);
    let ghost bad = mismatched_numbers(q, o, a);
    let mut all: Vec<usize> = Vec::new();
    let mut k: usize = 0;
    while k < question_numbers.len()
        invariant
            k <= question_numbers.len(),
            increasing(all@),
            forall|m: nat| holds(all@, m) <==> exists|j: int| 0 <= j < k && question_numbers@[j] == m,
        decreases question_numbers.len() - k,
    {
        insert_sorted(&mut all, question_numbers[k]);
        k += 1;
    }
    let mut k: usize = 0;
    while k < option_numbers.len()
        invariant
            k <= option_numbers.len(),
            increasing(all@),
            forall|m: nat|
                holds(all@, m) <==> (holds(question_numbers@, m) || exists|j: int|
                    0 <= j < k && option_numbers@[j] == m),
        decreases option_numbers.len() - k,
    {
        insert_sorted(&mut all, option_numbers[k]);
        k += 1;
    }
    let mut k: usize = 0;
    while k < answer_numbers.len()
        invariant
            k <= answer_numbers.len(),
            increasing(all@),
            forall|m: nat|
                holds(all@, m) <==> (holds(question_numbers@, m) || holds(option_numbers@, m)
                    || exists|j: int| 0 <= j < k && answer_numbers@[j] == m),
        decreases answer_numbers.len() - k,
    {
        insert_sorted(&mut all, answer_numbers[k]);
        k += 1;
    }
    assert forall|m: nat| #[trigger] holds(all@, m) <==> (holds(question_numbers@, m) || holds(
        option_numbers@,
        m,
    ) || holds(answer_numbers@, m)) by {}
    let mut i: usize = 0;
    while i < all.len()
        invariant
            i <= all.len(),
            increasing(all@),
            q == number_set(question_numbers@),
            o == number_set(option_numbers@),
            a == number_set(answer_numbers@),
            bad == mismatched_numbers(q, o, a),
            forall|m: nat| #[trigger] holds(all@, m) <==> (holds(question_numbers@, m) || holds(
                option_numbers@,
                m,
            ) || holds(answer_numbers@, m)),
            forall|j: int| 0 <= j < i ==> !bad.contains(#[trigger] all@[j] as nat),
        decreases all.len() - i,
    {
        let n: usize = all[i];
        let in_q = contains_number(question_numbers, n);
        let in_o = contains_number(option_numbers, n);
        let in_a = contains_number(answer_numbers, n);
        if !(in_q && in_o && in_a) {
            let missing = keys_present(n, in_q, in_o, in_a, false);
            let present = keys_present(n, in_q, in_o, in_a, true);
            let mut m = String::new();
            push_all(&mut m, "[quiczk] ");
            push_all(&mut m, join_strings(&missing).as_str());
            if missing.len() == 1 {
                push_all(&mut m, " is");
            } else {
                push_all(&mut m, " are");
            }
            push_all(&mut m, " required for ");
            push_all(&mut m, join_strings(&present).as_str());
            proof {
                assert(holds(all@, n as nat));
                assert(bad.contains(n as nat));
                assert forall|x: nat| bad.contains(x) implies n <= x by {
                    assert(holds(all@, x));
                    let j = choose|j: int| 0 <= j < all@.len() && all@[j] == x;
                    if j < i {
                        assert(!bad.contains(all@[j] as nat));
                    } else if j > i {
                        assert(all@[i as int] < all@[j]);
                    }
                }
                lemma_least(bad, n as nat);
                assert(missing@.map_values(|s: String| s@).len() == missing.len());
            }
            return Err(AppError::validation(path, m));
        }
        i += 1;
    }
    Ok(())
}

/// `q` skips some positive number below one of its members.
pub open spec fn has_gap(q: Set<nat>) -> bool {
    exists|k: nat, m: nat| 1 <= k < m && !q.contains(k) && q.contains(m)
}

/// The least positive number missing from `q`.
pub open spec fn gap_start(q: Set<nat>) -> nat {
    least(Set::new(|k: nat| k >= 1 && !q.contains(k)))
}

/// The least member of `q` above its first gap.
pub open spec fn gap_end(q: Set<nat>) -> nat {
    least(Set::new(|m: nat| q.contains(m) && m > gap_start(q)))
}

/// The complaint about the first gap of `q`, keys named with prefix `p`.
pub open spec fn gap_message(q: Set<nat>, p: char) -> Seq<char> {
    let start = gap_start(q);
    let end = gap_end(q);
    "[quiczk] missing "@ + labelled(p, start) + (if start + 1 == end {
        Seq::empty()
    } else {
        " through "@ + labelled(p, (end - 1) as nat)
    }) + " before "@ + labelled(p, end)
}

/// Fails when the numbers, which are positive, do not run 1, 2, 3, ... without a gap.
pub fn validate_contiguous(numbers: &Vec<usize>, prefix: char, path: &str) -> (r: Result<(), AppError>)
    requires
        increasing(numbers@),
        forall|k: int| 0 <= k < numbers.len() ==> numbers@[k] >= 1,
    ensures
        has_gap(number_set(numbers@)) ==> (r matches Err(e) && e.is_validation(
            path@,
            gap_message(number_set(numbers@), prefix),
        )),
        !has_gap(number_set(numbers@)) ==> (r is Ok && forall|k: int|
            0 <= k < numbers.len() ==> numbers@[k] == k + 1),
{
    let ghost q = number_set(numbers@);
    let mut i: usize = 0;
    while i < numbers.len()
        invariant
            i <= numbers.len(),
            increasing(numbers@),
            forall|k: int| 0 <= k < numbers.len() ==> numbers@[k] >= 1,
            q == number_set(numbers@),
            forall|j: int| 0 <= j < i ==> numbers@[j] == j + 1,
        decreases numbers.len() - i,
    {
        let number: usize = numbers[i];
        let expected: usize = i + 1;
        if number != expected {
            proof {
                if i > 0 {
                    assert(numbers@[i - 1] < numbers@[i as int]);
                }
            }
            let mut m = String::new();
            push_all(&mut m, "[quiczk] missing ");
            m.push(prefix);
            push_decimal(&mut m, expected as u64);
            if expected + 1 != number {
                push_all(&mut m, " through ");
                m.push(prefix);
                push_decimal(&mut m, (number - 1) as u64);
            }
            push_all(&mut m, " before ");
            m.push(prefix);
            push_decimal(&mut m, number as u64);
            proof {
                if i > 0 {
                    assert(numbers@[i - 1] < numbers@[i as int]);
                }
                assert(number > expected);
                assert forall|j: int| 0 <= j < numbers.len() implies numbers@[j] != expected by {
                    if j > i {
                        assert(numbers@[i as int] < numbers@[j]);
                    }
                }
                let gaps = Set::new(|k: nat| k >= 1 && !q.contains(k));
                assert(!q.contains(expected as nat));
                assert forall|k: nat| gaps.contains(k) implies expected <= k by {
                    if k < expected {
                        assert(numbers@[k - 1] == k);
                    }
                }
                lemma_least(gaps, expected as nat);
                let above = Set::new(|m: nat| q.contains(m) && m > gap_start(q));
                assert(q.contains(number as nat));
                assert forall|x: nat| above.contains(x) implies number <= x by {
                    let j = choose|j: int| 0 <= j < numbers@.len() && numbers@[j] == x;
                    if j < i {
                        assert(numbers@[j] == j + 1);
                    } else if j > i {
                        assert(numbers@[i as int] < numbers@[j]);
                    }
                }
                lemma_least(above, number as nat);
                assert(has_gap(q));
                let ghost gm = gap_message(q, prefix);
                assert(m@ =~= gm);
            }
            return Err(AppError::validation(path, m));
        }
        i += 1;
    }
    proof {
        assert forall|k: nat, m: nat| 1 <= k < m && !q.contains(k) && q.contains(m) implies false by {
            let j = choose|j: int| 0 <= j < numbers@.len() && numbers@[j] == m;
            assert(numbers@[j] == j + 1);
            assert(numbers@[k - 1] == k);
        }
    }
    Ok(())
}

/// Explanation numbers that have no question.
pub open spec fn orphan_numbers(e: Set<nat>, q: Set<nat>) -> Set<nat> {
    Set::new(|n: nat| e.contains(n) && !q.contains(n))
}

/// Fails on the least explanation number that has no question.
pub fn validate_explanations(
    explanation_numbers: &Vec<usize>,
    question_numbers: &Vec<usize>,
    path: &str,
) -> (r: Result<(), AppError>)
    requires
        increasing(explanation_numbers@),
    ensures
        ({
            let orphans = orphan_numbers(number_set(explanation_numbers@), number_set(question_numbers@));
            if exists|n: nat| orphans.contains(n) {
                r matches Err(e) && e.is_validation(
                    path@,
                    "[quiczk] "@ + labelled('e', least(orphans)) + " is provided without matching "@
                        + labelled('q', least(orphans)),
                )
            } else {
                r is Ok
            }
        }),
{
    let ghost orphans = orphan_numbers(number_set(explanation_numbers@), number_set(question_numbers@));
    let mut i: usize = 0;
    while i < explanation_numbers.len()
        invariant
            i <= explanation_numbers.len(),
            increasing(explanation_numbers@),
            orphans == orphan_numbers(number_set(explanation_numbers@), number_set(question_numbers@)),
            forall|j: int| 0 <= j < i ==> !orphans.contains(#[trigger] explanation_numbers@[j] as nat),
        decreases explanation_numbers.len() - i,
    {
        let n: usize = explanation_numbers[i];
        if !contains_number(question_numbers, n) {
            let mut m = String::new();
            push_all(&mut m, "[quiczk] ");
            push_all(&mut m, label('e', n).as_str());
            push_all(&mut m, " is provided without matching ");
            push_all(&mut m, label('q', n).as_str());
            proof {
                assert(orphans.contains(n as nat));
                assert forall|x: nat| orphans.contains(x) implies n <= x by {
                    let j = choose|j: int| 0 <= j < explanation_numbers@.len() && explanation_numbers@[j] == x;
                    if j < i {
                        assert(!orphans.contains(explanation_numbers@[j] as nat));
                    } else if j > i {
                        assert(explanation_numbers@[i as int] < explanation_numbers@[j]);
                    }
                }
                lemma_least(orphans, n as nat);
            }
            return Err(AppError::validation(path, m));
        }
        i += 1;
    }
    proof {
        assert forall|x: nat| orphans.contains(x) implies false by {
            let j = choose|j: int| 0 <= j < explanation_numbers@.len() && explanation_numbers@[j] == x;
            assert(!orphans.contains(explanation_numbers@[j] as nat));
        }
    }
    Ok(())
}

} // verus!
