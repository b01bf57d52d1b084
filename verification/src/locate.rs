use vstd::prelude::*;

use crate::search::{first_where, is_first_where, lemma_first_where_found, lemma_first_where_none};
use crate::text::{
    chars_of, decimal, is_whitespace, pad_left, push_all, push_decimal, string_of, trim, trim_end, trim_start,
};

verus! {

/// The indices at which `s` holds `c`.
pub open spec fn char_at_is(s: Seq<char>, c: char) -> spec_fn(int) -> bool {
    |i: int| s[i] == c
}

/// `line` without one trailing carriage return.
pub open spec fn strip_cr(line: Seq<char>) -> Seq<char> {
    if line.len() > 0 && line.last() == '\r' {
        line.drop_last()
    } else {
        line
    }
}

/// A first index named by `first_where` is one.
pub proof fn lemma_first_where_some(n: int, p: spec_fn(int) -> bool)
    ensures
        first_where(n, p) matches Some(i) ==> is_first_where(n, p, i),
{
}

/// The lines of `s` as `str::lines` yields them: split after each `\n`, with the `\n` and
/// a `\r` before it removed; no empty line after a final `\n`.
pub open spec fn lines(s: Seq<char>) -> Seq<Seq<char>>
    decreases s.len(),
{
    if s.len() == 0 {
        Seq::empty()
    } else {
        match first_where(s.len() as int, char_at_is(s, '\n')) {
            Some(i) => {
                proof {
                    lemma_first_where_some(s.len() as int, char_at_is(s, '\n'));
                }
                seq![strip_cr(s.take(i))] + lines(s.skip(i + 1))
            },
            None => seq![s],
        }
    }
}

/// The section that a header line names: its trimmed text between `[` and `]`.
pub open spec fn header_name(line: Seq<char>) -> Option<Seq<char>> {
    let t = trim(line);
    if t.len() >= 2 && t[0] == '[' && t.last() == ']' {
        Some(t.subrange(1, t.len() - 1))
    } else {
        None
    }
}

/// The section opened by the last header among the first `k` lines.
pub open spec fn section_before(ls: Seq<Seq<char>>, k: int) -> Option<Seq<char>>
    decreases k,
{
    if k <= 0 {
        None
    } else {
        match header_name(ls[k - 1]) {
            Some(n) => Some(n),
            None => section_before(ls, k - 1),
        }
    }
}

/// `line` assigns to `key`: the trimmed text before its first `=` is `key`.
pub open spec fn assigns(line: Seq<char>, key: Seq<char>) -> bool {
    match first_where(line.len() as int, char_at_is(line, '=')) {
        Some(e) => trim(line.take(e)) == key,
        None => false,
    }
}

/// Line `k` of `ls` assigns to `key` inside section `section`.
pub open spec fn key_line(ls: Seq<Seq<char>>, section: Seq<char>, key: Seq<char>) -> spec_fn(
    int,
) -> bool {
    |k: int|
        header_name(ls[k]) is None && section_before(ls, k) == Some(section) && assigns(ls[k], key)
}

/// The positions at which `key` occurs in `line`.
pub open spec fn occurs_at(line: Seq<char>, key: Seq<char>) -> spec_fn(int) -> bool {
    |i: int| line.subrange(i, i + key.len()) == key
}

/// How many bytes the UTF-8 encoding of `c` takes.
pub open spec fn utf8_width(c: char) -> nat {
    let u = c as u32;
    if u < 0x80 {
        1
    } else if u < 0x800 {
        2
    } else if u < 0x10000 {
        3
    } else {
        4
    }
}

/// How many bytes the UTF-8 encoding of `s` takes.
pub open spec fn utf8_len(s: Seq<char>) -> nat
    decreases s.len(),
{
    if s.len() == 0 {
        0
    } else {
        utf8_len(s.drop_last()) + utf8_width(s.last())
    }
}

/// `n`, or `usize::MAX` where it is larger.
pub open spec fn capped(n: nat) -> nat {
    if n <= usize::MAX {
        n
    } else {
        usize::MAX as nat
    }
}

/// The 1-based byte column of the first occurrence of `key` in `line`, or 1; a column
/// past `usize::MAX` stays there.
pub open spec fn column_of(line: Seq<char>, key: Seq<char>) -> nat {
    match first_where(line.len() - key.len() + 1, occurs_at(line, key)) {
        Some(i) => capped(utf8_len(line.take(i)) + 1),
        None => 1,
    }
}

/// Where `key` is assigned inside `[section]` of `source`: 1-based line, column, and
/// the trimmed line.
pub open spec fn location(source: Seq<char>, section: Seq<char>, key: Seq<char>) -> Option<
    (nat, nat, Seq<char>),
> {
    let ls = lines(source);
    match first_where(ls.len() as int, key_line(ls, section, key)) {
        Some(k) => Some(((k + 1) as nat, column_of(ls[k], key), trim(ls[k]))),
        None => None,
    }
}

/// The view of a location that `locate_key` returns.
pub open spec fn location_view(l: Option<(usize, usize, String)>) -> Option<(nat, nat, Seq<char>)> {
    match l {
        Some((line, column, text)) => Some((line as nat, column as nat, text@)),
        None => None,
    }
}

/// The bounds of `chars[lo..hi]` with white space trimmed from both ends.
pub fn trim_bounds(chars: &Vec<char>, lo: usize, hi: usize) -> (r: (usize, usize))
    requires
        lo <= hi <= chars.len(),
    ensures
        lo <= r.0 <= r.1 <= hi,
        chars@.subrange(r.0 as int, r.1 as int) == trim(chars@.subrange(lo as int, hi as int)),
{
    let mut a: usize = lo;
    while a < hi && is_whitespace(chars[a])
        invariant
            lo <= a <= hi <= chars.len(),
            trim_start(chars@.subrange(lo as int, hi as int)) == trim_start(
                chars@.subrange(a as int, hi as int),
            ),
        decreases hi - a,
    {
        assert(chars@.subrange(a as int, hi as int).drop_first() =~= chars@.subrange(
            a + 1,
            hi as int,
        ));
        a += 1;
    }
    let mut b: usize = hi;
    while b > a && is_whitespace(chars[b - 1])
        invariant
            lo <= a <= b <= hi <= chars.len(),
            trim_start(chars@.subrange(lo as int, hi as int)) == chars@.subrange(a as int, hi as int),
            trim_end(chars@.subrange(a as int, hi as int)) == trim_end(
                chars@.subrange(a as int, b as int),
            ),
        decreases b - a,
    {
        assert(chars@.subrange(a as int, b as int).drop_last() =~= chars@.subrange(
            a as int,
            b - 1,
        ));
        b -= 1;
    }
    (a, b)
}

/// Whether `chars[a..b]` is `other`.
pub fn range_eq(chars: &Vec<char>, a: usize, b: usize, other: &Vec<char>) -> (r: bool)
    requires
        a <= b <= chars.len(),
    ensures
        r == (chars@.subrange(a as int, b as int) == other@),
{
    if b - a != other.len() {
        return false;
    }
    let mut k: usize = 0;
    while k < other.len()
        invariant
            a <= b <= chars.len(),
            b - a == other.len(),
            k <= other.len(),
            forall|j: int| 0 <= j < k ==> chars@[a + j] == other@[j],
        decreases other.len() - k,
    {
        if chars[a + k] != other[k] {
            assert(chars@.subrange(a as int, b as int)[k as int] != other@[k as int]);
            return false;
        }
        k += 1;
    }
    assert(chars@.subrange(a as int, b as int) =~= other@);
    true
}

/// The first index in `chars[lo..hi]` holding `c`, relative to `lo`.
pub fn find_char(chars: &Vec<char>, lo: usize, hi: usize, c: char) -> (r: Option<usize>)
    requires
        lo <= hi <= chars.len(),
    ensures
        r == match first_where((hi - lo) as int, char_at_is(chars@.subrange(lo as int, hi as int), c)) {
            Some(i) => Some(i as usize),
            None => None::<usize>,
        },
        r matches Some(i) ==> i < hi - lo,
{
    let ghost s = chars@.subrange(lo as int, hi as int);
    let mut k: usize = lo;
    while k < hi
        invariant
            lo <= k <= hi <= chars.len(),
            s == chars@.subrange(lo as int, hi as int),
            forall|j: int| 0 <= j < k - lo ==> !#[trigger] char_at_is(s, c)(j),
        decreases hi - k,
    {
        if chars[k] == c {
            proof {
                assert(char_at_is(s, c)(k - lo));
                lemma_first_where_found((hi - lo) as int, char_at_is(s, c), k - lo);
            }
            return Some(k - lo);
        }
        k += 1;
    }
    proof {
        lemma_first_where_none((hi - lo) as int, char_at_is(s, c));
    }
    None
}

/// How many bytes the UTF-8 encoding of `c` takes.
fn utf8_width_of(c: char) -> (w: usize)
    ensures
        w == utf8_width(c),
{
    let u: u32 = c as u32;
    if u < 0x80 {
        1
    } else if u < 0x800 {
        2
    } else if u < 0x10000 {
        3
    } else {
        4
    }
}

/// The 1-based byte column of position `i` of `chars[lo..]`, capped at `usize::MAX`.
fn byte_column(chars: &Vec<char>, lo: usize, i: usize) -> (r: usize)
    requires
        lo + i <= chars.len(),
    ensures
        r == capped(utf8_len(chars@.subrange(lo as int, lo + i)) + 1),
{
    let mut total: usize = 0;
    let mut k: usize = 0;
    while k < i
        invariant
            k <= i,
            lo + i <= chars.len(),
            total == capped(utf8_len(chars@.subrange(lo as int, lo + k))),
        decreases i - k,
    {
        let w: usize = utf8_width_of(chars[lo + k]);
        proof {
            assert(chars@.subrange(lo as int, lo + k + 1).drop_last() =~= chars@.subrange(
                lo as int,
                lo + k,
            ));
        }
        if total > usize::MAX - w {
            total = usize::MAX;
        } else {
            total = total + w;
        }
        k += 1;
    }
    if total < usize::MAX {
        total + 1
    } else {
        usize::MAX
    }
}

/// The 1-based byte column of the first occurrence of `key` in `chars[lo..hi]`, or 1.
fn column_in(chars: &Vec<char>, lo: usize, hi: usize, key: &Vec<char>) -> (r: usize)
    requires
        lo <= hi <= chars.len(),
    ensures
        r as nat == column_of(chars@.subrange(lo as int, hi as int), key@),
{
    let ghost line = chars@.subrange(lo as int, hi as int);
    let ghost n = line.len() - key@.len() + 1;
    let mut i: usize = 0;
    while i < hi - lo && key.len() <= hi - lo - i
        invariant
            lo <= hi <= chars.len(),
            line == chars@.subrange(lo as int, hi as int),
            n == line.len() - key@.len() + 1,
            i <= hi - lo,
            forall|j: int| 0 <= j < i ==> !#[trigger] occurs_at(line, key@)(j),
        decreases hi - lo - i,
    {
        let found = range_eq(chars, lo + i, lo + i + key.len(), key);
        assert(line.subrange(i as int, i + key@.len()) =~= chars@.subrange(
            lo + i,
            lo + i + key@.len(),
        ));
        if found {
            proof {
                lemma_first_where_found(n, occurs_at(line, key@), i as int);
                assert(line.take(i as int) =~= chars@.subrange(lo as int, lo + i));
            }
            return byte_column(chars, lo, i);
        }
        i += 1;
    }
    proof {
        if key@.len() == 0 {
            assert(i == 0) by {
                if i > 0 {
                    assert(!occurs_at(line, key@)(0));
                    assert(line.subrange(0, 0) =~= key@);
                }
            }
            assert(line.subrange(0, 0) =~= key@);
            lemma_first_where_found(n, occurs_at(line, key@), 0);
        } else {
            lemma_first_where_none(n, occurs_at(line, key@));
        }
    }
    1
}

/// The bounds of the line that starts at `start`, without its line ending, and where the
/// next line starts.
fn next_line(chars: &Vec<char>, start: usize) -> (r: (usize, usize))
    requires
        start < chars.len(),
    ensures
        start <= r.0 <= r.1 <= chars.len(),
        start < r.1,
        lines(chars@.skip(start as int)) == seq![chars@.subrange(start as int, r.0 as int)] + lines(
            chars@.skip(r.1 as int),
        ),
{
    let ghost rest = chars@.skip(start as int);
    assert(rest =~= chars@.subrange(start as int, chars.len() as int));
    let newline = find_char(chars, start, chars.len(), '\n');
    let (content_end, next) = match newline {
        Some(i) => {
            let e: usize = start + i;
            if e > start && chars[e - 1] == '\r' {
                (e - 1, e + 1)
            } else {
                (e, e + 1)
            }
        },
        None => (chars.len(), chars.len()),
    };
    let ghost line = chars@.subrange(start as int, content_end as int);
    proof {
        match newline {
            Some(i) => {
                assert(rest.take(i as int) =~= chars@.subrange(start as int, start + i));
                assert(strip_cr(rest.take(i as int)) =~= line);
                assert(rest.skip(i + 1) =~= chars@.skip(next as int));
            },
            None => {
                assert(line =~= rest);
                assert(chars@.skip(next as int) =~= Seq::<char>::empty());
                assert(lines(chars@.skip(next as int)) =~= Seq::<Seq<char>>::empty());
            },
        }
    }
    (content_end, next)
}

/// Where `key` is assigned inside `[section]` of `source`: 1-based line, column, and the
/// trimmed line.
#[verifier::rlimit(30)]
pub fn locate_key(source: &str, section: &str, key: &str) -> (r: Option<(usize, usize, String)>)
    ensures
        location_view(r) == location(source@, section@, key@),
{
    let chars = chars_of(source);
    let section_chars = chars_of(section);
    let key_chars = chars_of(key);
    let ghost ls = lines(chars@);
    let ghost pred = key_line(ls, section@, key@);
    let ghost mut done: Seq<Seq<char>> = Seq::empty();
    let mut start: usize = 0;
    let mut line_no: usize = 0;
    let mut in_section = false;
    assert(chars@.skip(0) =~= chars@);
    assert(done + lines(chars@.skip(0)) =~= ls);
    while start < chars.len()
        invariant
            start <= chars.len(),
            line_no <= start,
            chars@ == source@,
            section_chars@ == section@,
            key_chars@ == key@,
            ls == lines(chars@),
            pred == key_line(ls, section@, key@),
            line_no == done.len(),
            ls == done + lines(chars@.skip(start as int)),
            in_section == (section_before(ls, line_no as int) == Some(section@)),
            forall|k: int| 0 <= k < line_no ==> !#[trigger] pred(k),
        decreases chars.len() - start,
    {
        let (content_end, next) = next_line(&chars, start);
        let ghost line = chars@.subrange(start as int, content_end as int);
        assert(ls[line_no as int] == line);
        let (ta, tb) = trim_bounds(&chars, start, content_end);
        if tb - ta >= 2 && chars[ta] == '[' && chars[tb - 1] == ']' {
            in_section = range_eq(&chars, ta + 1, tb - 1, &section_chars);
            proof {
                let t = trim(line);
                assert(t =~= chars@.subrange(ta as int, tb as int));
                assert(t.subrange(1, t.len() - 1) =~= chars@.subrange(ta + 1, tb - 1));
                assert(header_name(line) == Some(t.subrange(1, t.len() - 1)));
                assert(!pred(line_no as int));
            }
        } else {
            proof {
                assert(trim(line) =~= chars@.subrange(ta as int, tb as int));
                assert(header_name(line) is None);
            }
            let equals = find_char(&chars, start, content_end, '=');
            let mut matched = false;
            match equals {
                Some(e) => {
                    let (la, lb) = trim_bounds(&chars, start, start + e);
                    matched = range_eq(&chars, la, lb, &key_chars);
                    proof {
                        assert(line.take(e as int) =~= chars@.subrange(start as int, start + e));
                    }
                },
                None => {},
            }
            assert(matched == assigns(line, key@));
            if in_section && matched {
                let column = column_in(&chars, start, content_end, &key_chars);
                let text = string_of(&chars, ta, tb);
                proof {
                    assert(pred(line_no as int));
                    lemma_first_where_found(ls.len() as int, pred, line_no as int);
                }
                return Some((line_no + 1, column, text));
            }
            assert(!pred(line_no as int));
        }
        proof {
            done = done.push(line);
            assert(ls == done + lines(chars@.skip(next as int)));
        }
        line_no += 1;
        start = next;
    }
    proof {
        assert(chars@.skip(start as int) =~= Seq::<char>::empty());
        assert(lines(chars@.skip(start as int)) =~= Seq::<Seq<char>>::empty());
        assert(ls =~= done);
        lemma_first_where_none(ls.len() as int, pred);
    }
    None
}

/// One excerpt line: the right-aligned line number, a bar, and the source line.
pub open spec fn excerpt_line(line: nat, text: Seq<char>, width: nat) -> Seq<char> {
    "\n"@ + pad_left(decimal(line), width) + " │ "@ + text
}

/// The excerpt that shows the option and answer lines of one invalid answer.
pub open spec fn excerpt(
    option: Option<(nat, nat, Seq<char>)>,
    answer: Option<(nat, nat, Seq<char>)>,
    width: nat,
) -> Seq<char> {
    match (option, answer) {
        (Some((ol, _, ot)), Some((al, _, at))) => excerpt_line(ol, ot, width) + excerpt_line(
            al,
            at,
            width,
        ),
        (Some((ol, _, ot)), None) => excerpt_line(ol, ot, width),
        (None, Some((al, _, at))) => excerpt_line(al, at, width),
        (None, None) => Seq::empty(),
    }
}

/// Appends `n` right-aligned in `width` characters.
fn push_padded(out: &mut String, n: usize, width: usize)
    ensures
        final(out)@ == old(out)@ + pad_left(decimal(n as nat), width as nat),
{
    let mut digits = String::new();
    push_decimal(&mut digits, n as u64);
    let len: usize = chars_of(digits.as_str()).len();
    let ghost start = out@;
    if len < width {
        let mut k: usize = 0;
        while k < width - len
            invariant
                k <= width - len,
                out@ == start + Seq::new(k as nat, |i: int| ' '),
            decreases width - len - k,
        {
            out.push(' ');
            k += 1;
            assert(out@ =~= start + Seq::new(k as nat, |i: int| ' '));
        }
    }
    push_all(out, digits.as_str());
    assert(out@ =~= old(out)@ + pad_left(decimal(n as nat), width as nat));
}

/// Appends one excerpt line.
fn push_excerpt_line(out: &mut String, line: usize, text: &str, width: usize)
    ensures
        final(out)@ == old(out)@ + excerpt_line(line as nat, text@, width as nat),
{
    push_all(out, "\n");
    push_padded(out, line, width);
    push_all(out, " │ ");
    push_all(out, text);
    assert(out@ =~= old(out)@ + excerpt_line(line as nat, text@, width as nat));
}

/// The excerpt that shows where an invalid answer and its options stand in the source.
pub fn source_excerpt(
    option_location: Option<(usize, usize, String)>,
    answer_location: Option<(usize, usize, String)>,
    width: usize,
) -> (r: String)
    ensures
        r@ == excerpt(location_view(option_location), location_view(answer_location), width as nat),
{
    excerpt_of(&option_location, &answer_location, width)
}

/// The excerpt for the locations behind two references.
pub fn excerpt_of(
    option_location: &Option<(usize, usize, String)>,
    answer_location: &Option<(usize, usize, String)>,
    width: usize,
) -> (r: String)
    ensures
        r@ == excerpt(location_view(*option_location), location_view(*answer_location), width as nat),
{
    let mut out = String::new();
    match (option_location, answer_location) {
        (Some((option_line, _, option_source)), Some((answer_line, _, answer_source))) => {
            push_excerpt_line(&mut out, *option_line, option_source.as_str(), width);
            push_excerpt_line(&mut out, *answer_line, answer_source.as_str(), width);
        },
        (Some((option_line, _, option_source)), None) => {
            push_excerpt_line(&mut out, *option_line, option_source.as_str(), width);
        },
        (None, Some((answer_line, _, answer_source))) => {
            push_excerpt_line(&mut out, *answer_line, answer_source.as_str(), width);
        },
        (None, None) => {},
    }
    assert(out@ =~= excerpt(location_view(*option_location), location_view(*answer_location), width as nat));
    out
}

} // verus!
