use vstd::prelude::*;

use crate::locate::{char_at_is, find_char, lemma_first_where_some};
use crate::search::{first_where, last_where, lemma_last_where_found, lemma_last_where_none};
use crate::text::{chars_of, push_all, string_of};

verus! {

/// `g` names a path component: it is neither empty nor `.`.
pub open spec fn keep(g: Seq<char>) -> Seq<Seq<char>> {
    if g.len() > 0 && g != seq!['.'] {
        seq![g]
    } else {
        Seq::empty()
    }
}

/// The components of a Unix path after its root or leading `.`: its `/`-separated parts,
/// without empty parts and `.` parts.
#[verifier::opaque]
pub open spec fn named_segments(s: Seq<char>) -> Seq<Seq<char>>
    decreases s.len(),
{
    match first_where(s.len() as int, char_at_is(s, '/')) {
        Some(i) => {
            proof {
                lemma_first_where_some(s.len() as int, char_at_is(s, '/'));
            }
            keep(s.take(i)) + named_segments(s.skip(i + 1))
        },
        None => keep(s),
    }
}

/// The path begins with a root `/` or a lone `.` component, which `Path::components`
/// yields before the named ones.
pub open spec fn leading_component(s: Seq<char>) -> bool {
    (s.len() > 0 && s[0] == '/') || (s.len() > 0 && s[0] == '.' && (s.len() == 1 || s[1] == '/'))
}

/// A part is kept exactly when it is neither empty nor a lone `.`.
pub proof fn lemma_keep_len(g: Seq<char>)
    ensures
        keep(g).len() == 1 <==> (g.len() > 0 && !(g.len() == 1 && g[0] == '.')),
        keep(g).len() == 1 ==> keep(g) == seq![g],
        keep(g).len() != 1 ==> keep(g).len() == 0,
{
    if g.len() == 1 && g[0] == '.' {
        assert(g =~= seq!['.']);
    }
    if g == seq!['.'] {
        assert(g[0] == '.');
    }
}

/// How many components `Path::components` yields for the Unix path `s`.
pub open spec fn component_count(s: Seq<char>) -> nat {
    (if leading_component(s) {
        1nat
    } else {
        0nat
    }) + named_segments(s).len()
}

/// What `Path::file_name` gives for the Unix path `s`: its last component, unless that is
/// `..` or there is none.
pub open spec fn file_name(s: Seq<char>) -> Option<Seq<char>> {
    let k = named_segments(s);
    if k.len() > 0 && k.last() != seq!['.', '.'] {
        Some(k.last())
    } else {
        None
    }
}

/// The last `.` of a file name.
pub open spec fn last_dot(name: Seq<char>) -> Option<int> {
    last_where(name.len() as int, char_at_is(name, '.'))
}

/// What `Path::extension` gives: the text after the last `.` of the file name, unless
/// that `.` starts the name or there is none.
pub open spec fn extension(s: Seq<char>) -> Option<Seq<char>> {
    match file_name(s) {
        None => None,
        Some(name) => match last_dot(name) {
            Some(d) => if d == 0 {
                None
            } else {
                Some(name.skip(d + 1))
            },
            None => None,
        },
    }
}

/// What `Path::file_stem` gives: the file name without its extension.
pub open spec fn file_stem(s: Seq<char>) -> Option<Seq<char>> {
    match file_name(s) {
        None => None,
        Some(name) => match last_dot(name) {
            Some(d) => if d == 0 {
                Some(name)
            } else {
                Some(name.take(d))
            },
            None => Some(name),
        },
    }
}

/// Where a name has a last `.`, it lies within the name.
pub proof fn lemma_last_where_some(name: Seq<char>)
    ensures
        last_dot(name) matches Some(d) ==> 0 <= d < name.len(),
{
}

/// A character that the path lacks is in none of its named components.
pub proof fn lemma_segments_avoid(s: Seq<char>, c: char)
    requires
        forall|i: int| 0 <= i < s.len() ==> s[i] != c,
    ensures
        forall|k: int, j: int|
            0 <= k < named_segments(s).len() && 0 <= j < named_segments(s)[k].len()
                ==> named_segments(s)[k][j] != c,
    decreases s.len(),
{
    reveal(named_segments);
    lemma_first_where_some(s.len() as int, char_at_is(s, '/'));
    match first_where(s.len() as int, char_at_is(s, '/')) {
        Some(i) => {
            let rest = s.skip(i + 1);
            assert forall|x: int| 0 <= x < rest.len() implies rest[x] != c by {
                assert(rest[x] == s[x + i + 1]);
            }
            lemma_segments_avoid(rest, c);
            let head = keep(s.take(i));
            let segs = named_segments(s);
            assert(segs == head + named_segments(rest));
            assert forall|k: int, j: int|
                0 <= k < segs.len() && 0 <= j < segs[k].len() implies segs[k][j] != c by {
                if k < head.len() {
                    assert(segs[k] == s.take(i));
                    assert(s.take(i)[j] == s[j]);
                } else {
                    assert(segs[k] == named_segments(rest)[k - head.len()]);
                }
            }
        },
        None => {},
    }
}

/// A path without a `.` has no extension, so it names no `.toml` file.
pub proof fn lemma_no_dot_not_toml(s: Seq<char>)
    requires
        forall|i: int| 0 <= i < s.len() ==> s[i] != '.',
    ensures
        extension(s) is None,
        !spec_is_toml_path(s),
{
    lemma_segments_avoid(s, '.');
    match file_name(s) {
        Some(name) => {
            let k = named_segments(s);
            assert(name == k[k.len() - 1]);
            assert forall|j: int| 0 <= j < name.len() implies !#[trigger] char_at_is(name, '.')(j) by {
                assert(k[k.len() - 1][j] != '.');
            }
            lemma_last_where_none(name.len() as int, char_at_is(name, '.'));
        },
        None => {},
    }
}

/// `c` in ASCII lower case.
pub open spec fn ascii_lower(c: char) -> char {
    if 65 <= (c as u32) <= 90 {
        ((c as u32) + 32) as char
    } else {
        c
    }
}

/// `a` and `b` are equal ignoring ASCII case.
pub open spec fn eq_ignore_ascii_case(a: Seq<char>, b: Seq<char>) -> bool {
    a.len() == b.len() && forall|i: int| 0 <= i < a.len() ==> ascii_lower(#[trigger] a[i]) == ascii_lower(b[i])
}

/// The path names a `.toml` file, in any ASCII case.
pub open spec fn spec_is_toml_path(s: Seq<char>) -> bool {
    extension(s) matches Some(e) && eq_ignore_ascii_case(e, "toml"@)
}

/// The argument looks like a file: it has an extension or more than one component.
pub open spec fn spec_is_file_like(s: Seq<char>) -> bool {
    extension(s) is Some || component_count(s) > 1
}

/// The named components of `chars`, counted, with the bounds of the last one.
fn scan_components(chars: &Vec<char>) -> (r: (usize, usize, usize))
    ensures
        r.0 == named_segments(chars@).len(),
        r.1 <= r.2 <= chars.len(),
        r.0 > 0 ==> named_segments(chars@).last() == chars@.subrange(r.1 as int, r.2 as int),
{
    let ghost segs = named_segments(chars@);
    let ghost mut done: Seq<Seq<char>> = Seq::empty();
    let mut count: usize = 0;
    let mut last_start: usize = 0;
    let mut last_end: usize = 0;
    let mut start: usize = 0;
    assert(chars@.skip(0) =~= chars@);
    loop
        invariant
            start <= chars.len(),
            segs == named_segments(chars@),
            segs == done + named_segments(chars@.skip(start as int)),
            count == done.len(),
            count <= start,
            last_start <= last_end <= chars.len(),
            count > 0 ==> done.last() == chars@.subrange(last_start as int, last_end as int),
        decreases chars.len() - start,
    {
        let ghost rest = chars@.skip(start as int);
        assert(rest =~= chars@.subrange(start as int, chars.len() as int));
        let slash = find_char(chars, start, chars.len(), '/');
        let end: usize = match slash {
            Some(i) => start + i,
            None => chars.len(),
        };
        let ghost part = chars@.subrange(start as int, end as int);
        let named = end > start && !(end == start + 1 && chars[start] == '.');
        proof {
            lemma_keep_len(part);
            if end == start + 1 {
                assert(part[0] == chars@[start as int]);
            }
            reveal(named_segments);
            lemma_first_where_some(rest.len() as int, char_at_is(rest, '/'));
            match slash {
                Some(i) => {
                    assert(rest.take(i as int) =~= part);
                    assert(rest.skip(i + 1) =~= chars@.skip(end + 1));
                    assert(named_segments(rest) == keep(part) + named_segments(
                        chars@.skip(end + 1),
                    ));
                },
                None => {
                    assert(rest =~= part);
                    assert(named_segments(rest) == keep(part));
                },
            }
        }
        if named {
            count += 1;
            last_start = start;
            last_end = end;
        }
        match slash {
            Some(_) => {
                proof {
                    done = done + keep(part);
                }
                start = end + 1;
            },
            None => {
                proof {
                    done = done + keep(part);
                    assert(segs == done);
                }
                return (count, last_start, last_end);
            },
        }
    }
}

/// The index of the last `.` in `chars[lo..hi]`, relative to `lo`.
fn last_dot_in(chars: &Vec<char>, lo: usize, hi: usize) -> (r: Option<usize>)
    requires
        lo <= hi <= chars.len(),
    ensures
        r == match last_dot(chars@.subrange(lo as int, hi as int)) {
            Some(d) => Some(d as usize),
            None => None::<usize>,
        },
{
    let ghost name = chars@.subrange(lo as int, hi as int);
    let mut k: usize = hi;
    while k > lo
        invariant
            lo <= k <= hi <= chars.len(),
            name == chars@.subrange(lo as int, hi as int),
            forall|j: int| k - lo <= j < hi - lo ==> !#[trigger] char_at_is(name, '.')(j),
        decreases k - lo,
    {
        if chars[k - 1] == '.' {
            proof {
                assert(char_at_is(name, '.')(k - 1 - lo));
                lemma_last_where_found((hi - lo) as int, char_at_is(name, '.'), k - 1 - lo);
            }
            return Some(k - 1 - lo);
        }
        k -= 1;
    }
    proof {
        lemma_last_where_none((hi - lo) as int, char_at_is(name, '.'));
    }
    None
}

/// The bounds of the file name of `chars`, if it has one.
fn file_name_bounds(chars: &Vec<char>) -> (r: Option<(usize, usize)>)
    ensures
        match file_name(chars@) {
            Some(name) => r matches Some((a, b)) && a <= b <= chars.len() && chars@.subrange(
                a as int,
                b as int,
            ) == name,
            None => r is None,
        },
{
    let (count, a, b) = scan_components(chars);
    if count == 0 {
        return None;
    }
    if b - a == 2 && chars[a] == '.' && chars[a + 1] == '.' {
        proof {
            assert(chars@.subrange(a as int, b as int) =~= seq!['.', '.']);
        }
        return None;
    }
    proof {
        let nm = chars@.subrange(a as int, b as int);
        let dots = seq!['.', '.'];
        assert(dots.len() == 2 && dots[0] == '.' && dots[1] == '.');
        if nm == dots {
            assert(nm[0] == chars@[a as int] && nm[1] == chars@[a + 1]);
        }
    }
    Some((a, b))
}

/// `c` in ASCII lower case.
fn lower_char(c: char) -> (l: char)
    ensures
        l == ascii_lower(c),
{
    if 'A' <= c && c <= 'Z' {
        let b: u8 = (c as u8) + 32;
        b as char
    } else {
        c
    }
}

/// The four characters at `s` spell `toml` in any ASCII case.
fn is_toml_extension(chars: &Vec<char>, s: usize) -> (r: bool)
    requires
        s + 4 <= chars.len(),
    ensures
        r == eq_ignore_ascii_case(chars@.subrange(s as int, s + 4), "toml"@),
{
    let ghost ext = chars@.subrange(s as int, s + 4);
    let r = lower_char(chars[s]) == 't' && lower_char(chars[s + 1]) == 'o' && lower_char(chars[s + 2])
        == 'm' && lower_char(chars[s + 3]) == 'l';
    proof {
        reveal_strlit("toml");
        assert(ext[0] == chars@[s as int] && ext[1] == chars@[s + 1] && ext[2] == chars@[s + 2]
            && ext[3] == chars@[s + 3]);
        assert(ascii_lower('t') == 't' && ascii_lower('o') == 'o' && ascii_lower('m') == 'm'
            && ascii_lower('l') == 'l');
        if eq_ignore_ascii_case(ext, "toml"@) {
            assert(ascii_lower(ext[0]) == ascii_lower("toml"@[0]));
            assert(ascii_lower(ext[1]) == ascii_lower("toml"@[1]));
            assert(ascii_lower(ext[2]) == ascii_lower("toml"@[2]));
            assert(ascii_lower(ext[3]) == ascii_lower("toml"@[3]));
        }
    }
    r
}

/// The bounds of the extension of `chars`, if it has one.
fn extension_bounds(chars: &Vec<char>) -> (r: Option<(usize, usize)>)
    ensures
        match extension(chars@) {
            Some(e) => r matches Some((x, y)) && x <= y <= chars.len() && chars@.subrange(
                x as int,
                y as int,
            ) == e,
            None => r is None,
        },
{
    let (a, b) = match file_name_bounds(chars) {
        Some(bounds) => bounds,
        None => return None,
    };
    let d: usize = match last_dot_in(chars, a, b) {
        Some(d) => d,
        None => return None,
    };
    if d == 0 {
        return None;
    }
    proof {
        lemma_last_where_some(chars@.subrange(a as int, b as int));
        assert(chars@.subrange(a as int, b as int).skip(d + 1) =~= chars@.subrange(
            a + d + 1,
            b as int,
        ));
    }
    Some((a + d + 1, b))
}

/// Whether `path` names a `.toml` file, as `Path::extension` and
/// `eq_ignore_ascii_case("toml")` decide it on Unix.
pub fn is_toml_path(path: &str) -> (r: bool)
    ensures
        r == spec_is_toml_path(path@),
{
    let chars = chars_of(path);
    let (x, y) = match extension_bounds(&chars) {
        Some(bounds) => bounds,
        None => return false,
    };
    if y - x != 4 {
        proof {
            reveal_strlit("toml");
        }
        return false;
    }
    is_toml_extension(&chars, x)
}

/// Whether `path` looks like a file rather than a command: it has an extension or more
/// than one component.
pub fn is_file_like(path: &str) -> (r: bool)
    ensures
        r == spec_is_file_like(path@),
{
    let chars = chars_of(path);
    let (count, _, _) = scan_components(&chars);
    let lead = chars.len() > 0 && (chars[0] == '/' || (chars[0] == '.' && (chars.len() == 1
        || chars[1] == '/')));
    if count > 1 || (lead && count == 1) {
        return true;
    }
    match extension_bounds(&chars) {
        Some(_) => true,
        None => false,
    }
}

/// The title of the quiz at `path`: the file stem, or `quiz` where there is none.
pub open spec fn title_for(path: Seq<char>) -> Seq<char> {
    match file_stem(path) {
        Some(stem) => stem,
        None => "quiz"@,
    }
}

/// The title of the quiz at `quiz_path`: the file stem, or `quiz` where there is none.
pub fn quiz_title(quiz_path: &str) -> (r: String)
    ensures
        r@ == title_for(quiz_path@),
{
    let chars = chars_of(quiz_path);
    let (a, b) = match file_name_bounds(&chars) {
        Some(bounds) => bounds,
        None => return "quiz".to_owned(),
    };
    let end: usize = match last_dot_in(&chars, a, b) {
        Some(d) => if d == 0 {
            b
        } else {
            a + d
        },
        None => b,
    };
    proof {
        lemma_last_where_some(chars@.subrange(a as int, b as int));
        assert(chars@.subrange(a as int, b as int).take(end - a) =~= chars@.subrange(
            a as int,
            end as int,
        ));
    }
    string_of(&chars, a, end)
}

/// The text of an optional string.
pub open spec fn text_of(s: Option<&str>) -> Option<Seq<char>> {
    match s {
        Some(t) => Some(t@),
        None => None,
    }
}

/// `base` joined with the relative path `part`, as `Path::join` does on Unix: a `/`
/// between them unless `base` is empty or already ends with one.
pub open spec fn join(base: Seq<char>, part: Seq<char>) -> Seq<char> {
    if base.len() == 0 {
        part
    } else if base.last() == '/' {
        base + part
    } else {
        base + "/"@ + part
    }
}

/// The configuration file under the directory `dir`: `dir/quiczk/config.toml`.
pub open spec fn config_file_under(dir: Seq<char>) -> Seq<char> {
    join(join(dir, "quiczk"@), "config.toml"@)
}

/// Where the configuration file is looked for, given the environment variables
/// `XDG_CONFIG_HOME`, `HOME`, `USERPROFILE` and `APPDATA`, the first one that is set
/// deciding; none where none is set.
pub open spec fn config_location(
    xdg_config_home: Option<Seq<char>>,
    home: Option<Seq<char>>,
    user_profile: Option<Seq<char>>,
    app_data: Option<Seq<char>>,
) -> Option<Seq<char>> {
    match xdg_config_home {
        Some(x) => Some(config_file_under(x)),
        None => match home {
            Some(h) => Some(config_file_under(join(h, ".config"@))),
            None => match user_profile {
                Some(p) => Some(config_file_under(join(p, ".config"@))),
                None => match app_data {
                    Some(a) => Some(config_file_under(a)),
                    None => None,
                },
            },
        },
    }
}

/// `base` joined with the relative path `part`.
fn join_path(base: &str, part: &str) -> (r: String)
    ensures
        r@ == join(base@, part@),
{
    let chars = chars_of(base);
    let mut r = string_of(&chars, 0, chars.len());
    assert(chars@.subrange(0, chars.len() as int) =~= chars@);
    if chars.len() > 0 && chars[chars.len() - 1] != '/' {
        push_all(&mut r, "/");
    }
    push_all(&mut r, part);
    proof {
        reveal_strlit("/");
    }
    r
}

/// The configuration file under the directory `dir`.
fn config_file_in(dir: &str) -> (r: String)
    ensures
        r@ == config_file_under(dir@),
{
    let app_dir = join_path(dir, "quiczk");
    join_path(app_dir.as_str(), "config.toml")
}

/// Where the configuration file is looked for, given the values of the environment
/// variables `XDG_CONFIG_HOME`, `HOME`, `USERPROFILE` and `APPDATA`.
pub fn config_path(
    xdg_config_home: Option<&str>,
    home: Option<&str>,
    user_profile: Option<&str>,
    app_data: Option<&str>,
) -> (r: Option<String>)
    ensures
        match r {
            Some(p) => config_location(
                text_of(xdg_config_home),
                text_of(home),
                text_of(user_profile),
                text_of(app_data),
            ) == Some(p@),
            None => config_location(
                text_of(xdg_config_home),
                text_of(home),
                text_of(user_profile),
                text_of(app_data),
            ) is None,
        },
{
    if let Some(x) = xdg_config_home {
        return Some(config_file_in(x));
    }
    if let Some(h) = home {
        let dot = join_path(h, ".config");
        return Some(config_file_in(dot.as_str()));
    }
    if let Some(p) = user_profile {
        let dot = join_path(p, ".config");
        return Some(config_file_in(dot.as_str()));
    }
    match app_data {
        Some(a) => Some(config_file_in(a)),
        None => None,
    }
}

} // verus!
