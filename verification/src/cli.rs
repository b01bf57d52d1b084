use vstd::prelude::*;

use crate::paths::{
    is_file_like, is_toml_path, lemma_no_dot_not_toml, spec_is_file_like, spec_is_toml_path,
};
use crate::search::{first_where, lemma_first_where_found, lemma_first_where_none};
use crate::text::push_all;

verus! {

/// What the command line asks for.
#[derive(Debug, PartialEq, Eq)]
pub enum Action {
    Help,
    Version,
    Quiz(String),
    Format(Vec<String>),
}

/// Why the command line was refused.
#[derive(Debug, PartialEq, Eq)]
pub enum CliError {
    Usage,
    UnknownCommand(String),
    NotToml(String),
    MultipleQuizPaths,
    UnexpectedArgument(String),
}

/// An [`Action`] with its paths as character sequences.
pub enum Command {
    Help,
    Version,
    Quiz(Seq<char>),
    Format(Seq<Seq<char>>),
}

/// A [`CliError`] with its paths as character sequences.
pub enum Refusal {
    Usage,
    UnknownCommand(Seq<char>),
    NotToml(Seq<char>),
    MultipleQuizPaths,
    UnexpectedArgument(Seq<char>),
}

impl View for Action {
    type V = Command;

    open spec fn view(&self) -> Command {
        match self {
            Action::Help => Command::Help,
            Action::Version => Command::Version,
            Action::Quiz(p) => Command::Quiz(p@),
            Action::Format(ps) => Command::Format(ps.deep_view()),
        }
    }
}

impl View for CliError {
    type V = Refusal;

    open spec fn view(&self) -> Refusal {
        match self {
            CliError::Usage => Refusal::Usage,
            CliError::UnknownCommand(p) => Refusal::UnknownCommand(p@),
            CliError::NotToml(p) => Refusal::NotToml(p@),
            CliError::MultipleQuizPaths => Refusal::MultipleQuizPaths,
            CliError::UnexpectedArgument(p) => Refusal::UnexpectedArgument(p@),
        }
    }
}

/// The outcome of parsing, by views.
pub open spec fn outcome_view(r: Result<Action, CliError>) -> Result<Command, Refusal> {
    match r {
        Ok(a) => Ok(a@),
        Err(e) => Err(e@),
    }
}

/// `arg` asks for help.
pub open spec fn is_help_word(arg: Seq<char>) -> bool {
    arg == "help"@ || arg == "-h"@ || arg == "--help"@
}

/// `arg` asks for the version.
pub open spec fn is_version_word(arg: Seq<char>) -> bool {
    arg == "version"@ || arg == "-v"@ || arg == "--version"@
}

/// What is wrong with a path argument that does not name a `.toml` file: it looks like a
/// file of another kind, or else it is a command (in first place) or a stray argument.
pub open spec fn path_refusal(arg: Seq<char>, in_first_place: bool) -> Refusal {
    if spec_is_file_like(arg) {
        Refusal::NotToml(arg)
    } else if in_first_place {
        Refusal::UnknownCommand(arg)
    } else {
        Refusal::UnexpectedArgument(arg)
    }
}

/// The first of `paths` that does not name a `.toml` file.
pub open spec fn first_non_toml(paths: Seq<Seq<char>>) -> Option<int> {
    first_where(paths.len() as int, |i: int| !spec_is_toml_path(paths[i]))
}

/// The outcome for a command word with nothing allowed after it.
pub open spec fn lone_word_outcome(args: Seq<Seq<char>>, c: Command) -> Result<Command, Refusal> {
    if args.len() == 1 {
        Ok(c)
    } else {
        Err(Refusal::UnexpectedArgument(args[1]))
    }
}

/// The outcome of `fmt` followed by `paths`.
pub open spec fn format_outcome(paths: Seq<Seq<char>>) -> Result<Command, Refusal> {
    if paths.len() == 0 {
        Err(Refusal::Usage)
    } else {
        match first_non_toml(paths) {
            Some(i) => Err(path_refusal(paths[i], false)),
            None => Ok(Command::Format(paths)),
        }
    }
}

/// The outcome of a quiz path `first` followed by `more`.
pub open spec fn quiz_outcome(first: Seq<char>, more: Seq<Seq<char>>) -> Result<Command, Refusal> {
    if !spec_is_toml_path(first) {
        Err(path_refusal(first, true))
    } else {
        match first_non_toml(more) {
            Some(i) => Err(path_refusal(more[i], false)),
            None => if more.len() > 0 {
                Err(Refusal::MultipleQuizPaths)
            } else {
                Ok(Command::Quiz(first))
            },
        }
    }
}

/// The outcome of the command-line arguments `arguments`, the program name left out.
/// After a leading `--`, the first argument is a quiz path whatever it spells.
pub open spec fn parse_outcome(arguments: Seq<Seq<char>>) -> Result<Command, Refusal> {
    let ended = arguments.len() > 0 && arguments[0] == "--"@;
    let args = if ended {
        arguments.skip(1)
    } else {
        arguments
    };
    if args.len() == 0 {
        Err(Refusal::Usage)
    } else if !ended && is_help_word(args[0]) {
        lone_word_outcome(args, Command::Help)
    } else if !ended && is_version_word(args[0]) {
        lone_word_outcome(args, Command::Version)
    } else if !ended && args[0] == "fmt"@ {
        format_outcome(args.skip(1))
    } else {
        quiz_outcome(args[0], args.skip(1))
    }
}

/// Whatever the arguments, an accepted quiz path, and every path accepted for `fmt`,
/// names a `.toml` file.
pub proof fn lemma_accepted_paths_are_toml(arguments: Seq<Seq<char>>)
    ensures
        parse_outcome(arguments) matches Ok(Command::Quiz(p)) ==> spec_is_toml_path(p),
        parse_outcome(arguments) matches Ok(Command::Format(ps)) ==> ps.len() >= 1 && forall|k: int|
            0 <= k < ps.len() ==> spec_is_toml_path(#[trigger] ps[k]),
{
    let ended = arguments.len() > 0 && arguments[0] == "--"@;
    let args = if ended {
        arguments.skip(1)
    } else {
        arguments
    };
    if args.len() > 0 && !ended && !is_help_word(args[0]) && !is_version_word(args[0]) && args[0]
        == "fmt"@ {
        let paths = args.skip(1);
        if paths.len() > 0 && first_non_toml(paths) is None {
            assert forall|k: int| 0 <= k < paths.len() implies spec_is_toml_path(#[trigger] paths[k]) by {
                if !spec_is_toml_path(paths[k]) {
                    crate::search::lemma_first_where_exists(
                        paths.len() as int,
                        |i: int| !spec_is_toml_path(paths[i]),
                        k,
                    );
                }
            }
        }
    }
}

/// The arguments after one leading `--`, where there is one.
pub open spec fn after_marker(arguments: Seq<Seq<char>>) -> Seq<Seq<char>> {
    if arguments.len() > 0 && arguments[0] == "--"@ {
        arguments.skip(1)
    } else {
        arguments
    }
}

/// None of the command words names a `.toml` file.
proof fn lemma_words_are_not_toml()
    ensures
        forall|w: Seq<char>| is_help_word(w) || is_version_word(w) || w == "fmt"@ ==> !spec_is_toml_path(w),
{
    reveal_strlit("help");
    reveal_strlit("-h");
    reveal_strlit("--help");
    reveal_strlit("version");
    reveal_strlit("-v");
    reveal_strlit("--version");
    reveal_strlit("fmt");
    lemma_no_dot_not_toml("help"@);
    lemma_no_dot_not_toml("-h"@);
    lemma_no_dot_not_toml("--help"@);
    lemma_no_dot_not_toml("version"@);
    lemma_no_dot_not_toml("-v"@);
    lemma_no_dot_not_toml("--version"@);
    lemma_no_dot_not_toml("fmt"@);
}

/// The command line asks for the quiz at `p` exactly when, after an optional leading `--`,
/// it holds one argument, `p`, and `p` names a `.toml` file.
pub proof fn lemma_quiz_accepted_exactly(arguments: Seq<Seq<char>>, p: Seq<char>)
    ensures
        parse_outcome(arguments) == Ok::<Command, Refusal>(Command::Quiz(p)) <==> {
            let rest = after_marker(arguments);
            rest.len() == 1 && rest[0] == p && spec_is_toml_path(p)
        },
{
    let rest = after_marker(arguments);
    lemma_words_are_not_toml();
    if rest.len() == 1 && rest[0] == p && spec_is_toml_path(p) {
        assert(rest.skip(1) =~= Seq::<Seq<char>>::empty());
        crate::search::lemma_first_where_none(0, |i: int| !spec_is_toml_path(rest.skip(1)[i]));
        assert(first_non_toml(rest.skip(1)) is None);
    }
    if rest.len() > 1 {
        assert(rest.skip(1).len() > 0);
    }
}

/// The index of the first of `arguments[from..]` that does not name a `.toml` file,
/// relative to `from`.
fn first_non_toml_from(arguments: &Vec<String>, from: usize) -> (r: Option<usize>)
    requires
        from <= arguments.len(),
    ensures
        r == match first_non_toml(arguments.deep_view().skip(from as int)) {
            Some(i) => Some(i as usize),
            None => None::<usize>,
        },
        r matches Some(i) ==> from + i < arguments.len(),
{
    let ghost paths = arguments.deep_view().skip(from as int);
    let ghost p = |i: int| !spec_is_toml_path(paths[i]);
    let mut k: usize = from;
    while k < arguments.len()
        invariant
            from <= k <= arguments.len(),
            paths == arguments.deep_view().skip(from as int),
            p == (|i: int| !spec_is_toml_path(paths[i])),
            forall|j: int| 0 <= j < k - from ==> !#[trigger] p(j),
        decreases arguments.len() - k,
    {
        if !is_toml_path(arguments[k].as_str()) {
            proof {
                assert(paths[k - from] == arguments[k as int]@);
                assert(p(k - from));
                lemma_first_where_found(paths.len() as int, p, k - from);
            }
            return Some(k - from);
        }
        proof {
            assert(paths[k - from] == arguments[k as int]@);
        }
        k += 1;
    }
    proof {
        lemma_first_where_none(paths.len() as int, p);
    }
    None
}

/// The refusal of a path argument that does not name a `.toml` file.
fn refuse_path(arg: &String, in_first_place: bool) -> (e: CliError)
    ensures
        e@ == path_refusal(arg@, in_first_place),
{
    if is_file_like(arg.as_str()) {
        CliError::NotToml(arg.clone())
    } else if in_first_place {
        CliError::UnknownCommand(arg.clone())
    } else {
        CliError::UnexpectedArgument(arg.clone())
    }
}

/// `arg` spells `word`.
fn spells(arg: &String, word: &str) -> (r: bool)
    ensures
        r == (arg@ == word@),
{
    let w = word.to_owned();
    arg.eq(&w)
}

/// Parses the command-line arguments, the program name left out: `help`, `version` and
/// their flags, `fmt` with quiz paths, or one quiz path. `--` first ends the options.
pub fn parse_arguments(arguments: &Vec<String>) -> (r: Result<Action, CliError>)
    ensures
        outcome_view(r) == parse_outcome(arguments.deep_view()),
{
    let ghost all = arguments.deep_view();
    assert(all.len() == arguments.len());
    let ended = arguments.len() > 0 && spells(&arguments[0], "--");
    let start: usize = if ended {
        1
    } else {
        0
    };
    let ghost args = if ended {
        all.skip(1)
    } else {
        all
    };
    proof {
        if arguments.len() > 0 {
            assert(all[0] == arguments[0]@);
        }
        assert(args =~= all.skip(start as int));
    }
    if start >= arguments.len() {
        return Err(CliError::Usage);
    }
    let first = &arguments[start];
    proof {
        assert(args[0] == first@);
        assert(args.skip(1) =~= all.skip(start + 1));
    }
    if !ended {
        if spells(first, "help") || spells(first, "-h") || spells(first, "--help") {
            if arguments.len() == 1 {
                return Ok(Action::Help);
            }
            proof {
                assert(args[1] == arguments[1]@);
            }
            return Err(CliError::UnexpectedArgument(arguments[1].clone()));
        }
        if spells(first, "version") || spells(first, "-v") || spells(first, "--version") {
            if arguments.len() == 1 {
                return Ok(Action::Version);
            }
            proof {
                assert(args[1] == arguments[1]@);
            }
            return Err(CliError::UnexpectedArgument(arguments[1].clone()));
        }
        if spells(first, "fmt") {
            if arguments.len() == 1 {
                return Err(CliError::Usage);
            }
            if let Some(i) = first_non_toml_from(arguments, 1) {
                proof {
                    assert(args.skip(1)[i as int] == arguments[1 + i]@);
                }
                return Err(refuse_path(&arguments[1 + i], false));
            }
            let mut paths: Vec<String> = Vec::new();
            let mut k: usize = 1;
            while k < arguments.len()
                invariant
                    1 <= k <= arguments.len(),
                    all == arguments.deep_view(),
                    all.len() == arguments.len(),
                    paths.len() == k - 1,
                    paths.deep_view() =~= all.subrange(1, k as int),
                decreases arguments.len() - k,
            {
                let ghost before = paths@;
                let item = arguments[k].clone();
                paths.push(item);
                proof {
                    assert(all[k as int] == arguments[k as int]@);
                    assert forall|j: int| 0 <= j < paths.len() implies paths.deep_view()[j]
                        == all.subrange(1, k + 1)[j] by {
                        if j < before.len() {
                            assert(paths@[j] == before[j]);
                        }
                    }
                }
                k += 1;
            }
            proof {
                assert(paths.deep_view() =~= args.skip(1));
            }
            return Ok(Action::Format(paths));
        }
    }
    if !is_toml_path(first.as_str()) {
        return Err(refuse_path(first, true));
    }
    if let Some(i) = first_non_toml_from(arguments, start + 1) {
        proof {
            assert(args.skip(1)[i as int] == arguments[start + 1 + i]@);
        }
        return Err(refuse_path(&arguments[start + 1 + i], false));
    }
    if arguments.len() - start > 1 {
        return Err(CliError::MultipleQuizPaths);
    }
    Ok(Action::Quiz(first.clone()))
}

/// The usage text.
pub open spec fn usage_text() -> Seq<char> {
    "usage: quiczk <quiz.toml>\n       quiczk fmt <quiz.toml>...\n       quiczk [ -v | --version | version ]\n       quiczk [ -h | --help | help ]"@
}

/// The usage text, printed for `help` and after most refusals.
pub fn usage() -> (r: &'static str)
    ensures
        r@ == usage_text(),
{
    "usage: quiczk <quiz.toml>\n       quiczk fmt <quiz.toml>...\n       quiczk [ -v | --version | version ]\n       quiczk [ -h | --help | help ]"
}

/// What is printed for a refusal.
pub open spec fn refusal_message(e: Refusal) -> Seq<char> {
    match e {
        Refusal::Usage => usage_text(),
        Refusal::UnknownCommand(c) => "error: unknown command `"@ + c + "`\n\n"@ + usage_text(),
        Refusal::NotToml(p) => "error: "@ + p + ": not a .toml file"@,
        Refusal::MultipleQuizPaths => "error: multiple quiz TOML paths provided\n\n"@
            + usage_text(),
        Refusal::UnexpectedArgument(a) => "error: unexpected argument `"@ + a + "`\n\n"@
            + usage_text(),
    }
}

impl CliError {
    /// The exit status for the refusal: 1 for a path that is not a `.toml` file, 2 for a
    /// misuse of the command line.
    pub fn exit_code(&self) -> (c: i32)
        ensures
            c == (if self@ is NotToml {
                1i32
            } else {
                2i32
            }),
    {
        match self {
            CliError::NotToml(_) => 1,
            _ => 2,
        }
    }

    /// The text printed for the refusal, without the final newline.
    pub fn message(&self) -> (m: String)
        ensures
            m@ == refusal_message(self@),
    {
        let mut m = String::new();
        match self {
            CliError::Usage => {
                push_all(&mut m, usage());
            },
            CliError::UnknownCommand(c) => {
                push_all(&mut m, "error: unknown command `");
                push_all(&mut m, c.as_str());
                push_all(&mut m, "`\n\n");
                push_all(&mut m, usage());
            },
            CliError::NotToml(p) => {
                push_all(&mut m, "error: ");
                push_all(&mut m, p.as_str());
                push_all(&mut m, ": not a .toml file");
            },
            CliError::MultipleQuizPaths => {
                push_all(&mut m, "error: multiple quiz TOML paths provided\n\n");
                push_all(&mut m, usage());
            },
            CliError::UnexpectedArgument(a) => {
                push_all(&mut m, "error: unexpected argument `");
                push_all(&mut m, a.as_str());
                push_all(&mut m, "`\n\n");
                push_all(&mut m, usage());
            },
        }
        m
    }
}

} // verus!
