use quiczk::cli::{parse_arguments, usage, Action, CliError};

fn arguments(values: &[&str]) -> Vec<String> {
    values.iter().map(|value| value.to_string()).collect()
}

#[test]
fn parser_reports_missing_arguments() {
    assert_eq!(parse_arguments(&Vec::new()), Err(CliError::Usage));
}

#[test]
fn parser_accepts_help_and_version_aliases() {
    assert_eq!(parse_arguments(&arguments(&["help"])), Ok(Action::Help));
    assert_eq!(parse_arguments(&arguments(&["--version"])), Ok(Action::Version));
}

#[test]
fn parser_accepts_the_fmt_subcommand() {
    assert_eq!(
        parse_arguments(&arguments(&["fmt", "quiz.toml"])),
        Ok(Action::Format(vec!["quiz.toml".to_string()]))
    );
    assert_eq!(
        parse_arguments(&arguments(&["fmt", "quiz1.toml", "quiz2.toml"])),
        Ok(Action::Format(vec![
            "quiz1.toml".to_string(),
            "quiz2.toml".to_string(),
        ]))
    );
    assert_eq!(parse_arguments(&arguments(&["fmt"])), Err(CliError::Usage));
}

#[test]
fn parser_rejects_extra_arguments_to_control_commands() {
    assert_eq!(
        parse_arguments(&arguments(&["help", "example.toml"])),
        Err(CliError::UnexpectedArgument("example.toml".to_string()))
    );
}

#[test]
fn parser_does_not_use_filesystem_existence_to_classify_paths() {
    assert_eq!(
        parse_arguments(&arguments(&["missing.md"])),
        Err(CliError::NotToml("missing.md".to_string()))
    );
    assert_eq!(
        parse_arguments(&arguments(&["gay"])),
        Err(CliError::UnknownCommand("gay".to_string()))
    );
}

#[test]
fn parser_checks_all_extra_arguments_before_reporting_multiple_paths() {
    assert_eq!(
        parse_arguments(&arguments(&["example.toml", "example.toml"])),
        Err(CliError::MultipleQuizPaths)
    );
    assert_eq!(
        parse_arguments(&arguments(&["example.toml", "example.toml", "README.md"])),
        Err(CliError::NotToml("README.md".to_string()))
    );
}

#[test]
fn parser_supports_end_of_options_marker() {
    assert_eq!(
        parse_arguments(&arguments(&["--", "example.toml"])),
        Ok(Action::Quiz("example.toml".to_string()))
    );
    assert_eq!(
        parse_arguments(&arguments(&["--", "--help"])),
        Err(CliError::UnknownCommand("--help".to_string()))
    );
}

const USAGE: &str = "usage: quiczk <quiz.toml>\n       quiczk fmt <quiz.toml>...\n       quiczk [ -v | --version | version ]\n       quiczk [ -h | --help | help ]";

#[test]
fn missing_arguments_exit_two_with_the_usage() {
    let error = parse_arguments(&Vec::new()).expect_err("must refuse");
    assert_eq!(error.exit_code(), 2);
    assert_eq!(error.message(), USAGE);
    assert_eq!(usage(), USAGE);
}

#[test]
fn help_flags_and_words_all_ask_for_help() {
    for argument in ["help", "-h", "--help"] {
        assert_eq!(parse_arguments(&arguments(&[argument])), Ok(Action::Help));
    }
    for argument in ["version", "-v", "--version"] {
        assert_eq!(parse_arguments(&arguments(&[argument])), Ok(Action::Version));
    }
}

#[test]
fn non_toml_files_exit_one_with_a_short_message() {
    for argument in ["README.md", "missing.md"] {
        let error = parse_arguments(&arguments(&[argument])).expect_err("must refuse");
        assert_eq!(error.exit_code(), 1);
        assert_eq!(error.message(), format!("error: {argument}: not a .toml file"));
    }
}

#[test]
fn refusals_show_their_messages() {
    let multiple = parse_arguments(&arguments(&["a.toml", "b.toml"])).expect_err("must refuse");
    assert_eq!(
        multiple.message(),
        format!("error: multiple quiz TOML paths provided\n\n{USAGE}")
    );
    assert_eq!(multiple.exit_code(), 2);
    let unknown = parse_arguments(&arguments(&["play"])).expect_err("must refuse");
    assert_eq!(unknown.message(), format!("error: unknown command `play`\n\n{USAGE}"));
    let extra = parse_arguments(&arguments(&["fmt", "quiz.toml", "extra"])).expect_err("must refuse");
    assert_eq!(extra, CliError::UnexpectedArgument("extra".to_string()));
    assert_eq!(extra.message(), format!("error: unexpected argument `extra`\n\n{USAGE}"));
}

#[test]
fn end_of_options_keeps_fmt_as_a_path() {
    assert_eq!(
        parse_arguments(&arguments(&["--", "fmt"])),
        Err(CliError::UnknownCommand("fmt".to_string()))
    );
    assert_eq!(parse_arguments(&arguments(&["--"])), Err(CliError::Usage));
    assert_eq!(
        parse_arguments(&arguments(&["--", "README.md"])),
        Err(CliError::NotToml("README.md".to_string()))
    );
}

#[test]
fn fmt_refuses_a_non_toml_file() {
    assert_eq!(
        parse_arguments(&arguments(&["fmt", "quiz.toml", "notes.txt"])),
        Err(CliError::NotToml("notes.txt".to_string()))
    );
}
