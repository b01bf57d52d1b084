use quiczk::error::AppError;
use quiczk::quiz::{quoted, Quiz};

fn parse(source: &str) -> Result<Quiz, AppError> {
    Quiz::from_source("quiz.toml", source)
}

#[test]
fn parses_compact_quiczk_table() {
    let source = r#"
            [quiczk]
            q1 = "What is the default shell on macOS?"
            o1 = ["bash", "zsh", "fish"]
            a1 = "zsh"
            q2 = "What command lists files?"
            o2 = ["ls", "cd", "pwd"]
            a2 = "ls"
            "#;
    let quiz = parse(source).expect("compact quiz must validate");

    assert_eq!(quiz.questions.len(), 2);
    assert_eq!(quiz.answers[1].answer, "ls");
}

#[test]
fn rejects_non_toml_quiz_paths_before_reading() {
    let error = Quiz::check_path("README.md").expect_err("non-TOML paths must fail");

    assert_eq!(error.to_string(), "README.md: not a .toml file");
}

#[test]
fn rejects_the_legacy_two_table_format() {
    let source = r#"
            [questions]
            q1 = "Question"
            o1 = ["one", "two"]

            [answers]
            a1 = "one"
            "#;

    let error = parse(source).expect_err("legacy schema must fail");

    assert!(error.to_string().contains("unexpected top-level table"));
}

#[test]
fn rejects_mismatched_question_and_answer_numbers() {
    let source = r#"
            [quiczk]
            q1 = "Question"
            o1 = ["one", "two"]
            a2 = "one"
            "#;

    let error = parse(source).expect_err("mismatched numbers must fail");

    assert!(error.to_string().contains("a1 is required for q1 and o1"));
}

#[test]
fn reports_missing_question_for_options_and_answer() {
    let source = r#"
            [quiczk]
            o1 = ["one", "two"]
            a1 = "one"
            "#;

    let error = parse(source).expect_err("missing question must fail");

    assert!(error.to_string().contains("q1 is required for o1 and a1"));
}

#[test]
fn reports_missing_options_for_question_and_answer() {
    let source = r#"
            [quiczk]
            q1 = "Question"
            a1 = "one"
            "#;

    let error = parse(source).expect_err("missing options must fail");

    assert!(error.to_string().contains("o1 is required for q1 and a1"));
}

#[test]
fn rejects_gapped_question_numbers() {
    let source = r#"
            [quiczk]
            q1 = "Question 1"
            o1 = ["one", "two"]
            a1 = "one"
            q3 = "Question 3"
            o3 = ["three", "four"]
            a3 = "three"
            "#;

    let error = parse(source).expect_err("gapped numbers must fail");

    assert!(error.to_string().contains("missing q2 before q3"));
}

#[test]
fn reports_a_range_of_missing_question_numbers() {
    let source = r#"
            [quiczk]
            q1 = "Question 1"
            o1 = ["one", "two"]
            a1 = "one"
            q11 = "Question 11"
            o11 = ["eleven", "twelve"]
            a11 = "eleven"
            "#;

    let error = parse(source).expect_err("gapped numbers must fail");

    assert!(error
        .to_string()
        .contains("missing q2 through q10 before q11"));
}

#[test]
fn rejects_duplicate_options() {
    let source = r#"
            [quiczk]
            q1 = "Question"
            o1 = ["one", "one"]
            a1 = "one"
            "#;

    let error = parse(source).expect_err("duplicate options must fail");

    assert!(error
        .to_string()
        .contains("o1 contains duplicate option `one`"));
}

#[test]
fn rejects_unknown_quiz_keys() {
    let source = r#"
            [quiczk]
            title = "Unsupported metadata"
            q1 = "Question"
            o1 = ["one", "two"]
            a1 = "one"
            "#;

    let error = parse(source).expect_err("unknown keys must fail");

    assert!(error
        .to_string()
        .contains("title uses an unsupported key name"));
}

#[test]
fn rejects_single_option_questions() {
    let source = r#"
            [quiczk]
            q1 = "Question"
            o1 = ["only option"]
            a1 = "only option"
            "#;

    let error = parse(source).expect_err("single-option questions must fail");

    assert!(error
        .to_string()
        .contains("o1 must contain at least two options"));
}

#[test]
fn reports_all_answers_that_do_not_match_their_options() {
    let source = r#"
            [quiczk]
            q1 = "Question 1"
            o1 = ["one", "one alternative"]
            a1 = "wrong one"
            q2 = "Question 2"
            o2 = ["two", "two alternative"]
            a2 = "wrong two"
            "#;
    let error = parse(source).expect_err("invalid answers must fail");
    let message = error.to_string();

    assert!(message.contains("a1 = \"wrong one\""));
    assert!(message.contains("a2 = \"wrong two\""));
}

#[test]
fn formats_questions_as_grouped_multiline_blocks() {
    let source = r#"
            [quiczk]
            a2 = "four"
            o2 = ["three", "four"]
            q2 = "Second question"
            q1 = "First question"
            a1 = "one"
            o1 = ["one", "two"]
            "#;
    let quiz = parse(source).expect("quiz must validate");

    let expected = "[quiczk]\n\
q1 = \"First question\"\n\
o1 = [\n  \"one\",\n  \"two\",\n]\n\
a1 = \"one\"\n\n\
q2 = \"Second question\"\n\
o2 = [\n  \"three\",\n  \"four\",\n]\n\
a2 = \"four\"\n";

    assert_eq!(quiz.format_source(), expected);
    let reformatted = parse(&quiz.format_source())
        .expect("formatted quiz must validate")
        .format_source();
    assert_eq!(reformatted, expected);
}

#[test]
fn formats_strings_with_toml_escapes() {
    let source = r#"
            [quiczk]
            q1 = "A \"quoted\" line\\path"
            o1 = ["first\nline", "second"]
            a1 = "first\nline"
            "#;
    let quiz = parse(source).expect("quiz must validate");
    let formatted = quiz.format_source();
    let reparsed = parse(&formatted).expect("escaped quiz must validate");

    assert_eq!(reparsed.questions[0].question, "A \"quoted\" line\\path");
    assert_eq!(reparsed.questions[0].options[0], "first\nline");
    assert_eq!(reparsed.answers[0].answer, "first\nline");
}

#[test]
fn parses_optional_explanation_and_formats_canonically() {
    let source = r#"
            [quiczk]
            q1 = "Question 1"
            o1 = ["opt1", "opt2"]
            a1 = "opt1"
            e1 = "Because opt1 is correct"
            q2 = "Question 2"
            o2 = ["optA", "optB"]
            a2 = "optA"
            "#;
    let quiz = parse(source).expect("quiz with explanation must validate");

    assert_eq!(
        quiz.questions[0].explanation.as_deref(),
        Some("Because opt1 is correct")
    );
    assert_eq!(quiz.questions[1].explanation, None);

    let expected = "[quiczk]\n\
q1 = \"Question 1\"\n\
o1 = [\n  \"opt1\",\n  \"opt2\",\n]\n\
a1 = \"opt1\"\n\
e1 = \"Because opt1 is correct\"\n\n\
q2 = \"Question 2\"\n\
o2 = [\n  \"optA\",\n  \"optB\",\n]\n\
a2 = \"optA\"\n";
    assert_eq!(quiz.format_source(), expected);
}

#[test]
fn rejects_orphaned_explanation_keys() {
    let source = r#"
            [quiczk]
            q1 = "Question 1"
            o1 = ["opt1", "opt2"]
            a1 = "opt1"
            e2 = "Orphaned explanation"
            "#;
    let error = parse(source).expect_err("orphaned explanation key must fail");

    assert!(error
        .to_string()
        .contains("e2 is provided without matching q2"));
}

#[test]
fn accepts_toml_paths_in_any_case() {
    assert!(Quiz::check_path("quiz.toml").is_ok());
    assert!(Quiz::check_path("dir/Quiz.TOML").is_ok());
    assert!(Quiz::check_path(".toml").is_err());
    assert!(Quiz::check_path("quiz.tom").is_err());
}

#[test]
fn reports_invalid_toml_as_a_toml_error() {
    let error = parse("[quiczk\nq1 = ").expect_err("broken TOML must fail");
    assert!(matches!(error, AppError::Toml { .. }));
    assert!(error.to_string().starts_with("quiz.toml: "));
}

#[test]
fn keeps_the_embedded_config_table() {
    let source = "[config]\nshuffle_options = false\n\n[quiczk]\nq1 = \"Q\"\no1 = [\"a\", \"b\"]\na1 = \"a\"\n";
    let quiz = parse(source).expect("quiz with config must validate");
    let config = quiz.config.expect("the config table is kept");
    assert_eq!(config.len(), 1);
    assert_eq!(config[0].key, "shuffle_options");
}

#[test]
fn rejects_a_config_that_is_not_a_table() {
    let source = "config = 3\n\n[quiczk]\nq1 = \"Q\"\no1 = [\"a\", \"b\"]\na1 = \"a\"\n";
    let error = parse(source).expect_err("a scalar config must fail");
    assert_eq!(error.to_string(), "quiz.toml: [config] must be a table");
}

#[test]
fn rejects_blank_questions() {
    let source = "[quiczk]\nq1 = \"  \"\no1 = [\"a\", \"b\"]\na1 = \"a\"\n";
    assert!(parse(source).is_err());
}

#[test]
fn quotes_control_characters_with_escapes() {
    assert_eq!(quoted("plain"), "\"plain\"");
    assert_eq!(quoted("tab\there"), "\"tab\\there\"");
    assert_eq!(quoted("back\\slash \"q\""), "\"back\\\\slash \\\"q\\\"\"");
    assert_eq!(quoted("\u{1}"), "\"\\u0001\"");
}

#[test]
fn the_documented_example_is_a_valid_quiz() {
    let source = r#"[config]
shuffle_questions = false
shuffle_options = false
random_start_cursor = false
hide_options_until_interact = true

[quiczk]
q1 = "Who is the author of quiczk?"
o1 = [
  "Linus Benedict Torvalds",
  "Peerawat Monviset",
  "Augusta Ada King, Countess of Lovelace",
  "Alan Mathison Turing",
]
a1 = "Peerawat Monviset"

q2 = "How do you exit Vim?"
o2 = [
  ":wq",
  "buy a new laptop",
  "pull the power plug",
  "turn off the breaker",
]
a2 = ":wq"
e2 = "':wq' writes changes and quits the editor."
"#;
    let quiz = parse(source).expect("the example must validate");
    assert_eq!(quiz.questions.len(), 2);
    assert_eq!(quiz.questions[0].options.len(), 4);
    assert_eq!(quiz.answers[1].answer, ":wq");
    assert_eq!(
        quiz.questions[1].explanation.as_deref(),
        Some("':wq' writes changes and quits the editor.")
    );
    assert!(quiz.config.is_some());
}
