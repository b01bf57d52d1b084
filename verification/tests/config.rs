use quiczk::config::{overlay, Config};
use quiczk::toml::{TomlEntry, TomlValue};

fn entry(key: &str, value: TomlValue) -> TomlEntry {
    TomlEntry { key: key.to_string(), value }
}

#[test]
fn random_start_cursor_can_be_disabled() {
    let table = vec![entry("random_start_cursor", TomlValue::Boolean(false))];
    let config = Config::from_table(&table, "config.toml").expect("config should parse");

    assert!(!config.random_start_cursor);
}

#[test]
fn question_timer_seconds_can_be_configured() {
    let table = vec![entry("question_timer_seconds", TomlValue::Integer(15))];
    let config = Config::from_table(&table, "config.toml").expect("config should parse");

    assert_eq!(config.question_timer_seconds, Some(15));
}

#[test]
fn hide_options_until_interact_can_be_disabled() {
    let table = vec![entry("hide_options_until_interact", TomlValue::Boolean(false))];
    let config = Config::from_table(&table, "config.toml").expect("config should parse");

    assert!(!config.hide_options_until_interact);
}

#[test]
fn embedded_timer_overrides_base_without_clobbering() {
    let base = Config {
        shuffle_options: false,
        ..Config::default()
    };
    let mut merged = base.to_table();
    let embedded = vec![entry("question_timer_seconds", TomlValue::Integer(30))];
    overlay(&mut merged, embedded);
    let resolved = Config::from_table(&merged, "quiz.toml").expect("merged config must validate");

    assert_eq!(resolved.question_timer_seconds, Some(30));
    assert!(!resolved.shuffle_options);
    assert!(!resolved.shuffle_questions);
}

#[test]
fn timer_zero_survives_merge_for_app_normalization() {
    let embedded = vec![entry("question_timer_seconds", TomlValue::Integer(0))];
    let resolved = Config::from_table(&embedded, "quiz.toml").expect("zero timer must parse");

    assert_eq!(resolved.question_timer_seconds, Some(0));
}

#[test]
fn unknown_embedded_key_fails_strictly() {
    let embedded = vec![entry("bogus_key", TomlValue::Boolean(true))];
    let error = Config::from_table(&embedded, "quiz.toml").expect_err("unknown keys must fail");

    assert!(error.to_string().contains("quiz.toml"));
}

#[test]
fn defaults_match_the_documented_values() {
    let config = Config::default();
    assert!(!config.shuffle_questions);
    assert!(config.shuffle_options);
    assert!(config.random_start_cursor);
    assert_eq!(config.question_timer_seconds, None);
    assert!(config.hide_options_until_interact);
}

#[test]
fn an_empty_table_gives_the_defaults() {
    let config = Config::from_table(&Vec::new(), "config.toml").expect("an empty table is fine");
    assert_eq!(config, Config::default());
}

fn message(table: Vec<TomlEntry>) -> String {
    Config::from_table(&table, "quiz.toml")
        .expect_err("the table must be refused")
        .to_string()
}

#[test]
fn an_unknown_key_lists_the_settings() {
    assert_eq!(
        message(vec![entry("bogus_key", TomlValue::Boolean(true))]),
        "quiz.toml: unknown field `bogus_key`, expected one of `shuffle_questions`, `shuffle_options`, `random_start_cursor`, `question_timer_seconds`, `hide_options_until_interact`\n"
    );
}

#[test]
fn a_value_of_the_wrong_type_is_shown_with_its_key() {
    assert_eq!(
        message(vec![entry("shuffle_options", TomlValue::String("yes".into()))]),
        "quiz.toml: invalid type: string \"yes\", expected a boolean\nin `shuffle_options`\n"
    );
    assert_eq!(
        message(vec![entry("shuffle_questions", TomlValue::Integer(-3))]),
        "quiz.toml: invalid type: integer `-3`, expected a boolean\nin `shuffle_questions`\n"
    );
    assert_eq!(
        message(vec![entry("question_timer_seconds", TomlValue::Boolean(true))]),
        "quiz.toml: invalid type: boolean `true`, expected u64\nin `question_timer_seconds`\n"
    );
    assert_eq!(
        message(vec![entry("question_timer_seconds", TomlValue::Integer(-1))]),
        "quiz.toml: invalid value: integer `-1`, expected u64\nin `question_timer_seconds`\n"
    );
    assert_eq!(
        message(vec![entry("random_start_cursor", TomlValue::Float("1".into()))]),
        "quiz.toml: invalid type: floating point `1.0`, expected a boolean\nin `random_start_cursor`\n"
    );
    assert_eq!(
        message(vec![entry("random_start_cursor", TomlValue::Float("NaN".into()))]),
        "quiz.toml: invalid type: floating point `NaN`, expected a boolean\nin `random_start_cursor`\n"
    );
    assert_eq!(
        message(vec![entry("shuffle_options", TomlValue::Array(Vec::new()))]),
        "quiz.toml: invalid type: sequence, expected a boolean\nin `shuffle_options`\n"
    );
    assert_eq!(
        message(vec![entry("shuffle_options", TomlValue::Table(Vec::new()))]),
        "quiz.toml: invalid type: map, expected a boolean\nin `shuffle_options`\n"
    );
}

#[test]
fn type_errors_read_as_the_toml_crate_writes_them() {
    let cases: Vec<(&str, TomlValue, toml::Value)> = vec![
        ("shuffle_options", TomlValue::String("a \"b\"\n".into()), toml::Value::String("a \"b\"\n".into())),
        ("shuffle_options", TomlValue::Integer(7), toml::Value::Integer(7)),
        ("shuffle_options", TomlValue::Float(2.5f64.to_string()), toml::Value::Float(2.5)),
        ("shuffle_options", TomlValue::Float(3.0f64.to_string()), toml::Value::Float(3.0)),
        ("shuffle_options", TomlValue::Array(Vec::new()), toml::Value::Array(Vec::new())),
    ];
    for (key, ours, theirs) in cases {
        let mut table = toml::Table::new();
        table.insert(key.to_string(), theirs);
        let expected = <std::collections::BTreeMap<String, bool> as serde::Deserialize>::deserialize(
            toml::Value::Table(table),
        )
        .expect_err("a non-boolean must be refused")
        .to_string();
        assert_eq!(message(vec![entry(key, ours)]), format!("quiz.toml: {expected}"));
    }
}

#[test]
fn a_negative_timer_is_refused() {
    let table = vec![entry("question_timer_seconds", TomlValue::Integer(-1))];
    assert!(Config::from_table(&table, "quiz.toml").is_err());
}

#[test]
fn a_setting_of_the_wrong_type_is_refused() {
    let table = vec![entry("shuffle_options", TomlValue::Integer(1))];
    let error = Config::from_table(&table, "quiz.toml").expect_err("wrong type must fail");
    assert!(error.to_string().starts_with("quiz.toml: "));
}

#[test]
fn resolve_prefers_the_embedded_table() {
    let base = Config {
        question_timer_seconds: Some(10),
        ..Config::default()
    };
    let embedded = vec![
        entry("shuffle_questions", TomlValue::Boolean(true)),
        entry("hide_options_until_interact", TomlValue::Boolean(false)),
    ];
    let resolved = Config::resolve(base, "quiz.toml", Some(embedded)).expect("must resolve");
    assert!(resolved.shuffle_questions);
    assert!(!resolved.hide_options_until_interact);
    assert_eq!(resolved.question_timer_seconds, Some(10));
    assert!(resolved.shuffle_options);
}

#[test]
fn resolve_without_an_embedded_table_keeps_the_base() {
    let base = Config {
        random_start_cursor: false,
        ..Config::default()
    };
    assert_eq!(Config::resolve(base, "quiz.toml", None).expect("must resolve"), base);
}

#[test]
fn resolve_blames_the_quiz_file_for_a_bad_embedded_key() {
    let embedded = vec![entry("typo", TomlValue::Boolean(true))];
    let error = Config::resolve(Config::default(), "quiz.toml", Some(embedded))
        .expect_err("unknown keys must fail");
    assert!(error.to_string().starts_with("quiz.toml: "));
}

#[test]
fn a_config_round_trips_through_its_table() {
    let config = Config {
        shuffle_questions: true,
        shuffle_options: false,
        random_start_cursor: false,
        question_timer_seconds: Some(42),
        hide_options_until_interact: false,
    };
    let back = Config::from_table(&config.to_table(), "quiz.toml").expect("must decode");
    assert_eq!(back, config);
}

#[test]
fn overlay_replaces_and_adds_keys() {
    let mut base = vec![
        entry("shuffle_options", TomlValue::Boolean(true)),
        entry("random_start_cursor", TomlValue::Boolean(true)),
    ];
    overlay(
        &mut base,
        vec![
            entry("shuffle_options", TomlValue::Boolean(false)),
            entry("shuffle_questions", TomlValue::Boolean(true)),
        ],
    );
    let decoded = Config::from_table(&base, "quiz.toml").expect("must decode");
    assert!(!decoded.shuffle_options);
    assert!(decoded.shuffle_questions);
    assert!(decoded.random_start_cursor);
}
