use quiczk::paths::{config_path, is_file_like, is_toml_path, quiz_title};

#[test]
fn toml_paths_are_recognised_in_any_case() {
    assert!(is_toml_path("quiz.toml"));
    assert!(is_toml_path("QUIZ.TOML"));
    assert!(is_toml_path("dir/sub/quiz.Toml"));
    assert!(is_toml_path("/abs/quiz.toml"));
    assert!(is_toml_path("a.b.toml"));
    assert!(!is_toml_path("quiz.tom"));
    assert!(!is_toml_path("quiz.tomlx"));
    assert!(!is_toml_path(".toml"));
    assert!(!is_toml_path("toml"));
    assert!(!is_toml_path("quiz.toml/.."));
    assert!(!is_toml_path(""));
}

#[test]
fn file_like_arguments_have_an_extension_or_several_components() {
    assert!(is_file_like("README.md"));
    assert!(is_file_like("dir/name"));
    assert!(is_file_like("./name"));
    assert!(is_file_like("/name"));
    assert!(is_file_like("name."));
    assert!(!is_file_like("name"));
    assert!(!is_file_like(".hidden"));
    assert!(!is_file_like("name/"));
    assert!(!is_file_like("."));
    assert!(!is_file_like(""));
    assert!(!is_file_like("--help"));
}

#[test]
fn the_title_is_the_file_stem() {
    assert_eq!(quiz_title("quizzes/shell.toml"), "shell");
    assert_eq!(quiz_title("archive.tar.toml"), "archive.tar");
    assert_eq!(quiz_title(".hidden"), ".hidden");
    assert_eq!(quiz_title("plain"), "plain");
    assert_eq!(quiz_title(".."), "quiz");
    assert_eq!(quiz_title("/"), "quiz");
}

#[test]
fn the_config_file_follows_the_first_variable_set() {
    assert_eq!(
        config_path(Some("/xdg"), Some("/home/u"), None, None),
        Some("/xdg/quiczk/config.toml".to_string())
    );
    assert_eq!(
        config_path(Some("/xdg/"), None, None, None),
        Some("/xdg/quiczk/config.toml".to_string())
    );
    assert_eq!(
        config_path(None, Some("/home/u"), Some("C:/Users/u"), None),
        Some("/home/u/.config/quiczk/config.toml".to_string())
    );
    assert_eq!(
        config_path(None, None, Some("C:/Users/u"), Some("C:/AppData")),
        Some("C:/Users/u/.config/quiczk/config.toml".to_string())
    );
    assert_eq!(
        config_path(None, None, None, Some("C:/AppData")),
        Some("C:/AppData/quiczk/config.toml".to_string())
    );
    assert_eq!(config_path(None, None, None, None), None);
    assert_eq!(
        config_path(Some(""), None, None, None),
        Some("quiczk/config.toml".to_string())
    );
}
