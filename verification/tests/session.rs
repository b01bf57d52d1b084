use quiczk::config::Config;
use quiczk::quiz::{Answer, Question, Quiz};
use quiczk::session::{App, Key};

fn sample_quiz() -> Quiz {
    Quiz {
        questions: vec![
            Question {
                question: "Question 1".into(),
                options: vec!["A".into(), "B".into()],
                explanation: None,
            },
            Question {
                question: "Question 2".into(),
                options: vec!["C".into(), "D".into()],
                explanation: None,
            },
        ],
        answers: vec![Answer { answer: "A".into() }, Answer { answer: "C".into() }],
        config: None,
    }
}

fn fixed() -> Config {
    Config {
        shuffle_questions: false,
        shuffle_options: false,
        random_start_cursor: false,
        question_timer_seconds: None,
        hide_options_until_interact: false,
    }
}

#[test]
fn options_hidden_by_default() {
    let app = App::new(sample_quiz(), Config::default(), "Test".into(), 0);
    assert!(!app.options_revealed());
}

#[test]
fn options_revealed_when_disabled() {
    let config = Config {
        hide_options_until_interact: false,
        ..Config::default()
    };
    let app = App::new(sample_quiz(), config, "Test".into(), 0);
    assert!(app.options_revealed());
}

#[test]
fn hide_options_until_interact_delays_reveal() {
    let config = Config {
        hide_options_until_interact: true,
        ..Config::default()
    };
    let mut app = App::new(sample_quiz(), config, "Test".into(), 0);
    assert!(!app.options_revealed());

    let quit = app.handle_key(Key::Char('j'), false, 10);
    assert!(!quit);
    assert!(app.options_revealed());
    assert!(!app.answered());
}

#[test]
fn next_question_hides_options_again_when_configured() {
    let config = Config {
        hide_options_until_interact: true,
        ..Config::default()
    };
    let mut app = App::new(sample_quiz(), config, "Test".into(), 0);

    app.handle_key(Key::Char(' '), false, 0);
    assert!(app.options_revealed());

    app.handle_key(Key::Enter, false, 0);
    assert!(app.answered());

    app.handle_key(Key::Enter, false, 0);
    assert_eq!(app.question_index(), 1);
    assert!(!app.options_revealed());
    assert!(!app.answered());
}

#[test]
fn quit_keys_end_the_session() {
    let mut app = App::new(sample_quiz(), fixed(), "Test".into(), 0);
    assert!(app.handle_key(Key::Char('q'), false, 0));
    assert!(app.handle_key(Key::Esc, false, 0));
    assert!(app.handle_key(Key::Char('c'), true, 0));
    assert!(!app.handle_key(Key::Char('c'), false, 0));
}

#[test]
fn the_cursor_moves_within_the_options() {
    let mut app = App::new(sample_quiz(), fixed(), "Test".into(), 0);
    assert_eq!(app.selected_option(), 0);
    app.handle_key(Key::Up, false, 0);
    assert_eq!(app.selected_option(), 0);
    app.handle_key(Key::Char('j'), false, 0);
    assert_eq!(app.selected_option(), 1);
    app.handle_key(Key::Down, false, 0);
    assert_eq!(app.selected_option(), 1);
    app.handle_key(Key::Char('w'), false, 0);
    assert_eq!(app.selected_option(), 0);
}

#[test]
fn answering_scores_correct_choices_and_restarts_at_the_end() {
    let mut app = App::new(sample_quiz(), fixed(), "Test".into(), 0);
    app.handle_key(Key::Enter, false, 0);
    assert!(app.answered());
    assert_eq!(app.score(), 1);
    assert_eq!(app.question_results()[0], Some(true));

    app.handle_key(Key::Enter, false, 0);
    app.handle_key(Key::Down, false, 0);
    app.handle_key(Key::Enter, false, 0);
    assert_eq!(app.score(), 1);
    assert_eq!(app.question_results()[1], Some(false));

    app.handle_key(Key::Enter, false, 5);
    assert_eq!(app.question_index(), 0);
    assert_eq!(app.score(), 0);
    assert!(!app.answered());
    assert_eq!(app.question_results(), &vec![None, None]);
}

#[test]
fn the_timer_expires_and_counts_as_wrong() {
    let config = Config {
        question_timer_seconds: Some(3),
        ..fixed()
    };
    let mut app = App::new(sample_quiz(), config, "Test".into(), 1000);
    assert!(app.timer_running());
    assert_eq!(app.remaining_seconds(1000), Some(3));
    assert_eq!(app.poll_timer(2500), Some(2));
    assert!(!app.answered());
    assert_eq!(app.wake_after_ms(2500), 500);
    assert_eq!(app.poll_timer(4000), Some(3));
    assert!(app.answered());
    assert!(app.timed_out());
    assert_eq!(app.question_results()[0], Some(false));
    assert_eq!(app.poll_timer(9000), None);
    assert!(!app.timer_running());
    assert_eq!(app.remaining_seconds(9000), Some(3));
    assert_eq!(app.wake_after_ms(9000), 3_600_000);
}

#[test]
fn a_zero_timer_means_no_timer() {
    let config = Config {
        question_timer_seconds: Some(0),
        ..fixed()
    };
    let mut app = App::new(sample_quiz(), config, "Test".into(), 0);
    assert_eq!(app.config().question_timer_seconds, None);
    assert!(!app.timer_running());
    assert_eq!(app.remaining_seconds(0), None);
    assert_eq!(app.poll_timer(100_000), None);
}

#[test]
fn hidden_options_hold_the_timer() {
    let config = Config {
        question_timer_seconds: Some(5),
        hide_options_until_interact: true,
        ..fixed()
    };
    let mut app = App::new(sample_quiz(), config, "Test".into(), 0);
    assert!(!app.timer_running());
    assert_eq!(app.poll_timer(60_000), None);
    assert_eq!(app.remaining_seconds(60_000), Some(5));
    app.handle_key(Key::Other, false, 60_000);
    assert!(app.timer_running());
    assert_eq!(app.remaining_seconds(61_000), Some(4));
}

#[test]
fn shuffling_keeps_every_question_and_option() {
    let config = Config {
        shuffle_questions: true,
        shuffle_options: true,
        random_start_cursor: true,
        question_timer_seconds: None,
        hide_options_until_interact: false,
    };
    let app = App::new(sample_quiz(), config, "Test".into(), 0);
    assert_eq!(app.question_count(), 2);
    let current = app.current();
    let mut options = current.options.clone();
    options.sort();
    if current.prompt == "Question 1" {
        assert_eq!(options, vec!["A".to_string(), "B".to_string()]);
        assert_eq!(current.answer, "A");
    } else {
        assert_eq!(current.prompt, "Question 2");
        assert_eq!(options, vec!["C".to_string(), "D".to_string()]);
        assert_eq!(current.answer, "C");
    }
    assert!(app.selected_option() < 2);
}

#[test]
fn unanswered_questions_without_answers_are_left_out() {
    let mut quiz = sample_quiz();
    quiz.answers.pop();
    let app = App::new(quiz, fixed(), "Test".into(), 0);
    assert_eq!(app.question_count(), 1);
    assert_eq!(app.title(), "Test");
}

#[test]
fn starting_a_quiz_applies_its_own_config_and_title() {
    let source = "[config]\nshuffle_options = false\nrandom_start_cursor = false\nquestion_timer_seconds = 0\n\n[quiczk]\nq1 = \"Q\"\no1 = [\"a\", \"b\"]\na1 = \"a\"\n";
    let quiz = Quiz::from_source("quizzes/shell.toml", source).expect("quiz must validate");
    let app = App::start("quizzes/shell.toml", quiz, Config::default(), 0).expect("must start");
    assert_eq!(app.title(), "shell");
    assert!(!app.config().shuffle_options);
    assert!(!app.config().random_start_cursor);
    assert_eq!(app.config().question_timer_seconds, None);
    assert_eq!(app.selected_option(), 0);
    assert_eq!(app.current().options, vec!["a".to_string(), "b".to_string()]);
}

#[test]
fn starting_a_quiz_with_a_bad_config_fails() {
    let source = "[config]\nshuffle = true\n\n[quiczk]\nq1 = \"Q\"\no1 = [\"a\", \"b\"]\na1 = \"a\"\n";
    let quiz = Quiz::from_source("quiz.toml", source).expect("quiz must validate");
    let error = match App::start("quiz.toml", quiz, Config::default(), 0) {
        Ok(_) => panic!("an unknown key must fail"),
        Err(error) => error,
    };
    assert!(error.to_string().starts_with("quiz.toml: "));
}
