use quiczk::config::Config;
use quiczk::quiz::{Answer, Question, Quiz};
use quiczk::screen::{mark_text, marker_rows, marker_tone, Mark, ScreenLine, Tone};
use quiczk::session::{App, Key};

fn quiz(count: usize) -> Quiz {
    let mut questions = Vec::new();
    let mut answers = Vec::new();
    for index in 0..count {
        questions.push(Question {
            question: format!("Question {index}"),
            options: vec!["right".into(), "wrong".into()],
            explanation: Some("Because".into()),
        });
        answers.push(Answer {
            answer: "right".into(),
        });
    }
    Quiz {
        questions,
        answers,
        config: None,
    }
}

fn fixed() -> Config {
    Config {
        shuffle_questions: false,
        shuffle_options: false,
        random_start_cursor: false,
        question_timer_seconds: None,
        hide_options_until_interact: false,
    }
}

#[test]
fn the_header_names_the_quiz_and_its_size() {
    let app = App::new(quiz(2), fixed(), "shell".into(), 0);
    assert_eq!(app.progress_header(None), "shell | 2 questions ");
    assert_eq!(app.progress_header(Some(7)), "shell | 2 questions | [7s] ");
    let single = App::new(quiz(1), fixed(), "one".into(), 0);
    assert_eq!(single.progress_header(None), "one | 1 question ");
}

#[test]
fn markers_fill_the_header_row_then_wrap() {
    assert_eq!(marker_rows(10, 20, 3), vec![3]);
    assert_eq!(marker_rows(10, 15, 5), vec![3, 2]);
    assert_eq!(marker_rows(10, 11, 3), vec![1, 1, 1]);
    assert_eq!(marker_rows(10, 10, 2), vec![0, 1, 1]);
    assert_eq!(marker_rows(30, 0, 1), vec![0, 1]);
    assert_eq!(marker_rows(4, 9, 0), vec![0]);
}

#[test]
fn progress_rows_measure_the_header() {
    let app = App::new(quiz(4), fixed(), "t".into(), 0);
    let header = app.progress_header(None);
    assert_eq!(header.len(), 16);
    assert_eq!(app.progress_rows(&header, 19), (16, vec![2, 2]));
    assert_eq!(app.progress_rows(&header, 200), (16, vec![4]));
    assert_eq!(app.progress_rows("é ✓", 3), (3, vec![0, 1, 1, 1, 1]));
}

#[test]
fn marker_tones_follow_the_results() {
    assert_eq!(marker_tone(Some(true), 0, 3), Tone::Correct);
    assert_eq!(marker_tone(Some(false), 1, 3), Tone::Wrong);
    assert_eq!(marker_tone(None, 3, 3), Tone::Current);
    assert_eq!(marker_tone(None, 4, 3), Tone::Pending);
}

#[test]
fn options_are_marked_before_and_after_answering() {
    let mut app = App::new(quiz(2), fixed(), "t".into(), 0);
    assert_eq!(app.option_mark(0), Mark::Cursor);
    assert_eq!(app.option_mark(1), Mark::Plain);
    assert_eq!(app.instruction(), None);
    app.handle_key(Key::Down, false, 0);
    app.handle_key(Key::Enter, false, 0);
    assert_eq!(app.option_mark(0), Mark::Right);
    assert_eq!(app.option_mark(1), Mark::Wrong);
    assert_eq!(
        app.instruction(),
        Some(("Press Enter to go to the next question.", false))
    );
    assert_eq!(app.score_line(), None);
    assert_eq!(mark_text(Mark::Cursor), "> ");
    assert_eq!(mark_text(Mark::Right), "✓ ");
    assert_eq!(mark_text(Mark::Wrong), "✗ ");
    assert_eq!(mark_text(Mark::Dimmed), "  ");
}

#[test]
fn the_last_question_shows_the_score() {
    let mut app = App::new(quiz(2), fixed(), "t".into(), 0);
    app.handle_key(Key::Enter, false, 0);
    assert_eq!(
        app.instruction(),
        Some(("Press Enter to go to the next question.", true))
    );
    app.handle_key(Key::Enter, false, 0);
    app.handle_key(Key::Enter, false, 0);
    assert_eq!(app.instruction(), Some(("Press Enter to restart.", false)));
    assert_eq!(app.score_line(), Some("Score: 2/2 (100%)".to_string()));
}

#[test]
fn a_timed_out_question_marks_no_wrong_choice() {
    let config = Config {
        question_timer_seconds: Some(1),
        ..fixed()
    };
    let mut app = App::new(quiz(3), config, "t".into(), 0);
    app.handle_key(Key::Down, false, 0);
    assert_eq!(app.poll_timer(1000), Some(1));
    assert_eq!(app.option_mark(0), Mark::Right);
    assert_eq!(app.option_mark(1), Mark::Dimmed);
    assert_eq!(
        app.instruction(),
        Some(("Time expired. Press Enter to go to the next question.", false))
    );
}

#[test]
fn the_score_percentage_rounds_down() {
    let mut app = App::new(quiz(3), fixed(), "t".into(), 0);
    app.handle_key(Key::Enter, false, 0);
    app.handle_key(Key::Enter, false, 0);
    app.handle_key(Key::Down, false, 0);
    app.handle_key(Key::Enter, false, 0);
    app.handle_key(Key::Enter, false, 0);
    app.handle_key(Key::Down, false, 0);
    app.handle_key(Key::Enter, false, 0);
    assert_eq!(app.score_line(), Some("Score: 1/3 (33%)".to_string()));
}

#[test]
fn the_question_area_lists_its_lines_in_order() {
    let config = Config {
        hide_options_until_interact: true,
        ..fixed()
    };
    let mut app = App::new(quiz(2), config, "t".into(), 0);
    assert_eq!(
        app.screen_lines(),
        vec![
            ScreenLine::Blank,
            ScreenLine::Number(1),
            ScreenLine::Prompt,
            ScreenLine::Blank,
            ScreenLine::RevealHint,
        ]
    );
    app.handle_key(Key::Other, false, 0);
    app.handle_key(Key::Enter, false, 0);
    assert_eq!(
        app.screen_lines(),
        vec![
            ScreenLine::Blank,
            ScreenLine::Number(1),
            ScreenLine::Prompt,
            ScreenLine::Blank,
            ScreenLine::Choice(0, Mark::Right),
            ScreenLine::Choice(1, Mark::Dimmed),
            ScreenLine::Blank,
            ScreenLine::Explanation,
            ScreenLine::Blank,
            ScreenLine::Instruction,
            ScreenLine::QuitHint,
        ]
    );
    app.handle_key(Key::Enter, false, 0);
    app.handle_key(Key::Other, false, 0);
    app.handle_key(Key::Enter, false, 0);
    assert_eq!(app.screen_lines()[1], ScreenLine::Number(2));
    assert_eq!(app.screen_lines()[8..], [
        ScreenLine::Blank,
        ScreenLine::Score,
        ScreenLine::Instruction,
        ScreenLine::QuitHint,
    ]);
}

#[test]
fn every_line_of_the_question_area_has_its_text() {
    let mut app = App::new(quiz(2), fixed(), "t".into(), 0);
    assert_eq!(app.line_parts(ScreenLine::Blank), (String::new(), String::new()));
    assert_eq!(app.line_parts(ScreenLine::Number(1)), (String::new(), "1.".to_string()));
    assert_eq!(app.line_parts(ScreenLine::Prompt), (String::new(), "Question 0".to_string()));
    assert_eq!(
        app.line_parts(ScreenLine::RevealHint),
        (String::new(), "Press any key to reveal options.".to_string())
    );
    assert_eq!(
        app.line_parts(ScreenLine::Choice(1, Mark::Plain)),
        ("  ".to_string(), "wrong".to_string())
    );
    assert_eq!(
        app.line_parts(ScreenLine::Explanation),
        ("Explanation: ".to_string(), "Because".to_string())
    );
    assert_eq!(
        app.line_parts(ScreenLine::QuitHint),
        (String::new(), "Press q or ctrl-c to quit.".to_string())
    );
    app.handle_key(Key::Enter, false, 0);
    app.handle_key(Key::Enter, false, 0);
    app.handle_key(Key::Enter, false, 0);
    assert_eq!(
        app.line_parts(ScreenLine::Score),
        (String::new(), "Score: 2/2 (100%)".to_string())
    );
    assert_eq!(
        app.line_parts(ScreenLine::Instruction),
        (String::new(), "Press Enter to restart.".to_string())
    );
}

#[test]
fn progress_rows_spell_their_markers() {
    let mut app = App::new(quiz(4), fixed(), "t".into(), 0);
    app.handle_key(Key::Enter, false, 0);
    let header = app.progress_header(None);
    let rows = app.progress_texts(&header, 19);
    assert_eq!(
        rows,
        vec![
            ("t | 4 questions ■ ■".to_string(), vec![Tone::Correct, Tone::Pending]),
            (" ".repeat(16) + "■ ■", vec![Tone::Pending, Tone::Pending]),
        ]
    );
    for (text, _) in &rows {
        assert!(text.chars().count() <= 19);
    }
}
