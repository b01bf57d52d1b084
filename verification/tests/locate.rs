use quiczk::locate::{locate_key, source_excerpt};

#[test]
fn locates_a_key_inside_its_section() {
    let source = "[other]\no1 = 1\n[quiczk]\nq1 = \"Q\"\n  o1 = [\"a\", \"b\"]\n";
    assert_eq!(
        locate_key(source, "quiczk", "o1"),
        Some((5, 3, "o1 = [\"a\", \"b\"]".to_string()))
    );
    assert_eq!(locate_key(source, "quiczk", "a1"), None);
    assert_eq!(locate_key(source, "missing", "o1"), None);
}

#[test]
fn columns_count_bytes() {
    let source = "[quiczk]\n\u{3000}o1 = 1\n";
    assert_eq!(
        locate_key(source, "quiczk", "o1"),
        Some((2, 4, "o1 = 1".to_string()))
    );
}

#[test]
fn excerpts_right_align_line_numbers() {
    let option = Some((9, 1, "o9 = [\"x\"]".to_string()));
    let answer = Some((10, 1, "a9 = \"y\"".to_string()));
    assert_eq!(
        source_excerpt(option.clone(), answer.clone(), 2),
        "\n 9 │ o9 = [\"x\"]\n10 │ a9 = \"y\""
    );
    assert_eq!(source_excerpt(None, answer, 3), "\n 10 │ a9 = \"y\"");
    assert_eq!(source_excerpt(option, None, 1), "\n9 │ o9 = [\"x\"]");
    assert_eq!(source_excerpt(None, None, 4), "");
}
