use jsonc_fmt::diagnostic::{
    chars_of, describe_parse_error, format_line_around_position, line_of,
};

fn shown(line: &str, column: usize) -> (String, usize) {
    format_line_around_position(line, column)
}

#[test]
fn short_line_is_shown_whole() {
    assert_eq!(shown("abc", 2), ("abc".to_owned(), 2));
    assert_eq!(shown("abc", 1), ("abc".to_owned(), 1));
    assert_eq!(shown("", 1), ("".to_owned(), 1));
}

#[test]
fn column_outside_the_line_names_an_end() {
    assert_eq!(shown("abc", 0), ("abc".to_owned(), 1));
    assert_eq!(shown("abc", 4), ("abc".to_owned(), 4));
    assert_eq!(shown("abc", 99), ("abc".to_owned(), 4));
    assert_eq!(shown("abc", usize::MAX), ("abc".to_owned(), 4));
}

#[test]
fn long_line_is_cut_on_both_sides() {
    let line: String = (0..200).map(|i| char::from(b'a' + (i % 26) as u8)).collect();
    let (text, column) = shown(&line, 100);
    assert_eq!(text, format!("...{}...", &line[59..140]));
    assert_eq!(text.chars().count(), 87);
    assert_eq!(column, 44);
    assert_eq!(text.chars().nth(column - 1), line.chars().nth(99));
}

#[test]
fn long_line_is_cut_behind_an_early_column() {
    let line = "x".repeat(100);
    assert_eq!(shown(&line, 1), (format!("{}...", "x".repeat(41)), 1));
    assert_eq!(shown(&line, 41), (format!("{}...", "x".repeat(81)), 41));
    assert_eq!(shown(&line, 42), (format!("...{}...", "x".repeat(81)), 44));
}

#[test]
fn long_line_is_cut_before_a_late_column() {
    let line = "x".repeat(100);
    assert_eq!(shown(&line, 100), (format!("...{}", "x".repeat(41)), 44));
    assert_eq!(shown(&line, 101), (format!("...{}", "x".repeat(40)), 44));
    assert_eq!(shown(&line, 60), (format!("...{}", "x".repeat(81)), 44));
    assert_eq!(shown(&line, 59), (format!("...{}...", "x".repeat(81)), 44));
}

#[test]
fn columns_count_characters() {
    let line = "\u{e9}".repeat(100);
    let (text, column) = shown(&line, 50);
    assert_eq!(text, format!("...{}...", "\u{e9}".repeat(81)));
    assert_eq!(column, 44);
}

#[test]
fn chars_of_lists_the_characters() {
    assert_eq!(chars_of("a\u{e9}\u{3000}\n"), vec!['a', '\u{e9}', '\u{3000}', '\n']);
    assert_eq!(chars_of(""), Vec::<char>::new());
}

#[test]
fn line_of_counts_lines_from_zero() {
    let text = "ab\ncd\r\n\nef";
    assert_eq!(line_of(text, 0), Some("ab"));
    assert_eq!(line_of(text, 1), Some("cd"));
    assert_eq!(line_of(text, 2), Some(""));
    assert_eq!(line_of(text, 3), Some("ef"));
    assert_eq!(line_of(text, 4), None);
    assert_eq!(line_of(text, 99), None);
}

#[test]
fn line_of_knows_no_line_behind_the_last_line_feed() {
    assert_eq!(line_of("ab\n", 0), Some("ab"));
    assert_eq!(line_of("ab\n", 1), None);
    assert_eq!(line_of("", 0), None);
    assert_eq!(line_of("\n", 0), Some(""));
    assert_eq!(line_of("a\r", 0), Some("a\r"));
    assert_eq!(line_of("\u{e9}\n\u{3000}x", 1), Some("\u{3000}x"));
}

#[test]
fn message_shows_the_line_and_the_one_before() {
    let text = "{\n  \"a\": 1,\n  \"b\": tru\n}";
    assert_eq!(
        describe_parse_error(text, "bad", Some((3, 10)), Some("  \"b\": tru")),
        "bad\n\nINPUT:\n     |  \"a\": 1,\n   3 |  \"b\": tru\n     |         ^ error"
    );
}

#[test]
fn message_for_the_first_line_shows_no_line_before() {
    assert_eq!(
        describe_parse_error("[1, 2", "bad", Some((1, 6)), Some("[1, 2")),
        "bad\n\nINPUT:\n   1 |[1, 2\n     |     ^ error"
    );
}

#[test]
fn message_without_place_takes_the_first_line_and_column() {
    assert_eq!(
        describe_parse_error("ab\ncd", "bad", None, None),
        "bad\n\nINPUT:\n   1 |\n     |^ error"
    );
    assert_eq!(
        describe_parse_error("ab\ncd", "bad", None, Some("ab")),
        "bad\n\nINPUT:\n   1 |ab\n     |^ error"
    );
}

#[test]
fn message_numbers_are_right_aligned_in_four_columns() {
    let text = "x\n".repeat(12345);
    assert_eq!(
        describe_parse_error(&text, "bad", Some((10, 1)), Some("x")),
        "bad\n\nINPUT:\n     |x\n  10 |x\n     |^ error"
    );
    assert_eq!(
        describe_parse_error(&text, "bad", Some((1000, 2)), Some("x")),
        "bad\n\nINPUT:\n     |x\n1000 |x\n     | ^ error"
    );
    assert_eq!(
        describe_parse_error(&text, "bad", Some((12345, 1)), Some("x")),
        "bad\n\nINPUT:\n     |x\n12345 |x\n     |^ error"
    );
    assert_eq!(
        describe_parse_error(&text, "bad", Some((20000, 1)), Some("")),
        "bad\n\nINPUT:\n20000 |\n     |^ error"
    );
}

#[test]
fn message_cuts_long_lines() {
    let line = "y".repeat(100);
    let text = format!("{}\n{}", "x".repeat(100), line);
    assert_eq!(
        describe_parse_error(&text, "bad", Some((2, 100)), Some(&line)),
        format!(
            "bad\n\nINPUT:\n     |...{}\n   2 |...{}\n     |{}^ error",
            "x".repeat(41),
            "y".repeat(41),
            " ".repeat(43)
        )
    );
}
