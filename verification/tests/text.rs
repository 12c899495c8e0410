use jsonc_fmt::comment::{push_block_text, push_leading_text, push_trailing_text};
use jsonc_fmt::ledger::CommentRange;
use jsonc_fmt::text::{
    column_at, find_byte, has_line_feed, push_range, push_spaces, split_line, trim_end, trim_start,
    unindent,
};

#[test]
fn find_byte_gives_the_first_or_the_end() {
    let text = b"a,b,c";
    assert_eq!(find_byte(text, b',', 0, 5), 1);
    assert_eq!(find_byte(text, b',', 2, 5), 3);
    assert_eq!(find_byte(text, b',', 4, 5), 5);
    assert_eq!(find_byte(text, b',', 0, 1), 1);
    assert_eq!(find_byte(text, b',', 1, 1), 1);
    assert!(has_line_feed(b"a\nb", 0, 3));
    assert!(!has_line_feed(b"a\nb", 2, 3));
    assert!(!has_line_feed(b"a\nb", 0, 1));
}

#[test]
fn trim_end_drops_every_kind_of_white_space() {
    assert_eq!(trim_end(b"ab \t\r\n", 0, 6), 2);
    assert_eq!(trim_end(b"ab\x0b\x0c", 0, 4), 2);
    assert_eq!(trim_end("ab\u{85}\u{a0}".as_bytes(), 0, 6), 2);
    assert_eq!(trim_end("ab\u{1680}\u{2000}\u{200a}".as_bytes(), 0, 11), 2);
    assert_eq!(trim_end("ab\u{2028}\u{2029}\u{202f}\u{205f}\u{3000}".as_bytes(), 0, 17), 2);
    assert_eq!(trim_end(b"   ", 0, 3), 0);
    assert_eq!(trim_end(b"   ", 1, 3), 1);
    assert_eq!(trim_end(b"ab", 0, 2), 2);
}

#[test]
fn trim_end_keeps_what_is_no_white_space() {
    assert_eq!(trim_end("ab\u{200b}".as_bytes(), 0, 5), 5);
    assert_eq!(trim_end("ab\u{e9}".as_bytes(), 0, 4), 4);
    assert_eq!(trim_end("\u{a0}".as_bytes(), 1, 2), 2);
    assert_eq!(trim_end("ab\u{2060}".as_bytes(), 0, 5), 5);
}

#[test]
fn trim_start_drops_leading_white_space() {
    assert_eq!(trim_start(b" \t\nab ", 0, 6), 3);
    assert_eq!(trim_start("\u{3000}\u{a0}ab".as_bytes(), 0, 7), 5);
    assert_eq!(trim_start(b"   ", 0, 3), 3);
    assert_eq!(trim_start(b"ab", 0, 2), 0);
}

#[test]
fn column_counts_the_bytes_of_the_line_before() {
    let text = b"ab\n  cd\n";
    assert_eq!(column_at(text, 0), 0);
    assert_eq!(column_at(text, 2), 2);
    assert_eq!(column_at(text, 3), 0);
    assert_eq!(column_at(text, 5), 2);
    assert_eq!(column_at(text, 7), 4);
    assert_eq!(column_at(text, 8), 0);
}

#[test]
fn unindent_drops_spaces_up_to_the_limit() {
    assert_eq!(unindent(b"    ab", 0, 6, 2), 2);
    assert_eq!(unindent(b"    ab", 0, 6, 9), 4);
    assert_eq!(unindent(b" \t  ab", 0, 6, 9), 1);
    assert_eq!(unindent(b"    ab", 0, 6, 0), 0);
    assert_eq!(unindent(b"    ", 0, 4, 9), 4);
}

#[test]
fn split_line_drops_the_line_ending() {
    assert_eq!(split_line(b"ab\ncd", 0, 5), (2, 3));
    assert_eq!(split_line(b"ab\r\ncd", 0, 6), (2, 4));
    assert_eq!(split_line(b"ab\r", 0, 3), (3, 3));
    assert_eq!(split_line(b"\r\n", 0, 2), (0, 2));
    assert_eq!(split_line(b"\ncd", 0, 3), (0, 1));
    assert_eq!(split_line(b"ab\ncd", 3, 5), (5, 5));
}

#[test]
fn push_range_and_spaces_append() {
    let mut out = b"x".to_vec();
    push_range(&mut out, b"abcdef", 2, 4);
    push_spaces(&mut out, 3);
    push_range(&mut out, b"abcdef", 6, 6);
    push_spaces(&mut out, 0);
    assert_eq!(out, b"xcd   ".to_vec());
}

#[test]
fn trailing_text_is_the_comment_without_trailing_space() {
    let text = b"1 // note \t\n";
    let mut out = Vec::new();
    push_trailing_text(&mut out, text, CommentRange { start: 2, end: 11 });
    assert_eq!(out, b"// note".to_vec());
}

#[test]
fn block_text_pads_further_lines_when_moving_right() {
    let text = b"/* a\n * b  \n */";
    let mut out = Vec::new();
    push_block_text(&mut out, text, CommentRange { start: 0, end: 15 }, 0, 4);
    assert_eq!(out, b"/* a\n     * b\n     */".to_vec());
}

#[test]
fn block_text_strips_further_lines_when_moving_left() {
    let text = b"      /* a\n       * b\n   c\n\td\n       */";
    let mut out = Vec::new();
    push_block_text(&mut out, text, CommentRange { start: 6, end: 39 }, 6, 2);
    assert_eq!(out, b"/* a\n   * b\nc\n\td\n   */".to_vec());
}

#[test]
fn block_text_keeps_its_lines_when_it_does_not_move() {
    let text = b"  /* a\r\n     b */";
    let mut out = Vec::new();
    push_block_text(&mut out, text, CommentRange { start: 2, end: 17 }, 2, 2);
    assert_eq!(out, b"/* a\n     b */".to_vec());
}

#[test]
fn leading_text_measures_the_column_of_a_block_comment() {
    let text = b"[\n    /* a\n       b */ 1]";
    let mut out = Vec::new();
    push_leading_text(&mut out, text, CommentRange { start: 6, end: 22 }, 2);
    assert_eq!(out, b"/* a\n     b */".to_vec());
    let mut line = Vec::new();
    push_leading_text(&mut line, b"    // a  \n", CommentRange { start: 4, end: 10 }, 8);
    assert_eq!(line, b"// a".to_vec());
}
