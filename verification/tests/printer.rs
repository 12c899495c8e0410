use jsonc_fmt::document::{Document, ValueEntry, ValueKind};
use jsonc_fmt::formatter::{Formatter, Inconsistent};
use jsonc_fmt::parse::format_document;

fn written(formatter: &Formatter) -> String {
    String::from_utf8(formatter.output().clone()).expect("bug")
}

fn entry(kind: ValueKind, position: usize, len: usize) -> ValueEntry {
    ValueEntry { kind, position, len }
}

fn print(text: &str, values: Vec<ValueEntry>, comments: Vec<std::ops::Range<usize>>) -> Result<String, Inconsistent> {
    format_document(text, &Document { values }, comments).map(|out| String::from_utf8(out).expect("bug"))
}

#[test]
fn new_printer_stands_at_the_start() {
    let formatter = Formatter::new("[1] // c", vec![4..8]);
    assert_eq!(formatter.text_position(), 0);
    assert_eq!(formatter.pending_comments(), 1);
    assert_eq!(written(&formatter), "");
    assert_eq!(formatter.into_output(), Vec::<u8>::new());
}

#[test]
fn contains_comment_looks_at_starts_before_the_position() {
    let formatter = Formatter::new("[ /* a */ 1 ]", vec![2..9]);
    assert!(!formatter.contains_comment(0));
    assert!(!formatter.contains_comment(2));
    assert!(formatter.contains_comment(3));
    assert!(formatter.contains_comment(13));
    assert!(!Formatter::new("[1]", vec![]).contains_comment(3));
}

#[test]
fn find_symbol_passes_over_comments() {
    let formatter = Formatter::new("[ /* , */ , 1 ]", vec![2..9]);
    assert_eq!(formatter.find_symbol(b','), 10);
    assert_eq!(formatter.find_symbol(b'['), 0);
    assert_eq!(formatter.find_symbol(b']'), 14);
    assert_eq!(formatter.find_symbol(b'{'), 15);
    let last = Formatter::new("[1 /*,*/]", vec![3..8]);
    assert_eq!(last.find_symbol(b','), 9);
    assert_eq!(last.find_symbol(b'/'), 9);
}

#[test]
fn format_symbol_writes_the_symbol_and_moves_behind_it() {
    let mut formatter = Formatter::new("  [ 1 , 2 ]", vec![]);
    formatter.format_symbol(b'[');
    assert_eq!(written(&formatter), "[");
    assert_eq!(formatter.text_position(), 3);
    formatter.format_symbol(b',');
    assert_eq!(written(&formatter), "[, ");
    assert_eq!(formatter.text_position(), 7);
    formatter.format_symbol(b']');
    assert_eq!(written(&formatter), "[, ]");
    assert_eq!(formatter.text_position(), 11);
}

#[test]
fn format_symbol_writes_the_comments_before_the_symbol() {
    let mut formatter = Formatter::new("[ /* , */ , 1]", vec![2..9]);
    formatter.format_symbol(b'[');
    formatter.format_symbol(b',');
    assert_eq!(written(&formatter), "[ /* , */\n, ");
    assert_eq!(formatter.text_position(), 11);
    assert_eq!(formatter.pending_comments(), 0);
}

#[test]
fn format_symbol_at_takes_the_offset_it_is_given() {
    let mut formatter = Formatter::new("[,,]", vec![]);
    formatter.format_symbol_at(b'[', 0);
    formatter.format_symbol_at(b',', 2);
    assert_eq!(written(&formatter), "[, ");
    assert_eq!(formatter.text_position(), 3);
}

#[test]
fn blank_line_writes_one_empty_line_for_many() {
    let mut formatter = Formatter::new("[\n\n\n\n1]", vec![]);
    formatter.format_symbol(b'[');
    formatter.blank_line(5);
    assert_eq!(written(&formatter), "[\n");
    assert_eq!(formatter.text_position(), 3);
}

#[test]
fn blank_line_writes_nothing_for_one_line_feed() {
    let mut formatter = Formatter::new("[ \n 1]", vec![]);
    formatter.format_symbol(b'[');
    formatter.blank_line(4);
    assert_eq!(written(&formatter), "[");
    assert_eq!(formatter.text_position(), 3);
    formatter.blank_line(4);
    assert_eq!(formatter.text_position(), 3);
    formatter.blank_line(3);
    assert_eq!(written(&formatter), "[");
}

#[test]
fn indent_writes_nothing_at_the_start_of_the_text() {
    let mut formatter = Formatter::new("\n\n\n[1]", vec![]);
    formatter.indent(3);
    assert_eq!(written(&formatter), "");
    assert_eq!(formatter.text_position(), 0);
}

#[test]
fn indent_starts_a_line_behind_an_empty_one() {
    let mut formatter = Formatter::new("[\n\n\n1]", vec![]);
    formatter.format_symbol(b'[');
    formatter.indent(4);
    assert_eq!(written(&formatter), "[\n\n");
    let mut close = Formatter::new("[1]", vec![]);
    close.format_symbol(b'[');
    close.indent(1);
    assert_eq!(written(&close), "[\n");
}

#[test]
fn trailing_comments_stop_at_the_end_of_the_line() {
    let text = "[ /* a */ // b\n /* c */ 1]";
    let mut formatter = Formatter::new(text, vec![2..9, 10..14, 16..23]);
    formatter.format_symbol(b'[');
    formatter.format_trailing_comment(24);
    assert_eq!(written(&formatter), "[ /* a */ // b");
    assert_eq!(formatter.text_position(), 14);
    assert_eq!(formatter.pending_comments(), 1);
    formatter.format_trailing_comment(24);
    assert_eq!(written(&formatter), "[ /* a */ // b");
}

#[test]
fn trailing_comments_are_not_written_at_the_start_of_the_text() {
    let mut formatter = Formatter::new("/* a */ [1]", vec![0..7]);
    formatter.format_trailing_comment(8);
    assert_eq!(written(&formatter), "");
    assert_eq!(formatter.pending_comments(), 1);
}

#[test]
fn leading_comments_take_lines_of_their_own() {
    let text = "[\n// a\n\n\n/* b */ /* c */\n1]";
    let mut formatter = Formatter::new(text, vec![2..6, 9..16, 17..24]);
    formatter.format_symbol(b'[');
    formatter.format_leading_comment(17);
    assert_eq!(written(&formatter), "[\n// a\n\n/* b */");
    assert_eq!(formatter.text_position(), 16);
    assert_eq!(formatter.pending_comments(), 1);
}

#[test]
fn leading_comment_at_the_start_of_the_text_has_no_line_break() {
    let mut formatter = Formatter::new("// a\n[1]", vec![0..4]);
    formatter.format_leading_comment(5);
    assert_eq!(written(&formatter), "// a");
    assert_eq!(formatter.text_position(), 4);
}

#[test]
fn format_comments_writes_trailing_before_leading() {
    let text = "[ // a\n // b\n 1]";
    let mut formatter = Formatter::new(text, vec![2..6, 8..12]);
    formatter.format_symbol(b'[');
    formatter.format_comments(14);
    assert_eq!(written(&formatter), "[ // a\n// b");
    assert_eq!(formatter.pending_comments(), 0);
    assert_eq!(formatter.text_position(), 12);
}

#[test]
fn oracle_looks_for_line_feeds_and_comments() {
    let text = "[[1,\n2], [3 /* c */], [4]]";
    let formatter = Formatter::new(text, vec![12..19]);
    let first = entry(ValueKind::Array, 1, 6);
    let second = entry(ValueKind::Array, 9, 11);
    let third = entry(ValueKind::Array, 22, 3);
    assert!(formatter.is_newline_included(first));
    assert!(!formatter.is_comment_included(first));
    assert!(formatter.is_newline_needed(first));
    assert!(!formatter.is_newline_included(second));
    assert!(formatter.is_comment_included(second));
    assert!(formatter.is_newline_needed(second));
    assert!(!formatter.is_newline_needed(third));
    assert!(formatter.is_newline_needed(entry(ValueKind::Array, 0, 26)));
}

#[test]
fn document_by_hand_prints_like_a_parsed_one() {
    let text = "{ \"a\" : [ 1 , true ] }";
    let values = vec![
        entry(ValueKind::Object, 0, 22),
        entry(ValueKind::String, 2, 3),
        entry(ValueKind::Array, 8, 12),
        entry(ValueKind::Integer, 10, 1),
        entry(ValueKind::Boolean, 14, 4),
    ];
    assert_eq!(print(text, values, vec![]), Ok("{\"a\": [1, true]}\n".to_owned()));
}

#[test]
fn drivers_return_the_index_of_the_next_value() {
    let text = "[[1, 2], 3]";
    let values = vec![
        entry(ValueKind::Array, 0, 11),
        entry(ValueKind::Array, 1, 6),
        entry(ValueKind::Integer, 2, 1),
        entry(ValueKind::Integer, 5, 1),
        entry(ValueKind::Integer, 9, 1),
    ];
    let document = Document { values };
    let mut formatter = Formatter::new(text, vec![]);
    formatter.format_symbol(b'[');
    assert_eq!(formatter.format_value(&document, 1), Ok(4));
    assert_eq!(written(&formatter), "[[1, 2]");
    assert_eq!(formatter.text_position(), 7);
    formatter.format_symbol(b',');
    assert_eq!(formatter.format_value_content(&document, 4), Ok(5));
    assert_eq!(written(&formatter), "[[1, 2], 3");
    assert_eq!(formatter.format_value(&document, 5), Err(Inconsistent));
    let mut array = Formatter::new(text, vec![]);
    assert_eq!(array.format_array(&document, 0), Ok(5));
    assert_eq!(written(&array), "[[1, 2], 3]");
}

#[test]
fn member_value_follows_a_space_or_its_comments() {
    let text = "{\"a\": 1, \"b\": /* c */ 2}";
    let values = vec![
        entry(ValueKind::Object, 0, 24),
        entry(ValueKind::String, 1, 3),
        entry(ValueKind::Integer, 6, 1),
        entry(ValueKind::String, 9, 3),
        entry(ValueKind::Integer, 22, 1),
    ];
    let document = Document { values };
    let mut formatter = Formatter::new(text, vec![14..21]);
    formatter.format_symbol(b'{');
    assert_eq!(formatter.format_value(&document, 1), Ok(2));
    formatter.format_symbol(b':');
    assert_eq!(formatter.format_member_value(&document, 2), Ok(3));
    assert_eq!(written(&formatter), "{\"a\": 1");
    formatter.format_symbol(b',');
    assert_eq!(formatter.format_value(&document, 3), Ok(4));
    formatter.format_symbol(b':');
    assert_eq!(formatter.format_member_value(&document, 4), Ok(5));
    assert_eq!(written(&formatter), "{\"a\": 1, \"b\": /* c */\n2");
    let mut object = Formatter::new(text, vec![14..21]);
    assert_eq!(object.format_object(&document, 0), Ok(5));
    assert_eq!(written(&object), "{\n  \"a\": 1,\n  \"b\": /* c */\n  2\n}");
}

#[test]
fn missing_symbol_is_inconsistent() {
    let values = vec![entry(ValueKind::Array, 0, 3), entry(ValueKind::Integer, 1, 1)];
    assert_eq!(print("(1)", values.clone(), vec![]), Err(Inconsistent));
    assert_eq!(print("[1)", values.clone(), vec![]), Err(Inconsistent));
    assert_eq!(print("[1]", values, vec![]), Ok("[1]\n".to_owned()));
    let pair = vec![
        entry(ValueKind::Array, 0, 5),
        entry(ValueKind::Integer, 1, 1),
        entry(ValueKind::Integer, 3, 1),
    ];
    assert_eq!(print("[1 2]", pair.clone(), vec![]), Err(Inconsistent));
    assert_eq!(print("[1,2]", pair, vec![]), Ok("[1, 2]\n".to_owned()));
    let member = vec![
        entry(ValueKind::Object, 0, 7),
        entry(ValueKind::String, 1, 3),
        entry(ValueKind::Integer, 5, 1),
    ];
    assert_eq!(print("{\"a\" 1}", member.clone(), vec![]), Err(Inconsistent));
    assert_eq!(print("{\"a\":1}", member, vec![]), Ok("{\"a\": 1}\n".to_owned()));
}

#[test]
fn symbol_inside_a_pending_comment_does_not_count() {
    let values = vec![entry(ValueKind::Array, 0, 9), entry(ValueKind::Integer, 1, 1)];
    assert_eq!(print("[1 /*]*/ ", values.clone(), vec![3..8]), Err(Inconsistent));
    assert_eq!(print("[1 /*]*/]", values, vec![3..8]), Ok("[\n  1 /*]*/\n]\n".to_owned()));
}

#[test]
fn value_outside_the_text_is_inconsistent() {
    assert_eq!(print("1", vec![entry(ValueKind::Integer, 0, 2)], vec![]), Err(Inconsistent));
    assert_eq!(print("1", vec![entry(ValueKind::Integer, 2, 0)], vec![]), Err(Inconsistent));
    assert_eq!(
        print("1", vec![entry(ValueKind::Integer, usize::MAX, 2)], vec![]),
        Err(Inconsistent)
    );
    assert_eq!(print("1", vec![entry(ValueKind::Integer, 0, 1)], vec![]), Ok("1\n".to_owned()));
}

#[test]
fn document_without_values_is_inconsistent() {
    assert_eq!(print("1", vec![], vec![]), Err(Inconsistent));
}

#[test]
fn value_outside_the_top_level_value_is_inconsistent() {
    let values = vec![entry(ValueKind::Integer, 0, 1), entry(ValueKind::Integer, 2, 1)];
    assert_eq!(print("1 2", values, vec![]), Err(Inconsistent));
}

#[test]
fn name_without_value_is_inconsistent() {
    let values = vec![entry(ValueKind::Object, 0, 5), entry(ValueKind::String, 1, 3)];
    assert_eq!(print("{\"a\"}", values, vec![]), Err(Inconsistent));
}

#[test]
fn misplaced_comments_are_inconsistent() {
    let values = vec![entry(ValueKind::Array, 0, 3), entry(ValueKind::Integer, 1, 1)];
    assert_eq!(print("[1]", values.clone(), vec![2..9]), Err(Inconsistent));
    assert_eq!(print("[1]", values.clone(), vec![2..2]), Err(Inconsistent));
    assert_eq!(print("[1]  ", values.clone(), vec![3..5, 4..5]), Err(Inconsistent));
    let text = "[\n1 /* c */]";
    let long = vec![entry(ValueKind::Array, 0, 12), entry(ValueKind::Integer, 2, 9)];
    assert_eq!(print(text, long, vec![4..11]), Err(Inconsistent));
    let short = vec![entry(ValueKind::Array, 0, 12), entry(ValueKind::Integer, 2, 1)];
    assert_eq!(print(text, short, vec![4..11]), Ok("[\n  1 /* c */\n]\n".to_owned()));
}

#[test]
fn comment_across_a_value_start_is_inconsistent() {
    let values = vec![entry(ValueKind::Array, 0, 11), entry(ValueKind::Integer, 9, 1)];
    assert_eq!(print("[\n/* c */1]", values.clone(), vec![2..10]), Err(Inconsistent));
    assert_eq!(print("[\n/* c */1]", values, vec![2..9]), Ok("[\n  /* c */\n  1\n]\n".to_owned()));
}

#[test]
fn printer_is_well_formed_with_well_placed_comments() {
    assert!(Formatter::new("[1] // c", vec![4..8]).is_well_formed());
    assert!(Formatter::new("[1] // c", vec![]).is_well_formed());
    assert!(!Formatter::new("[1] // c", vec![4..9]).is_well_formed());
    assert!(!Formatter::new("[1] // c", vec![4..6, 5..8]).is_well_formed());
    assert!(!Formatter::new("[1] // c", vec![4..4]).is_well_formed());
}
