use jsonc_fmt::{format_text, FormatError};

fn format(text: &str) -> String {
    String::from_utf8(format_text(text, false).expect("bug")).expect("bug")
}

fn format_stripped(text: &str) -> String {
    String::from_utf8(format_text(text, true).expect("bug")).expect("bug")
}

#[test]
fn compact_array_stays_on_one_line() {
    assert_eq!(format("[1, 2, 3]"), "[1, 2, 3]\n");
}

#[test]
fn line_feed_in_object_forces_several_lines() {
    assert_eq!(
        format("{\n  \"a\": 1,\n  \"b\": 2\n}"),
        "{\n  \"a\": 1,\n  \"b\": 2\n}\n"
    );
}

#[test]
fn trailing_comment_stays_attached_and_forces_several_lines() {
    assert_eq!(
        format("{\"key\": \"value\" // c\n}"),
        "{\n  \"key\": \"value\" // c\n}\n"
    );
}

#[test]
fn three_blank_lines_collapse_to_one() {
    assert_eq!(
        format("{\n  \"a\": 1,\n\n\n\n  \"b\": 2\n}"),
        "{\n  \"a\": 1,\n\n  \"b\": 2\n}\n"
    );
}

#[test]
fn stripped_comment_is_not_written() {
    let out = format_stripped("{\n  // drop me\n  \"a\": 1\n}");
    assert!(!out.contains("drop me"));
    assert!(!out.contains("//"));
    assert_eq!(out, "{\n\n  \"a\": 1\n}\n");
}

#[test]
fn stripped_comment_on_one_line_leaves_one_line() {
    assert_eq!(format_stripped("[1, /* gone */ 2]"), "[1, 2]\n");
    assert_eq!(format("[1, /* kept */ 2]"), "[\n  1, /* kept */\n  2\n]\n");
}

#[test]
fn empty_containers_with_inner_space() {
    assert_eq!(format("[ ]"), "[]\n");
    assert_eq!(format("{ }"), "{}\n");
}

#[test]
fn formatting_twice_changes_nothing() {
    let inputs = [
        "[1, 2, 3]",
        "{\n  \"a\": 1,\n  \"b\": 2\n}",
        "{\"key\": \"value\" // c\n}",
        "// Leading comment\n{\n  \"key\": [1, 2, {\"x\": null}]\n}",
        "{\n  /* This is a\n     multi-line comment */\n  \"key\": \"value\"\n}",
        "[\n\n\n1,\n\n\n// x\n\n2 /* y */ , /* z */ 3\n]",
        "{\n\n\n  \"key\"   :    \"value\"   ,\n\n\n  \"another\"  :   42\n\n\n}",
        "[ // c\n]",
    ];
    for input in inputs {
        let once = format(input);
        assert_eq!(format(&once), once);
        let stripped = format_stripped(input);
        assert_eq!(format_stripped(&stripped), stripped);
    }
}

fn occurrences(text: &str, part: &str) -> usize {
    text.matches(part).count()
}

#[test]
fn every_comment_is_written_once() {
    let input = "// one\n{\n  \"a\": 1, // two\n  /* three */\n  \"b\": [ /* four */ ] // five\n}\n// six";
    let out = format(input);
    for comment in ["// one", "// two", "/* three */", "/* four */", "// five", "// six"] {
        assert_eq!(occurrences(input, comment), 1);
        assert_eq!(occurrences(&out, comment), 1);
    }
    assert_eq!(occurrences(&out, "//") + occurrences(&out, "/*"), 6);
    let stripped = format_stripped(input);
    assert_eq!(occurrences(&stripped, "//") + occurrences(&stripped, "/*"), 0);
}

#[test]
fn equal_comments_are_written_as_often_as_given() {
    let out = format("[\n  1, // same\n  2, // same\n  3 // same\n]");
    assert_eq!(occurrences(&out, "// same"), 3);
    assert_eq!(out, "[\n  1, // same\n  2, // same\n  3 // same\n]\n");
}

#[test]
fn scalars_are_copied_as_they_stand() {
    let input = "[ 1.50e+10 , -0 , \"a\\u0041\\n\\\"b\" , true , false , null , 1E5 , \"\u{e9}\u{3000}\" ]";
    let out = format(input);
    assert_eq!(
        out,
        "[1.50e+10, -0, \"a\\u0041\\n\\\"b\", true, false, null, 1E5, \"\u{e9}\u{3000}\"]\n"
    );
}

#[test]
fn layout_is_decided_for_each_container() {
    assert_eq!(
        format("[[1,\n2], [3, 4], {\"a\": [5,\n6], \"b\": [7]}]"),
        "[\n  [\n    1,\n    2\n  ],\n  [3, 4],\n  {\n    \"a\": [\n      5,\n      6\n    ],\n    \"b\": [7]\n  }\n]\n"
    );
    assert_eq!(
        format("{\"a\": [1, /* c */ 2], \"b\": [3, 4]}"),
        "{\n  \"a\": [\n    1, /* c */\n    2\n  ],\n  \"b\": [3, 4]\n}\n"
    );
}

#[test]
fn indentation_is_two_spaces_for_each_level() {
    let out = format("[\n[\n[\n[\n1\n]\n]\n]\n]");
    assert_eq!(
        out,
        "[\n  [\n    [\n      [\n        1\n      ]\n    ]\n  ]\n]\n"
    );
}

#[test]
fn dangling_comment_in_empty_container() {
    assert_eq!(format("[ // c\n]"), "[ // c\n]\n");
    assert_eq!(format("[\n  // c\n]"), "[\n  // c\n]\n");
    assert_eq!(format("{ /* c */ }"), "{ /* c */\n}\n");
    assert_eq!(format("[1 /* last */]"), "[\n  1 /* last */\n]\n");
}

#[test]
fn symbols_inside_comments_are_passed_over() {
    assert_eq!(
        format("[1, /* in , ] */ 2]"),
        "[\n  1, /* in , ] */\n  2\n]\n"
    );
    assert_eq!(
        format("{\"a\" /* : } */ : 1 /* , */ , \"b\": 2}"),
        "{\n  \"a\" /* : } */\n  : 1 /* , */\n  ,\n  \"b\": 2\n}\n"
    );
    assert_eq!(
        format("[1 // a,\n, 2]"),
        "[\n  1 // a,\n  ,\n  2\n]\n"
    );
}

#[test]
fn comment_before_member_value_moves_the_value_to_its_own_line() {
    assert_eq!(
        format("{\"a\": // c\n 1}"),
        "{\n  \"a\": // c\n  1\n}\n"
    );
    assert_eq!(
        format("{\"a\": /* c */ 1}"),
        "{\n  \"a\": /* c */\n  1\n}\n"
    );
}

#[test]
fn no_blank_line_before_the_first_token() {
    assert_eq!(format("\n\n\n[1]"), "[1]\n");
    assert_eq!(format("\n\n\n// c\n[1]"), "// c\n[1]\n");
    assert_eq!(format("\n\n// c\n\n\n[\n1]"), "// c\n\n[\n  1\n]\n");
}

#[test]
fn comments_behind_the_top_level_value() {
    assert_eq!(format("1 // c"), "1 // c\n");
    assert_eq!(format("1\n// c"), "1\n// c\n");
    assert_eq!(format("[1]\n\n\n/* a */ /* b */\n"), "[1]\n\n/* a */\n/* b */\n");
    assert_eq!(format("[1] /* a */ /* b */\n"), "[1] /* a */ /* b */\n");
}

#[test]
fn trailing_comma_is_dropped() {
    assert_eq!(format("[1, 2, ]"), "[1, 2]\n");
    assert_eq!(format("{\"a\": 1,}"), "{\"a\": 1}\n");
    assert_eq!(format("[\n  1,\n  2,\n]"), "[\n  1,\n  2\n]\n");
}

#[test]
fn block_comment_moves_right_with_its_lines() {
    assert_eq!(
        format("{\n/* a\n   b\n*/\n\"k\": 1}"),
        "{\n  /* a\n     b\n  */\n  \"k\": 1\n}\n"
    );
}

#[test]
fn block_comment_moves_left_as_far_as_its_lines_allow() {
    assert_eq!(
        format("[\n        /* a\n           b\n  c\n        */\n1]"),
        "[\n  /* a\n     b\nc\n  */\n  1\n]\n"
    );
}

#[test]
fn block_comment_at_the_start_of_the_text() {
    assert_eq!(format("/* a\n   b */\n[\n1]"), "/* a\n   b */\n[\n  1\n]\n");
}

#[test]
fn comment_lines_lose_trailing_white_space() {
    assert_eq!(format("[\n1 // c \t\u{a0}\u{3000}\n]"), "[\n  1 // c\n]\n");
    assert_eq!(
        format("[\n/* a  \r\n   b\u{2003}\n */\n1]"),
        "[\n  /* a\n     b\n   */\n  1\n]\n"
    );
}

#[test]
fn refused_text_gives_a_message() {
    assert_eq!(
        format_text("[1, 2", false),
        Err(FormatError::Parse(
            "unexpected EOS while parsing Array at byte position 5\n\nINPUT:\n   1 |[1, 2\n     |     ^ error"
                .to_owned()
        ))
    );
    assert_eq!(
        format_text("{\n  \"a\": 1,\n  \"b\": tru\n}", true),
        Err(FormatError::Parse(
            "unexpected char while parsing Boolean at byte position 22\n\nINPUT:\n     |  \"a\": 1,\n   3 |  \"b\": tru\n     |          ^ error"
                .to_owned()
        ))
    );
}

#[test]
fn comment_before_a_scalar_at_the_top_is_out_of_reach() {
    assert_eq!(format_text("// c\n1", false), Err(FormatError::Inconsistent));
    assert_eq!(format_text("/* c */ true", false), Err(FormatError::Inconsistent));
    assert_eq!(format_text("// c\n1", true), Ok(b"1\n".to_vec()));
}

#[test]
fn deep_nesting_is_printed_level_by_level() {
    let depth = 100;
    let text = format!("{}1{}", "[".repeat(depth), "]".repeat(depth));
    assert_eq!(format(&text), format!("{text}\n"));
    let broken = format!("{}\n1{}", "[".repeat(depth), "]".repeat(depth));
    let out = format(&broken);
    assert_eq!(out.lines().count(), 2 * depth + 1);
    assert_eq!(out.lines().nth(depth), Some(format!("{}1", "  ".repeat(depth)).as_str()));
    assert_eq!(format(&out), out);
}

#[test]
fn many_comments_are_drained_in_one_pass() {
    let count = 50_000;
    let mut text = String::from("[\n");
    for i in 0..count {
        text.push_str(&format!("  // before {i}\n  {i}, /* on the line */   // behind\n"));
    }
    text.push_str("  null\n]");
    let out = format(&text);
    let mut expected = String::from("[\n");
    for i in 0..count {
        expected.push_str(&format!("  // before {i}\n  {i}, /* on the line */ // behind\n"));
    }
    expected.push_str("  null\n]\n");
    assert_eq!(out, expected);
}
