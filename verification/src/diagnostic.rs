//! Messages for texts that the parser refuses: the parser's own words,
//! followed by the line of the text at which it stopped, the line before
//! it, and a mark under the column.
//!
//! Lines are shown in part where they are long: up to forty characters on
//! either side of the column, with an ellipsis wherever something was left
//! out. Lines and columns count characters, not bytes.

use crate::text::{first_index, lemma_first_index_unique};
use vstd::prelude::*;
use vstd::string::{StrSliceExecFns, StringExecFns};

verus! {

/// The number of characters of a line that are shown at most, the ellipses
/// apart.
pub const MAX_ERROR_LINE_CHARS: usize = 80;

/// Three full stops.
pub open spec fn ellipsis() -> Seq<char> {
    seq!['.', '.', '.']
}

/// The index in a line of `len` characters that column `column_pos`
/// names. Columns count from one; a column beyond the line names its end.
pub open spec fn excerpt_position(len: int, column_pos: int) -> int {
    let index = if column_pos > 0 {
        column_pos - 1
    } else {
        0
    };
    if index < len {
        index
    } else {
        len
    }
}

/// The index at which the shown part of a line starts.
pub open spec fn excerpt_start(len: int, column_pos: int) -> int {
    let position = excerpt_position(len, column_pos);
    if position > MAX_ERROR_LINE_CHARS / 2 {
        position - MAX_ERROR_LINE_CHARS / 2
    } else {
        0
    }
}

/// The index at which the shown part of a line ends.
pub open spec fn excerpt_end(len: int, column_pos: int) -> int {
    let position = excerpt_position(len, column_pos);
    if position + MAX_ERROR_LINE_CHARS / 2 + 1 < len {
        position + MAX_ERROR_LINE_CHARS / 2 + 1
    } else {
        len
    }
}

/// The part of `line` that is shown around column `column_pos`, with an
/// ellipsis on each side on which characters were left out.
pub open spec fn excerpt(line: Seq<char>, column_pos: int) -> Seq<char> {
    let start = excerpt_start(line.len() as int, column_pos);
    let end = excerpt_end(line.len() as int, column_pos);
    (if start > 0 {
        ellipsis()
    } else {
        Seq::empty()
    }) + line.subrange(start, end) + (if end < line.len() {
        ellipsis()
    } else {
        Seq::empty()
    })
}

/// The column in the shown part that stands for column `column_pos` of a
/// line of `len` characters.
pub open spec fn excerpt_column(len: int, column_pos: int) -> int {
    excerpt_position(len, column_pos) - excerpt_start(len, column_pos) + 1 + if excerpt_start(
        len,
        column_pos,
    ) > 0 {
        3int
    } else {
        0int
    }
}

/// Shows the part of `line` around column `column_pos`: up to forty
/// characters before the column and forty behind it. Returns the shown
/// part and the column in it that stands for `column_pos`.
pub fn format_line_around_position(line: &str, column_pos: usize) -> (shown: (String, usize))
    ensures
        shown.0@ == excerpt(line@, column_pos as int),
        shown.1 == excerpt_column(line@.len() as int, column_pos as int),
{
    let len = line.unicode_len();
    let max_context = MAX_ERROR_LINE_CHARS / 2;
    let index = if column_pos > 0 {
        column_pos - 1
    } else {
        0
    };
    let error_pos = if index < len {
        index
    } else {
        len
    };
    let start_pos = if error_pos > max_context {
        error_pos - max_context
    } else {
        0
    };
    let end_pos = if len - error_pos > max_context + 1 {
        error_pos + max_context + 1
    } else {
        len
    };
    proof {
        reveal_strlit("...");
        reveal_strlit("");
        assert("..."@ == ellipsis());
        assert(""@ == Seq::<char>::empty());
    }
    let mut result = String::from_str(if start_pos > 0 {
        "..."
    } else {
        ""
    });
    let mut new_column_pos = error_pos - start_pos + 1;
    if start_pos > 0 {
        new_column_pos += 3;
    }
    result.append(line.substring_char(start_pos, end_pos));
    if end_pos < len {
        result.append("...");
    }
    proof {
        let text = line@;
        let start = excerpt_start(text.len() as int, column_pos as int);
        let end = excerpt_end(text.len() as int, column_pos as int);
        assert(start == start_pos);
        assert(end == end_pos);
        assert(result@ == excerpt(text, column_pos as int));
    }
    (result, new_column_pos)
}

/// Where line `index` of `s` starts, lines counted from zero, or a value
/// beyond the text where it has no such line.
pub open spec fn nth_line_start(s: Seq<char>, index: nat) -> int
    decreases index,
{
    if index == 0 {
        0
    } else {
        let previous = nth_line_start(s, (index - 1) as nat);
        let stop = first_index(s, '\n', previous, s.len() as int);
        if previous < s.len() && stop < s.len() {
            stop + 1
        } else {
            s.len() as int + 1
        }
    }
}

/// Line `index` of `s`, lines counted from zero, without the line feed
/// that ends it and without a carriage return before that line feed. A
/// text has no line behind its last line feed unless characters follow.
pub open spec fn nth_line(s: Seq<char>, index: nat) -> Option<Seq<char>> {
    let start = nth_line_start(s, index);
    if start >= s.len() {
        None
    } else {
        let stop = first_index(s, '\n', start, s.len() as int);
        let end = if stop < s.len() && start < stop && s[stop - 1] == '\r' {
            stop - 1
        } else {
            stop
        };
        Some(s.subrange(start, end))
    }
}

/// The characters of `text`.
pub fn chars_of(text: &str) -> (chars: Vec<char>)
    ensures
        chars@ == text@,
{
    let mut chars: Vec<char> = Vec::new();
    for c in iter: text.chars()
        invariant
            chars@ == iter.seq().subrange(0, iter.index() as int),
            iter.seq() == text@,
    {
        chars.push(c);
    }
    chars
}

/// Finds the first line feed of `chars[from..]`.
fn find_line_feed(chars: &Vec<char>, from: usize) -> (at: usize)
    requires
        from <= chars@.len(),
    ensures
        at == first_index(chars@, '\n', from as int, chars@.len() as int),
        from <= at <= chars@.len(),
{
    let mut at: usize = from;
    while at < chars.len() && chars[at] != '\n'
        invariant
            from <= at <= chars@.len(),
            forall|k: int| from <= k < at ==> chars@[k] != '\n',
        decreases chars@.len() - at,
    {
        at += 1;
    }
    proof {
        lemma_first_index_unique(chars@, '\n', from as int, chars@.len() as int, at as int);
    }
    at
}

/// Line `index` of `text`, lines counted from zero.
pub fn line_of(text: &str, index: usize) -> (line: Option<&str>)
    ensures
        match nth_line(text@, index as nat) {
            Some(s) => line is Some && line->0@ == s,
            None => line is None,
        },
{
    let chars = chars_of(text);
    let len = chars.len();
    let mut start: usize = 0;
    let mut done: usize = 0;
    while done < index
        invariant
            done <= index,
            chars@ == text@,
            len == chars@.len(),
            start <= len,
            start == nth_line_start(text@, done as nat),
        decreases index - done,
    {
        let stop = find_line_feed(&chars, start);
        if start >= len || stop >= len {
            proof {
                lemma_beyond(text@, (done + 1) as nat, index as nat);
            }
            return None;
        }
        start = stop + 1;
        done += 1;
    }
    if start >= len {
        return None;
    }
    let stop = find_line_feed(&chars, start);
    let end = if stop < len && start < stop && chars[stop - 1] == '\r' {
        stop - 1
    } else {
        stop
    };
    Some(text.substring_char(start, end))
}

/// A text without line `from` has no line behind it either.
proof fn lemma_beyond(s: Seq<char>, from: nat, index: nat)
    requires
        from <= index,
        nth_line_start(s, from) > s.len(),
    ensures
        nth_line_start(s, index) > s.len(),
    decreases index - from,
{
    if from < index {
        lemma_beyond(s, from, (index - 1) as nat);
    }
}

/// The digit `d` as text.
pub open spec fn digit_text(d: int) -> Seq<char> {
    if d == 0 {
        "0"@
    } else if d == 1 {
        "1"@
    } else if d == 2 {
        "2"@
    } else if d == 3 {
        "3"@
    } else if d == 4 {
        "4"@
    } else if d == 5 {
        "5"@
    } else if d == 6 {
        "6"@
    } else if d == 7 {
        "7"@
    } else if d == 8 {
        "8"@
    } else {
        "9"@
    }
}

/// The number `n` in decimal digits.
pub open spec fn decimal_text(n: nat) -> Seq<char>
    decreases n,
{
    if n < 10 {
        digit_text(n as int)
    } else {
        decimal_text(n / 10) + digit_text((n % 10) as int)
    }
}

/// The number of decimal digits of `n`.
pub open spec fn decimal_width(n: nat) -> nat
    decreases n,
{
    if n < 10 {
        1
    } else {
        decimal_width(n / 10) + 1
    }
}

/// A run of `count` spaces.
pub open spec fn blanks(count: int) -> Seq<char> {
    Seq::new(
        if count < 0 {
            0
        } else {
            count as nat
        },
        |i: int| ' ',
    )
}

/// `s` behind as many spaces as it takes to fill `width` characters.
pub open spec fn right_aligned(s: Seq<char>, width: int) -> Seq<char> {
    blanks(width - s.len()) + s
}

/// The line before line `line_num`, lines counted from one, as the message
/// shows it: on a line of its own behind a bar, in part where it is long.
/// Nothing where there is no such line.
pub open spec fn previous_line_text(text: Seq<char>, line_num: int, column_num: int) -> Seq<char> {
    if line_num < 2 {
        Seq::empty()
    } else {
        match nth_line(text, (line_num - 2) as nat) {
            Some(p) => "\n     |"@ + excerpt(p, column_num),
            None => Seq::empty(),
        }
    }
}

/// The line `shown` as the message shows it: on a line of its own behind
/// its number and a bar, in part where it is long.
pub open spec fn numbered_line_text(line_num: int, shown: Seq<char>, column_num: int) -> Seq<char> {
    "\n"@ + right_aligned(decimal_text(line_num as nat), 4) + " |"@ + excerpt(shown, column_num)
}

/// The mark under column `column_num` of a shown line of `len` characters.
pub open spec fn mark_text(len: int, column_num: int) -> Seq<char> {
    "\n     |"@ + right_aligned("^"@, excerpt_column(len, column_num)) + " error"@
}

/// The message for a text that the parser refused with the words
/// `message` at the given line and column, both counted from one, where
/// `line` is the line at which it stopped. The line before it is shown
/// too where there is one. Without a line and column the first of each is
/// taken, and without a line an empty one.
pub open spec fn parse_error_text(
    text: Seq<char>,
    message: Seq<char>,
    place: Option<(usize, usize)>,
    line: Option<Seq<char>>,
) -> Seq<char> {
    let (line_num, column_num) = match place {
        Some(p) => p,
        None => (1usize, 1usize),
    };
    let shown = match line {
        Some(l) => l,
        None => Seq::empty(),
    };
    message + "\n\nINPUT:"@ + previous_line_text(text, line_num as int, column_num as int)
        + numbered_line_text(line_num as int, shown, column_num as int) + mark_text(
        shown.len() as int,
        column_num as int,
    )
}

/// A digit is one character wide.
proof fn lemma_digit_text(d: int)
    ensures
        digit_text(d).len() == 1,
{
    reveal_strlit("0");
    reveal_strlit("1");
    reveal_strlit("2");
    reveal_strlit("3");
    reveal_strlit("4");
    reveal_strlit("5");
    reveal_strlit("6");
    reveal_strlit("7");
    reveal_strlit("8");
    reveal_strlit("9");
}

/// A number in decimal digits is as wide as it has digits.
proof fn lemma_decimal_width(n: nat)
    ensures
        decimal_text(n).len() == decimal_width(n),
    decreases n,
{
    lemma_digit_text((n % 10) as int);
    if n >= 10 {
        lemma_decimal_width(n / 10);
    }
}

/// The digit `d` as text.
fn digit_str(d: usize) -> (text: &'static str)
    requires
        d < 10,
    ensures
        text@ == digit_text(d as int),
{
    if d == 0 {
        "0"
    } else if d == 1 {
        "1"
    } else if d == 2 {
        "2"
    } else if d == 3 {
        "3"
    } else if d == 4 {
        "4"
    } else if d == 5 {
        "5"
    } else if d == 6 {
        "6"
    } else if d == 7 {
        "7"
    } else if d == 8 {
        "8"
    } else {
        "9"
    }
}

/// Appends `n` in decimal digits.
fn push_decimal(out: &mut String, n: usize)
    ensures
        final(out)@ == old(out)@ + decimal_text(n as nat),
    decreases n,
{
    if n >= 10 {
        push_decimal(out, n / 10);
    }
    out.append(digit_str(n % 10));
}

/// The number of decimal digits of `n`.
fn count_digits(n: usize) -> (width: usize)
    ensures
        width == decimal_width(n as nat),
        1 <= width <= n + 1,
    decreases n,
{
    if n >= 10 {
        count_digits(n / 10) + 1
    } else {
        1
    }
}

/// Appends `count` spaces.
fn push_blanks(out: &mut String, count: usize)
    ensures
        final(out)@ == old(out)@ + blanks(count as int),
{
    proof {
        reveal_strlit(" ");
    }
    let mut done: usize = 0;
    while done < count
        invariant
            done <= count,
            " "@ == seq![' '],
            out@ == old(out)@ + blanks(done as int),
        decreases count - done,
    {
        out.append(" ");
        done += 1;
    }
}

/// Appends the line before line `line_num`, where there is one.
fn push_previous_line(out: &mut String, text: &str, line_num: usize, column_num: usize)
    ensures
        final(out)@ == old(out)@ + previous_line_text(text@, line_num as int, column_num as int),
{
    let previous = if line_num < 2 {
        None
    } else {
        line_of(text, line_num - 2)
    };
    match previous {
        Some(p) => {
            let (excerpted, _) = format_line_around_position(p, column_num);
            out.append("\n     |");
            out.append(excerpted.as_str());
            assert(out@ == old(out)@ + ("\n     |"@ + excerpt(p@, column_num as int)));
        },
        None => {
            assert(out@ == old(out)@ + Seq::<char>::empty());
        },
    }
}

/// Appends the line `shown` behind its number.
fn push_numbered_line(out: &mut String, line_num: usize, shown: &str, column_num: usize)
    ensures
        final(out)@ == old(out)@ + numbered_line_text(line_num as int, shown@, column_num as int),
{
    proof {
        lemma_decimal_width(line_num as nat);
    }
    let (display_line, _) = format_line_around_position(shown, column_num);
    out.append("\n");
    let width = count_digits(line_num);
    let ghost padding = blanks(4 - width as int);
    if width < 4 {
        push_blanks(out, 4 - width);
    } else {
        assert(out@ == old(out)@ + "\n"@ + padding);
    }
    push_decimal(out, line_num);
    assert(out@ == old(out)@ + "\n"@ + padding + decimal_text(line_num as nat));
    out.append(" |");
    out.append(display_line.as_str());
    assert(out@ == old(out)@ + ("\n"@ + (padding + decimal_text(line_num as nat)) + " |"@
        + excerpt(shown@, column_num as int)));
}

/// Appends the mark under column `column_num` of the shown line.
fn push_mark(out: &mut String, shown: &str, column_num: usize)
    ensures
        final(out)@ == old(out)@ + mark_text(shown@.len() as int, column_num as int),
{
    proof {
        reveal_strlit("^");
    }
    let (_, display_column) = format_line_around_position(shown, column_num);
    out.append("\n     |");
    let ghost padding = blanks(display_column - 1);
    if display_column > 1 {
        push_blanks(out, display_column - 1);
    } else {
        assert(out@ == old(out)@ + "\n     |"@ + padding);
    }
    out.append("^");
    out.append(" error");
    assert(out@ == old(out)@ + ("\n     |"@ + (padding + "^"@) + " error"@));
}

/// Writes the message for a text that the parser refused: the parser's
/// words, the line before the one at which it stopped, that line behind
/// its number, and a mark under the column.
pub fn describe_parse_error(
    text: &str,
    message: &str,
    place: Option<(usize, usize)>,
    line: Option<&str>,
) -> (description: String)
    ensures
        description@ == parse_error_text(
            text@,
            message@,
            place,
            match line {
                Some(l) => Some(l@),
                None => None,
            },
        ),
{
    let (line_num, column_num) = match place {
        Some(p) => p,
        None => (1, 1),
    };
    let shown = match line {
        Some(l) => l,
        None => "",
    };
    proof {
        reveal_strlit("");
    }
    let mut out = String::from_str(message);
    out.append("\n\nINPUT:");
    push_previous_line(&mut out, text, line_num, column_num);
    push_numbered_line(&mut out, line_num, shown, column_num);
    push_mark(&mut out, shown, column_num);
    out
}

/// Calls the `Display` impl of `nojson::JsonParseError`, which words what
/// the parser met and at which byte.
#[verifier::external_body]
fn error_message(error: &nojson::JsonParseError) -> (message: String) {
    format!("{error}")
}

/// Calls `nojson::JsonParseError::get_line_and_column_numbers`, which
/// counts the line and the column of the error's position in `text`, both
/// from one, and gives nothing for a position outside the text or inside a
/// character.
#[verifier::external_body]
fn error_place(error: &nojson::JsonParseError, text: &str) -> (place: Option<(usize, usize)>)
    ensures
        place matches Some(p) ==> p.0 >= 1 && p.1 >= 1,
{
    error.get_line_and_column_numbers(text).map(|(line, column)| (line.get(), column.get()))
}

/// Calls `nojson::JsonParseError::get_line`, which hands out the line of
/// `text` that holds the error's position.
#[verifier::external_body]
fn error_line<'a>(error: &nojson::JsonParseError, text: &'a str) -> (line: Option<&'a str>) {
    error.get_line(text)
}

/// Writes the message for the `error` with which the parser refused
/// `text`.
pub fn format_json_parse_error(text: &str, error: &nojson::JsonParseError) -> (description:
    String)
    ensures
        exists|message: Seq<char>, place: Option<(usize, usize)>, line: Option<Seq<char>>|
            description@ == parse_error_text(text@, message, place, line),
{
    let message = error_message(error);
    let place = error_place(error, text);
    let line = error_line(error, text);
    describe_parse_error(text, message.as_str(), place, line)
}

} // verus!
