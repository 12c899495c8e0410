//! How a comment reads once it is printed.
//!
//! A comment that follows something on its line, and a line comment on a
//! line of its own, are printed without their trailing white space. A block
//! comment on lines of its own is printed line by line: the first line
//! trimmed, every further line moved by as much as the comment itself moved.

use crate::ledger::CommentRange;
use crate::text::{
    column_at, column_of, line_content_end, next_line_start, push_range, push_spaces, spaces,
    split_line, trim_end, trim_start, trimmed_end, trimmed_start, unindent, unindented_start,
    LINE_FEED, SLASH,
};
use vstd::prelude::*;

verus! {

/// Whether the comment starts with two slashes.
pub open spec fn is_line_comment(text: Seq<u8>, c: CommentRange) -> bool {
    c.end - c.start >= 2 && text[c.start as int] == SLASH && text[c.start + 1] == SLASH
}

/// The comment without its trailing white space.
pub open spec fn trailing_text(text: Seq<u8>, c: CommentRange) -> Seq<u8> {
    text.subrange(c.start as int, trimmed_end(text, c.start as int, c.end as int))
}

/// One further line of a block comment, which starts at `from` and whose
/// content ends at `content_end`, as it is printed when the comment moves
/// from column `before` to column `after`. A comment that moves right has
/// the difference put before the line as spaces. A comment that moves left
/// loses up to the difference in leading spaces. Trailing white space is
/// dropped in both cases.
pub open spec fn moved_line(
    text: Seq<u8>,
    from: int,
    content_end: int,
    before: int,
    after: int,
) -> Seq<u8> {
    if after >= before {
        spaces(after - before) + text.subrange(from, trimmed_end(text, from, content_end))
    } else {
        let start = unindented_start(text, from, content_end, before - after);
        text.subrange(start, trimmed_end(text, start, content_end))
    }
}

/// The lines of a block comment from the one that starts at `from` to the
/// comment's end at `to`, each preceded by a line feed.
pub open spec fn further_lines(text: Seq<u8>, from: int, to: int, before: int, after: int) -> Seq<
    u8,
>
    decreases to - from,
{
    let next = next_line_start(text, from, to);
    if from >= to || next <= from {
        Seq::empty()
    } else {
        seq![LINE_FEED] + moved_line(text, from, line_content_end(text, from, to), before, after)
            + further_lines(text, next, to, before, after)
    }
}

/// A block comment as it is printed on lines of its own at column `after`,
/// when it stood at column `before`.
pub open spec fn block_text(text: Seq<u8>, c: CommentRange, before: int, after: int) -> Seq<u8> {
    if c.start >= c.end {
        Seq::empty()
    } else {
        let content_end = line_content_end(text, c.start as int, c.end as int);
        let start = trimmed_start(text, c.start as int, content_end);
        text.subrange(start, trimmed_end(text, start, content_end)) + further_lines(
            text,
            next_line_start(text, c.start as int, c.end as int),
            c.end as int,
            before,
            after,
        )
    }
}

/// A comment as it is printed on a line of its own at column `indent`.
pub open spec fn leading_text(text: Seq<u8>, c: CommentRange, indent: int) -> Seq<u8> {
    if is_line_comment(text, c) {
        trailing_text(text, c)
    } else {
        block_text(text, c, column_of(text, c.start as int), indent)
    }
}

/// Whether `text[from..to]` starts with two slashes.
pub fn starts_line_comment(text: &[u8], c: CommentRange) -> (yes: bool)
    requires
        c.start <= c.end <= text@.len(),
    ensures
        yes == is_line_comment(text@, c),
{
    c.end - c.start >= 2 && text[c.start] == SLASH && text[c.start + 1] == SLASH
}

/// Appends the comment without its trailing white space.
pub fn push_trailing_text(out: &mut Vec<u8>, text: &[u8], c: CommentRange)
    requires
        c.start <= c.end <= text@.len(),
    ensures
        final(out)@ == old(out)@ + trailing_text(text@, c),
{
    let end = trim_end(text, c.start, c.end);
    push_range(out, text, c.start, end);
}

/// Appends one further line of a block comment.
fn push_moved_line(
    out: &mut Vec<u8>,
    text: &[u8],
    from: usize,
    content_end: usize,
    before: usize,
    after: usize,
)
    requires
        from <= content_end <= text@.len(),
    ensures
        final(out)@ == old(out)@ + moved_line(
            text@,
            from as int,
            content_end as int,
            before as int,
            after as int,
        ),
{
    if after >= before {
        push_spaces(out, after - before);
        let end = trim_end(text, from, content_end);
        push_range(out, text, from, end);
    } else {
        let start = unindent(text, from, content_end, before - after);
        let end = trim_end(text, start, content_end);
        push_range(out, text, start, end);
    }
}

/// Appends a block comment as it is printed at column `after`.
pub fn push_block_text(out: &mut Vec<u8>, text: &[u8], c: CommentRange, before: usize, after: usize)
    requires
        c.start <= c.end <= text@.len(),
    ensures
        final(out)@ == old(out)@ + block_text(text@, c, before as int, after as int),
{
    if c.start >= c.end {
        return ;
    }
    let (content_end, first_next) = split_line(text, c.start, c.end);
    let start = trim_start(text, c.start, content_end);
    let end = trim_end(text, start, content_end);
    push_range(out, text, start, end);
    let ghost head = out@;
    let mut from: usize = first_next;
    while from < c.end
        invariant
            c.start <= from <= c.end <= text@.len(),
            head + further_lines(text@, first_next as int, c.end as int, before as int, after as int)
                == out@ + further_lines(
                text@,
                from as int,
                c.end as int,
                before as int,
                after as int,
            ),
        decreases c.end - from,
    {
        let (content_end, next) = split_line(text, from, c.end);
        out.push(LINE_FEED);
        push_moved_line(out, text, from, content_end, before, after);
        from = next;
    }
}

/// Appends a comment as it is printed on a line of its own at column
/// `indent`.
pub fn push_leading_text(out: &mut Vec<u8>, text: &[u8], c: CommentRange, indent: usize)
    requires
        c.start <= c.end <= text@.len(),
    ensures
        final(out)@ == old(out)@ + leading_text(text@, c, indent as int),
{
    if starts_line_comment(text, c) {
        push_trailing_text(out, text, c);
    } else {
        let before = column_at(text, c.start);
        push_block_text(out, text, c, before, indent);
    }
}

} // verus!
