//! Searching and trimming in a source text that is addressed by byte offset.
//!
//! Every function takes the whole text and the bounds of the part it looks
//! at, so that offsets keep their meaning across calls.

use vstd::prelude::*;

verus! {

/// The byte that ends a line.
pub const LINE_FEED: u8 = 0x0a;

/// The byte that may precede the line feed at the end of a line.
pub const CARRIAGE_RETURN: u8 = 0x0d;

/// The byte of a space.
pub const SPACE: u8 = 0x20;

/// The byte with which comments start.
pub const SLASH: u8 = 0x2f;

/// The least index in `[from, to)` at which `s` holds `b`, or `to` where
/// no such index exists. The text may be one of bytes or of characters.
pub open spec fn first_index<T>(s: Seq<T>, b: T, from: int, to: int) -> int
    decreases to - from,
{
    if from >= to {
        to
    } else if s[from] == b {
        from
    } else {
        first_index(s, b, from + 1, to)
    }
}

/// Whether `s` holds `b` somewhere in `[from, to)`.
pub open spec fn holds_byte<T>(s: Seq<T>, b: T, from: int, to: int) -> bool {
    first_index(s, b, from, to) < to
}

/// `first_index` is the least position of `b`: nothing before it matches,
/// and it matches itself unless it is `to`.
pub proof fn lemma_first_index<T>(s: Seq<T>, b: T, from: int, to: int)
    requires
        from <= to,
    ensures
        from <= first_index(s, b, from, to) <= to,
        first_index(s, b, from, to) < to ==> s[first_index(s, b, from, to)] == b,
        forall|k: int| from <= k < first_index(s, b, from, to) ==> s[k] != b,
    decreases to - from,
{
    if from < to && s[from] != b {
        lemma_first_index(s, b, from + 1, to);
    }
}

/// A position that holds `b` and has no `b` before it is the first one.
pub proof fn lemma_first_index_unique<T>(s: Seq<T>, b: T, from: int, to: int, at: int)
    requires
        from <= at <= to,
        at < to ==> s[at] == b,
        forall|k: int| from <= k < at ==> s[k] != b,
    ensures
        first_index(s, b, from, to) == at,
    decreases to - from,
{
    if from < at {
        lemma_first_index_unique(s, b, from + 1, to, at);
    }
}

/// Finds the first `b` in `text[from..to]`.
pub fn find_byte(text: &[u8], b: u8, from: usize, to: usize) -> (at: usize)
    requires
        from <= to <= text@.len(),
    ensures
        at == first_index(text@, b, from as int, to as int),
        from <= at <= to,
{
    let mut at: usize = from;
    while at < to && text[at] != b
        invariant
            from <= at <= to <= text@.len(),
            forall|k: int| from <= k < at ==> text@[k] != b,
        decreases to - at,
    {
        at += 1;
    }
    proof {
        lemma_first_index_unique(text@, b, from as int, to as int, at as int);
    }
    at
}

/// Whether `text[from..to]` holds a line feed.
pub fn has_line_feed(text: &[u8], from: usize, to: usize) -> (found: bool)
    requires
        from <= to <= text@.len(),
    ensures
        found == holds_byte(text@, LINE_FEED, from as int, to as int),
{
    find_byte(text, LINE_FEED, from, to) < to
}

/// Whether `b` alone encodes a white-space character: a tab, a line feed, a
/// vertical tab, a form feed, a carriage return or a space.
pub open spec fn is_narrow_space(b: u8) -> bool {
    (0x09 <= b && b <= 0x0d) || b == 0x20
}

/// Whether two bytes encode a white-space character: the next-line control
/// or the no-break space.
pub open spec fn is_pair_space(b0: u8, b1: u8) -> bool {
    b0 == 0xc2 && (b1 == 0x85 || b1 == 0xa0)
}

/// Whether three bytes encode a white-space character: the ogham space
/// mark, one of the typographic spaces, a line or paragraph separator, the
/// narrow no-break space, the medium mathematical space or the ideographic
/// space.
pub open spec fn is_triple_space(b0: u8, b1: u8, b2: u8) -> bool {
    ||| (b0 == 0xe1 && b1 == 0x9a && b2 == 0x80)
    ||| (b0 == 0xe2 && b1 == 0x80 && ((0x80 <= b2 && b2 <= 0x8a) || b2 == 0xa8 || b2 == 0xa9
        || b2 == 0xaf))
    ||| (b0 == 0xe2 && b1 == 0x81 && b2 == 0x9f)
    ||| (b0 == 0xe3 && b1 == 0x80 && b2 == 0x80)
}

/// The width in bytes of the white-space character of `s[from..to]` that
/// ends at `to`, or 0 where the part does not end in one.
pub open spec fn space_width_before(s: Seq<u8>, from: int, to: int) -> int {
    if to - from >= 1 && is_narrow_space(s[to - 1]) {
        1
    } else if to - from >= 2 && is_pair_space(s[to - 2], s[to - 1]) {
        2
    } else if to - from >= 3 && is_triple_space(s[to - 3], s[to - 2], s[to - 1]) {
        3
    } else {
        0
    }
}

/// The width in bytes of the white-space character of `s[from..to]` that
/// starts at `from`, or 0 where the part does not start with one.
pub open spec fn space_width_at(s: Seq<u8>, from: int, to: int) -> int {
    if to - from >= 1 && is_narrow_space(s[from]) {
        1
    } else if to - from >= 2 && is_pair_space(s[from], s[from + 1]) {
        2
    } else if to - from >= 3 && is_triple_space(s[from], s[from + 1], s[from + 2]) {
        3
    } else {
        0
    }
}

/// Where `s[from..to]` ends once its trailing white space is dropped.
pub open spec fn trimmed_end(s: Seq<u8>, from: int, to: int) -> int
    decreases to - from,
{
    let width = space_width_before(s, from, to);
    if width == 0 {
        to
    } else {
        trimmed_end(s, from, to - width)
    }
}

/// Where `s[from..to]` starts once its leading white space is dropped.
pub open spec fn trimmed_start(s: Seq<u8>, from: int, to: int) -> int
    decreases to - from,
{
    let width = space_width_at(s, from, to);
    if width == 0 {
        from
    } else {
        trimmed_start(s, from + width, to)
    }
}

/// The trimmed end lies within the part and is not followed by more
/// trailing white space.
pub proof fn lemma_trimmed_end(s: Seq<u8>, from: int, to: int)
    requires
        from <= to,
    ensures
        from <= trimmed_end(s, from, to) <= to,
        space_width_before(s, from, trimmed_end(s, from, to)) == 0,
    decreases to - from,
{
    let width = space_width_before(s, from, to);
    if width != 0 {
        lemma_trimmed_end(s, from, to - width);
    }
}

/// The trimmed start lies within the part and is not preceded by more
/// leading white space.
pub proof fn lemma_trimmed_start(s: Seq<u8>, from: int, to: int)
    requires
        from <= to,
    ensures
        from <= trimmed_start(s, from, to) <= to,
        space_width_at(s, trimmed_start(s, from, to), to) == 0,
    decreases to - from,
{
    let width = space_width_at(s, from, to);
    if width != 0 {
        lemma_trimmed_start(s, from + width, to);
    }
}

/// Whether `b` alone encodes a white-space character.
fn narrow_space(b: u8) -> (yes: bool)
    ensures
        yes == is_narrow_space(b),
{
    (0x09 <= b && b <= 0x0d) || b == 0x20
}

/// Whether two bytes encode a white-space character.
fn pair_space(b0: u8, b1: u8) -> (yes: bool)
    ensures
        yes == is_pair_space(b0, b1),
{
    b0 == 0xc2 && (b1 == 0x85 || b1 == 0xa0)
}

/// Whether three bytes encode a white-space character.
fn triple_space(b0: u8, b1: u8, b2: u8) -> (yes: bool)
    ensures
        yes == is_triple_space(b0, b1, b2),
{
    (b0 == 0xe1 && b1 == 0x9a && b2 == 0x80) || (b0 == 0xe2 && b1 == 0x80 && ((0x80 <= b2 && b2
        <= 0x8a) || b2 == 0xa8 || b2 == 0xa9 || b2 == 0xaf)) || (b0 == 0xe2 && b1 == 0x81 && b2
        == 0x9f) || (b0 == 0xe3 && b1 == 0x80 && b2 == 0x80)
}

/// Drops the trailing white space of `text[from..to]` and returns the new
/// end.
pub fn trim_end(text: &[u8], from: usize, to: usize) -> (end: usize)
    requires
        from <= to <= text@.len(),
    ensures
        end == trimmed_end(text@, from as int, to as int),
        from <= end <= to,
        space_width_before(text@, from as int, end as int) == 0,
{
    proof {
        lemma_trimmed_end(text@, from as int, to as int);
    }
    let mut end: usize = to;
    loop
        invariant
            from <= end <= to <= text@.len(),
            trimmed_end(text@, from as int, end as int) == trimmed_end(
                text@,
                from as int,
                to as int,
            ),
        decreases end - from,
    {
        let width: usize = if end - from >= 1 && narrow_space(text[end - 1]) {
            1
        } else if end - from >= 2 && pair_space(text[end - 2], text[end - 1]) {
            2
        } else if end - from >= 3 && triple_space(text[end - 3], text[end - 2], text[end - 1]) {
            3
        } else {
            0
        };
        if width == 0 {
            return end;
        }
        end -= width;
    }
}

/// Drops the leading white space of `text[from..to]` and returns the new
/// start.
pub fn trim_start(text: &[u8], from: usize, to: usize) -> (start: usize)
    requires
        from <= to <= text@.len(),
    ensures
        start == trimmed_start(text@, from as int, to as int),
        from <= start <= to,
        space_width_at(text@, start as int, to as int) == 0,
{
    proof {
        lemma_trimmed_start(text@, from as int, to as int);
    }
    let mut start: usize = from;
    loop
        invariant
            from <= start <= to <= text@.len(),
            trimmed_start(text@, start as int, to as int) == trimmed_start(
                text@,
                from as int,
                to as int,
            ),
        decreases to - start,
    {
        let width: usize = if to - start >= 1 && narrow_space(text[start]) {
            1
        } else if to - start >= 2 && pair_space(text[start], text[start + 1]) {
            2
        } else if to - start >= 3 && triple_space(text[start], text[start + 1], text[start + 2]) {
            3
        } else {
            0
        };
        if width == 0 {
            return start;
        }
        start += width;
    }
}

/// Where the line that holds position `at` starts: just behind the last
/// line feed before `at`, or at 0.
pub open spec fn line_start(s: Seq<u8>, at: int) -> int
    decreases at,
{
    if at <= 0 {
        0
    } else if s[at - 1] == LINE_FEED {
        at
    } else {
        line_start(s, at - 1)
    }
}

/// The column of position `at`: how many bytes of its line stand before it.
pub open spec fn column_of(s: Seq<u8>, at: int) -> int {
    at - line_start(s, at)
}

/// The line start is at or before the position, stands at the head of a
/// line, and no line feed lies between the two.
pub proof fn lemma_line_start(s: Seq<u8>, at: int)
    requires
        0 <= at,
    ensures
        0 <= line_start(s, at) <= at,
        line_start(s, at) > 0 ==> s[line_start(s, at) - 1] == LINE_FEED,
        forall|k: int| line_start(s, at) <= k < at ==> s[k] != LINE_FEED,
    decreases at,
{
    if at > 0 && s[at - 1] != LINE_FEED {
        lemma_line_start(s, at - 1);
    }
}

/// Computes the column of position `at`.
pub fn column_at(text: &[u8], at: usize) -> (col: usize)
    requires
        at <= text@.len(),
    ensures
        col == column_of(text@, at as int),
        col <= at,
        col < at ==> text@[at - col - 1] == LINE_FEED,
        forall|k: int| at - col <= k < at ==> text@[k] != LINE_FEED,
{
    proof {
        lemma_line_start(text@, at as int);
    }
    let mut start: usize = at;
    while start > 0 && text[start - 1] != LINE_FEED
        invariant
            start <= at <= text@.len(),
            line_start(text@, start as int) == line_start(text@, at as int),
        decreases start,
    {
        start -= 1;
    }
    at - start
}

/// Where `s[from..to]` starts once up to `limit` leading spaces are
/// dropped. Unlike trimming this drops spaces only, and stops at the first
/// byte that is none.
pub open spec fn unindented_start(s: Seq<u8>, from: int, to: int, limit: int) -> int
    decreases limit,
{
    if limit <= 0 || from >= to || s[from] != SPACE {
        from
    } else {
        unindented_start(s, from + 1, to, limit - 1)
    }
}

/// Dropping spaces moves the start forward, by the limit at most.
pub proof fn lemma_unindented_start(s: Seq<u8>, from: int, to: int, limit: int)
    requires
        from <= to,
    ensures
        from <= unindented_start(s, from, to, limit) <= to,
        unindented_start(s, from, to, limit) - from <= if limit < 0 { 0 } else { limit },
    decreases limit,
{
    if !(limit <= 0 || from >= to || s[from] != SPACE) {
        lemma_unindented_start(s, from + 1, to, limit - 1);
    }
}

/// Drops up to `limit` leading spaces of `text[from..to]` and returns the
/// new start.
pub fn unindent(text: &[u8], from: usize, to: usize, limit: usize) -> (start: usize)
    requires
        from <= to <= text@.len(),
    ensures
        start == unindented_start(text@, from as int, to as int, limit as int),
        from <= start <= to,
        start - from <= limit,
{
    proof {
        lemma_unindented_start(text@, from as int, to as int, limit as int);
    }
    let mut start: usize = from;
    let mut left: usize = limit;
    while left > 0 && start < to && text[start] == SPACE
        invariant
            from <= start <= to <= text@.len(),
            unindented_start(text@, start as int, to as int, left as int) == unindented_start(
                text@,
                from as int,
                to as int,
                limit as int,
            ),
        decreases left,
    {
        start += 1;
        left -= 1;
    }
    start
}

/// Where the content of the line that starts at `from` ends within
/// `s[from..to]`: at its line feed, or at the carriage return before that
/// line feed, or at `to` where no line feed follows.
pub open spec fn line_content_end(s: Seq<u8>, from: int, to: int) -> int {
    let stop = first_index(s, LINE_FEED, from, to);
    if stop < to && from < stop && s[stop - 1] == CARRIAGE_RETURN {
        stop - 1
    } else {
        stop
    }
}

/// Where the line after the one that starts at `from` begins within
/// `s[from..to]`: behind the line feed, or at `to` where no line feed
/// follows.
pub open spec fn next_line_start(s: Seq<u8>, from: int, to: int) -> int {
    let stop = first_index(s, LINE_FEED, from, to);
    if stop < to {
        stop + 1
    } else {
        to
    }
}

/// The content of a line lies within the part, and the next line starts
/// behind it.
pub proof fn lemma_line_bounds(s: Seq<u8>, from: int, to: int)
    requires
        from <= to,
    ensures
        from <= line_content_end(s, from, to) <= next_line_start(s, from, to) <= to,
        from < to ==> from < next_line_start(s, from, to),
{
    lemma_first_index(s, LINE_FEED, from, to);
}

/// Splits off the line that starts at `from`: returns where its content
/// ends and where the next line starts.
pub fn split_line(text: &[u8], from: usize, to: usize) -> (bounds: (usize, usize))
    requires
        from <= to <= text@.len(),
    ensures
        bounds.0 == line_content_end(text@, from as int, to as int),
        bounds.1 == next_line_start(text@, from as int, to as int),
        from <= bounds.0 <= bounds.1 <= to,
        from < to ==> from < bounds.1,
{
    let stop = find_byte(text, LINE_FEED, from, to);
    proof {
        lemma_line_bounds(text@, from as int, to as int);
    }
    if stop < to {
        if from < stop && text[stop - 1] == CARRIAGE_RETURN {
            (stop - 1, stop + 1)
        } else {
            (stop, stop + 1)
        }
    } else {
        (stop, to)
    }
}

/// A run of `count` spaces.
pub open spec fn spaces(count: int) -> Seq<u8> {
    Seq::new(if count < 0 { 0 } else { count as nat }, |i: int| SPACE)
}

/// Appends `text[from..to]` to `out`.
pub fn push_range(out: &mut Vec<u8>, text: &[u8], from: usize, to: usize)
    requires
        from <= to <= text@.len(),
    ensures
        final(out)@ == old(out)@ + text@.subrange(from as int, to as int),
{
    let mut at: usize = from;
    while at < to
        invariant
            from <= at <= to <= text@.len(),
            out@ == old(out)@ + text@.subrange(from as int, at as int),
        decreases to - at,
    {
        out.push(text[at]);
        at += 1;
    }
}

/// Appends `count` spaces to `out`.
pub fn push_spaces(out: &mut Vec<u8>, count: usize)
    ensures
        final(out)@ == old(out)@ + spaces(count as int),
{
    let mut done: usize = 0;
    while done < count
        invariant
            done <= count,
            out@ == old(out)@ + spaces(done as int),
        decreases count - done,
    {
        out.push(SPACE);
        done += 1;
    }
}

} // verus!
