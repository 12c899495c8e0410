//! What the printer writes, stated as a function of the text.
//!
//! The printer moves a cursor through the text and appends pieces to its
//! output. A step is what one operation does: the pieces it appends and the
//! cursor it leaves. The bytes of a piece are those of the text for scalars
//! and comments, and fixed for the rest.

use crate::comment::{leading_text, trailing_text};
use crate::document::ValueEntry;
use crate::ledger::{
    earliest_before, first_within, lemma_rank, lemma_rank_unique, rank, well_placed, without,
    CommentRange,
};
use crate::text::{first_index, holds_byte, lemma_first_index, spaces, LINE_FEED, SPACE};
use vstd::prelude::*;

verus! {

/// The number of spaces by which one nesting level indents.
pub const INDENT_SIZE: usize = 2;

/// The symbol that opens an array.
pub const OPEN_BRACKET: u8 = 0x5b;

/// The symbol that closes an array.
pub const CLOSE_BRACKET: u8 = 0x5d;

/// The symbol that opens an object.
pub const OPEN_BRACE: u8 = 0x7b;

/// The symbol that closes an object.
pub const CLOSE_BRACE: u8 = 0x7d;

/// The symbol between two elements or members.
pub const COMMA: u8 = 0x2c;

/// The symbol between a member's name and its value.
pub const COLON: u8 = 0x3a;

/// One thing that the printer writes.
pub enum Piece {
    /// A bracket, a brace, a comma or a colon.
    Symbol(u8),
    /// A single space.
    Space,
    /// A line feed that leaves a line empty or ends the output.
    Newline,
    /// A line feed and the indentation of the line that it starts.
    Break(int),
    /// A scalar, as it stands in the text.
    Scalar(ValueEntry),
    /// A comment on the line of what precedes it.
    Trailing(CommentRange),
    /// A comment on lines of its own, at the given indentation.
    Leading(CommentRange, int),
}

/// The bytes of a piece.
pub open spec fn piece_bytes(text: Seq<u8>, piece: Piece) -> Seq<u8> {
    match piece {
        Piece::Symbol(ch) => seq![ch],
        Piece::Space => seq![SPACE],
        Piece::Newline => seq![LINE_FEED],
        Piece::Break(indent) => seq![LINE_FEED] + spaces(indent),
        Piece::Scalar(value) => text.subrange(value.position as int, value.end()),
        Piece::Trailing(c) => trailing_text(text, c),
        Piece::Leading(c, indent) => leading_text(text, c, indent),
    }
}

/// The bytes of a run of pieces.
pub open spec fn flatten(text: Seq<u8>, pieces: Seq<Piece>) -> Seq<u8>
    decreases pieces.len(),
{
    if pieces.len() == 0 {
        Seq::empty()
    } else {
        flatten(text, pieces.drop_last()) + piece_bytes(text, pieces.last())
    }
}

/// How far the text has been dealt with, and the comments that are still to
/// be printed.
#[verifier::ext_equal]
pub struct Cursor {
    pub position: int,
    pub ledger: Seq<CommentRange>,
}

/// What an operation of the printer does: the pieces it appends and the
/// cursor it leaves.
#[verifier::ext_equal]
pub struct Step {
    pub pieces: Seq<Piece>,
    pub cursor: Cursor,
}

impl Cursor {
    /// The cursor moved to `position`.
    pub open spec fn at(self, position: int) -> Cursor {
        Cursor { position, ledger: self.ledger }
    }

    /// The step that appends nothing and leaves the cursor where it is.
    pub open spec fn stay(self) -> Step {
        Step { pieces: Seq::empty(), cursor: self }
    }
}

impl Step {
    /// This step followed by `next`, which started where this one ended.
    pub open spec fn followed_by(self, next: Step) -> Step {
        Step { pieces: self.pieces + next.pieces, cursor: next.cursor }
    }

    /// This step followed by the writing of one piece.
    pub open spec fn with_piece(self, piece: Piece) -> Step {
        Step { pieces: self.pieces.push(piece), cursor: self.cursor }
    }

    /// This step with the cursor moved to `position` at its end.
    pub open spec fn ending_at(self, position: int) -> Step {
        Step { pieces: self.pieces, cursor: self.cursor.at(position) }
    }
}

/// Whether no comment has `position` strictly inside it.
pub open spec fn clear_at(ledger: Seq<CommentRange>, position: int) -> bool {
    forall|i: int|
        #![trigger ledger[i]]
        0 <= i < ledger.len() ==> !(ledger[i].start < position < ledger[i].end)
}

/// Whether `at` lies in one of the comments.
pub open spec fn in_comment(ledger: Seq<CommentRange>, at: int) -> bool {
    exists|i: int|
        #![trigger ledger[i]]
        0 <= i < ledger.len() && ledger[i].start <= at < ledger[i].end
}

/// Whether every comment that starts before `position` starts at or behind
/// the cursor.
pub open spec fn pending_ahead(cursor: Cursor, position: int) -> bool {
    forall|i: int|
        #![trigger cursor.ledger[i]]
        0 <= i < cursor.ledger.len() && cursor.ledger[i].start < position ==> cursor.position
            <= cursor.ledger[i].start
}

/// Blank-line collapse. Where the gap between the cursor and `position`
/// holds two line feeds or more, the cursor moves behind the second and one
/// empty line is written. Where it holds one, the cursor moves behind it.
pub open spec fn blank_line_step(text: Seq<u8>, cursor: Cursor, position: int) -> Step {
    let first = first_index(text, LINE_FEED, cursor.position, position);
    if first >= position {
        cursor.stay()
    } else {
        let second = first_index(text, LINE_FEED, first + 1, position);
        if second >= position {
            cursor.at(first + 1).stay()
        } else {
            cursor.at(second + 1).stay().with_piece(Piece::Newline)
        }
    }
}

/// Starts a new line at nesting depth `level` before what stands at
/// `position`, after an empty line where the text had one or more. Nothing
/// is written while the cursor is at the start of the text.
pub open spec fn indent_step(text: Seq<u8>, cursor: Cursor, level: int, position: int) -> Step {
    if cursor.position == 0 {
        cursor.stay()
    } else {
        blank_line_step(text, cursor, position).with_piece(Piece::Break(level * INDENT_SIZE))
    }
}

/// Trailing-comment emission. Each comment that starts between the cursor
/// and `next_position` and ends before the line does is written behind a
/// space, in the order of the text, up to the first that does not.
pub open spec fn trailing_step(text: Seq<u8>, cursor: Cursor, next_position: int) -> Step
    decreases cursor.ledger.len(),
{
    let k = rank(cursor.ledger, cursor.position);
    if cursor.position == 0 || !(0 <= k < cursor.ledger.len()) || cursor.ledger[k].start
        >= next_position || holds_byte(text, LINE_FEED, cursor.position, cursor.ledger[k].end as int) {
        cursor.stay()
    } else {
        let c = cursor.ledger[k];
        let rest = trailing_step(
            text,
            Cursor { position: c.end as int, ledger: cursor.ledger.remove(k) },
            next_position,
        );
        Step { pieces: seq![Piece::Space, Piece::Trailing(c)] + rest.pieces, cursor: rest.cursor }
    }
}

/// Leading-comment emission. Each comment that starts before `position` is
/// written on lines of its own at nesting depth `level`, the earliest
/// first.
pub open spec fn leading_step(text: Seq<u8>, cursor: Cursor, level: int, position: int) -> Step
    decreases cursor.ledger.len(),
{
    if cursor.ledger.len() == 0 || cursor.ledger[0].start >= position {
        cursor.stay()
    } else {
        let c = cursor.ledger[0];
        let rest = leading_step(
            text,
            Cursor { position: c.end as int, ledger: cursor.ledger.remove(0) },
            level,
            position,
        );
        indent_step(text, cursor, level, c.start as int).with_piece(
            Piece::Leading(c, level * INDENT_SIZE),
        ).followed_by(rest)
    }
}

/// Writes the comments that stand before `position`: first those on the
/// line of the cursor, then the others.
#[verifier::opaque]
pub open spec fn comments_step(text: Seq<u8>, cursor: Cursor, level: int, position: int) -> Step {
    let trailing = trailing_step(text, cursor, position);
    trailing.followed_by(leading_step(text, trailing.cursor, level, position))
}

/// The offset of the first `ch` at or behind `from` that lies in no
/// comment, or the length of the text where there is none.
pub open spec fn symbol_index(text: Seq<u8>, ledger: Seq<CommentRange>, ch: u8, from: int) -> int
    decreases text.len() - from,
{
    if from >= text.len() {
        text.len() as int
    } else if from >= 0 && text[from] == ch && !in_comment(ledger, from) {
        from
    } else {
        symbol_index(text, ledger, ch, from + 1)
    }
}

/// Whether `ch` closes an array or an object.
pub open spec fn is_closing(ch: u8) -> bool {
    ch == CLOSE_BRACKET || ch == CLOSE_BRACE
}

/// What precedes a symbol `ch` that the text holds at `at`. In a container
/// that is printed on several lines a closing symbol starts a line; so does
/// any symbol that comments precede, behind those comments. A closing
/// symbol is indented from its own offset, so that no empty line precedes
/// it.
pub open spec fn symbol_lead_step(
    text: Seq<u8>,
    cursor: Cursor,
    level: int,
    multiline: bool,
    ch: u8,
    at: int,
) -> Step {
    if (multiline && is_closing(ch)) || earliest_before(cursor.ledger, at + 1) is Some {
        let flushed = comments_step(text, cursor, level, at + 1);
        let from = if is_closing(ch) {
            flushed.ending_at(at)
        } else {
            flushed
        };
        from.followed_by(indent_step(text, from.cursor, level, at + 1))
    } else {
        cursor.stay()
    }
}

/// Writes the symbol `ch` that the text holds at `at`, behind what precedes
/// it. In a container that is printed on one line a comma is followed by a
/// space. The cursor ends behind the symbol.
pub open spec fn symbol_step_at(
    text: Seq<u8>,
    cursor: Cursor,
    level: int,
    multiline: bool,
    ch: u8,
    at: int,
) -> Step {
    let written = symbol_lead_step(text, cursor, level, multiline, ch, at).with_piece(
        Piece::Symbol(ch),
    );
    let spaced = if !multiline && ch == COMMA {
        written.with_piece(Piece::Space)
    } else {
        written
    };
    spaced.ending_at(at + 1)
}

/// Writes the next symbol `ch` of the text.
#[verifier::opaque]
pub open spec fn symbol_step(text: Seq<u8>, cursor: Cursor, level: int, multiline: bool, ch: u8) -> Step {
    symbol_step_at(
        text,
        cursor,
        level,
        multiline,
        ch,
        symbol_index(text, cursor.ledger, ch, cursor.position),
    )
}

/// The layout oracle: a container is printed on several lines if its bytes
/// hold a line feed or one of the comments starts inside it.
#[verifier::opaque]
pub open spec fn needs_multiline(text: Seq<u8>, ledger: Seq<CommentRange>, value: ValueEntry) -> bool {
    first_within(ledger, value.position as int, value.end()) is Some || holds_byte(
        text,
        LINE_FEED,
        value.position as int,
        value.end(),
    )
}

/// Whether the comments that stand before `position` can be written from
/// the cursor: the cursor has not passed `position`, which lies in the text
/// and in no comment, and has not passed any of those comments.
#[verifier::opaque]
pub open spec fn flush_ready(text: Seq<u8>, cursor: Cursor, position: int) -> bool {
    &&& cursor.position <= position <= text.len()
    &&& clear_at(cursor.ledger, position)
    &&& pending_ahead(cursor, position)
}

/// Writing one piece more appends its bytes.
pub proof fn lemma_flatten_push(text: Seq<u8>, pieces: Seq<Piece>, piece: Piece)
    ensures
        flatten(text, pieces.push(piece)) == flatten(text, pieces) + piece_bytes(text, piece),
{
    assert(pieces.push(piece).drop_last() == pieces);
}

/// The bytes of two runs of pieces are those of the first followed by those
/// of the second.
pub proof fn lemma_flatten_concat(text: Seq<u8>, a: Seq<Piece>, b: Seq<Piece>)
    ensures
        flatten(text, a + b) == flatten(text, a) + flatten(text, b),
    decreases b.len(),
{
    if b.len() == 0 {
        assert(a + b == a);
    } else {
        lemma_flatten_concat(text, a, b.drop_last());
        assert((a + b).drop_last() == a + b.drop_last());
    }
}

/// The blank-line step keeps the comments and moves the cursor forward, not
/// beyond `position`.
pub proof fn lemma_blank_line_step(text: Seq<u8>, cursor: Cursor, position: int)
    requires
        cursor.position <= position,
    ensures
        blank_line_step(text, cursor, position).cursor.ledger == cursor.ledger,
        cursor.position <= blank_line_step(text, cursor, position).cursor.position <= position,
{
    lemma_first_index(text, LINE_FEED, cursor.position, position);
    let first = first_index(text, LINE_FEED, cursor.position, position);
    if first < position {
        lemma_first_index(text, LINE_FEED, first + 1, position);
    }
}

/// The indent step keeps the comments and moves the cursor forward, not
/// beyond `position`.
pub proof fn lemma_indent_step(text: Seq<u8>, cursor: Cursor, level: int, position: int)
    requires
        cursor.position == 0 || cursor.position <= position,
    ensures
        indent_step(text, cursor, level, position).cursor.ledger == cursor.ledger,
        cursor.position <= indent_step(text, cursor, level, position).cursor.position,
        cursor.position <= position ==> indent_step(text, cursor, level, position).cursor.position
            <= position,
{
    if cursor.position != 0 {
        lemma_blank_line_step(text, cursor, position);
    }
}

/// The indent step keeps the comments, wherever the cursor stands.
pub proof fn lemma_indent_step_ledger(text: Seq<u8>, cursor: Cursor, level: int, position: int)
    ensures
        indent_step(text, cursor, level, position).cursor.ledger == cursor.ledger,
{
}

/// Taking the comment at `k` out of well-placed comments leaves them well
/// placed.
pub proof fn lemma_remove_well_placed(ledger: Seq<CommentRange>, len: int, k: int)
    requires
        well_placed(ledger, len),
        0 <= k < ledger.len(),
    ensures
        well_placed(ledger.remove(k), len),
        ledger.remove(k) == without(ledger, ledger[k].start as int),
{
    let rest = ledger.remove(k);
    assert forall|i: int| 0 <= i < rest.len() implies rest[i].start < rest[i].end && rest[i].end
        <= len by {
        if i < k {
            assert(rest[i] == ledger[i]);
        } else {
            assert(rest[i] == ledger[i + 1]);
        }
    }
    assert forall|i: int, j: int| 0 <= i < j < rest.len() implies rest[i].end <= rest[j].start by {
        let a = if i < k { i } else { i + 1 };
        let b = if j < k { j } else { j + 1 };
        assert(rest[i] == ledger[a]);
        assert(rest[j] == ledger[b]);
    }
    lemma_rank_unique(ledger, ledger[k].start as int, k);
}

/// What the trailing step leaves behind. The comments stay well placed, and
/// the cursor moves forward. Where the cursor had not passed `next_position`
/// and that position lies in no comment, the cursor does not pass it, and
/// comments that were ahead of the cursor remain so.
pub proof fn lemma_trailing_step(text: Seq<u8>, cursor: Cursor, next_position: int)
    requires
        well_placed(cursor.ledger, text.len() as int),
        0 <= cursor.position <= text.len(),
    ensures
        well_placed(trailing_step(text, cursor, next_position).cursor.ledger, text.len() as int),
        cursor.position <= trailing_step(text, cursor, next_position).cursor.position
            <= text.len(),
        cursor.position <= next_position && clear_at(cursor.ledger, next_position)
            ==> trailing_step(text, cursor, next_position).cursor.position <= next_position
            && clear_at(trailing_step(text, cursor, next_position).cursor.ledger, next_position),
        forall|p: int|
            pending_ahead(cursor, p) ==> pending_ahead(
                trailing_step(text, cursor, next_position).cursor,
                p,
            ),
    decreases cursor.ledger.len(),
{
    let ledger = cursor.ledger;
    lemma_rank(ledger, cursor.position);
    let k = rank(ledger, cursor.position);
    if cursor.position == 0 || !(0 <= k < ledger.len()) || ledger[k].start >= next_position
        || holds_byte(text, LINE_FEED, cursor.position, ledger[k].end as int) {
    } else {
        let c = ledger[k];
        let next = Cursor { position: c.end as int, ledger: ledger.remove(k) };
        lemma_remove_well_placed(ledger, text.len() as int, k);
        lemma_trailing_step(text, next, next_position);
        let rest = trailing_step(text, next, next_position);
        if cursor.position <= next_position && clear_at(ledger, next_position) {
            assert(clear_at(next.ledger, next_position)) by {
                assert forall|i: int| #![trigger next.ledger[i]] 0 <= i < next.ledger.len() implies !(next.ledger[i].start
                    < next_position < next.ledger[i].end) by {
                    let a = if i < k { i } else { i + 1 };
                    assert(next.ledger[i] == ledger[a]);
                }
            }
            assert(!(ledger[k].start < next_position < ledger[k].end));
        }
        assert forall|p: int| pending_ahead(cursor, p) implies pending_ahead(rest.cursor, p) by {
            assert(pending_ahead(next, p)) by {
                assert forall|i: int|
                    #![trigger next.ledger[i]]
                    0 <= i < next.ledger.len() && next.ledger[i].start < p implies next.position
                    <= next.ledger[i].start by {
                    let a = if i < k { i } else { i + 1 };
                    assert(next.ledger[i] == ledger[a]);
                    if a < k {
                        assert(ledger[a].start < cursor.position);
                        assert(cursor.position <= ledger[a].start);
                    }
                }
            }
        }
    }
}

/// What the leading step leaves behind, where no comment that starts
/// before `position` lies behind the cursor. The comments stay well placed,
/// none of them starts before `position` any more, and the cursor has moved
/// forward. Where the cursor had not passed `position` and that position
/// lies in no comment, the cursor does not pass it.
pub proof fn lemma_leading_step(text: Seq<u8>, cursor: Cursor, level: int, position: int)
    requires
        well_placed(cursor.ledger, text.len() as int),
        0 <= cursor.position <= text.len(),
        pending_ahead(cursor, position),
    ensures
        well_placed(leading_step(text, cursor, level, position).cursor.ledger, text.len() as int),
        cursor.position <= leading_step(text, cursor, level, position).cursor.position
            <= text.len(),
        forall|i: int|
            0 <= i < leading_step(text, cursor, level, position).cursor.ledger.len() ==> (
            #[trigger] leading_step(text, cursor, level, position).cursor.ledger[i]).start
                >= position,
        cursor.position <= position && clear_at(cursor.ledger, position) ==> leading_step(
            text,
            cursor,
            level,
            position,
        ).cursor.position <= position,
    decreases cursor.ledger.len(),
{
    let ledger = cursor.ledger;
    if ledger.len() == 0 || ledger[0].start >= position {
        assert forall|i: int| 0 <= i < ledger.len() implies (#[trigger] ledger[i]).start
            >= position by {
            if i > 0 {
                assert(ledger[0].end <= ledger[i].start);
            }
        }
    } else {
        let c = ledger[0];
        let next = Cursor { position: c.end as int, ledger: ledger.remove(0) };
        lemma_remove_well_placed(ledger, text.len() as int, 0);
        assert(pending_ahead(next, position)) by {
            assert forall|i: int|
                #![trigger next.ledger[i]]
                0 <= i < next.ledger.len() && next.ledger[i].start < position implies next.position
                <= next.ledger[i].start by {
                assert(next.ledger[i] == ledger[i + 1]);
            }
        }
        if cursor.position <= position && clear_at(ledger, position) {
            assert(clear_at(next.ledger, position)) by {
                assert forall|i: int| #![trigger next.ledger[i]] 0 <= i < next.ledger.len() implies !(next.ledger[i].start
                    < position < next.ledger[i].end) by {
                    assert(next.ledger[i] == ledger[i + 1]);
                }
            }
            assert(!(ledger[0].start < position < ledger[0].end));
        }
        lemma_leading_step(text, next, level, position);
        lemma_indent_step(text, cursor, level, c.start as int);
    }
}

/// What writing the comments before `position` leaves behind, where that
/// is possible: comments that are well placed and do not start before
/// `position`, and a cursor that has moved forward but not beyond it.
pub proof fn lemma_comments_step(text: Seq<u8>, cursor: Cursor, level: int, position: int)
    requires
        well_placed(cursor.ledger, text.len() as int),
        0 <= cursor.position,
        flush_ready(text, cursor, position),
    ensures
        well_placed(comments_step(text, cursor, level, position).cursor.ledger, text.len() as int),
        cursor.position <= comments_step(text, cursor, level, position).cursor.position
            <= position,
        forall|i: int|
            0 <= i < comments_step(text, cursor, level, position).cursor.ledger.len() ==> (
            #[trigger] comments_step(text, cursor, level, position).cursor.ledger[i]).start
                >= position,
{
    reveal(comments_step);
    reveal(flush_ready);
    lemma_trailing_step(text, cursor, position);
    let trailing = trailing_step(text, cursor, position);
    assert(pending_ahead(trailing.cursor, position));
    lemma_leading_step(text, trailing.cursor, level, position);
}

/// A search for a symbol may skip a stretch in which every `ch` lies in a
/// comment.
pub proof fn lemma_symbol_index_skip(
    text: Seq<u8>,
    ledger: Seq<CommentRange>,
    ch: u8,
    from: int,
    to: int,
)
    requires
        0 <= from <= to <= text.len(),
        forall|k: int| from <= k < to ==> text[k] != ch || in_comment(ledger, k),
    ensures
        symbol_index(text, ledger, ch, from) == symbol_index(text, ledger, ch, to),
    decreases to - from,
{
    if from < to {
        lemma_symbol_index_skip(text, ledger, ch, from + 1, to);
    }
}

/// The symbol index is the least offset from `from` on that holds `ch`
/// outside the comments.
pub proof fn lemma_symbol_index(text: Seq<u8>, ledger: Seq<CommentRange>, ch: u8, from: int)
    requires
        0 <= from <= text.len(),
    ensures
        from <= symbol_index(text, ledger, ch, from) <= text.len(),
        symbol_index(text, ledger, ch, from) < text.len() ==> text[symbol_index(
            text,
            ledger,
            ch,
            from,
        )] == ch && !in_comment(ledger, symbol_index(text, ledger, ch, from)),
        forall|k: int|
            from <= k < symbol_index(text, ledger, ch, from) ==> text[k] != ch || in_comment(
                ledger,
                k,
            ),
    decreases text.len() - from,
{
    if from < text.len() && !(text[from] == ch && !in_comment(ledger, from)) {
        lemma_symbol_index(text, ledger, ch, from + 1);
    }
}

} // verus!
