//! The printing of a whole document, stated as a function of the text, of
//! its values and of its comments.
//!
//! A walk is what the printing of a value, or of a run of values, does: the
//! pieces it appends, the cursor it leaves and the index of the value that
//! comes next. There is no walk where the text, the values and the comments
//! do not agree: where a symbol is missing, where a value leaves the text,
//! or where a comment lies behind the cursor or across a position that the
//! printer has to reach.

use crate::document::{ValueEntry, ValueKind};
use crate::layout::{
    comments_step, flush_ready, indent_step, needs_multiline, pending_ahead, symbol_index,
    symbol_step, Cursor, Piece, Step, CLOSE_BRACE, CLOSE_BRACKET, COLON, COMMA, INDENT_SIZE,
    OPEN_BRACE, OPEN_BRACKET,
};
use crate::ledger::{earliest_before, well_placed, CommentRange};
use vstd::prelude::*;

verus! {

/// What the printing of one value or more does.
#[verifier::ext_equal]
pub struct Walk {
    /// The pieces that are appended.
    pub pieces: Seq<Piece>,
    /// The cursor that is left.
    pub cursor: Cursor,
    /// The index of the first value that has not been printed.
    pub next: int,
}

/// The walk that starts with `step` and goes on with `walk`.
pub open spec fn walk_after(step: Step, walk: Option<Walk>) -> Option<Walk> {
    match walk {
        Some(w) => Some(Walk { pieces: step.pieces + w.pieces, cursor: w.cursor, next: w.next }),
        None => None,
    }
}

/// The walk with its cursor moved to `position` at the end.
pub open spec fn walk_ending_at(walk: Option<Walk>, position: int) -> Option<Walk> {
    match walk {
        Some(w) => Some(Walk { pieces: w.pieces, cursor: w.cursor.at(position), next: w.next }),
        None => None,
    }
}

/// Whether the next symbol `ch` can be written: the text holds it behind
/// the cursor outside the comments, and no comment before it lies behind
/// the cursor.
#[verifier::opaque]
pub open spec fn symbol_ready(text: Seq<u8>, cursor: Cursor, ch: u8) -> bool {
    let at = symbol_index(text, cursor.ledger, ch, cursor.position);
    at < text.len() && pending_ahead(cursor, at + 1)
}

/// Writes the comments that stand before `position` and starts a new line
/// for what stands there.
#[verifier::opaque]
pub open spec fn lead_in_step(text: Seq<u8>, cursor: Cursor, level: int, position: int) -> Step {
    let flushed = comments_step(text, cursor, level, position);
    flushed.followed_by(indent_step(text, flushed.cursor, level, position))
}

/// The symbol that opens a container of the given kind.
pub open spec fn opening_symbol(kind: ValueKind) -> u8 {
    if kind == ValueKind::Object {
        OPEN_BRACE
    } else {
        OPEN_BRACKET
    }
}

/// The symbol that closes a container of the given kind.
pub open spec fn closing_symbol(kind: ValueKind) -> u8 {
    if kind == ValueKind::Object {
        CLOSE_BRACE
    } else {
        CLOSE_BRACKET
    }
}

/// Prints the value at `index` in a container that is printed on one line
/// or, if `multiline`, on several: on a line of its own in the latter case,
/// behind the comments that precede it.
pub open spec fn render_value(
    text: Seq<u8>,
    values: Seq<ValueEntry>,
    index: int,
    cursor: Cursor,
    level: int,
    multiline: bool,
) -> Option<Walk>
    decreases values.len() - index, 3int,
{
    if !(0 <= index < values.len()) {
        None
    } else if !multiline {
        render_content(text, values, index, cursor, level, multiline)
    } else if !flush_ready(text, cursor, values[index].position as int) {
        None
    } else {
        let lead = lead_in_step(text, cursor, level, values[index].position as int);
        walk_after(lead, render_content(text, values, index, lead.cursor, level, multiline))
    }
}

/// Prints the value of an object's member behind its colon: on the same
/// line behind a space, or, where comments precede the value, behind those
/// comments on a line of its own.
pub open spec fn render_member_value(
    text: Seq<u8>,
    values: Seq<ValueEntry>,
    index: int,
    cursor: Cursor,
    level: int,
    multiline: bool,
) -> Option<Walk>
    decreases values.len() - index, 3int,
{
    if !(0 <= index < values.len()) {
        None
    } else if earliest_before(cursor.ledger, values[index].position as int) is None {
        walk_after(
            cursor.stay().with_piece(Piece::Space),
            render_content(text, values, index, cursor, level, multiline),
        )
    } else if !flush_ready(text, cursor, values[index].position as int) {
        None
    } else {
        let lead = lead_in_step(text, cursor, level, values[index].position as int);
        walk_after(lead, render_content(text, values, index, lead.cursor, level, multiline))
    }
}

/// Prints the value at `index` where the cursor stands: a scalar as it
/// reads in the text, an array or object with what it holds. The cursor
/// ends behind the value.
pub open spec fn render_content(
    text: Seq<u8>,
    values: Seq<ValueEntry>,
    index: int,
    cursor: Cursor,
    level: int,
    multiline: bool,
) -> Option<Walk>
    decreases values.len() - index, 2int,
{
    if !(0 <= index < values.len()) || !values[index].fits(text.len() as int) {
        None
    } else if values[index].is_scalar() {
        Some(
            Walk {
                pieces: seq![Piece::Scalar(values[index])],
                cursor: cursor.at(values[index].end()),
                next: index + 1,
            },
        )
    } else {
        walk_ending_at(
            render_container(text, values, index, cursor, level, multiline),
            values[index].end(),
        )
    }
}

/// Ends the printing of a container that ends at `end`: writes the
/// comments that are left before its end, one level deeper than the
/// container, and the closing symbol `close` in the container's own layout.
pub open spec fn render_closing(
    text: Seq<u8>,
    cursor: Cursor,
    level: int,
    inner: bool,
    end: int,
    close: u8,
) -> Option<Step> {
    if !flush_ready(text, cursor, end) {
        None
    } else {
        let dangling = comments_step(text, cursor, level + 1, end);
        if !symbol_ready(text, dangling.cursor, close) {
            None
        } else {
            Some(dangling.followed_by(symbol_step(text, dangling.cursor, level, inner, close)))
        }
    }
}

/// Prints the array or object at `index`: its opening symbol in the layout
/// of the container around it, what it holds one level deeper and in its
/// own layout, the comments that are left before its end, and its closing
/// symbol.
pub open spec fn render_container(
    text: Seq<u8>,
    values: Seq<ValueEntry>,
    index: int,
    cursor: Cursor,
    level: int,
    multiline: bool,
) -> Option<Walk>
    decreases values.len() - index, 1int,
{
    if !(0 <= index < values.len()) || !symbol_ready(
        text,
        cursor,
        opening_symbol(values[index].kind),
    ) || (level + 1) * INDENT_SIZE > usize::MAX {
        None
    } else {
        let value = values[index];
        let opened = symbol_step(text, cursor, level, multiline, opening_symbol(value.kind));
        let inner = needs_multiline(text, opened.cursor.ledger, value);
        match render_items(text, values, index, index + 1, opened.cursor, level + 1, inner, true) {
            None => None,
            Some(items) => match render_closing(
                text,
                items.cursor,
                level,
                inner,
                value.end(),
                closing_symbol(value.kind),
            ) {
                None => None,
                Some(closing) => Some(
                    Walk {
                        pieces: opened.pieces + items.pieces + closing.pieces,
                        cursor: closing.cursor,
                        next: items.next,
                    },
                ),
            },
        }
    }
}

/// The walk `first` followed by `rest`, which started where `first` ended.
pub open spec fn walk_joined(first: Walk, rest: Option<Walk>) -> Option<Walk> {
    walk_after(Step { pieces: first.pieces, cursor: first.cursor }, rest)
}

/// Prints one of the things that the container at `parent` holds, the one
/// that starts with the value at `index`: an element of an array, or a
/// member of an object, behind a comma unless it is the first.
pub open spec fn render_item(
    text: Seq<u8>,
    values: Seq<ValueEntry>,
    parent: int,
    index: int,
    cursor: Cursor,
    level: int,
    multiline: bool,
    first: bool,
) -> Option<Walk>
    decreases values.len() - index, 5int,
{
    if !(0 <= parent < values.len()) || index < 0 || (!first && !symbol_ready(text, cursor, COMMA)) {
        None
    } else {
        let separated = if first {
            cursor.stay()
        } else {
            symbol_step(text, cursor, level, multiline, COMMA)
        };
        walk_after(
            separated,
            if values[parent].kind == ValueKind::Object {
                render_member(text, values, parent, index, separated.cursor, level, multiline)
            } else {
                render_value(text, values, index, separated.cursor, level, multiline)
            },
        )
    }
}

/// Prints what the container at `parent` holds from the value at `index`
/// on: the values that start before the container ends, with a comma
/// before each but the first.
pub open spec fn render_items(
    text: Seq<u8>,
    values: Seq<ValueEntry>,
    parent: int,
    index: int,
    cursor: Cursor,
    level: int,
    multiline: bool,
    first: bool,
) -> Option<Walk>
    decreases values.len() - index, 6int,
{
    if !(0 <= parent < values.len()) || index < 0 {
        None
    } else if index >= values.len() || values[index].position >= values[parent].end() {
        Some(Walk { pieces: Seq::empty(), cursor, next: index })
    } else {
        match render_item(text, values, parent, index, cursor, level, multiline, first) {
            None => None,
            Some(one) => {
                if one.next <= index || one.next > values.len() {
                    None
                } else {
                    walk_joined(
                        one,
                        render_items(
                            text,
                            values,
                            parent,
                            one.next,
                            one.cursor,
                            level,
                            multiline,
                            false,
                        ),
                    )
                }
            },
        }
    }
}

/// Prints the member of the object at `parent` whose name is the value at
/// `index`: the name, the colon, and the value that follows the name.
pub open spec fn render_member(
    text: Seq<u8>,
    values: Seq<ValueEntry>,
    parent: int,
    index: int,
    cursor: Cursor,
    level: int,
    multiline: bool,
) -> Option<Walk>
    decreases values.len() - index, 4int,
{
    if !(0 <= parent < values.len()) || index < 0 {
        None
    } else {
        match render_value(text, values, index, cursor, level, multiline) {
            None => None,
            Some(name) => {
                if name.next <= index || !(name.next < values.len() && values[name.next].position
                    < values[parent].end()) || !symbol_ready(text, name.cursor, COLON) {
                    None
                } else {
                    let colon = symbol_step(text, name.cursor, level, multiline, COLON);
                    walk_joined(
                        name,
                        walk_after(
                            colon,
                            render_member_value(
                                text,
                                values,
                                name.next,
                                colon.cursor,
                                level,
                                multiline,
                            ),
                        ),
                    )
                }
            },
        }
    }
}

/// The pieces of the printed document: the top-level value, the comments
/// that follow it, and a final line feed. There are none where the text,
/// the values and the comments do not agree, or where a value lies outside
/// the top-level value.
pub open spec fn render_document(
    text: Seq<u8>,
    values: Seq<ValueEntry>,
    ledger: Seq<CommentRange>,
) -> Option<Seq<Piece>> {
    if values.len() == 0 || !well_placed(ledger, text.len() as int) || !values[0].fits(
        text.len() as int,
    ) {
        None
    } else {
        let start = Cursor { position: 0, ledger };
        match render_value(text, values, 0, start, 0, needs_multiline(text, ledger, values[0])) {
            None => None,
            Some(walk) => {
                if walk.next != values.len() || !flush_ready(text, walk.cursor, text.len() as int) {
                    None
                } else {
                    Some(
                        (walk.pieces + comments_step(
                            text,
                            walk.cursor,
                            0,
                            text.len() as int,
                        ).pieces).push(Piece::Newline),
                    )
                }
            },
        }
    }
}

} // verus!
