//! Which containers of an agreeing document are printed on one line.
//!
//! A container is printed on one line if its bytes hold no line feed and no
//! comment starts inside it, and on several lines otherwise. This holds of
//! every container at every depth.

use crate::agreement::{
    calm, extent, grounded, item_agrees, item_last, items_agree, lemma_comments_synced,
    lemma_container_prints, lemma_content_prints, lemma_item_advances, lemma_item_prints,
    lemma_items_prints, lemma_member_prints, lemma_member_value_prints, lemma_quiet_free,
    lemma_skip_well_placed, lemma_symbol_synced, lemma_value_clear, lemma_value_prints, parted,
    parted_at, pending_from, quiet, synced, value_agrees,
};
use crate::document::{ValueEntry, ValueKind};
use crate::laws::{closing_lead, comment_inside, lemma_closing_layout, lemma_piece_occurs};
use crate::layout::{
    comments_step, flatten, flush_ready, is_closing, leading_step, needs_multiline, piece_bytes,
    symbol_index, symbol_lead_step, symbol_step, trailing_step, Cursor, Piece, COLON, COMMA,
};
use crate::ledger::{
    earliest_before, lemma_rank, lemma_rank_unique, lemma_well_placed_ordered, ordered, rank,
    well_placed, CommentRange,
};
use crate::render::{
    closing_symbol, opening_symbol, render_closing, render_container, render_content, render_item,
    render_items, render_member, render_value,
};
use crate::text::{holds_byte, lemma_first_index, LINE_FEED};
use vstd::prelude::*;

verus! {

/// Whether `text[from..to]` holds no line feed.
pub open spec fn plain(text: Seq<u8>, from: int, to: int) -> bool {
    forall|k: int| from <= k < to ==> #[trigger] text[k] != LINE_FEED
}

/// Whether a piece stays on the line: a symbol, a space, or a scalar of
/// the text without a line feed in it.
pub open spec fn piece_on_line(text: Seq<u8>, piece: Piece) -> bool {
    match piece {
        Piece::Symbol(ch) => ch != LINE_FEED,
        Piece::Space => true,
        Piece::Scalar(value) => value.fits(text.len() as int) && plain(
            text,
            value.position as int,
            value.end(),
        ),
        _ => false,
    }
}

/// Whether every piece stays on the line.
pub open spec fn on_one_line(text: Seq<u8>, pieces: Seq<Piece>) -> bool {
    forall|i: int| 0 <= i < pieces.len() ==> piece_on_line(text, #[trigger] pieces[i])
}

/// Pieces that stay on the line are written without a line feed.
pub proof fn lemma_one_line_bytes(text: Seq<u8>, pieces: Seq<Piece>)
    requires
        on_one_line(text, pieces),
    ensures
        plain(flatten(text, pieces), 0, flatten(text, pieces).len() as int),
    decreases pieces.len(),
{
    if pieces.len() > 0 {
        let head = pieces.drop_last();
        assert forall|i: int| 0 <= i < head.len() implies piece_on_line(
            text,
            #[trigger] head[i],
        ) by {
            assert(head[i] == pieces[i]);
        }
        lemma_one_line_bytes(text, head);
        let last = pieces.last();
        assert(piece_on_line(text, pieces[pieces.len() - 1]));
        let bytes = piece_bytes(text, last);
        assert forall|k: int| 0 <= k < bytes.len() implies bytes[k] != LINE_FEED by {
            match last {
                Piece::Scalar(value) => {
                    assert(bytes[k] == text[value.position + k]);
                },
                _ => {},
            }
        }
    }
}

/// A text part in which a line feed stands holds one.
pub proof fn lemma_holds_line_feed(s: Seq<u8>, at: int)
    requires
        0 <= at < s.len(),
        s[at] == LINE_FEED,
    ensures
        holds_byte(s, LINE_FEED, 0, s.len() as int),
{
    lemma_first_index(s, LINE_FEED, 0, s.len() as int);
}

/// A text part holds a line feed exactly if it is not plain.
pub proof fn lemma_plain(s: Seq<u8>, from: int, to: int)
    requires
        from <= to,
    ensures
        plain(s, from, to) <==> !holds_byte(s, LINE_FEED, from, to),
{
    lemma_first_index(s, LINE_FEED, from, to);
}

/// Where no comment starts between the cursor and `position`, none is
/// pending before `position`.
pub proof fn lemma_calm_none(text: Seq<u8>, all: Seq<CommentRange>, cursor: Cursor, position: int)
    requires
        well_placed(all, text.len() as int),
        synced(text, all, cursor),
        calm(all, cursor.position, position),
    ensures
        earliest_before(cursor.ledger, position) is None,
{
    lemma_rank(all, cursor.position);
    let n = rank(all, cursor.position);
    if cursor.ledger.len() > 0 {
        assert(cursor.ledger[0] == all[n]);
    }
}

/// Where no comment is pending before `position`, writing the comments
/// before `position` writes nothing and leaves the cursor where it is.
pub proof fn lemma_comments_none(text: Seq<u8>, cursor: Cursor, level: int, position: int)
    requires
        ordered(cursor.ledger),
        earliest_before(cursor.ledger, position) is None,
    ensures
        comments_step(text, cursor, level, position) == cursor.stay(),
{
    reveal(comments_step);
    let ledger = cursor.ledger;
    lemma_rank(ledger, cursor.position);
    let k = rank(ledger, cursor.position);
    if 0 < k < ledger.len() {
        assert(ledger[0].start < ledger[k].start);
    }
    assert(trailing_step(text, cursor, position) == cursor.stay());
    assert(leading_step(text, cursor, level, position) == cursor.stay());
    assert(cursor.stay().pieces + cursor.stay().pieces == cursor.stay().pieces);
}

/// The pieces of a symbol that nothing precedes: the symbol, and a space
/// behind a comma in a container that takes one line.
pub open spec fn plain_symbol(multiline: bool, ch: u8) -> Seq<Piece> {
    if !multiline && ch == COMMA {
        seq![Piece::Symbol(ch), Piece::Space]
    } else {
        seq![Piece::Symbol(ch)]
    }
}

/// A symbol before which no comment is pending, and which does not close a
/// container that takes several lines, is written with nothing before it.
pub proof fn lemma_symbol_plain(text: Seq<u8>, cursor: Cursor, level: int, multiline: bool, ch: u8)
    requires
        !(multiline && is_closing(ch)),
        earliest_before(
            cursor.ledger,
            symbol_index(text, cursor.ledger, ch, cursor.position) + 1,
        ) is None,
    ensures
        symbol_step(text, cursor, level, multiline, ch).pieces == plain_symbol(multiline, ch),
{
    reveal(symbol_step);
    let at = symbol_index(text, cursor.ledger, ch, cursor.position);
    let lead = symbol_lead_step(text, cursor, level, multiline, ch, at);
    assert(lead == cursor.stay());
    assert(lead.pieces.push(Piece::Symbol(ch)) == seq![Piece::Symbol(ch)]);
    assert(seq![Piece::Symbol(ch)].push(Piece::Space) == seq![Piece::Symbol(ch), Piece::Space]);
}

/// Whether the stretch from the cursor to `limit` holds no line feed and no
/// start of a comment.
pub open spec fn level_run(text: Seq<u8>, all: Seq<CommentRange>, cursor: Cursor, limit: int) -> bool {
    &&& calm(all, cursor.position, limit)
    &&& plain(text, cursor.position, limit)
}

/// In a stretch without line feed and comment, an agreeing value is printed
/// on the line in a container that takes one line.
pub proof fn lemma_value_flat(
    text: Seq<u8>,
    all: Seq<CommentRange>,
    values: Seq<ValueEntry>,
    index: int,
    cursor: Cursor,
    level: int,
    limit: int,
)
    requires
        grounded(text, all, values),
        synced(text, all, cursor),
        value_agrees(text, all, values, index),
        0 <= level <= index,
        cursor.position <= values[index].position,
        quiet(text, all, cursor.position, values[index].position as int),
        level_run(text, all, cursor, limit),
        values[index].end() <= limit,
    ensures
        on_one_line(text, render_value(text, values, index, cursor, level, false)->0.pieces),
    decreases values.len() - index, 3int,
{
    lemma_content_flat(text, all, values, index, cursor, level, limit);
}

/// In a stretch without line feed and comment, an agreeing value is printed
/// on the line where the cursor stands.
pub proof fn lemma_content_flat(
    text: Seq<u8>,
    all: Seq<CommentRange>,
    values: Seq<ValueEntry>,
    index: int,
    cursor: Cursor,
    level: int,
    limit: int,
)
    requires
        grounded(text, all, values),
        synced(text, all, cursor),
        value_agrees(text, all, values, index),
        0 <= level <= index,
        cursor.position <= values[index].position,
        quiet(text, all, cursor.position, values[index].position as int),
        level_run(text, all, cursor, limit),
        values[index].end() <= limit,
    ensures
        on_one_line(text, render_content(text, values, index, cursor, level, false)->0.pieces),
    decreases values.len() - index, 2int,
{
    let value = values[index];
    if value.is_scalar() {
        let pieces = seq![Piece::Scalar(value)];
        assert(piece_on_line(text, pieces[0]));
    } else {
        lemma_container_prints(text, all, values, index, cursor, level, false);
        lemma_container_flat(text, all, values, index, cursor, level, limit);
    }
}

/// In a stretch without line feed and comment, an agreeing array or object
/// takes one line and is printed on the line.
pub proof fn lemma_container_flat(
    text: Seq<u8>,
    all: Seq<CommentRange>,
    values: Seq<ValueEntry>,
    index: int,
    cursor: Cursor,
    level: int,
    limit: int,
)
    requires
        grounded(text, all, values),
        synced(text, all, cursor),
        value_agrees(text, all, values, index),
        !values[index].is_scalar(),
        0 <= level <= index,
        cursor.position <= values[index].position,
        quiet(text, all, cursor.position, values[index].position as int),
        level_run(text, all, cursor, limit),
        values[index].end() <= limit,
    ensures
        on_one_line(text, render_container(text, values, index, cursor, level, false)->0.pieces),
    decreases values.len() - index, 1int,
{
    let value = values[index];
    let open = opening_symbol(value.kind);
    let close = closing_symbol(value.kind);
    let at = value.position as int;
    lemma_container_prints(text, all, values, index, cursor, level, false);
    lemma_quiet_free(text, all, cursor.position, at, open);
    lemma_symbol_synced(text, all, cursor, level, false, open, at);
    lemma_calm_none(text, all, cursor, at + 1);
    lemma_symbol_plain(text, cursor, level, false, open);
    let opened = symbol_step(text, cursor, level, false, open);
    lemma_body_flat(text, all, values, index, opened.cursor, level, limit);
    let inner = needs_multiline(text, opened.cursor.ledger, value);
    let items =
        render_items(text, values, index, index + 1, opened.cursor, level + 1, inner, true)->0;
    let closing = render_closing(text, items.cursor, level, inner, value.end(), close)->0;
    let pieces = render_container(text, values, index, cursor, level, false)->0.pieces;
    assert(pieces == opened.pieces + items.pieces + closing.pieces);
    assert forall|i: int| 0 <= i < pieces.len() implies piece_on_line(
        text,
        #[trigger] pieces[i],
    ) by {
        if i < 1 {
        } else if i < 1 + items.pieces.len() {
            assert(pieces[i] == items.pieces[i - 1]);
        } else {
            assert(pieces[i] == closing.pieces[i - 1 - items.pieces.len()]);
        }
    }
}

/// What an agreeing container without line feed and comment holds, and its
/// closing symbol, are printed on the line: the container takes one line.
pub proof fn lemma_body_flat(
    text: Seq<u8>,
    all: Seq<CommentRange>,
    values: Seq<ValueEntry>,
    index: int,
    opened: Cursor,
    level: int,
    limit: int,
)
    requires
        grounded(text, all, values),
        value_agrees(text, all, values, index),
        !values[index].is_scalar(),
        0 <= level <= index,
        opened == (Cursor {
            position: values[index].position + 1,
            ledger: pending_from(all, values[index].position + 1),
        }),
        synced(text, all, opened),
        calm(all, values[index].position + 1, limit),
        plain(text, values[index].position as int, limit),
        values[index].end() <= limit,
    ensures
        !needs_multiline(text, opened.ledger, values[index]),
        render_items(text, values, index, index + 1, opened, level + 1, false, true) is Some,
        on_one_line(
            text,
            render_items(text, values, index, index + 1, opened, level + 1, false, true)->0.pieces,
        ),
        render_closing(
            text,
            render_items(text, values, index, index + 1, opened, level + 1, false, true)->0.cursor,
            level,
            false,
            values[index].end(),
            closing_symbol(values[index].kind),
        ) is Some,
        render_closing(
            text,
            render_items(text, values, index, index + 1, opened, level + 1, false, true)->0.cursor,
            level,
            false,
            values[index].end(),
            closing_symbol(values[index].kind),
        )->0.pieces == seq![Piece::Symbol(closing_symbol(values[index].kind))],
    decreases values.len() - index, 0int,
{
    let value = values[index];
    let close = closing_symbol(value.kind);
    let at = value.position as int;
    let len = text.len() as int;
    lemma_well_placed_ordered(all, len);
    lemma_rank(all, at + 1);
    lemma_skip_well_placed(all, len, rank(all, at + 1));
    lemma_well_placed_ordered(opened.ledger, len);
    assert(!needs_multiline(text, opened.ledger, value)) by {
        reveal(needs_multiline);
        lemma_calm_none(text, all, opened, value.end());
        lemma_rank(opened.ledger, at);
        let k = rank(opened.ledger, at);
        if k < opened.ledger.len() {
            if k > 0 {
                assert(opened.ledger[0].start < opened.ledger[k].start);
            }
        }
        lemma_plain(text, at, value.end());
    }
    lemma_items_prints(text, all, values, index, index + 1, opened, level + 1, false, true);
    lemma_items_flat(text, all, values, index, index + 1, opened, level + 1, true, limit);
    let items = render_items(text, values, index, index + 1, opened, level + 1, false, true)->0;
    lemma_rank(all, items.cursor.position);
    lemma_skip_well_placed(all, len, rank(all, items.cursor.position));
    lemma_well_placed_ordered(items.cursor.ledger, len);
    lemma_value_clear(text, all, values, index);
    lemma_comments_synced(text, all, items.cursor, level + 1, value.end());
    lemma_calm_none(text, all, items.cursor, value.end());
    lemma_comments_none(text, items.cursor, level + 1, value.end());
    lemma_symbol_synced(text, all, items.cursor, level, false, close, value.end() - 1);
    lemma_symbol_plain(text, items.cursor, level, false, close);
    reveal(flush_ready);
    let dangling = comments_step(text, items.cursor, level + 1, value.end());
    let closed = symbol_step(text, dangling.cursor, level, false, close);
    assert(dangling.pieces + closed.pieces == closed.pieces);
}

/// In a stretch without line feed and comment, what an agreeing container
/// holds is printed on the line.
pub proof fn lemma_items_flat(
    text: Seq<u8>,
    all: Seq<CommentRange>,
    values: Seq<ValueEntry>,
    parent: int,
    index: int,
    cursor: Cursor,
    level: int,
    first: bool,
    limit: int,
)
    requires
        grounded(text, all, values),
        synced(text, all, cursor),
        items_agree(text, all, values, parent, index, cursor.position, first),
        0 <= level <= index,
        level_run(text, all, cursor, limit),
        values[parent].end() <= limit,
    ensures
        on_one_line(
            text,
            render_items(text, values, parent, index, cursor, level, false, first)->0.pieces,
        ),
    decreases values.len() - index, 6int,
{
    let end = values[parent].end();
    if index >= values.len() || values[index].position >= end {
    } else {
        let last = item_last(values, parent, index);
        let next = extent(values, last);
        lemma_item_prints(text, all, values, parent, index, cursor, level, false, first);
        lemma_item_flat(text, all, values, parent, index, cursor, level, first, limit);
        lemma_item_advances(text, all, values, parent, index, cursor.position, first);
        let one = render_item(text, values, parent, index, cursor, level, false, first)->0;
        lemma_items_prints(text, all, values, parent, next, one.cursor, level, false, false);
        lemma_items_flat(text, all, values, parent, next, one.cursor, level, false, limit);
        let rest = render_items(text, values, parent, next, one.cursor, level, false, false)->0;
        let pieces =
            render_items(text, values, parent, index, cursor, level, false, first)->0.pieces;
        assert(pieces == one.pieces + rest.pieces);
        assert forall|i: int| 0 <= i < pieces.len() implies piece_on_line(
            text,
            #[trigger] pieces[i],
        ) by {
            if i < one.pieces.len() {
                assert(pieces[i] == one.pieces[i]);
            } else {
                assert(pieces[i] == rest.pieces[i - one.pieces.len()]);
            }
        }
    }
}

/// In a stretch without line feed and comment, an agreeing element or
/// member is printed on the line.
pub proof fn lemma_item_flat(
    text: Seq<u8>,
    all: Seq<CommentRange>,
    values: Seq<ValueEntry>,
    parent: int,
    index: int,
    cursor: Cursor,
    level: int,
    first: bool,
    limit: int,
)
    requires
        grounded(text, all, values),
        synced(text, all, cursor),
        item_agrees(text, all, values, parent, index, cursor.position, first),
        0 <= level <= index,
        level_run(text, all, cursor, limit),
        values[parent].end() <= limit,
    ensures
        on_one_line(
            text,
            render_item(text, values, parent, index, cursor, level, false, first)->0.pieces,
        ),
    decreases values.len() - index, 5int,
{
    let value = values[index];
    let separated = if first {
        cursor.stay()
    } else {
        symbol_step(text, cursor, level, false, COMMA)
    };
    if !first {
        let at = choose|at: int|
            parted_at(text, all, cursor.position, value.position as int, COMMA, at);
        lemma_quiet_free(text, all, cursor.position, at, COMMA);
        lemma_symbol_synced(text, all, cursor, level, false, COMMA, at);
        lemma_calm_none(text, all, cursor, at + 1);
        lemma_symbol_plain(text, cursor, level, false, COMMA);
    }
    lemma_item_prints(text, all, values, parent, index, cursor, level, false, first);
    let item = if values[parent].kind == ValueKind::Object {
        lemma_member_flat(text, all, values, parent, index, separated.cursor, level, limit);
        render_member(text, values, parent, index, separated.cursor, level, false)->0
    } else {
        lemma_value_prints(text, all, values, index, separated.cursor, level, false);
        lemma_value_flat(text, all, values, index, separated.cursor, level, limit);
        render_value(text, values, index, separated.cursor, level, false)->0
    };
    let pieces = render_item(text, values, parent, index, cursor, level, false, first)->0.pieces;
    assert(pieces == separated.pieces + item.pieces);
    assert forall|i: int| 0 <= i < pieces.len() implies piece_on_line(
        text,
        #[trigger] pieces[i],
    ) by {
        if i < separated.pieces.len() {
            assert(pieces[i] == separated.pieces[i]);
        } else {
            assert(pieces[i] == item.pieces[i - separated.pieces.len()]);
        }
    }
}

/// In a stretch without line feed and comment, an agreeing member is
/// printed on the line.
pub proof fn lemma_member_flat(
    text: Seq<u8>,
    all: Seq<CommentRange>,
    values: Seq<ValueEntry>,
    parent: int,
    index: int,
    cursor: Cursor,
    level: int,
    limit: int,
)
    requires
        grounded(text, all, values),
        synced(text, all, cursor),
        0 <= parent < index < values.len(),
        values[parent].kind == ValueKind::Object,
        value_agrees(text, all, values, index),
        index < extent(values, index) < values.len(),
        values[extent(values, index)].end() < values[parent].end(),
        parted(
            text,
            all,
            values[index].end(),
            values[extent(values, index)].position as int,
            COLON,
        ),
        value_agrees(text, all, values, extent(values, index)),
        0 <= level <= index,
        cursor.position <= values[index].position,
        quiet(text, all, cursor.position, values[index].position as int),
        level_run(text, all, cursor, limit),
        values[parent].end() <= limit,
        values[index].end() < values[parent].end(),
    ensures
        on_one_line(
            text,
            render_member(text, values, parent, index, cursor, level, false)->0.pieces,
        ),
    decreases values.len() - index, 4int,
{
    let last = extent(values, index);
    lemma_member_prints(text, all, values, parent, index, cursor, level, false);
    lemma_value_prints(text, all, values, index, cursor, level, false);
    lemma_value_flat(text, all, values, index, cursor, level, limit);
    let name = render_value(text, values, index, cursor, level, false)->0;
    let at = choose|at: int|
        parted_at(text, all, values[index].end(), values[last].position as int, COLON, at);
    lemma_quiet_free(text, all, name.cursor.position, at, COLON);
    lemma_symbol_synced(text, all, name.cursor, level, false, COLON, at);
    assert(values[index].len > 0);
    lemma_calm_none(text, all, name.cursor, at + 1);
    lemma_symbol_plain(text, name.cursor, level, false, COLON);
    let colon = symbol_step(text, name.cursor, level, false, COLON);
    lemma_calm_none(text, all, colon.cursor, values[last].position as int);
    lemma_member_value_prints(text, all, values, last, colon.cursor, level, false);
    lemma_content_prints(text, all, values, last, colon.cursor, level, false);
    lemma_content_flat(text, all, values, last, colon.cursor, level, limit);
    let content = render_content(text, values, last, colon.cursor, level, false)->0;
    let pieces = render_member(text, values, parent, index, cursor, level, false)->0.pieces;
    let space = seq![Piece::Space];
    assert(colon.cursor.stay().with_piece(Piece::Space).pieces == space);
    assert(pieces == name.pieces + (colon.pieces + (space + content.pieces)));
    assert forall|i: int| 0 <= i < pieces.len() implies piece_on_line(
        text,
        #[trigger] pieces[i],
    ) by {
        let a = name.pieces.len() as int;
        let b = a + colon.pieces.len();
        if i < a {
            assert(pieces[i] == name.pieces[i]);
        } else if i < b {
            assert(pieces[i] == colon.pieces[i - a]);
        } else if i < b + 1 {
            assert(pieces[i] == space[i - b]);
        } else {
            assert(pieces[i] == content.pieces[i - b - 1]);
        }
    }
}

/// What is printed for the container at `index` behind its opening
/// symbol: what it holds, the comments before its end, and its closing
/// symbol.
pub open spec fn container_body(
    text: Seq<u8>,
    values: Seq<ValueEntry>,
    index: int,
    cursor: Cursor,
    level: int,
    multiline: bool,
) -> Seq<Piece> {
    let value = values[index];
    let opened = symbol_step(text, cursor, level, multiline, opening_symbol(value.kind));
    let inner = needs_multiline(text, opened.cursor.ledger, value);
    let items =
        render_items(text, values, index, index + 1, opened.cursor, level + 1, inner, true)->0;
    let closing = render_closing(
        text,
        items.cursor,
        level,
        inner,
        value.end(),
        closing_symbol(value.kind),
    )->0;
    items.pieces + closing.pieces
}

/// Layout determinism. An array or object that agrees with the text is
/// printed on several lines exactly if its bytes hold a line feed or a
/// comment starts inside it: what is written behind its opening symbol, up
/// to its closing symbol, holds a line feed in that case and in no other.
/// The container may stand at any depth, in a container of either layout.
pub proof fn lemma_container_lines(
    text: Seq<u8>,
    all: Seq<CommentRange>,
    values: Seq<ValueEntry>,
    index: int,
    cursor: Cursor,
    level: int,
    multiline: bool,
)
    requires
        grounded(text, all, values),
        synced(text, all, cursor),
        value_agrees(text, all, values, index),
        !values[index].is_scalar(),
        0 <= level <= index,
        cursor.position <= values[index].position,
        quiet(text, all, cursor.position, values[index].position as int),
    ensures
        render_container(text, values, index, cursor, level, multiline) is Some,
        render_container(text, values, index, cursor, level, multiline)->0.pieces == symbol_step(
            text,
            cursor,
            level,
            multiline,
            opening_symbol(values[index].kind),
        ).pieces + container_body(text, values, index, cursor, level, multiline),
        holds_byte(
            flatten(text, container_body(text, values, index, cursor, level, multiline)),
            LINE_FEED,
            0,
            flatten(text, container_body(text, values, index, cursor, level, multiline)).len() as int,
        ) <==> (holds_byte(text, LINE_FEED, values[index].position as int, values[index].end())
            || comment_inside(all, values[index])),
{
    let value = values[index];
    let open = opening_symbol(value.kind);
    let close = closing_symbol(value.kind);
    let at = value.position as int;
    let len = text.len() as int;
    lemma_container_prints(text, all, values, index, cursor, level, multiline);
    lemma_quiet_free(text, all, cursor.position, at, open);
    lemma_symbol_synced(text, all, cursor, level, multiline, open, at);
    let opened = symbol_step(text, cursor, level, multiline, open);
    let inner = needs_multiline(text, opened.cursor.ledger, value);
    let items =
        render_items(text, values, index, index + 1, opened.cursor, level + 1, inner, true)->0;
    let closing = render_closing(text, items.cursor, level, inner, value.end(), close)->0;
    let body = container_body(text, values, index, cursor, level, multiline);
    assert(opened.pieces + items.pieces + closing.pieces == opened.pieces + (items.pieces
        + closing.pieces));
    let several = holds_byte(text, LINE_FEED, at, value.end()) || comment_inside(all, value);
    lemma_well_placed_ordered(all, len);
    lemma_rank(all, at + 1);
    let n = rank(all, at + 1);
    lemma_skip_well_placed(all, len, n);
    if !several {
        lemma_plain(text, at, value.end());
        assert(calm(all, at + 1, value.end())) by {
            assert forall|i: int| #![trigger all[i]] 0 <= i < all.len() implies !(at + 1
                <= all[i].start < value.end()) by {
                if at + 1 <= all[i].start < value.end() {
                    assert(value.position <= all[i].start < value.end());
                }
            }
        }
        lemma_body_flat(text, all, values, index, opened.cursor, level, value.end());
        assert(on_one_line(text, body)) by {
            assert forall|i: int| 0 <= i < body.len() implies piece_on_line(
                text,
                #[trigger] body[i],
            ) by {
                if i < items.pieces.len() {
                    assert(body[i] == items.pieces[i]);
                } else {
                    assert(body[i] == closing.pieces[i - items.pieces.len()]);
                }
            }
        }
        lemma_one_line_bytes(text, body);
        lemma_plain(flatten(text, body), 0, flatten(text, body).len() as int);
    } else {
        assert(inner) by {
            reveal(needs_multiline);
            if comment_inside(all, value) {
                let i = choose|i: int|
                    #![trigger all[i]]
                    0 <= i < all.len() && value.position <= all[i].start < value.end();
                if all[i].start == at {
                    assert(all[i].start <= at < all[i].end);
                }
                assert(i >= n);
                let ledger = opened.cursor.ledger;
                assert(ledger[i - n] == all[i]);
                assert(rank(ledger, at) == 0) by {
                    assert forall|j: int| 0 <= j < ledger.len() implies ledger[j].start >= at by {
                        assert(ledger[j] == all[j + n]);
                    }
                    lemma_well_placed_ordered(ledger, len);
                    lemma_rank_unique(ledger, at, 0);
                }
                assert(ledger[0] == all[n]);
                if i > n {
                    assert(all[n].start < all[i].start);
                }
            }
        }
        lemma_items_prints(
            text,
            all,
            values,
            index,
            index + 1,
            opened.cursor,
            level + 1,
            inner,
            true,
        );
        lemma_rank(all, items.cursor.position);
        lemma_skip_well_placed(all, len, rank(all, items.cursor.position));
        lemma_value_clear(text, all, values, index);
        lemma_comments_synced(text, all, items.cursor, level + 1, value.end());
        let dangling = comments_step(text, items.cursor, level + 1, value.end());
        assert(dangling.cursor.position <= value.end() - 1) by {
            if dangling.cursor.position != items.cursor.position {
                let r = rank(all, value.end());
                lemma_rank(all, value.end());
                assert(all[r - 1].start < value.end());
                if all[r - 1].end > value.end() - 1 {
                    assert(all[r - 1].start <= value.end() - 1 < all[r - 1].end);
                }
            }
        }
        lemma_symbol_synced(text, all, dangling.cursor, level, inner, close, value.end() - 1);
        lemma_closing_layout(text, items.cursor, level, inner, value.end(), close);
        let lead = closing_lead(text, items.cursor, level, inner, value.end(), close);
        let at_break = body.len() - 2;
        assert(body[at_break] == lead.last()) by {
            let tail = lead.push(Piece::Symbol(close));
            assert(closing.pieces == dangling.pieces + tail);
            assert(body == items.pieces + (dangling.pieces + tail));
            assert(tail[tail.len() - 2] == lead.last());
        }
        lemma_piece_occurs(text, body, at_break);
        let offset = flatten(text, body.take(at_break)).len() as int;
        let bytes = piece_bytes(text, body[at_break]);
        assert(bytes[0] == LINE_FEED);
        assert(flatten(text, body).subrange(offset, offset + bytes.len())[0] == LINE_FEED);
        lemma_holds_line_feed(flatten(text, body), offset);
    }
}

} // verus!
