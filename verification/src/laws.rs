//! What holds of every printed document.

use crate::document::{ValueEntry, ValueKind};
use crate::layout::{
    blank_line_step, clear_at, comments_step, flatten, flush_ready, in_comment, indent_step,
    is_closing, leading_step, lemma_comments_step, lemma_indent_step, lemma_indent_step_ledger,
    lemma_symbol_index, needs_multiline, piece_bytes, symbol_index, symbol_lead_step, symbol_step,
    trailing_step, Cursor, Piece, Step, COLON, COMMA, INDENT_SIZE,
};
use crate::ledger::{
    earliest_before, lemma_rank, lemma_well_placed_ordered, ordered, rank, well_placed,
    CommentRange,
};
use crate::render::{
    closing_symbol, lead_in_step, opening_symbol, render_closing, render_container, render_content,
    render_document, render_item, render_items, render_member, render_member_value, render_value,
    symbol_ready, Walk,
};
use crate::text::{holds_byte, LINE_FEED};
use vstd::multiset::Multiset;
use vstd::prelude::*;
use vstd::seq_lib::{lemma_multiset_commutative, to_multiset_remove};

verus! {

/// The comments among `pieces`, in the order in which they are written.
pub open spec fn comments_of(pieces: Seq<Piece>) -> Seq<CommentRange>
    decreases pieces.len(),
{
    if pieces.len() == 0 {
        Seq::empty()
    } else {
        match pieces.last() {
            Piece::Trailing(c) => comments_of(pieces.drop_last()).push(c),
            Piece::Leading(c, _) => comments_of(pieces.drop_last()).push(c),
            _ => comments_of(pieces.drop_last()),
        }
    }
}

/// The scalars among `pieces`, in the order in which they are written.
pub open spec fn scalars_of(pieces: Seq<Piece>) -> Seq<ValueEntry>
    decreases pieces.len(),
{
    if pieces.len() == 0 {
        Seq::empty()
    } else {
        match pieces.last() {
            Piece::Scalar(v) => scalars_of(pieces.drop_last()).push(v),
            _ => scalars_of(pieces.drop_last()),
        }
    }
}

/// Whether the comments that were pending before are those that were
/// written among `pieces` together with those that are pending after, each
/// as often as before.
pub open spec fn conserved(
    before: Seq<CommentRange>,
    pieces: Seq<Piece>,
    after: Seq<CommentRange>,
) -> bool {
    before.to_multiset() =~= comments_of(pieces).to_multiset().add(after.to_multiset())
}

/// The comments among two runs of pieces are those of the first followed
/// by those of the second.
pub proof fn lemma_comments_of_concat(a: Seq<Piece>, b: Seq<Piece>)
    ensures
        comments_of(a + b) == comments_of(a) + comments_of(b),
    decreases b.len(),
{
    if b.len() == 0 {
        assert(a + b == a);
    } else {
        lemma_comments_of_concat(a, b.drop_last());
        assert((a + b).drop_last() == a + b.drop_last());
        assert((a + b).last() == b.last());
    }
}

/// The scalars among two runs of pieces are those of the first followed by
/// those of the second.
pub proof fn lemma_scalars_of_concat(a: Seq<Piece>, b: Seq<Piece>)
    ensures
        scalars_of(a + b) == scalars_of(a) + scalars_of(b),
    decreases b.len(),
{
    if b.len() == 0 {
        assert(a + b == a);
    } else {
        lemma_scalars_of_concat(a, b.drop_last());
        assert((a + b).drop_last() == a + b.drop_last());
        assert((a + b).last() == b.last());
    }
}

/// Writing nothing conserves the comments.
pub proof fn lemma_conserved_none(ledger: Seq<CommentRange>)
    ensures
        conserved(ledger, Seq::empty(), ledger),
{
    assert(comments_of(Seq::<Piece>::empty()).to_multiset() =~= Multiset::empty()) by {
        broadcast use vstd::seq_lib::group_to_multiset_ensures;

    }
}

/// Two runs of pieces that conserve the comments one after the other
/// conserve them together.
pub proof fn lemma_conserved_concat(
    before: Seq<CommentRange>,
    first: Seq<Piece>,
    between: Seq<CommentRange>,
    second: Seq<Piece>,
    after: Seq<CommentRange>,
)
    requires
        conserved(before, first, between),
        conserved(between, second, after),
    ensures
        conserved(before, first + second, after),
{
    lemma_comments_of_concat(first, second);
    lemma_multiset_commutative(comments_of(first), comments_of(second));
}

/// A piece that is no comment leaves the comments as they are.
pub proof fn lemma_conserved_plain(
    before: Seq<CommentRange>,
    pieces: Seq<Piece>,
    after: Seq<CommentRange>,
    piece: Piece,
)
    requires
        conserved(before, pieces, after),
        !(piece is Trailing),
        !(piece is Leading),
    ensures
        conserved(before, pieces.push(piece), after),
        scalars_of(pieces.push(piece)) == if piece is Scalar {
            scalars_of(pieces).push(piece->Scalar_0)
        } else {
            scalars_of(pieces)
        },
{
    assert(pieces.push(piece).drop_last() == pieces);
}

/// The scalars among the values from index `from` up to index `to`, in
/// their order.
pub open spec fn scalars_in(values: Seq<ValueEntry>, from: int, to: int) -> Seq<ValueEntry>
    decreases to - from,
{
    if from >= to {
        Seq::empty()
    } else if values[to - 1].is_scalar() {
        scalars_in(values, from, to - 1).push(values[to - 1])
    } else {
        scalars_in(values, from, to - 1)
    }
}

/// The scalars of a run of values are those of its first part followed by
/// those of the rest.
pub proof fn lemma_scalars_in_split(values: Seq<ValueEntry>, from: int, mid: int, to: int)
    requires
        from <= mid <= to,
    ensures
        scalars_in(values, from, to) == scalars_in(values, from, mid) + scalars_in(
            values,
            mid,
            to,
        ),
    decreases to - mid,
{
    if mid < to {
        lemma_scalars_in_split(values, from, mid, to - 1);
    }
}

/// Whether a step writes no scalar and conserves the comments.
pub open spec fn step_accounts(before: Seq<CommentRange>, step: Step) -> bool {
    &&& conserved(before, step.pieces, step.cursor.ledger)
    &&& scalars_of(step.pieces) == Seq::<ValueEntry>::empty()
}

/// Whether a walk from the value at `index` on writes the scalars of the
/// values that it passes, in their order, and conserves the comments.
pub open spec fn walk_accounts(
    values: Seq<ValueEntry>,
    index: int,
    before: Seq<CommentRange>,
    walk: Walk,
) -> bool {
    &&& index <= walk.next <= values.len()
    &&& conserved(before, walk.pieces, walk.cursor.ledger)
    &&& scalars_of(walk.pieces) == scalars_in(values, index, walk.next)
}

/// Two steps that account for the comments one after the other do so
/// together.
proof fn lemma_steps_account(before: Seq<CommentRange>, first: Step, second: Step)
    requires
        step_accounts(before, first),
        step_accounts(first.cursor.ledger, second),
    ensures
        step_accounts(before, first.followed_by(second)),
{
    lemma_conserved_concat(
        before,
        first.pieces,
        first.cursor.ledger,
        second.pieces,
        second.cursor.ledger,
    );
    lemma_scalars_of_concat(first.pieces, second.pieces);
}

/// A step and a walk that account for the comments one after the other do
/// so together.
proof fn lemma_step_walk_account(
    values: Seq<ValueEntry>,
    index: int,
    before: Seq<CommentRange>,
    step: Step,
    walk: Walk,
)
    requires
        step_accounts(before, step),
        walk_accounts(values, index, step.cursor.ledger, walk),
    ensures
        walk_accounts(
            values,
            index,
            before,
            Walk { pieces: step.pieces + walk.pieces, cursor: walk.cursor, next: walk.next },
        ),
{
    lemma_conserved_concat(
        before,
        step.pieces,
        step.cursor.ledger,
        walk.pieces,
        walk.cursor.ledger,
    );
    lemma_scalars_of_concat(step.pieces, walk.pieces);
}

/// Blank-line collapse writes no scalar and keeps the comments.
proof fn lemma_blank_line_accounts(text: Seq<u8>, cursor: Cursor, position: int)
    ensures
        step_accounts(cursor.ledger, blank_line_step(text, cursor, position)),
{
    lemma_conserved_none(cursor.ledger);
    let step = blank_line_step(text, cursor, position);
    if step.pieces.len() > 0 {
        lemma_conserved_plain(cursor.ledger, Seq::empty(), cursor.ledger, Piece::Newline);
    }
}

/// Starting a line writes no scalar and keeps the comments.
proof fn lemma_indent_accounts(text: Seq<u8>, cursor: Cursor, level: int, position: int)
    ensures
        step_accounts(cursor.ledger, indent_step(text, cursor, level, position)),
{
    lemma_conserved_none(cursor.ledger);
    if cursor.position != 0 {
        lemma_blank_line_accounts(text, cursor, position);
        let blank = blank_line_step(text, cursor, position);
        lemma_conserved_plain(
            cursor.ledger,
            blank.pieces,
            blank.cursor.ledger,
            Piece::Break(level * INDENT_SIZE),
        );
    }
}

/// Writing one comment that is taken out of the ledger conserves the
/// comments.
proof fn lemma_conserved_comment(
    ledger: Seq<CommentRange>,
    k: int,
    pieces: Seq<Piece>,
    piece: Piece,
)
    requires
        0 <= k < ledger.len(),
        conserved(ledger, pieces, ledger),
        piece == Piece::Trailing(ledger[k]) || (piece is Leading && piece->Leading_0 == ledger[k]),
    ensures
        conserved(ledger, pieces.push(piece), ledger.remove(k)),
        scalars_of(pieces.push(piece)) == scalars_of(pieces),
{
    broadcast use vstd::seq_lib::group_to_multiset_ensures;

    assert(pieces.push(piece).drop_last() == pieces);
    to_multiset_remove(ledger, k);
    assert(ledger.to_multiset().count(ledger[k]) > 0);
    assert(comments_of(pieces.push(piece)) == comments_of(pieces).push(ledger[k]));
}

/// Trailing-comment emission writes no scalar and conserves the comments.
proof fn lemma_trailing_accounts(text: Seq<u8>, cursor: Cursor, next_position: int)
    ensures
        step_accounts(cursor.ledger, trailing_step(text, cursor, next_position)),
    decreases cursor.ledger.len(),
{
    let ledger = cursor.ledger;
    let k = rank(ledger, cursor.position);
    lemma_conserved_none(ledger);
    if cursor.position == 0 || !(0 <= k < ledger.len()) || ledger[k].start >= next_position
        || holds_byte(
        text,
        LINE_FEED,
        cursor.position,
        ledger[k].end as int,
    ) {
    } else {
        let c = ledger[k];
        let next = Cursor { position: c.end as int, ledger: ledger.remove(k) };
        lemma_trailing_accounts(text, next, next_position);
        let rest = trailing_step(text, next, next_position);
        let head = seq![Piece::Space, Piece::Trailing(c)];
        lemma_conserved_plain(ledger, Seq::empty(), ledger, Piece::Space);
        lemma_conserved_comment(ledger, k, seq![Piece::Space], Piece::Trailing(c));
        assert(head == seq![Piece::Space].push(Piece::Trailing(c)));
        assert(seq![Piece::Space] == Seq::<Piece>::empty().push(Piece::Space));
        lemma_conserved_concat(ledger, head, next.ledger, rest.pieces, rest.cursor.ledger);
        lemma_scalars_of_concat(head, rest.pieces);
    }
}

/// Leading-comment emission writes no scalar and conserves the comments.
proof fn lemma_leading_accounts(text: Seq<u8>, cursor: Cursor, level: int, position: int)
    ensures
        step_accounts(cursor.ledger, leading_step(text, cursor, level, position)),
    decreases cursor.ledger.len(),
{
    let ledger = cursor.ledger;
    lemma_conserved_none(ledger);
    if ledger.len() == 0 || ledger[0].start >= position {
    } else {
        let c = ledger[0];
        let next = Cursor { position: c.end as int, ledger: ledger.remove(0) };
        lemma_leading_accounts(text, next, level, position);
        let rest = leading_step(text, next, level, position);
        let ind = indent_step(text, cursor, level, c.start as int);
        lemma_indent_accounts(text, cursor, level, c.start as int);
        let piece = Piece::Leading(c, level * INDENT_SIZE);
        lemma_indent_step_ledger(text, cursor, level, c.start as int);
        lemma_conserved_comment(ledger, 0, ind.pieces, piece);
        lemma_conserved_concat(
            ledger,
            ind.pieces.push(piece),
            next.ledger,
            rest.pieces,
            rest.cursor.ledger,
        );
        lemma_scalars_of_concat(ind.pieces.push(piece), rest.pieces);
    }
}

/// Writing the comments before a position writes no scalar and conserves
/// the comments.
proof fn lemma_comments_accounts(text: Seq<u8>, cursor: Cursor, level: int, position: int)
    ensures
        step_accounts(cursor.ledger, comments_step(text, cursor, level, position)),
{
    reveal(comments_step);
    lemma_trailing_accounts(text, cursor, position);
    let trailing = trailing_step(text, cursor, position);
    lemma_leading_accounts(text, trailing.cursor, level, position);
    lemma_steps_account(
        cursor.ledger,
        trailing,
        leading_step(text, trailing.cursor, level, position),
    );
}

/// Writing the comments before a value and starting its line writes no
/// scalar and conserves the comments.
proof fn lemma_lead_in_accounts(text: Seq<u8>, cursor: Cursor, level: int, position: int)
    ensures
        step_accounts(cursor.ledger, lead_in_step(text, cursor, level, position)),
{
    reveal(lead_in_step);
    lemma_comments_accounts(text, cursor, level, position);
    let flushed = comments_step(text, cursor, level, position);
    lemma_indent_accounts(text, flushed.cursor, level, position);
    lemma_steps_account(
        cursor.ledger,
        flushed,
        indent_step(text, flushed.cursor, level, position),
    );
}

/// Writing a symbol writes no scalar and conserves the comments.
proof fn lemma_symbol_accounts(text: Seq<u8>, cursor: Cursor, level: int, multiline: bool, ch: u8)
    ensures
        step_accounts(cursor.ledger, symbol_step(text, cursor, level, multiline, ch)),
{
    reveal(symbol_step);
    let at = symbol_index(text, cursor.ledger, ch, cursor.position);
    let lead = symbol_lead_step(text, cursor, level, multiline, ch, at);
    assert(step_accounts(cursor.ledger, lead)) by {
        lemma_conserved_none(cursor.ledger);
        if (multiline && is_closing(ch)) || earliest_before(
            cursor.ledger,
            at + 1,
        ) is Some {
            lemma_comments_accounts(text, cursor, level, at + 1);
            let flushed = comments_step(text, cursor, level, at + 1);
            let from = if is_closing(ch) {
                flushed.ending_at(at)
            } else {
                flushed
            };
            lemma_indent_accounts(text, from.cursor, level, at + 1);
            lemma_steps_account(
                cursor.ledger,
                from,
                indent_step(text, from.cursor, level, at + 1),
            );
        }
    }
    lemma_conserved_plain(cursor.ledger, lead.pieces, lead.cursor.ledger, Piece::Symbol(ch));
    let written = lead.with_piece(Piece::Symbol(ch));
    lemma_conserved_plain(cursor.ledger, written.pieces, written.cursor.ledger, Piece::Space);
}

/// Whether every value takes at least one byte.
pub open spec fn all_nonempty(values: Seq<ValueEntry>) -> bool {
    forall|j: int| 0 <= j < values.len() ==> (#[trigger] values[j]).len > 0
}

/// Whether the cursor lies in the text and the comments are well placed in
/// it.
pub open spec fn settled(text: Seq<u8>, cursor: Cursor) -> bool {
    &&& well_placed(cursor.ledger, text.len() as int)
    &&& 0 <= cursor.position <= text.len()
}

/// Writing the comments before a value and starting its line leaves the
/// cursor in the text and the comments well placed.
proof fn lemma_lead_in_settled(text: Seq<u8>, cursor: Cursor, level: int, position: int)
    requires
        settled(text, cursor),
        flush_ready(text, cursor, position),
    ensures
        settled(text, lead_in_step(text, cursor, level, position).cursor),
        cursor.position <= lead_in_step(text, cursor, level, position).cursor.position,
{
    reveal(lead_in_step);
    reveal(flush_ready);
    lemma_comments_step(text, cursor, level, position);
    let flushed = comments_step(text, cursor, level, position);
    lemma_indent_step(text, flushed.cursor, level, position);
}

/// Writing a symbol leaves the cursor in the text, behind its start, and
/// the comments well placed.
proof fn lemma_symbol_settled(text: Seq<u8>, cursor: Cursor, level: int, multiline: bool, ch: u8)
    requires
        settled(text, cursor),
        symbol_ready(text, cursor, ch),
    ensures
        settled(text, symbol_step(text, cursor, level, multiline, ch).cursor),
        symbol_step(text, cursor, level, multiline, ch).cursor.position > 0,
{
    reveal(symbol_step);
    reveal(symbol_ready);
    reveal(flush_ready);
    let at = symbol_index(text, cursor.ledger, ch, cursor.position);
    lemma_symbol_index(text, cursor.ledger, ch, cursor.position);
    if (multiline && is_closing(ch)) || earliest_before(
        cursor.ledger,
        at + 1,
    ) is Some {
        assert(clear_at(cursor.ledger, at + 1)) by {
            assert forall|i: int|
                #![trigger cursor.ledger[i]]
                0 <= i < cursor.ledger.len() implies !(cursor.ledger[i].start < at + 1
                < cursor.ledger[i].end) by {
                if cursor.ledger[i].start < at + 1 < cursor.ledger[i].end {
                    assert(cursor.ledger[i].start <= at < cursor.ledger[i].end);
                    assert(in_comment(cursor.ledger, at));
                }
            }
        }
        lemma_comments_step(text, cursor, level, at + 1);
        let flushed = comments_step(text, cursor, level, at + 1);
        let from = if is_closing(ch) {
            flushed.ending_at(at)
        } else {
            flushed
        };
        lemma_indent_step(text, from.cursor, level, at + 1);
    }
}

/// Ending a container leaves the cursor in the text, behind its start, and
/// the comments well placed.
proof fn lemma_closing_settled(
    text: Seq<u8>,
    cursor: Cursor,
    level: int,
    inner: bool,
    end: int,
    close: u8,
)
    requires
        settled(text, cursor),
        render_closing(text, cursor, level, inner, end, close) is Some,
    ensures
        settled(text, render_closing(text, cursor, level, inner, end, close)->0.cursor),
        render_closing(text, cursor, level, inner, end, close)->0.cursor.position > 0,
{
    reveal(flush_ready);
    lemma_comments_step(text, cursor, level + 1, end);
    let dangling = comments_step(text, cursor, level + 1, end);
    lemma_symbol_settled(text, dangling.cursor, level, inner, close);
}

/// The printing of a value accounts for the scalars and the comments.
proof fn lemma_value_accounts(
    text: Seq<u8>,
    values: Seq<ValueEntry>,
    index: int,
    cursor: Cursor,
    level: int,
    multiline: bool,
)
    requires
        settled(text, cursor),
        render_value(text, values, index, cursor, level, multiline) is Some,
    ensures
        cursor.position > 0 && all_nonempty(values) ==> render_value(
            text,
            values,
            index,
            cursor,
            level,
            multiline,
        )->0.cursor.position > 0,
        settled(text, render_value(text, values, index, cursor, level, multiline)->0.cursor),
        walk_accounts(
            values,
            index,
            cursor.ledger,
            render_value(text, values, index, cursor, level, multiline)->0,
        ),
        index < render_value(text, values, index, cursor, level, multiline)->0.next,
    decreases values.len() - index, 3int,
{
    if !multiline {
        lemma_content_accounts(text, values, index, cursor, level, multiline);
    } else {
        let lead = lead_in_step(text, cursor, level, values[index].position as int);
        lemma_lead_in_accounts(text, cursor, level, values[index].position as int);
        lemma_lead_in_settled(text, cursor, level, values[index].position as int);
        lemma_content_accounts(text, values, index, lead.cursor, level, multiline);
        lemma_step_walk_account(
            values,
            index,
            cursor.ledger,
            lead,
            render_content(text, values, index, lead.cursor, level, multiline)->0,
        );
    }
}

/// The printing of a member's value accounts for the scalars and the
/// comments.
proof fn lemma_member_value_accounts(
    text: Seq<u8>,
    values: Seq<ValueEntry>,
    index: int,
    cursor: Cursor,
    level: int,
    multiline: bool,
)
    requires
        settled(text, cursor),
        render_member_value(text, values, index, cursor, level, multiline) is Some,
    ensures
        cursor.position > 0 && all_nonempty(values) ==> render_member_value(
            text,
            values,
            index,
            cursor,
            level,
            multiline,
        )->0.cursor.position > 0,
        settled(text, render_member_value(text, values, index, cursor, level, multiline)->0.cursor),
        walk_accounts(
            values,
            index,
            cursor.ledger,
            render_member_value(text, values, index, cursor, level, multiline)->0,
        ),
        index < render_member_value(text, values, index, cursor, level, multiline)->0.next,
    decreases values.len() - index, 3int,
{
    if earliest_before(cursor.ledger, values[index].position as int) is None {
        let lead = cursor.stay().with_piece(Piece::Space);
        lemma_conserved_none(cursor.ledger);
        lemma_conserved_plain(cursor.ledger, Seq::empty(), cursor.ledger, Piece::Space);
        lemma_content_accounts(text, values, index, cursor, level, multiline);
        lemma_step_walk_account(
            values,
            index,
            cursor.ledger,
            lead,
            render_content(text, values, index, cursor, level, multiline)->0,
        );
    } else {
        let lead = lead_in_step(text, cursor, level, values[index].position as int);
        lemma_lead_in_accounts(text, cursor, level, values[index].position as int);
        lemma_lead_in_settled(text, cursor, level, values[index].position as int);
        lemma_content_accounts(text, values, index, lead.cursor, level, multiline);
        lemma_step_walk_account(
            values,
            index,
            cursor.ledger,
            lead,
            render_content(text, values, index, lead.cursor, level, multiline)->0,
        );
    }
}

/// The printing of a value where the cursor stands accounts for the
/// scalars and the comments.
proof fn lemma_content_accounts(
    text: Seq<u8>,
    values: Seq<ValueEntry>,
    index: int,
    cursor: Cursor,
    level: int,
    multiline: bool,
)
    requires
        settled(text, cursor),
        render_content(text, values, index, cursor, level, multiline) is Some,
    ensures
        cursor.position > 0 && all_nonempty(values) ==> render_content(
            text,
            values,
            index,
            cursor,
            level,
            multiline,
        )->0.cursor.position > 0,
        settled(text, render_content(text, values, index, cursor, level, multiline)->0.cursor),
        walk_accounts(
            values,
            index,
            cursor.ledger,
            render_content(text, values, index, cursor, level, multiline)->0,
        ),
        index < render_content(text, values, index, cursor, level, multiline)->0.next,
    decreases values.len() - index, 2int,
{
    if values[index].is_scalar() {
        lemma_conserved_none(cursor.ledger);
        lemma_conserved_plain(
            cursor.ledger,
            Seq::empty(),
            cursor.ledger,
            Piece::Scalar(values[index]),
        );
        assert(seq![Piece::Scalar(values[index])] == Seq::<Piece>::empty().push(
            Piece::Scalar(values[index]),
        ));
        assert(scalars_in(values, index, index + 1) == Seq::<ValueEntry>::empty().push(
            values[index],
        )) by {
            assert(scalars_in(values, index, index) == Seq::<ValueEntry>::empty());
        }
    } else {
        lemma_container_accounts(text, values, index, cursor, level, multiline);
    }
}

/// Ending a container writes no scalar and conserves the comments.
proof fn lemma_closing_accounts(
    text: Seq<u8>,
    cursor: Cursor,
    level: int,
    inner: bool,
    end: int,
    close: u8,
)
    requires
        render_closing(text, cursor, level, inner, end, close) is Some,
    ensures
        step_accounts(cursor.ledger, render_closing(text, cursor, level, inner, end, close)->0),
{
    let dangling = comments_step(text, cursor, level + 1, end);
    lemma_comments_accounts(text, cursor, level + 1, end);
    lemma_symbol_accounts(text, dangling.cursor, level, inner, close);
    lemma_steps_account(
        cursor.ledger,
        dangling,
        symbol_step(text, dangling.cursor, level, inner, close),
    );
}

/// The printing of an array or object accounts for the scalars and the
/// comments.
proof fn lemma_container_accounts(
    text: Seq<u8>,
    values: Seq<ValueEntry>,
    index: int,
    cursor: Cursor,
    level: int,
    multiline: bool,
)
    requires
        settled(text, cursor),
        render_container(text, values, index, cursor, level, multiline) is Some,
        !values[index].is_scalar(),
    ensures
        cursor.position > 0 && all_nonempty(values) ==> render_container(
            text,
            values,
            index,
            cursor,
            level,
            multiline,
        )->0.cursor.position > 0,
        settled(text, render_container(text, values, index, cursor, level, multiline)->0.cursor),
        walk_accounts(
            values,
            index,
            cursor.ledger,
            render_container(text, values, index, cursor, level, multiline)->0,
        ),
        index < render_container(text, values, index, cursor, level, multiline)->0.next,
    decreases values.len() - index, 1int,
{
    let value = values[index];
    let open = opening_symbol(value.kind);
    let close = closing_symbol(value.kind);
    let opened = symbol_step(text, cursor, level, multiline, open);
    let inner = needs_multiline(text, opened.cursor.ledger, value);
    let items =
        render_items(text, values, index, index + 1, opened.cursor, level + 1, inner, true)->0;
    let closing = render_closing(text, items.cursor, level, inner, value.end(), close)->0;
    lemma_symbol_accounts(text, cursor, level, multiline, open);
    lemma_symbol_settled(text, cursor, level, multiline, open);
    lemma_items_accounts(text, values, index, index + 1, opened.cursor, level + 1, inner, true);
    lemma_closing_accounts(text, items.cursor, level, inner, value.end(), close);
    lemma_closing_settled(text, items.cursor, level, inner, value.end(), close);
    lemma_step_walk_account(values, index + 1, cursor.ledger, opened, items);
    let filled = Walk {
        pieces: opened.pieces + items.pieces,
        cursor: items.cursor,
        next: items.next,
    };
    lemma_conserved_concat(
        cursor.ledger,
        filled.pieces,
        filled.cursor.ledger,
        closing.pieces,
        closing.cursor.ledger,
    );
    lemma_scalars_of_concat(filled.pieces, closing.pieces);
    lemma_scalars_in_split(values, index, index + 1, items.next);
    assert(scalars_in(values, index, index + 1) == Seq::<ValueEntry>::empty()) by {
        assert(scalars_in(values, index, index) == Seq::<ValueEntry>::empty());
    }
}

/// The printing of an element or member accounts for the scalars and the
/// comments.
proof fn lemma_item_accounts(
    text: Seq<u8>,
    values: Seq<ValueEntry>,
    parent: int,
    index: int,
    cursor: Cursor,
    level: int,
    multiline: bool,
    first: bool,
)
    requires
        settled(text, cursor),
        render_item(text, values, parent, index, cursor, level, multiline, first) is Some,
    ensures
        cursor.position > 0 && all_nonempty(values) ==> render_item(
            text,
            values,
            parent,
            index,
            cursor,
            level,
            multiline,
            first,
        )->0.cursor.position > 0,
        settled(
            text,
            render_item(text, values, parent, index, cursor, level, multiline, first)->0.cursor,
        ),
        walk_accounts(
            values,
            index,
            cursor.ledger,
            render_item(text, values, parent, index, cursor, level, multiline, first)->0,
        ),
        index < render_item(text, values, parent, index, cursor, level, multiline, first)->0.next,
    decreases values.len() - index, 5int,
{
    let separated = if first {
        cursor.stay()
    } else {
        symbol_step(text, cursor, level, multiline, COMMA)
    };
    if first {
        lemma_conserved_none(cursor.ledger);
    } else {
        lemma_symbol_accounts(text, cursor, level, multiline, COMMA);
        lemma_symbol_settled(text, cursor, level, multiline, COMMA);
    }
    if values[parent].kind == ValueKind::Object {
        lemma_member_accounts(text, values, parent, index, separated.cursor, level, multiline);
        lemma_step_walk_account(
            values,
            index,
            cursor.ledger,
            separated,
            render_member(text, values, parent, index, separated.cursor, level, multiline)->0,
        );
    } else {
        lemma_value_accounts(text, values, index, separated.cursor, level, multiline);
        lemma_step_walk_account(
            values,
            index,
            cursor.ledger,
            separated,
            render_value(text, values, index, separated.cursor, level, multiline)->0,
        );
    }
}

/// The printing of what a container holds accounts for the scalars and the
/// comments.
proof fn lemma_items_accounts(
    text: Seq<u8>,
    values: Seq<ValueEntry>,
    parent: int,
    index: int,
    cursor: Cursor,
    level: int,
    multiline: bool,
    first: bool,
)
    requires
        settled(text, cursor),
        render_items(text, values, parent, index, cursor, level, multiline, first) is Some,
        index <= values.len(),
    ensures
        cursor.position > 0 && all_nonempty(values) ==> render_items(
            text,
            values,
            parent,
            index,
            cursor,
            level,
            multiline,
            first,
        )->0.cursor.position > 0,
        settled(
            text,
            render_items(text, values, parent, index, cursor, level, multiline, first)->0.cursor,
        ),
        walk_accounts(
            values,
            index,
            cursor.ledger,
            render_items(text, values, parent, index, cursor, level, multiline, first)->0,
        ),
    decreases values.len() - index, 6int,
{
    if index >= values.len() || values[index].position >= values[parent].end() {
        lemma_conserved_none(cursor.ledger);
    } else {
        let one = render_item(text, values, parent, index, cursor, level, multiline, first)->0;
        lemma_item_accounts(text, values, parent, index, cursor, level, multiline, first);
        lemma_items_accounts(text, values, parent, one.next, one.cursor, level, multiline, false);
        let rest = render_items(
            text,
            values,
            parent,
            one.next,
            one.cursor,
            level,
            multiline,
            false,
        )->0;
        lemma_conserved_concat(
            cursor.ledger,
            one.pieces,
            one.cursor.ledger,
            rest.pieces,
            rest.cursor.ledger,
        );
        lemma_scalars_of_concat(one.pieces, rest.pieces);
        lemma_scalars_in_split(values, index, one.next, rest.next);
    }
}

/// The printing of a member accounts for the scalars and the comments.
proof fn lemma_member_accounts(
    text: Seq<u8>,
    values: Seq<ValueEntry>,
    parent: int,
    index: int,
    cursor: Cursor,
    level: int,
    multiline: bool,
)
    requires
        settled(text, cursor),
        render_member(text, values, parent, index, cursor, level, multiline) is Some,
    ensures
        cursor.position > 0 && all_nonempty(values) ==> render_member(
            text,
            values,
            parent,
            index,
            cursor,
            level,
            multiline,
        )->0.cursor.position > 0,
        settled(
            text,
            render_member(text, values, parent, index, cursor, level, multiline)->0.cursor,
        ),
        walk_accounts(
            values,
            index,
            cursor.ledger,
            render_member(text, values, parent, index, cursor, level, multiline)->0,
        ),
        index < render_member(text, values, parent, index, cursor, level, multiline)->0.next,
    decreases values.len() - index, 4int,
{
    let name = render_value(text, values, index, cursor, level, multiline)->0;
    lemma_value_accounts(text, values, index, cursor, level, multiline);
    let colon = symbol_step(text, name.cursor, level, multiline, COLON);
    lemma_symbol_accounts(text, name.cursor, level, multiline, COLON);
    lemma_symbol_settled(text, name.cursor, level, multiline, COLON);
    let value = render_member_value(text, values, name.next, colon.cursor, level, multiline)->0;
    lemma_member_value_accounts(text, values, name.next, colon.cursor, level, multiline);
    lemma_step_walk_account(values, name.next, name.cursor.ledger, colon, value);
    let tail = Walk {
        pieces: colon.pieces + value.pieces,
        cursor: value.cursor,
        next: value.next,
    };
    lemma_conserved_concat(
        cursor.ledger,
        name.pieces,
        name.cursor.ledger,
        tail.pieces,
        tail.cursor.ledger,
    );
    lemma_scalars_of_concat(name.pieces, tail.pieces);
    lemma_scalars_in_split(values, index, name.next, value.next);
}

/// Comment conservation: the comments that are written when a document is
/// printed are those that it was printed with, each as often as it was
/// given. A document that is printed without comments has none written.
pub proof fn lemma_comment_conservation(
    text: Seq<u8>,
    values: Seq<ValueEntry>,
    ledger: Seq<CommentRange>,
)
    requires
        render_document(text, values, ledger) is Some,
    ensures
        comments_of(render_document(text, values, ledger)->0).to_multiset() == ledger.to_multiset(),
        ledger.len() == 0 ==> comments_of(render_document(text, values, ledger)->0).len() == 0,
{
    broadcast use vstd::seq_lib::group_to_multiset_ensures;

    let start = Cursor { position: 0, ledger };
    let multiline = needs_multiline(text, ledger, values[0]);
    let walk = render_value(text, values, 0, start, 0, multiline)->0;
    lemma_value_accounts(text, values, 0, start, 0, multiline);
    let rest = comments_step(text, walk.cursor, 0, text.len() as int);
    lemma_comments_accounts(text, walk.cursor, 0, text.len() as int);
    lemma_comments_step(text, walk.cursor, 0, text.len() as int);
    let left = rest.cursor.ledger;
    assert(left.len() == 0) by {
        if left.len() > 0 {
            assert(left[0].start >= text.len());
        }
    }
    assert(left.to_multiset() =~= Multiset::empty());
    lemma_conserved_concat(ledger, walk.pieces, walk.cursor.ledger, rest.pieces, left);
    lemma_conserved_plain(ledger, walk.pieces + rest.pieces, left, Piece::Newline);
    let all = comments_of(render_document(text, values, ledger)->0);
    assert(all.to_multiset() =~= ledger.to_multiset());
    if ledger.len() == 0 {
        assert(all.to_multiset().len() == 0);
    }
}

/// Whether `out` holds `part` at `offset`.
pub open spec fn occurs_at(out: Seq<u8>, part: Seq<u8>, offset: int) -> bool {
    &&& 0 <= offset
    &&& offset + part.len() <= out.len()
    &&& out.subrange(offset, offset + part.len()) == part
}

/// The bytes of each piece stand in the output, behind those of the pieces
/// before it.
pub proof fn lemma_piece_occurs(text: Seq<u8>, pieces: Seq<Piece>, i: int)
    requires
        0 <= i < pieces.len(),
    ensures
        occurs_at(
            flatten(text, pieces),
            piece_bytes(text, pieces[i]),
            flatten(text, pieces.take(i)).len() as int,
        ),
    decreases pieces.len(),
{
    let head = pieces.drop_last();
    let out = flatten(text, pieces);
    if i == pieces.len() - 1 {
        assert(pieces.take(i) == head);
        assert(out.subrange(
            flatten(text, head).len() as int,
            (flatten(text, head).len() + piece_bytes(text, pieces[i]).len()) as int,
        ) == piece_bytes(text, pieces[i]));
    } else {
        lemma_piece_occurs(text, head, i);
        assert(pieces.take(i) == head.take(i));
        let offset = flatten(text, head.take(i)).len() as int;
        let part = piece_bytes(text, pieces[i]);
        assert(out.subrange(offset, offset + part.len()) == flatten(text, head).subrange(
            offset,
            offset + part.len(),
        ));
    }
}

/// A scalar that is counted among the pieces is one of them.
pub proof fn lemma_scalar_piece(pieces: Seq<Piece>, value: ValueEntry)
    requires
        scalars_of(pieces).contains(value),
    ensures
        exists|i: int| 0 <= i < pieces.len() && pieces[i] == Piece::Scalar(value),
    decreases pieces.len(),
{
    if pieces.len() > 0 {
        let head = pieces.drop_last();
        if pieces.last() == Piece::Scalar(value) {
            assert(pieces[pieces.len() - 1] == Piece::Scalar(value));
        } else {
            let k = choose|k: int|
                0 <= k < scalars_of(pieces).len() && scalars_of(pieces)[k] == value;
            match pieces.last() {
                Piece::Scalar(v) => {
                    assert(scalars_of(pieces) == scalars_of(head).push(v));
                    assert(scalars_of(head)[k] == value);
                },
                _ => {
                    assert(scalars_of(head)[k] == value);
                },
            }
            lemma_scalar_piece(head, value);
            let i = choose|i: int| 0 <= i < head.len() && head[i] == Piece::Scalar(value);
            assert(pieces[i] == Piece::Scalar(value));
        }
    }
}

/// Every scalar of the values from `from` up to `to` is counted among
/// their scalars.
pub proof fn lemma_scalars_in_contains(values: Seq<ValueEntry>, from: int, to: int, j: int)
    requires
        0 <= from <= j < to <= values.len(),
        values[j].is_scalar(),
    ensures
        scalars_in(values, from, to).contains(values[j]),
    decreases to - from,
{
    let head = scalars_in(values, from, to - 1);
    if j == to - 1 {
        assert(head.push(values[j])[head.len() as int] == values[j]);
    } else {
        lemma_scalars_in_contains(values, from, to - 1, j);
        let k = choose|k: int| 0 <= k < head.len() && head[k] == values[j];
        if values[to - 1].is_scalar() {
            assert(head.push(values[to - 1])[k] == values[j]);
        }
    }
}

/// Content preservation: the scalars that are written when a document is
/// printed are the scalars of its values, each once and in their order, and
/// the bytes of each stand in the output as they stand in the text.
pub proof fn lemma_content_preservation(
    text: Seq<u8>,
    values: Seq<ValueEntry>,
    ledger: Seq<CommentRange>,
)
    requires
        render_document(text, values, ledger) is Some,
    ensures
        scalars_of(render_document(text, values, ledger)->0) == scalars_in(
            values,
            0,
            values.len() as int,
        ),
        forall|j: int|
            0 <= j < values.len() && (#[trigger] values[j]).is_scalar() ==> exists|offset: int|
                occurs_at(
                    flatten(text, render_document(text, values, ledger)->0),
                    text.subrange(values[j].position as int, values[j].end()),
                    offset,
                ),
{
    let pieces = render_document(text, values, ledger)->0;
    let start = Cursor { position: 0, ledger };
    let multiline = needs_multiline(text, ledger, values[0]);
    let walk = render_value(text, values, 0, start, 0, multiline)->0;
    lemma_value_accounts(text, values, 0, start, 0, multiline);
    let rest = comments_step(text, walk.cursor, 0, text.len() as int);
    lemma_comments_accounts(text, walk.cursor, 0, text.len() as int);
    lemma_scalars_of_concat(walk.pieces, rest.pieces);
    lemma_conserved_concat(
        ledger,
        walk.pieces,
        walk.cursor.ledger,
        rest.pieces,
        rest.cursor.ledger,
    );
    lemma_conserved_plain(
        ledger,
        walk.pieces + rest.pieces,
        rest.cursor.ledger,
        Piece::Newline,
    );
    assert forall|j: int| 0 <= j < values.len() && (#[trigger] values[j]).is_scalar() implies exists|
        offset: int,
    |
        occurs_at(
            flatten(text, pieces),
            text.subrange(values[j].position as int, values[j].end()),
            offset,
        ) by {
        lemma_scalars_in_contains(values, 0, values.len() as int, j);
        lemma_scalar_piece(pieces, values[j]);
        let i = choose|i: int| 0 <= i < pieces.len() && pieces[i] == Piece::Scalar(values[j]);
        lemma_piece_occurs(text, pieces, i);
        assert(occurs_at(
            flatten(text, pieces),
            text.subrange(values[j].position as int, values[j].end()),
            flatten(text, pieces.take(i)).len() as int,
        ));
    }
}

/// Whether one of the comments starts inside `value`.
pub open spec fn comment_inside(ledger: Seq<CommentRange>, value: ValueEntry) -> bool {
    exists|i: int|
        #![trigger ledger[i]]
        0 <= i < ledger.len() && value.position <= ledger[i].start < value.end()
}

/// The layout oracle says that a container takes several lines exactly if
/// its bytes hold a line feed or one of the pending comments starts inside
/// it.
pub proof fn lemma_needs_multiline(text: Seq<u8>, ledger: Seq<CommentRange>, value: ValueEntry)
    requires
        ordered(ledger),
    ensures
        needs_multiline(text, ledger, value) <==> (holds_byte(
            text,
            LINE_FEED,
            value.position as int,
            value.end(),
        ) || comment_inside(ledger, value)),
{
    reveal(needs_multiline);
    lemma_rank(ledger, value.position as int);
    let k = rank(ledger, value.position as int);
    if comment_inside(ledger, value) {
        let i = choose|i: int|
            #![trigger ledger[i]]
            0 <= i < ledger.len() && value.position <= ledger[i].start < value.end();
        assert(k <= i);
        if k < i {
            assert(ledger[k].start < ledger[i].start);
        }
    }
}

/// The pieces that stand between what a container holds, the comments
/// before its end included, and its closing symbol.
pub open spec fn closing_lead(
    text: Seq<u8>,
    cursor: Cursor,
    level: int,
    inner: bool,
    end: int,
    close: u8,
) -> Seq<Piece> {
    let dangling = comments_step(text, cursor, level + 1, end);
    symbol_lead_step(
        text,
        dangling.cursor,
        level,
        inner,
        close,
        symbol_index(text, dangling.cursor.ledger, close, dangling.cursor.position),
    ).pieces
}

/// The closing symbol of a container that takes several lines is preceded
/// by a line break and the indentation of the container. The closing symbol
/// of a container that takes one line, and that stands inside the
/// container, is preceded by neither.
pub proof fn lemma_closing_layout(
    text: Seq<u8>,
    cursor: Cursor,
    level: int,
    inner: bool,
    end: int,
    close: u8,
)
    requires
        settled(text, cursor),
        cursor.position > 0,
        is_closing(close),
        render_closing(text, cursor, level, inner, end, close) is Some,
        render_closing(text, cursor, level, inner, end, close)->0.cursor.position <= end,
    ensures
        render_closing(text, cursor, level, inner, end, close)->0.pieces == comments_step(
            text,
            cursor,
            level + 1,
            end,
        ).pieces + closing_lead(text, cursor, level, inner, end, close).push(Piece::Symbol(close)),
        inner ==> closing_lead(text, cursor, level, inner, end, close).len() > 0 && closing_lead(
            text,
            cursor,
            level,
            inner,
            end,
            close,
        ).last() == Piece::Break(level * INDENT_SIZE),
        !inner ==> closing_lead(text, cursor, level, inner, end, close).len() == 0,
{
    reveal(symbol_step);
    reveal(flush_ready);
    reveal(symbol_ready);
    lemma_comments_step(text, cursor, level + 1, end);
    let dangling = comments_step(text, cursor, level + 1, end);
    let at = symbol_index(
        text,
        dangling.cursor.ledger,
        close,
        dangling.cursor.position,
    );
    lemma_symbol_index(text, dangling.cursor.ledger, close, dangling.cursor.position);
    if inner {
        let flushed = comments_step(text, dangling.cursor, level, at + 1);
        let from = flushed.ending_at(at);
        let ind = indent_step(text, from.cursor, level, at + 1);
        assert(ind.pieces.last() == Piece::Break(level * INDENT_SIZE));
        assert((flushed.pieces + ind.pieces).last() == ind.pieces.last());
    } else {
        let ledger = dangling.cursor.ledger;
        if ledger.len() > 0 {
            assert(ledger[0].start >= end);
        }
    }
}

/// The layout of the values of a container. In a container that takes
/// several lines each element and each member name is written behind
/// a line break and the indentation of its depth, behind the comments that
/// precede it. In a container that takes one line the value is written
/// where the cursor stands.
pub proof fn lemma_value_layout(
    text: Seq<u8>,
    values: Seq<ValueEntry>,
    index: int,
    cursor: Cursor,
    level: int,
    multiline: bool,
)
    requires
        settled(text, cursor),
        cursor.position > 0,
        render_value(text, values, index, cursor, level, multiline) is Some,
    ensures
        !multiline ==> render_value(text, values, index, cursor, level, multiline)
            == render_content(text, values, index, cursor, level, multiline),
        multiline ==> lead_in_step(text, cursor, level, values[index].position as int).pieces.len()
            > 0 && lead_in_step(text, cursor, level, values[index].position as int).pieces.last()
            == Piece::Break(level * INDENT_SIZE) && render_value(
            text,
            values,
            index,
            cursor,
            level,
            multiline,
        )->0.pieces == lead_in_step(text, cursor, level, values[index].position as int).pieces
            + render_content(
            text,
            values,
            index,
            lead_in_step(text, cursor, level, values[index].position as int).cursor,
            level,
            multiline,
        )->0.pieces,
{
    if multiline {
        reveal(lead_in_step);
        reveal(flush_ready);
        let position = values[index].position as int;
        lemma_comments_step(text, cursor, level, position);
        let flushed = comments_step(text, cursor, level, position);
        let ind = indent_step(text, flushed.cursor, level, position);
        assert(ind.pieces.last() == Piece::Break(level * INDENT_SIZE));
        assert((flushed.pieces + ind.pieces).last() == ind.pieces.last());
    }
}

/// The layout of a container's end. The container takes several lines
/// exactly if its bytes hold a line feed or a comment that is pending once
/// its opening symbol is written starts inside it. Where it takes several
/// lines, its closing symbol stands on a line of its own, at the
/// indentation of the container. Where it takes one line, nothing stands
/// between what it holds and its closing symbol, provided that symbol is
/// found inside the container. What the container holds is printed one
/// level deeper in the same way.
pub proof fn lemma_container_end_layout(
    text: Seq<u8>,
    values: Seq<ValueEntry>,
    index: int,
    cursor: Cursor,
    level: int,
    multiline: bool,
)
    requires
        settled(text, cursor),
        all_nonempty(values),
        render_container(text, values, index, cursor, level, multiline) is Some,
        !values[index].is_scalar(),
        render_container(text, values, index, cursor, level, multiline)->0.cursor.position
            <= values[index].end(),
    ensures
        ({
            let value = values[index];
            let opened = symbol_step(
                text,
                cursor,
                level,
                multiline,
                opening_symbol(value.kind),
            );
            let several = holds_byte(
                text,
                LINE_FEED,
                value.position as int,
                value.end(),
            ) || comment_inside(opened.cursor.ledger, value);
            let items = render_items(
                text,
                values,
                index,
                index + 1,
                opened.cursor,
                level + 1,
                several,
                true,
            );
            let lead = closing_lead(
                text,
                items->0.cursor,
                level,
                several,
                value.end(),
                closing_symbol(value.kind),
            );
            &&& items is Some
            &&& several ==> lead.len() > 0 && lead.last() == Piece::Break(
                level * INDENT_SIZE,
            )
            &&& !several ==> lead.len() == 0
        }),
{
    let value = values[index];
    let open = opening_symbol(value.kind);
    let close = closing_symbol(value.kind);
    let opened = symbol_step(text, cursor, level, multiline, open);
    lemma_symbol_settled(text, cursor, level, multiline, open);
    lemma_well_placed_ordered(opened.cursor.ledger, text.len() as int);
    lemma_needs_multiline(text, opened.cursor.ledger, value);
    let inner = needs_multiline(text, opened.cursor.ledger, value);
    let items =
        render_items(text, values, index, index + 1, opened.cursor, level + 1, inner, true)->0;
    lemma_items_accounts(text, values, index, index + 1, opened.cursor, level + 1, inner, true);
    lemma_closing_layout(text, items.cursor, level, inner, value.end(), close);
}

} // verus!
