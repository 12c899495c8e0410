//! Documents that agree with their text, and why they can always be
//! printed.
//!
//! A document agrees with a text if its values lie in the text as a parser
//! finds them: every array and object between its brackets, what it holds
//! inside it and in order, with a comma between two neighbours and a colon
//! between a name and its value, and nothing but white space and comments
//! in between.

use crate::document::{ValueEntry, ValueKind};
use crate::laws::{comments_of, lemma_comments_of_concat};
use crate::layout::{
    blank_line_step, clear_at, comments_step, flush_ready, in_comment, indent_step, is_closing,
    leading_step, lemma_indent_step, lemma_indent_step_ledger, lemma_symbol_index_skip,
    needs_multiline, pending_ahead, symbol_index, symbol_lead_step, symbol_step, trailing_step,
    Cursor, Piece, COLON, COMMA, INDENT_SIZE,
};
use crate::ledger::{
    earliest_before, lemma_rank, lemma_rank_unique, lemma_well_placed_ordered, ordered, rank,
    well_placed, CommentRange,
};
use crate::render::{
    closing_symbol, lead_in_step, opening_symbol, render_container, render_content,
    render_document, render_item, render_items, render_member, render_member_value, render_value,
    symbol_ready, Walk,
};
use crate::text::{holds_byte, LINE_FEED};
use vstd::prelude::*;

verus! {

/// The comments of `all` that start at or behind `position`.
pub open spec fn pending_from(all: Seq<CommentRange>, position: int) -> Seq<CommentRange> {
    all.skip(rank(all, position))
}

/// Whether the cursor lies in the text, outside the comments, with exactly
/// the comments behind it still pending.
pub open spec fn synced(text: Seq<u8>, all: Seq<CommentRange>, cursor: Cursor) -> bool {
    &&& 0 <= cursor.position <= text.len()
    &&& cursor.ledger == pending_from(all, cursor.position)
    &&& forall|i: int|
        #![trigger all[i]]
        0 <= i < rank(all, cursor.position) ==> all[i].end <= cursor.position
}

/// The rank grows with the bound.
pub proof fn lemma_rank_monotone(all: Seq<CommentRange>, low: int, high: int)
    requires
        ordered(all),
        low <= high,
    ensures
        rank(all, low) <= rank(all, high),
{
    lemma_rank(all, low);
    lemma_rank(all, high);
    let a = rank(all, low);
    let b = rank(all, high);
    if b < a {
        assert(all[b].start < low);
        assert(all[b].start >= high);
    }
}

/// Skipping comments of well-placed comments leaves well-placed comments.
pub proof fn lemma_skip_well_placed(all: Seq<CommentRange>, len: int, n: int)
    requires
        well_placed(all, len),
        0 <= n <= all.len(),
    ensures
        well_placed(all.skip(n), len),
{
    let rest = all.skip(n);
    assert forall|i: int| 0 <= i < rest.len() implies rest[i].start < rest[i].end && rest[i].end
        <= len by {
        assert(rest[i] == all[i + n]);
    }
    assert forall|i: int, j: int| 0 <= i < j < rest.len() implies rest[i].end <= rest[j].start by {
        assert(rest[i] == all[i + n]);
        assert(rest[j] == all[j + n]);
    }
}

/// The cursor that stands behind the first `n` comments, at `position`.
pub open spec fn cursor_behind(all: Seq<CommentRange>, n: int, position: int) -> Cursor {
    Cursor { position, ledger: all.skip(n) }
}

/// Whether a cursor at `position` has the first `n` comments behind it and
/// the others before it.
pub open spec fn splits(all: Seq<CommentRange>, n: int, position: int) -> bool {
    &&& 0 <= n <= all.len()
    &&& forall|i: int| #![trigger all[i]] 0 <= i < n ==> all[i].end <= position
    &&& forall|i: int| #![trigger all[i]] n <= i < all.len() ==> all[i].start >= position
}

/// A cursor that splits the comments at `n` has that rank.
pub proof fn lemma_splits_rank(all: Seq<CommentRange>, len: int, n: int, position: int)
    requires
        well_placed(all, len),
        splits(all, n, position),
    ensures
        rank(all, position) == n,
{
    assert forall|i: int| 0 <= i < n implies all[i].start < position by {
        assert(all[i].start < all[i].end);
    }
    lemma_rank_unique(all, position, n);
}

/// Where the cursor stands once the comments before `position` are written
/// from a cursor at `from` that has `n` comments behind it: behind the last
/// of them, or where it stood if there were none.
pub open spec fn flushed_position(all: Seq<CommentRange>, n: int, from: int, position: int) -> int {
    let m = rank(all, position);
    if m > n {
        all[m - 1].end as int
    } else {
        from
    }
}

/// The number of comments that lie behind the cursor once the comments
/// before `position` are written from a cursor that has `n` behind it.
pub open spec fn flushed_count(all: Seq<CommentRange>, n: int, position: int) -> int {
    let m = rank(all, position);
    if m > n {
        m
    } else {
        n
    }
}

/// Starting a line writes no comment.
pub proof fn lemma_indent_writes_no_comment(text: Seq<u8>, cursor: Cursor, level: int, position: int)
    ensures
        comments_of(indent_step(text, cursor, level, position).pieces) == Seq::<
            CommentRange,
        >::empty(),
{
    let blank = blank_line_step(text, cursor, position);
    assert(comments_of(blank.pieces) == Seq::<CommentRange>::empty()) by {
        reveal_with_fuel(comments_of, 2);
        if blank.pieces.len() > 0 {
            assert(blank.pieces.drop_last() == Seq::<Piece>::empty());
            assert(blank.pieces.last() == Piece::Newline);
        }
    }
    if cursor.position != 0 {
        let piece = Piece::Break(level * INDENT_SIZE);
        assert(blank.pieces.push(piece).drop_last() == blank.pieces);
    }
}

/// Leading-comment emission takes the comments before `position` in their
/// order, writes them in that order, and leaves the cursor behind the last
/// of them.
pub proof fn lemma_leading_splits(
    text: Seq<u8>,
    all: Seq<CommentRange>,
    n: int,
    from: int,
    level: int,
    position: int,
)
    requires
        well_placed(all, text.len() as int),
        splits(all, n, from),
    ensures
        leading_step(text, cursor_behind(all, n, from), level, position).cursor == cursor_behind(
            all,
            flushed_count(all, n, position),
            flushed_position(all, n, from, position),
        ),
        comments_of(leading_step(text, cursor_behind(all, n, from), level, position).pieces)
            == all.subrange(n, flushed_count(all, n, position)),
    decreases all.len() - n,
{
    let cursor = cursor_behind(all, n, from);
    let ledger = cursor.ledger;
    lemma_rank(all, position);
    let m = rank(all, position);
    if ledger.len() == 0 || ledger[0].start >= position {
        if n < all.len() {
            assert(ledger[0] == all[n]);
            if m > n {
                assert(all[n].start < position);
            }
        }
        assert(all.subrange(n, n) == Seq::<CommentRange>::empty());
    } else {
        assert(ledger[0] == all[n]);
        let c = all[n];
        assert(ledger.remove(0) =~= all.skip(n + 1));
        assert(splits(all, n + 1, c.end as int)) by {
            assert forall|i: int| #![trigger all[i]] 0 <= i < n + 1 implies all[i].end
                <= c.end by {
                if i < n {
                    assert(all[i].end <= all[n].start);
                }
            }
            assert forall|i: int| #![trigger all[i]] n + 1 <= i < all.len() implies all[i].start
                >= c.end by {
                assert(all[n].end <= all[i].start);
            }
        }
        lemma_leading_splits(text, all, n + 1, c.end as int, level, position);
        lemma_indent_step_ledger(text, cursor, level, c.start as int);
        if m <= n {
            assert(all[n].start >= position);
        }
        let ind = indent_step(text, cursor, level, c.start as int);
        let piece = Piece::Leading(c, level * INDENT_SIZE);
        let rest = leading_step(text, cursor_behind(all, n + 1, c.end as int), level, position);
        lemma_indent_writes_no_comment(text, cursor, level, c.start as int);
        assert(ind.pieces.push(piece).drop_last() == ind.pieces);
        lemma_comments_of_concat(ind.pieces.push(piece), rest.pieces);
        assert(seq![c] + all.subrange(n + 1, m) == all.subrange(n, m));
    }
}

/// Trailing-comment emission takes some of the comments before
/// `next_position` in their order, writes them in that order, and leaves
/// the cursor behind the last of them. Returns how many comments lie behind
/// the cursor afterwards.
pub proof fn lemma_trailing_splits(
    text: Seq<u8>,
    all: Seq<CommentRange>,
    n: int,
    from: int,
    next_position: int,
) -> (m: int)
    requires
        well_placed(all, text.len() as int),
        splits(all, n, from),
    ensures
        n <= m <= flushed_count(all, n, next_position),
        splits(
            all,
            m,
            if m > n {
                all[m - 1].end as int
            } else {
                from
            },
        ),
        trailing_step(text, cursor_behind(all, n, from), next_position).cursor == cursor_behind(
            all,
            m,
            if m > n {
                all[m - 1].end as int
            } else {
                from
            },
        ),
        comments_of(trailing_step(text, cursor_behind(all, n, from), next_position).pieces)
            == all.subrange(n, m),
    decreases all.len() - n,
{
    let cursor = cursor_behind(all, n, from);
    let ledger = cursor.ledger;
    lemma_rank(all, next_position);
    lemma_skip_well_placed(all, text.len() as int, n);
    assert(rank(ledger, from) == 0) by {
        assert forall|i: int| 0 <= i < ledger.len() implies ledger[i].start >= from by {
            assert(ledger[i] == all[i + n]);
        }
        lemma_rank_unique(ledger, from, 0);
    }
    if from == 0 || !(0 < ledger.len()) || ledger[0].start >= next_position || holds_byte(
        text,
        LINE_FEED,
        from,
        ledger[0].end as int,
    ) {
        assert(all.subrange(n, n) == Seq::<CommentRange>::empty());
        n
    } else {
        assert(ledger[0] == all[n]);
        let c = all[n];
        assert(ledger.remove(0) =~= all.skip(n + 1));
        assert(splits(all, n + 1, c.end as int)) by {
            assert forall|i: int| #![trigger all[i]] 0 <= i < n + 1 implies all[i].end
                <= c.end by {
                if i < n {
                    assert(all[i].end <= all[n].start);
                }
            }
            assert forall|i: int| #![trigger all[i]] n + 1 <= i < all.len() implies all[i].start
                >= c.end by {
                assert(all[n].end <= all[i].start);
            }
        }
        let m = lemma_trailing_splits(text, all, n + 1, c.end as int, next_position);
        assert(rank(all, next_position) > n) by {
            if rank(all, next_position) <= n {
                assert(all[n].start >= next_position);
            }
        }
        let rest = trailing_step(text, cursor_behind(all, n + 1, c.end as int), next_position);
        let head = seq![Piece::Space, Piece::Trailing(c)];
        assert(comments_of(head) == seq![c]) by {
            reveal_with_fuel(comments_of, 3);
            assert(head.drop_last() == seq![Piece::Space]);
            assert(head.last() == Piece::Trailing(c));
            assert(seq![Piece::Space].drop_last() == Seq::<Piece>::empty());
            assert(seq![Piece::Space].last() == Piece::Space);
            assert(Seq::<CommentRange>::empty().push(c) == seq![c]);
        }
        lemma_comments_of_concat(head, rest.pieces);
        assert(seq![c] + all.subrange(n + 1, m) == all.subrange(n, m));
        m
    }
}

/// A cursor that is in step with the comments splits them at its rank.
pub proof fn lemma_synced_splits(text: Seq<u8>, all: Seq<CommentRange>, cursor: Cursor)
    requires
        well_placed(all, text.len() as int),
        synced(text, all, cursor),
    ensures
        splits(all, rank(all, cursor.position), cursor.position),
        cursor == cursor_behind(all, rank(all, cursor.position), cursor.position),
        pending_ahead(cursor, text.len() as int + 1),
{
    lemma_rank(all, cursor.position);
    let n = rank(all, cursor.position);
    assert forall|i: int|
        #![trigger cursor.ledger[i]]
        0 <= i < cursor.ledger.len() implies cursor.position <= cursor.ledger[i].start by {
        assert(cursor.ledger[i] == all[i + n]);
    }
}

/// A cursor that splits the comments is in step with them.
pub proof fn lemma_splits_synced(text: Seq<u8>, all: Seq<CommentRange>, n: int, position: int)
    requires
        well_placed(all, text.len() as int),
        splits(all, n, position),
        0 <= position <= text.len(),
    ensures
        synced(text, all, cursor_behind(all, n, position)),
        rank(all, position) == n,
{
    lemma_splits_rank(all, text.len() as int, n, position);
}

/// Behind a cursor that is in step with the comments, an offset lies in a
/// pending comment exactly if it lies in any comment.
pub proof fn lemma_in_comment_pending(
    text: Seq<u8>,
    all: Seq<CommentRange>,
    cursor: Cursor,
    at: int,
)
    requires
        well_placed(all, text.len() as int),
        synced(text, all, cursor),
        cursor.position <= at,
    ensures
        in_comment(cursor.ledger, at) == in_comment(all, at),
{
    lemma_rank(all, cursor.position);
    let n = rank(all, cursor.position);
    if in_comment(all, at) {
        let i = choose|i: int|
            #![trigger all[i]]
            0 <= i < all.len() && all[i].start <= at < all[i].end;
        assert(i >= n);
        assert(cursor.ledger[i - n] == all[i]);
    }
    if in_comment(cursor.ledger, at) {
        let i = choose|i: int|
            #![trigger cursor.ledger[i]]
            0 <= i < cursor.ledger.len() && cursor.ledger[i].start <= at < cursor.ledger[i].end;
        assert(cursor.ledger[i] == all[i + n]);
    }
}

/// The comments that lie between two offsets that lie in no comment: those
/// that start at or behind `from` and before `to`.
pub open spec fn comments_between(all: Seq<CommentRange>, from: int, to: int) -> Seq<CommentRange> {
    all.subrange(rank(all, from), rank(all, to))
}

/// Whether the pieces hold, in the order of the text, the comments that lie
/// between where the cursor stood and where it stands.
pub open spec fn in_order(
    all: Seq<CommentRange>,
    before: Cursor,
    pieces: Seq<Piece>,
    after: Cursor,
) -> bool {
    &&& before.position <= after.position
    &&& comments_of(pieces) == comments_between(all, before.position, after.position)
}

/// Pieces that hold the comments in order one after the other hold them in
/// order together.
pub proof fn lemma_in_order_concat(
    all: Seq<CommentRange>,
    before: Cursor,
    first: Seq<Piece>,
    between: Cursor,
    second: Seq<Piece>,
    after: Cursor,
)
    requires
        ordered(all),
        in_order(all, before, first, between),
        in_order(all, between, second, after),
    ensures
        in_order(all, before, first + second, after),
{
    lemma_comments_of_concat(first, second);
    lemma_rank(all, before.position);
    lemma_rank(all, between.position);
    lemma_rank(all, after.position);
    lemma_rank_monotone(all, before.position, between.position);
    lemma_rank_monotone(all, between.position, after.position);
    let a = rank(all, before.position);
    let b = rank(all, between.position);
    let c = rank(all, after.position);
    assert(all.subrange(a, b) + all.subrange(b, c) == all.subrange(a, c));
}

/// Pieces without a comment hold the comments in order over a stretch in
/// which no comment starts.
pub proof fn lemma_in_order_none(
    all: Seq<CommentRange>,
    before: Cursor,
    pieces: Seq<Piece>,
    after: Cursor,
)
    requires
        ordered(all),
        before.position <= after.position,
        calm(all, before.position, after.position),
        comments_of(pieces) == Seq::<CommentRange>::empty(),
    ensures
        in_order(all, before, pieces, after),
{
    lemma_rank(all, before.position);
    lemma_rank(all, after.position);
    lemma_rank_monotone(all, before.position, after.position);
    let a = rank(all, before.position);
    if rank(all, after.position) > a {
        assert(all[a].start < after.position);
        assert(all[a].start >= before.position);
    }
    assert(all.subrange(a, a) == Seq::<CommentRange>::empty());
}

/// Whether no comment starts at `from` or behind it and before `to`.
pub open spec fn calm(all: Seq<CommentRange>, from: int, to: int) -> bool {
    forall|i: int| #![trigger all[i]] 0 <= i < all.len() ==> !(from <= all[i].start < to)
}

/// Writing the comments before `position` from a cursor that is in step
/// with the comments is possible where `position` lies behind the cursor,
/// in the text and in no comment. It writes those comments in their order
/// and leaves a cursor that is in step, has not passed `position`, and has
/// no comment left before `position`.
pub proof fn lemma_comments_synced(
    text: Seq<u8>,
    all: Seq<CommentRange>,
    cursor: Cursor,
    level: int,
    position: int,
)
    requires
        well_placed(all, text.len() as int),
        synced(text, all, cursor),
        cursor.position <= position <= text.len(),
        clear_at(all, position),
    ensures
        flush_ready(text, cursor, position),
        synced(text, all, comments_step(text, cursor, level, position).cursor),
        cursor.position <= comments_step(text, cursor, level, position).cursor.position
            <= position,
        calm(all, comments_step(text, cursor, level, position).cursor.position, position),
        comments_step(text, cursor, level, position).cursor.ledger == pending_from(all, position),
        comments_step(text, cursor, level, position).cursor.position == cursor.position || (rank(
            all,
            position,
        ) > 0 && comments_step(text, cursor, level, position).cursor.position == all[rank(
            all,
            position,
        ) - 1].end),
        in_order(
            all,
            cursor,
            comments_step(text, cursor, level, position).pieces,
            comments_step(text, cursor, level, position).cursor,
        ),
{
    reveal(comments_step);
    reveal(flush_ready);
    lemma_synced_splits(text, all, cursor);
    lemma_rank(all, cursor.position);
    lemma_rank(all, position);
    lemma_rank_monotone(all, cursor.position, position);
    let n = rank(all, cursor.position);
    let last = rank(all, position);
    assert(clear_at(cursor.ledger, position)) by {
        assert forall|i: int|
            #![trigger cursor.ledger[i]]
            0 <= i < cursor.ledger.len() implies !(cursor.ledger[i].start < position
            < cursor.ledger[i].end) by {
            assert(cursor.ledger[i] == all[i + n]);
        }
    }
    let m = lemma_trailing_splits(text, all, n, cursor.position, position);
    let middle = if m > n {
        all[m - 1].end as int
    } else {
        cursor.position
    };
    lemma_leading_splits(text, all, m, middle, level, position);
    let end = flushed_position(all, m, middle, position);
    assert(end <= position) by {
        if last > m {
            assert(all[last - 1].start < position);
        } else if m > n {
            assert(all[m - 1].start < position);
        }
    }
    assert(middle <= end) by {
        if last > m && m > n {
            assert(all[m - 1].end <= all[last - 1].start);
        } else if last > m {
            assert(all[last - 1].start >= cursor.position);
        }
    }
    assert(flushed_count(all, m, position) == last);
    assert(splits(all, last, end)) by {
        assert forall|i: int| #![trigger all[i]] 0 <= i < last implies all[i].end <= end by {
            if last > m {
                if i < last - 1 {
                    assert(all[i].end <= all[last - 1].start);
                }
            }
        }
    }
    lemma_splits_synced(text, all, last, end);
    lemma_comments_of_concat(
        trailing_step(text, cursor, position).pieces,
        leading_step(text, cursor_behind(all, m, middle), level, position).pieces,
    );
    assert(all.subrange(n, m) + all.subrange(m, last) == all.subrange(n, last));
    assert(calm(all, end, position)) by {
        assert forall|i: int| #![trigger all[i]] 0 <= i < all.len() implies !(end <= all[i].start
            < position) by {
            if i < last {
                assert(all[i].start < all[i].end);
            }
        }
    }
}

/// Moving a cursor that is in step with the comments forward over a
/// stretch in which no comment starts leaves it in step.
pub proof fn lemma_move_synced(text: Seq<u8>, all: Seq<CommentRange>, cursor: Cursor, to: int)
    requires
        well_placed(all, text.len() as int),
        synced(text, all, cursor),
        cursor.position <= to <= text.len(),
        calm(all, cursor.position, to),
    ensures
        synced(text, all, cursor.at(to)),
{
    lemma_rank(all, cursor.position);
    lemma_rank(all, to);
    lemma_rank_monotone(all, cursor.position, to);
    let n = rank(all, cursor.position);
    if rank(all, to) > n {
        assert(all[n].start < to);
        assert(all[n].start >= cursor.position);
    }
}

/// Whether every `ch` of `text[from..to]` lies in a comment.
pub open spec fn free_of(text: Seq<u8>, all: Seq<CommentRange>, from: int, to: int, ch: u8) -> bool {
    forall|k: int| from <= k < to ==> #[trigger] text[k] != ch || in_comment(all, k)
}

/// Writing a symbol that the text holds at `at`, outside the comments and
/// with no other such symbol between the cursor and it, is possible from a
/// cursor that is in step with the comments. It writes the comments before
/// the symbol in their order and leaves a cursor just behind the symbol
/// that is in step.
pub proof fn lemma_symbol_synced(
    text: Seq<u8>,
    all: Seq<CommentRange>,
    cursor: Cursor,
    level: int,
    multiline: bool,
    ch: u8,
    at: int,
)
    requires
        well_placed(all, text.len() as int),
        synced(text, all, cursor),
        cursor.position <= at < text.len(),
        text[at] == ch,
        !in_comment(all, at),
        free_of(text, all, cursor.position, at, ch),
    ensures
        symbol_ready(text, cursor, ch),
        symbol_index(text, cursor.ledger, ch, cursor.position) == at,
        symbol_step(text, cursor, level, multiline, ch).cursor == (Cursor {
            position: at + 1,
            ledger: pending_from(all, at + 1),
        }),
        synced(text, all, symbol_step(text, cursor, level, multiline, ch).cursor),
        in_order(
            all,
            cursor,
            symbol_step(text, cursor, level, multiline, ch).pieces,
            symbol_step(text, cursor, level, multiline, ch).cursor,
        ),
{
    reveal(symbol_step);
    reveal(symbol_ready);
    let ledger = cursor.ledger;
    lemma_synced_splits(text, all, cursor);
    assert forall|k: int| cursor.position <= k < at implies text[k] != ch || in_comment(
        ledger,
        k,
    ) by {
        lemma_in_comment_pending(text, all, cursor, k);
    }
    lemma_symbol_index_skip(text, ledger, ch, cursor.position, at);
    lemma_in_comment_pending(text, all, cursor, at);
    assert(symbol_index(text, ledger, ch, at) == at);
    assert(clear_at(all, at + 1)) by {
        assert forall|i: int| #![trigger all[i]] 0 <= i < all.len() implies !(all[i].start < at + 1
            < all[i].end) by {
            if all[i].start < at + 1 < all[i].end {
                assert(all[i].start <= at < all[i].end);
            }
        }
    }
    lemma_rank(all, cursor.position);
    lemma_rank(all, at + 1);
    lemma_rank_monotone(all, cursor.position, at + 1);
    let n = rank(all, cursor.position);
    let last = rank(all, at + 1);
    assert(splits(all, last, at + 1)) by {
        assert forall|i: int| #![trigger all[i]] 0 <= i < last implies all[i].end <= at + 1 by {
            if all[i].end > at + 1 {
                assert(all[i].start <= at < all[i].end);
            }
        }
    }
    lemma_splits_synced(text, all, last, at + 1);
    let lead = symbol_lead_step(text, cursor, level, multiline, ch, at);
    assert(lead.cursor.ledger == pending_from(all, at + 1) && comments_of(lead.pieces)
        == all.subrange(n, last)) by {
        if (multiline && is_closing(ch)) || earliest_before(
            ledger,
            at + 1,
        ) is Some {
            lemma_comments_synced(text, all, cursor, level, at + 1);
            let flushed = comments_step(text, cursor, level, at + 1);
            let from = if is_closing(ch) {
                flushed.ending_at(at)
            } else {
                flushed
            };
            lemma_indent_step_ledger(text, from.cursor, level, at + 1);
            lemma_indent_writes_no_comment(text, from.cursor, level, at + 1);
            lemma_comments_of_concat(
                from.pieces,
                indent_step(text, from.cursor, level, at + 1).pieces,
            );
            lemma_rank(all, flushed.cursor.position);
            assert(rank(all, flushed.cursor.position) == last) by {
                assert(all.skip(rank(all, flushed.cursor.position)).len() == all.skip(last).len());
            }
        } else {
            if last > n {
                assert(all[n].start < at + 1);
                assert(ledger[0] == all[n]);
            }
            assert(all.subrange(n, n) == Seq::<CommentRange>::empty());
        }
    }
    let written = lead.pieces.push(Piece::Symbol(ch));
    assert(comments_of(written) == comments_of(lead.pieces)) by {
        assert(written.drop_last() == lead.pieces);
        assert(written.last() == Piece::Symbol(ch));
    }
    let spaced = written.push(Piece::Space);
    assert(comments_of(spaced) == comments_of(written)) by {
        assert(spaced.drop_last() == written);
        assert(spaced.last() == Piece::Space);
    }
    let pieces = symbol_step(text, cursor, level, multiline, ch).pieces;
    assert(pieces == written || pieces == spaced);
    assert(comments_of(pieces) == all.subrange(n, last));
}

/// Whether `b` is white space between the values of a text: a space, a
/// tab, a line feed or a carriage return.
pub open spec fn is_blank(b: u8) -> bool {
    b == 0x20 || b == 0x09 || b == 0x0a || b == 0x0d
}

/// Whether `text[from..to]` holds white space and comments only.
pub open spec fn quiet(text: Seq<u8>, all: Seq<CommentRange>, from: int, to: int) -> bool {
    forall|k: int| from <= k < to ==> is_blank(#[trigger] text[k]) || in_comment(all, k)
}

/// Whether `text[from..to]` holds the symbol `ch` at `at`, outside the
/// comments, and white space and comments only around it.
pub open spec fn parted_at(
    text: Seq<u8>,
    all: Seq<CommentRange>,
    from: int,
    to: int,
    ch: u8,
    at: int,
) -> bool {
    &&& from <= at < to
    &&& text[at] == ch
    &&& !in_comment(all, at)
    &&& quiet(text, all, from, at)
    &&& quiet(text, all, at + 1, to)
}

/// Whether `text[from..to]` holds one symbol `ch` outside the comments, and
/// white space and comments only around it.
pub open spec fn parted(text: Seq<u8>, all: Seq<CommentRange>, from: int, to: int, ch: u8) -> bool {
    exists|at: int| parted_at(text, all, from, to, ch, at)
}

/// Whether no comment shares a byte with `text[from..to]`.
pub open spec fn apart(all: Seq<CommentRange>, from: int, to: int) -> bool {
    forall|i: int|
        #![trigger all[i]]
        0 <= i < all.len() ==> all[i].end <= from || all[i].start >= to
}

/// The index of the first value from `index` on that does not start before
/// `end`.
pub open spec fn skip_inside(values: Seq<ValueEntry>, index: int, end: int) -> int
    decreases values.len() - index,
{
    if index < 0 || index >= values.len() || values[index].position >= end {
        index
    } else {
        skip_inside(values, index + 1, end)
    }
}

/// The index of the first value behind the one at `index` that does not
/// start inside it: where the value and all that it holds ends in the
/// document.
pub open spec fn extent(values: Seq<ValueEntry>, index: int) -> int {
    skip_inside(values, index + 1, values[index].end())
}

/// The values that are skipped start before the end, and the value at
/// which the skipping stops does not.
pub proof fn lemma_skip_inside(values: Seq<ValueEntry>, index: int, end: int)
    requires
        0 <= index <= values.len(),
    ensures
        index <= skip_inside(values, index, end) <= values.len(),
        forall|k: int| index <= k < skip_inside(values, index, end) ==> (#[trigger] values[k]).position < end,
        skip_inside(values, index, end) < values.len() ==> values[skip_inside(
            values,
            index,
            end,
        )].position >= end,
    decreases values.len() - index,
{
    if index < values.len() && values[index].position < end {
        lemma_skip_inside(values, index + 1, end);
    }
}

/// Skipping may start behind values that start before the end.
pub proof fn lemma_skip_inside_resume(values: Seq<ValueEntry>, from: int, to: int, end: int)
    requires
        0 <= from <= to <= values.len(),
        forall|k: int| from <= k < to ==> (#[trigger] values[k]).position < end,
    ensures
        skip_inside(values, from, end) == skip_inside(values, to, end),
    decreases to - from,
{
    if from < to {
        lemma_skip_inside_resume(values, from + 1, to, end);
    }
}

/// Whether the value at `index` lies in the text as a parser finds it. A
/// scalar takes at least one byte of the text, shares none with a comment,
/// and is followed in the document by a value that starts behind it. An
/// array or object stands between its brackets, which lie in no comment,
/// and holds what agrees with the text in turn.
pub open spec fn value_agrees(
    text: Seq<u8>,
    all: Seq<CommentRange>,
    values: Seq<ValueEntry>,
    index: int,
) -> bool
    decreases values.len() - index, 1int,
{
    if !(0 <= index < values.len()) {
        false
    } else {
        let value = values[index];
        &&& value.len > 0
        &&& value.fits(text.len() as int)
        &&& if value.is_scalar() {
            &&& apart(all, value.position as int, value.end())
            &&& extent(values, index) == index + 1
        } else {
            &&& value.len >= 2
            &&& text[value.position as int] == opening_symbol(value.kind)
            &&& text[value.end() - 1] == closing_symbol(value.kind)
            &&& !in_comment(all, value.position as int)
            &&& !in_comment(all, value.end() - 1)
            &&& items_agree(text, all, values, index, index + 1, value.position + 1, true)
        }
    }
}

/// The index of the value that ends the element or member that starts with
/// the value at `index`: the value itself in an array, the value behind the
/// name in an object.
pub open spec fn item_last(values: Seq<ValueEntry>, parent: int, index: int) -> int {
    if values[parent].kind == ValueKind::Object {
        extent(values, index)
    } else {
        index
    }
}

/// Whether the element or member that starts with the value at `index`
/// lies in the text as a parser finds it: behind `from`, with white space
/// and comments only in between, and a comma unless it is the first; inside
/// the container at `parent`; and, for a member, with a colon between the
/// name and the value.
pub open spec fn item_agrees(
    text: Seq<u8>,
    all: Seq<CommentRange>,
    values: Seq<ValueEntry>,
    parent: int,
    index: int,
    from: int,
    first: bool,
) -> bool
    decreases values.len() - index, 2int,
{
    if !(0 <= parent < index < values.len()) {
        false
    } else {
        let value = values[index];
        let last = item_last(values, parent, index);
        &&& from <= value.position
        &&& if first {
            quiet(text, all, from, value.position as int)
        } else {
            parted(text, all, from, value.position as int, COMMA)
        }
        &&& value_agrees(text, all, values, index)
        &&& value.end() < values[parent].end()
        &&& values[parent].kind == ValueKind::Object ==> {
            &&& index < last < values.len()
            &&& values[last].end() < values[parent].end()
            &&& parted(text, all, value.end(), values[last].position as int, COLON)
            &&& value_agrees(text, all, values, last)
        }
    }
}

/// Whether what the container at `parent` holds from the value at `index`
/// on lies in the text as a parser finds it, behind `from`. Behind the last
/// element or member, up to the closing bracket, the text holds white space
/// and comments only, and possibly one comma.
pub open spec fn items_agree(
    text: Seq<u8>,
    all: Seq<CommentRange>,
    values: Seq<ValueEntry>,
    parent: int,
    index: int,
    from: int,
    first: bool,
) -> bool
    decreases values.len() - index, 3int,
{
    if !(0 <= parent < index <= values.len()) {
        false
    } else if index >= values.len() || values[index].position >= values[parent].end() {
        &&& from <= values[parent].end() - 1
        &&& quiet(text, all, from, values[parent].end() - 1) || (!first && parted(
            text,
            all,
            from,
            values[parent].end() - 1,
            COMMA,
        ))
    } else {
        let last = item_last(values, parent, index);
        let next = extent(values, last);
        &&& item_agrees(text, all, values, parent, index, from, first)
        &&& index <= last < next <= values.len()
        &&& items_agree(text, all, values, parent, next, values[last].end(), false)
    }
}

/// Whether a document agrees with its text and comments: the comments are
/// well placed, the top-level value lies in the text as a parser finds it,
/// behind white space and comments only, and every other value lies inside
/// it. The nesting depth can be counted. A scalar at the top has no comment
/// before it: the printer writes such a scalar before it looks for
/// comments, and cannot go back.
pub open spec fn document_agrees(
    text: Seq<u8>,
    values: Seq<ValueEntry>,
    all: Seq<CommentRange>,
) -> bool {
    &&& values.len() > 0
    &&& values.len() * INDENT_SIZE <= usize::MAX
    &&& well_placed(all, text.len() as int)
    &&& value_agrees(text, all, values, 0)
    &&& extent(values, 0) == values.len()
    &&& quiet(text, all, 0, values[0].position as int)
    &&& values[0].is_scalar() ==> calm(all, 0, values[0].position as int)
}

/// Whether the comments are well placed and the nesting depth of the
/// values can be counted.
pub open spec fn grounded(text: Seq<u8>, all: Seq<CommentRange>, values: Seq<ValueEntry>) -> bool {
    &&& well_placed(all, text.len() as int)
    &&& values.len() * INDENT_SIZE <= usize::MAX
}

/// Whether a walk exists that ends behind the value at `last`, in step with
/// the comments, with the values that the value holds passed.
pub open spec fn arrives(
    text: Seq<u8>,
    all: Seq<CommentRange>,
    values: Seq<ValueEntry>,
    last: int,
    walk: Option<Walk>,
) -> bool {
    &&& walk is Some
    &&& walk->0.next == extent(values, last)
    &&& walk->0.cursor.position == values[last].end()
    &&& synced(text, all, walk->0.cursor)
}

/// A stretch of white space and comments holds no symbol outside the
/// comments.
pub proof fn lemma_quiet_free(text: Seq<u8>, all: Seq<CommentRange>, from: int, to: int, ch: u8)
    requires
        quiet(text, all, from, to),
        !is_blank(ch),
    ensures
        free_of(text, all, from, to, ch),
{
}

/// A stretch that a comma parts holds no other symbol outside the
/// comments.
pub proof fn lemma_parted_free(
    text: Seq<u8>,
    all: Seq<CommentRange>,
    from: int,
    to: int,
    ch: u8,
    other: u8,
)
    requires
        parted(text, all, from, to, ch),
        !is_blank(other),
        other != ch,
    ensures
        free_of(text, all, from, to, other),
{
    let at = choose|at: int| parted_at(text, all, from, to, ch, at);
    assert forall|k: int| from <= k < to implies #[trigger] text[k] != other || in_comment(
        all,
        k,
    ) by {
        if k < at {
            assert(is_blank(text[k]) || in_comment(all, k));
        } else if k > at {
            assert(is_blank(text[k]) || in_comment(all, k));
        }
    }
}

/// No comment has the start or the end of an agreeing value strictly
/// inside it.
pub proof fn lemma_value_clear(
    text: Seq<u8>,
    all: Seq<CommentRange>,
    values: Seq<ValueEntry>,
    index: int,
)
    requires
        value_agrees(text, all, values, index),
    ensures
        clear_at(all, values[index].position as int),
        clear_at(all, values[index].end()),
{
    let value = values[index];
    assert forall|i: int| #![trigger all[i]] 0 <= i < all.len() implies !(all[i].start
        < value.position < all[i].end) && !(all[i].start < value.end() < all[i].end) by {
        if !value.is_scalar() {
            if all[i].start < value.position < all[i].end {
                assert(all[i].start <= value.position < all[i].end);
            }
            if all[i].start < value.end() < all[i].end {
                assert(all[i].start <= value.end() - 1 < all[i].end);
            }
        }
    }
}

/// Where no pending comment starts before `position`, no comment starts
/// between the cursor and `position`.
pub proof fn lemma_none_calm(text: Seq<u8>, all: Seq<CommentRange>, cursor: Cursor, position: int)
    requires
        well_placed(all, text.len() as int),
        synced(text, all, cursor),
        earliest_before(cursor.ledger, position) is None,
    ensures
        calm(all, cursor.position, position),
{
    lemma_rank(all, cursor.position);
    let n = rank(all, cursor.position);
    assert forall|i: int| #![trigger all[i]] 0 <= i < all.len() implies !(cursor.position
        <= all[i].start < position) by {
        if cursor.position <= all[i].start < position {
            assert(i >= n);
            assert(cursor.ledger[i - n] == all[i]);
            assert(cursor.ledger[0] == all[n]);
            if i > n {
                assert(all[n].start < all[i].start);
            }
        }
    }
}

/// The comments before an agreeing value can be written, and the line for
/// the value started, from a cursor before the value that is in step with
/// the comments. The cursor stays before the value and in step, and has no
/// comment left before the value.
pub proof fn lemma_lead_in_synced(
    text: Seq<u8>,
    all: Seq<CommentRange>,
    cursor: Cursor,
    level: int,
    position: int,
)
    requires
        well_placed(all, text.len() as int),
        synced(text, all, cursor),
        cursor.position <= position <= text.len(),
        clear_at(all, position),
    ensures
        flush_ready(text, cursor, position),
        synced(text, all, lead_in_step(text, cursor, level, position).cursor),
        cursor.position <= lead_in_step(text, cursor, level, position).cursor.position
            <= position,
        calm(
            all,
            lead_in_step(text, cursor, level, position).cursor.position,
            position,
        ),
        in_order(
            all,
            cursor,
            lead_in_step(text, cursor, level, position).pieces,
            lead_in_step(text, cursor, level, position).cursor,
        ),
{
    reveal(lead_in_step);
    lemma_comments_synced(text, all, cursor, level, position);
    let flushed = comments_step(text, cursor, level, position);
    let ind = indent_step(text, flushed.cursor, level, position);
    lemma_indent_step(text, flushed.cursor, level, position);
    lemma_move_synced(text, all, flushed.cursor, ind.cursor.position);
    assert(ind.cursor == flushed.cursor.at(ind.cursor.position));
    lemma_well_placed_ordered(all, text.len() as int);
    lemma_indent_writes_no_comment(text, flushed.cursor, level, position);
    lemma_in_order_none(all, flushed.cursor, ind.pieces, ind.cursor);
    lemma_in_order_concat(all, cursor, flushed.pieces, flushed.cursor, ind.pieces, ind.cursor);
}

/// An agreeing value can be printed in the layout of its container from a
/// cursor before it that is in step with the comments. The cursor moves
/// forward to the end of the value, and the comments that it passes are
/// written in their order.
pub proof fn lemma_value_prints(
    text: Seq<u8>,
    all: Seq<CommentRange>,
    values: Seq<ValueEntry>,
    index: int,
    cursor: Cursor,
    level: int,
    multiline: bool,
)
    requires
        grounded(text, all, values),
        synced(text, all, cursor),
        value_agrees(text, all, values, index),
        0 <= level <= index,
        cursor.position <= values[index].position,
        quiet(text, all, cursor.position, values[index].position as int),
        !multiline && values[index].is_scalar() ==> calm(
            all,
            cursor.position,
            values[index].position as int,
        ),
    ensures
        arrives(
            text,
            all,
            values,
            index,
            render_value(text, values, index, cursor, level, multiline),
        ),
        in_order(
            all,
            cursor,
            render_value(text, values, index, cursor, level, multiline)->0.pieces,
            render_value(text, values, index, cursor, level, multiline)->0.cursor,
        ),
    decreases values.len() - index, 3int,
{
    if !multiline {
        lemma_content_prints(text, all, values, index, cursor, level, multiline);
    } else {
        let position = values[index].position as int;
        lemma_value_clear(text, all, values, index);
        lemma_lead_in_synced(text, all, cursor, level, position);
        let lead = lead_in_step(text, cursor, level, position);
        lemma_content_prints(text, all, values, index, lead.cursor, level, multiline);
        let content = render_content(
            text,
            values,
            index,
            lead.cursor,
            level,
            multiline,
        )->0;
        lemma_well_placed_ordered(all, text.len() as int);
        lemma_in_order_concat(
            all,
            cursor,
            lead.pieces,
            lead.cursor,
            content.pieces,
            content.cursor,
        );
    }
}

/// An agreeing value can be printed as a member's value from a cursor
/// behind the colon that is in step with the comments. The cursor moves
/// forward to the end of the value, and the comments that it passes are
/// written in their order.
pub proof fn lemma_member_value_prints(
    text: Seq<u8>,
    all: Seq<CommentRange>,
    values: Seq<ValueEntry>,
    index: int,
    cursor: Cursor,
    level: int,
    multiline: bool,
)
    requires
        grounded(text, all, values),
        synced(text, all, cursor),
        value_agrees(text, all, values, index),
        0 <= level <= index,
        cursor.position <= values[index].position,
        quiet(text, all, cursor.position, values[index].position as int),
    ensures
        arrives(
            text,
            all,
            values,
            index,
            render_member_value(text, values, index, cursor, level, multiline),
        ),
        in_order(
            all,
            cursor,
            render_member_value(text, values, index, cursor, level, multiline)->0.pieces,
            render_member_value(text, values, index, cursor, level, multiline)->0.cursor,
        ),
    decreases values.len() - index, 3int,
{
    let position = values[index].position as int;
    lemma_well_placed_ordered(all, text.len() as int);
    if earliest_before(cursor.ledger, position) is None {
        lemma_none_calm(text, all, cursor, position);
        lemma_content_prints(text, all, values, index, cursor, level, multiline);
        let content = render_content(
            text,
            values,
            index,
            cursor,
            level,
            multiline,
        )->0;
        let space = cursor.stay().with_piece(Piece::Space).pieces;
        assert(comments_of(space) == Seq::<CommentRange>::empty()) by {
            reveal_with_fuel(comments_of, 2);
            assert(space.drop_last() == Seq::<Piece>::empty());
        }
        lemma_in_order_none(all, cursor, space, cursor);
        lemma_in_order_concat(all, cursor, space, cursor, content.pieces, content.cursor);
    } else {
        lemma_value_clear(text, all, values, index);
        lemma_lead_in_synced(text, all, cursor, level, position);
        let lead = lead_in_step(text, cursor, level, position);
        lemma_content_prints(text, all, values, index, lead.cursor, level, multiline);
        let content = render_content(
            text,
            values,
            index,
            lead.cursor,
            level,
            multiline,
        )->0;
        lemma_in_order_concat(
            all,
            cursor,
            lead.pieces,
            lead.cursor,
            content.pieces,
            content.cursor,
        );
    }
}

/// An agreeing value can be printed where the cursor stands, if the cursor
/// is in step with the comments and nothing but white space separates it
/// from the value. The cursor moves forward to the end of the value, and the
/// comments that it passes are written in their order.
pub proof fn lemma_content_prints(
    text: Seq<u8>,
    all: Seq<CommentRange>,
    values: Seq<ValueEntry>,
    index: int,
    cursor: Cursor,
    level: int,
    multiline: bool,
)
    requires
        grounded(text, all, values),
        synced(text, all, cursor),
        value_agrees(text, all, values, index),
        0 <= level <= index,
        cursor.position <= values[index].position,
        quiet(text, all, cursor.position, values[index].position as int),
        values[index].is_scalar() ==> calm(all, cursor.position, values[index].position as int),
    ensures
        arrives(
            text,
            all,
            values,
            index,
            render_content(text, values, index, cursor, level, multiline),
        ),
        in_order(
            all,
            cursor,
            render_content(text, values, index, cursor, level, multiline)->0.pieces,
            render_content(text, values, index, cursor, level, multiline)->0.cursor,
        ),
    decreases values.len() - index, 2int,
{
    let value = values[index];
    if value.is_scalar() {
        assert(calm(all, cursor.position, value.end())) by {
            assert forall|i: int| #![trigger all[i]] 0 <= i < all.len() implies !(cursor.position
                <= all[i].start < value.end()) by {
                assert(all[i].start < all[i].end);
            }
        }
        lemma_move_synced(text, all, cursor, value.end());
        lemma_well_placed_ordered(all, text.len() as int);
        let pieces = seq![Piece::Scalar(value)];
        assert(comments_of(pieces) == Seq::<CommentRange>::empty()) by {
            reveal_with_fuel(comments_of, 2);
            assert(pieces.drop_last() == Seq::<Piece>::empty());
        }
        lemma_in_order_none(all, cursor, pieces, cursor.at(value.end()));
    } else {
        lemma_container_prints(text, all, values, index, cursor, level, multiline);
        let walk = render_container(text, values, index, cursor, level, multiline)->0;
        assert(walk.cursor.at(value.end()) == walk.cursor);
    }
}

/// An agreeing array or object can be printed from a cursor before its
/// opening symbol that is in step with the comments. The cursor moves
/// forward to the end of the container, and the comments that it passes are
/// written in their order.
pub proof fn lemma_container_prints(
    text: Seq<u8>,
    all: Seq<CommentRange>,
    values: Seq<ValueEntry>,
    index: int,
    cursor: Cursor,
    level: int,
    multiline: bool,
)
    requires
        grounded(text, all, values),
        synced(text, all, cursor),
        value_agrees(text, all, values, index),
        !values[index].is_scalar(),
        0 <= level <= index,
        cursor.position <= values[index].position,
        quiet(text, all, cursor.position, values[index].position as int),
    ensures
        arrives(
            text,
            all,
            values,
            index,
            render_container(text, values, index, cursor, level, multiline),
        ),
        in_order(
            all,
            cursor,
            render_container(text, values, index, cursor, level, multiline)->0.pieces,
            render_container(text, values, index, cursor, level, multiline)->0.cursor,
        ),
    decreases values.len() - index, 1int,
{
    let value = values[index];
    let open = opening_symbol(value.kind);
    let close = closing_symbol(value.kind);
    let at = value.position as int;
    lemma_quiet_free(text, all, cursor.position, at, open);
    lemma_symbol_synced(text, all, cursor, level, multiline, open, at);
    let opened = symbol_step(text, cursor, level, multiline, open);
    assert((level + 1) * INDENT_SIZE <= usize::MAX) by {
        assert((level + 1) * INDENT_SIZE <= values.len() * INDENT_SIZE) by (nonlinear_arith)
            requires
                level + 1 <= values.len(),
                INDENT_SIZE >= 0,
        ;
    }
    let inner = needs_multiline(text, opened.cursor.ledger, value);
    if !inner {
        reveal(needs_multiline);
        lemma_well_placed_ordered(all, text.len() as int);
        lemma_rank(all, at + 1);
        lemma_skip_well_placed(all, text.len() as int, rank(all, at + 1));
        let ledger = opened.cursor.ledger;
        let n = rank(all, at + 1);
        assert(rank(ledger, at) == 0) by {
            assert forall|i: int| 0 <= i < ledger.len() implies ledger[i].start >= at by {
                assert(ledger[i] == all[i + n]);
            }
            lemma_rank_unique(ledger, at, 0);
        }
        assert(calm(all, at + 1, value.end())) by {
            assert forall|i: int| #![trigger all[i]] 0 <= i < all.len() implies !(at + 1
                <= all[i].start < value.end()) by {
                if at + 1 <= all[i].start < value.end() {
                    assert(i >= n);
                    assert(ledger[i - n] == all[i]);
                    assert(ledger[0] == all[n]);
                    if i > n {
                        assert(all[n].start < all[i].start);
                    }
                }
            }
        }
    }
    lemma_items_prints(text, all, values, index, index + 1, opened.cursor, level + 1, inner, true);
    let items = render_items(
        text,
        values,
        index,
        index + 1,
        opened.cursor,
        level + 1,
        inner,
        true,
    )->0;
    assert(clear_at(all, value.end())) by {
        lemma_value_clear(text, all, values, index);
    }
    lemma_comments_synced(text, all, items.cursor, level + 1, value.end());
    let dangling = comments_step(text, items.cursor, level + 1, value.end());
    assert(dangling.cursor.position <= value.end() - 1) by {
        if dangling.cursor.position != items.cursor.position {
            let r = rank(all, value.end());
            lemma_rank(all, value.end());
            lemma_well_placed_ordered(all, text.len() as int);
            assert(all[r - 1].start < value.end());
            if all[r - 1].end > value.end() - 1 {
                assert(all[r - 1].start <= value.end() - 1 < all[r - 1].end);
            }
        }
    }
    lemma_symbol_synced(text, all, dangling.cursor, level, inner, close, value.end() - 1);
    let closed = symbol_step(text, dangling.cursor, level, inner, close);
    lemma_well_placed_ordered(all, text.len() as int);
    lemma_in_order_concat(all, cursor, opened.pieces, opened.cursor, items.pieces, items.cursor);
    lemma_in_order_concat(
        all,
        items.cursor,
        dangling.pieces,
        dangling.cursor,
        closed.pieces,
        closed.cursor,
    );
    lemma_in_order_concat(
        all,
        cursor,
        opened.pieces + items.pieces,
        items.cursor,
        dangling.pieces + closed.pieces,
        closed.cursor,
    );
}

/// An element or member that lies behind `from` ends behind `from`.
pub proof fn lemma_item_advances(
    text: Seq<u8>,
    all: Seq<CommentRange>,
    values: Seq<ValueEntry>,
    parent: int,
    index: int,
    from: int,
    first: bool,
)
    requires
        item_agrees(text, all, values, parent, index, from, first),
    ensures
        from < values[item_last(values, parent, index)].end(),
{
    let last = item_last(values, parent, index);
    assert(value_agrees(text, all, values, index));
    assert(values[index].len > 0);
    if values[parent].kind == ValueKind::Object {
        let at = choose|at: int|
            parted_at(
                text,
                all,
                values[index].end(),
                values[last].position as int,
                COLON,
                at,
            );
        assert(value_agrees(text, all, values, last));
        assert(values[last].len > 0);
    }
}

/// An agreeing element or member can be printed from a cursor behind what
/// precedes it that is in step with the comments. The cursor moves forward
/// to its end, and the comments that it passes are written in their order.
pub proof fn lemma_item_prints(
    text: Seq<u8>,
    all: Seq<CommentRange>,
    values: Seq<ValueEntry>,
    parent: int,
    index: int,
    cursor: Cursor,
    level: int,
    multiline: bool,
    first: bool,
)
    requires
        grounded(text, all, values),
        synced(text, all, cursor),
        item_agrees(text, all, values, parent, index, cursor.position, first),
        0 <= level <= index,
        !multiline ==> calm(all, cursor.position, values[parent].end()),
    ensures
        arrives(
            text,
            all,
            values,
            item_last(values, parent, index),
            render_item(
                text,
                values,
                parent,
                index,
                cursor,
                level,
                multiline,
                first,
            ),
        ),
        in_order(
            all,
            cursor,
            render_item(text, values, parent, index, cursor, level, multiline, first)->0.pieces,
            render_item(text, values, parent, index, cursor, level, multiline, first)->0.cursor,
        ),
    decreases values.len() - index, 5int,
{
    let value = values[index];
    let separated = if first {
        cursor.stay()
    } else {
        symbol_step(text, cursor, level, multiline, COMMA)
    };
    if !first {
        let at = choose|at: int|
            parted_at(
                text,
                all,
                cursor.position,
                value.position as int,
                COMMA,
                at,
            );
        lemma_quiet_free(text, all, cursor.position, at, COMMA);
        lemma_symbol_synced(text, all, cursor, level, multiline, COMMA, at);
    }
    lemma_well_placed_ordered(all, text.len() as int);
    if first {
        assert(comments_of(separated.pieces) == Seq::<CommentRange>::empty());
        lemma_in_order_none(all, cursor, separated.pieces, cursor);
    }
    if values[parent].kind == ValueKind::Object {
        lemma_member_prints(text, all, values, parent, index, separated.cursor, level, multiline);
        let item = render_member(
            text,
            values,
            parent,
            index,
            separated.cursor,
            level,
            multiline,
        )->0;
        lemma_in_order_concat(
            all,
            cursor,
            separated.pieces,
            separated.cursor,
            item.pieces,
            item.cursor,
        );
    } else {
        lemma_value_prints(text, all, values, index, separated.cursor, level, multiline);
        let item = render_value(
            text,
            values,
            index,
            separated.cursor,
            level,
            multiline,
        )->0;
        lemma_in_order_concat(
            all,
            cursor,
            separated.pieces,
            separated.cursor,
            item.pieces,
            item.cursor,
        );
    }
}

/// An agreeing member can be printed from a cursor before its name that is
/// in step with the comments. The cursor moves forward to the end of the
/// member's value, and the comments that it passes are written in their
/// order.
pub proof fn lemma_member_prints(
    text: Seq<u8>,
    all: Seq<CommentRange>,
    values: Seq<ValueEntry>,
    parent: int,
    index: int,
    cursor: Cursor,
    level: int,
    multiline: bool,
)
    requires
        grounded(text, all, values),
        synced(text, all, cursor),
        0 <= parent < index < values.len(),
        values[parent].kind == ValueKind::Object,
        value_agrees(text, all, values, index),
        index < extent(values, index) < values.len(),
        values[extent(values, index)].end() < values[parent].end(),
        parted(
            text,
            all,
            values[index].end(),
            values[extent(values, index)].position as int,
            COLON,
        ),
        value_agrees(text, all, values, extent(values, index)),
        0 <= level <= index,
        cursor.position <= values[index].position,
        quiet(text, all, cursor.position, values[index].position as int),
        !multiline ==> calm(all, cursor.position, values[parent].end()),
    ensures
        arrives(
            text,
            all,
            values,
            extent(values, index),
            render_member(text, values, parent, index, cursor, level, multiline),
        ),
        in_order(
            all,
            cursor,
            render_member(text, values, parent, index, cursor, level, multiline)->0.pieces,
            render_member(text, values, parent, index, cursor, level, multiline)->0.cursor,
        ),
    decreases values.len() - index, 4int,
{
    let last = extent(values, index);
    lemma_value_prints(text, all, values, index, cursor, level, multiline);
    let name = render_value(text, values, index, cursor, level, multiline)->0;
    let at = choose|at: int|
        parted_at(
            text,
            all,
            values[index].end(),
            values[last].position as int,
            COLON,
            at,
        );
    lemma_quiet_free(text, all, name.cursor.position, at, COLON);
    lemma_symbol_synced(text, all, name.cursor, level, multiline, COLON, at);
    let colon = symbol_step(text, name.cursor, level, multiline, COLON);
    lemma_member_value_prints(text, all, values, last, colon.cursor, level, multiline);
    let value = render_member_value(
        text,
        values,
        last,
        colon.cursor,
        level,
        multiline,
    )->0;
    lemma_well_placed_ordered(all, text.len() as int);
    lemma_in_order_concat(
        all,
        name.cursor,
        colon.pieces,
        colon.cursor,
        value.pieces,
        value.cursor,
    );
    lemma_in_order_concat(
        all,
        cursor,
        name.pieces,
        name.cursor,
        colon.pieces + value.pieces,
        value.cursor,
    );
}

/// What an agreeing container holds can be printed from a cursor that is
/// in step with the comments. The cursor moves forward and is left before
/// the closing symbol, with no other such symbol in between, and the
/// comments that it passes are written in their order.
pub proof fn lemma_items_prints(
    text: Seq<u8>,
    all: Seq<CommentRange>,
    values: Seq<ValueEntry>,
    parent: int,
    index: int,
    cursor: Cursor,
    level: int,
    multiline: bool,
    first: bool,
)
    requires
        grounded(text, all, values),
        synced(text, all, cursor),
        items_agree(text, all, values, parent, index, cursor.position, first),
        0 <= level <= index,
        !multiline ==> calm(all, cursor.position, values[parent].end()),
    ensures
        render_items(text, values, parent, index, cursor, level, multiline, first)
            is Some,
        cursor.position <= render_items(
            text,
            values,
            parent,
            index,
            cursor,
            level,
            multiline,
            first,
        )->0.cursor.position,
        render_items(
            text,
            values,
            parent,
            index,
            cursor,
            level,
            multiline,
            first,
        )->0.next == skip_inside(values, index, values[parent].end()),
        synced(
            text,
            all,
            render_items(
                text,
                values,
                parent,
                index,
                cursor,
                level,
                multiline,
                first,
            )->0.cursor,
        ),
        render_items(
            text,
            values,
            parent,
            index,
            cursor,
            level,
            multiline,
            first,
        )->0.cursor.position <= values[parent].end() - 1,
        free_of(
            text,
            all,
            render_items(
                text,
                values,
                parent,
                index,
                cursor,
                level,
                multiline,
                first,
            )->0.cursor.position,
            values[parent].end() - 1,
            closing_symbol(values[parent].kind),
        ),
        in_order(
            all,
            cursor,
            render_items(text, values, parent, index, cursor, level, multiline, first)->0.pieces,
            render_items(text, values, parent, index, cursor, level, multiline, first)->0.cursor,
        ),
    decreases values.len() - index, 6int,
{
    let end = values[parent].end();
    let close = closing_symbol(values[parent].kind);
    lemma_well_placed_ordered(all, text.len() as int);
    if index >= values.len() || values[index].position >= end {
        if quiet(text, all, cursor.position, end - 1) {
            lemma_quiet_free(text, all, cursor.position, end - 1, close);
        } else {
            lemma_parted_free(text, all, cursor.position, end - 1, COMMA, close);
        }
        assert(comments_of(Seq::<Piece>::empty()) == Seq::<CommentRange>::empty());
        lemma_in_order_none(all, cursor, Seq::<Piece>::empty(), cursor);
    } else {
        let last = item_last(values, parent, index);
        let next = extent(values, last);
        lemma_item_prints(text, all, values, parent, index, cursor, level, multiline, first);
        let one = render_item(
            text,
            values,
            parent,
            index,
            cursor,
            level,
            multiline,
            first,
        )->0;
        lemma_item_advances(text, all, values, parent, index, cursor.position, first);
        lemma_items_prints(text, all, values, parent, next, one.cursor, level, multiline, false);
        let rest = render_items(
            text,
            values,
            parent,
            next,
            one.cursor,
            level,
            multiline,
            false,
        )->0;
        lemma_in_order_concat(all, cursor, one.pieces, one.cursor, rest.pieces, rest.cursor);
        assert(skip_inside(values, index, end) == skip_inside(values, next, end)) by {
            lemma_skip_inside(values, index + 1, values[index].end());
            lemma_skip_inside(values, last + 1, values[last].end());
            assert forall|k: int| index <= k < next implies (#[trigger] values[k]).position
                < end by {
                if k == index {
                } else if k < extent(values, index) {
                    assert(values[k].position < values[index].end());
                } else {
                    assert(values[parent].kind == ValueKind::Object);
                    if k > last {
                        assert(values[k].position < values[last].end());
                    }
                }
            }
            lemma_skip_inside_resume(values, index, next, end);
        }
    }
}

/// A document that agrees with its text and comments can be printed.
pub proof fn lemma_agreeing_document_prints(
    text: Seq<u8>,
    values: Seq<ValueEntry>,
    all: Seq<CommentRange>,
)
    requires
        document_agrees(text, values, all),
    ensures
        render_document(text, values, all) is Some,
{
    let start = Cursor { position: 0, ledger: all };
    lemma_well_placed_ordered(all, text.len() as int);
    assert(rank(all, 0) == 0) by {
        lemma_rank_unique(all, 0, 0);
    }
    assert(all.skip(0) == all);
    let multiline = needs_multiline(text, all, values[0]);
    lemma_value_prints(text, all, values, 0, start, 0, multiline);
    let walk = render_value(text, values, 0, start, 0, multiline)->0;
    lemma_comments_synced(text, all, walk.cursor, 0, text.len() as int);
}

/// The comments of a document that agrees with its text are written in the
/// order of the text, each once.
pub proof fn lemma_agreeing_document_order(
    text: Seq<u8>,
    values: Seq<ValueEntry>,
    all: Seq<CommentRange>,
)
    requires
        document_agrees(text, values, all),
    ensures
        render_document(text, values, all) is Some,
        comments_of(render_document(text, values, all)->0) == all,
{
    let len = text.len() as int;
    let start = Cursor { position: 0, ledger: all };
    lemma_well_placed_ordered(all, len);
    assert(rank(all, 0) == 0) by {
        lemma_rank_unique(all, 0, 0);
    }
    assert(all.skip(0) == all);
    let multiline = needs_multiline(text, all, values[0]);
    lemma_value_prints(text, all, values, 0, start, 0, multiline);
    let walk = render_value(text, values, 0, start, 0, multiline)->0;
    lemma_comments_synced(text, all, walk.cursor, 0, len);
    let rest = comments_step(text, walk.cursor, 0, len);
    lemma_in_order_concat(all, start, walk.pieces, walk.cursor, rest.pieces, rest.cursor);
    lemma_rank(all, rest.cursor.position);
    assert(rank(all, rest.cursor.position) == all.len()) by {
        assert(rest.cursor.ledger == pending_from(all, len));
        lemma_rank(all, len);
        if rank(all, len) < all.len() {
            assert(all[rank(all, len)].start >= len);
            assert(all[rank(all, len)].start < all[rank(all, len)].end);
        }
        assert(all.skip(rank(all, rest.cursor.position)).len() == all.skip(
            rank(all, len),
        ).len());
    }
    let pieces = walk.pieces + rest.pieces;
    assert(pieces.push(Piece::Newline).drop_last() == pieces);
    assert(all.subrange(0, all.len() as int) == all);
}

} // verus!
