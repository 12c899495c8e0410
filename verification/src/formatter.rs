//! The printer's state and its operations on comments, blank lines and
//! symbols.

use crate::agreement::{document_agrees, lemma_agreeing_document_prints};
use crate::comment::{push_leading_text, push_trailing_text};
use crate::document::{Document, ValueEntry, ValueKind};
use crate::layout::{
    blank_line_step, clear_at, comments_step, flatten, flush_ready, in_comment, indent_step,
    is_closing, leading_step, lemma_comments_step, lemma_flatten_concat, lemma_flatten_push,
    lemma_indent_step, lemma_remove_well_placed, lemma_symbol_index, lemma_symbol_index_skip,
    lemma_trailing_step, needs_multiline, pending_ahead, symbol_index, symbol_lead_step,
    symbol_step, symbol_step_at, trailing_step, Cursor, Piece, Step, CLOSE_BRACE, CLOSE_BRACKET,
    COLON, COMMA, INDENT_SIZE, OPEN_BRACE, OPEN_BRACKET,
};
use crate::ledger::{
    earliest_before, first_within, ledger_of, lemma_rank, lemma_well_placed_ordered,
    nearest_before, rank, well_placed, CommentLedger,
};
use crate::render::{
    lead_in_step, render_closing, render_container, render_content, render_document, render_item,
    render_items, render_member, render_member_value, render_value, symbol_ready, walk_after,
    walk_joined, Walk,
};
use crate::text::{
    find_byte, has_line_feed, holds_byte, lemma_first_index, push_range, push_spaces, LINE_FEED,
    SPACE,
};
use core::ops::Range;
use vstd::prelude::*;
use vstd::string::StringSliceAdditionalSpecFns;

verus! {

/// The state of a printer, as contracts see it.
#[verifier::ext_equal]
pub struct FormatterView {
    /// The bytes of the source text.
    pub text: Seq<u8>,
    /// How far the text has been dealt with, and the comments still to be
    /// printed.
    pub cursor: Cursor,
    /// What has been written.
    pub output: Seq<u8>,
    /// The nesting depth.
    pub level: int,
    /// Whether the container that is being printed takes several lines.
    pub multiline: bool,
}

impl FormatterView {
    /// The state once `step` has been taken.
    pub open spec fn after(self, step: Step) -> FormatterView {
        FormatterView {
            text: self.text,
            cursor: step.cursor,
            output: self.output + flatten(self.text, step.pieces),
            level: self.level,
            multiline: self.multiline,
        }
    }
}

/// The text, the values and the comments that a printer was given do not
/// agree: a symbol is missing, a value leaves the text, or a comment lies
/// where the printer cannot reach it.
#[derive(Clone, Copy, Debug, PartialEq, Eq, Structural)]
pub struct Inconsistent;

/// How an operation that prints values ends. Where the walk exists, the
/// operation has taken it and returns the index of the value that comes
/// next. Where it does not, the operation fails.
pub open spec fn printed(
    before: FormatterView,
    after: FormatterView,
    walk: Option<Walk>,
    result: Result<usize, Inconsistent>,
) -> bool {
    match walk {
        Some(w) => result is Ok && result->Ok_0 == w.next && after == before.after(
            Step { pieces: w.pieces, cursor: w.cursor },
        ),
        None => result is Err,
    }
}

/// How the printing of a container's end leaves the printer: one level
/// up, in the container's own layout, and with the step taken.
pub open spec fn left_container(
    before: FormatterView,
    after: FormatterView,
    inner: bool,
    step: Step,
) -> bool {
    &&& after.text == before.text
    &&& after.level == before.level - 1
    &&& after.multiline == inner
    &&& after.cursor == step.cursor
    &&& after.output == before.output + flatten(before.text, step.pieces)
}

/// A printer for one text.
pub struct Formatter<'a> {
    text: &'a [u8],
    ledger: CommentLedger,
    output: Vec<u8>,
    level: usize,
    text_position: usize,
    multiline_mode: bool,
}

impl<'a> View for Formatter<'a> {
    type V = FormatterView;

    /// The printer's state.
    closed spec fn view(&self) -> FormatterView {
        FormatterView {
            text: self.text@,
            cursor: Cursor { position: self.text_position as int, ledger: self.ledger@ },
            output: self.output@,
            level: self.level as int,
            multiline: self.multiline_mode,
        }
    }
}

impl<'a> Formatter<'a> {
    /// The printer's invariant: the comments are non-empty ranges of the
    /// text that do not overlap, the cursor lies in the text, and the
    /// indentation of the nesting depth can be counted.
    pub open spec fn inv(&self) -> bool {
        &&& well_placed(self@.cursor.ledger, self@.text.len() as int)
        &&& 0 <= self@.cursor.position <= self@.text.len()
        &&& 0 <= self@.level
        &&& self@.level * INDENT_SIZE <= usize::MAX
    }

    /// A printer at the start of `text`, with the comments that
    /// `comment_ranges` names and nothing written.
    pub fn new(text: &'a str, comment_ranges: Vec<Range<usize>>) -> (formatter: Self)
        ensures
            formatter@ == (FormatterView {
                text: text.spec_bytes(),
                cursor: Cursor { position: 0, ledger: ledger_of(comment_ranges@) },
                output: Seq::empty(),
                level: 0,
                multiline: false,
            }),
    {
        Formatter {
            text: text.as_bytes(),
            ledger: CommentLedger::from_ranges(&comment_ranges),
            output: Vec::new(),
            level: 0,
            text_position: 0,
            multiline_mode: false,
        }
    }

    /// What has been written so far.
    pub fn output(&self) -> (out: &Vec<u8>)
        ensures
            out@ == self@.output,
    {
        &self.output
    }

    /// Ends the printing and hands out what has been written.
    pub fn into_output(self) -> (out: Vec<u8>)
        ensures
            out@ == self@.output,
    {
        self.output
    }

    /// The offset up to which the text has been dealt with.
    pub fn text_position(&self) -> (position: usize)
        ensures
            position == self@.cursor.position,
    {
        self.text_position
    }

    /// The number of comments that are still to be printed.
    pub fn pending_comments(&self) -> (count: usize)
        ensures
            count == self@.cursor.ledger.len(),
    {
        self.ledger.len()
    }

    /// The text is no longer than an offset can count.
    proof fn lemma_text_bound(&self)
        ensures
            self@.text.len() <= usize::MAX,
    {
        vstd::slice::axiom_spec_len(self.text);
    }

    /// What the invariant says of the printer's parts.
    proof fn lemma_ledger_wf(&self)
        requires
            self.inv(),
        ensures
            self.ledger.wf(),
            self.text_position <= self.text@.len(),
            self.level * INDENT_SIZE <= usize::MAX,
            well_placed(self.ledger@, self.text@.len() as int),
    {
        lemma_well_placed_ordered(self.ledger@, self.text@.len() as int);
    }

    /// Whether the printer's invariant holds. It holds of a new printer
    /// if the comments that it was given are well placed in the text.
    pub fn is_well_formed(&self) -> (yes: bool)
        ensures
            yes == self.inv(),
    {
        self.text_position <= self.text.len() && self.level <= usize::MAX / INDENT_SIZE
            && self.ledger.is_well_placed(self.text.len())
    }

    /// Whether a comment that starts before `position` is still to be
    /// printed.
    pub fn contains_comment(&self, position: usize) -> (found: bool)
        requires
            self.inv(),
        ensures
            found == (earliest_before(self@.cursor.ledger, position as int) is Some),
            found == exists|i: int|
                0 <= i < self@.cursor.ledger.len() && (#[trigger] self@.cursor.ledger[i]).start
                    < position,
    {
        proof {
            self.lemma_ledger_wf();
        }
        let found = self.ledger.earliest_before(position).is_some();
        proof {
            let ledger = self.ledger@;
            if found {
                assert(ledger[0].start < position);
            } else {
                assert forall|i: int| 0 <= i < ledger.len() implies (#[trigger] ledger[i]).start
                    >= position by {
                    assert(ledger.contains(ledger[i]));
                }
            }
        }
        found
    }

    /// Blank-line collapse: where the text holds an empty line between the
    /// cursor and `position`, writes one empty line.
    pub fn blank_line(&mut self, position: usize)
        requires
            old(self).inv(),
            old(self)@.cursor.position <= position <= old(self)@.text.len(),
        ensures
            final(self)@ == old(self)@.after(
                blank_line_step(old(self)@.text, old(self)@.cursor, position as int),
            ),
            final(self).inv(),
    {
        let first = find_byte(self.text, LINE_FEED, self.text_position, position);
        if first >= position {
            assert(self@ =~= old(self)@.after(old(self)@.cursor.stay()));
            return ;
        }
        self.text_position = first + 1;
        let second = find_byte(self.text, LINE_FEED, self.text_position, position);
        if second >= position {
            assert(self@ =~= old(self)@.after(old(self)@.cursor.at(first + 1).stay()));
            return ;
        }
        self.text_position = second + 1;
        self.output.push(LINE_FEED);
        proof {
            lemma_flatten_push(self.text@, Seq::empty(), Piece::Newline);
            assert(self@ =~= old(self)@.after(
                old(self)@.cursor.at(second + 1).stay().with_piece(Piece::Newline),
            ));
        }
    }

    /// Starts a new line at the current nesting depth before what stands
    /// at `position`. Writes nothing while the cursor is at the start of
    /// the text.
    pub fn indent(&mut self, position: usize)
        requires
            old(self).inv(),
            old(self)@.cursor.position == 0 || old(self)@.cursor.position <= position <= old(
                self,
            )@.text.len(),
        ensures
            final(self)@ == old(self)@.after(
                indent_step(old(self)@.text, old(self)@.cursor, old(self)@.level, position as int),
            ),
            final(self).inv(),
    {
        if self.text_position == 0 {
            assert(self@ =~= old(self)@.after(old(self)@.cursor.stay()));
            return ;
        }
        self.blank_line(position);
        let ghost blank = blank_line_step(old(self)@.text, old(self)@.cursor, position as int);
        self.output.push(LINE_FEED);
        push_spaces(&mut self.output, self.level * INDENT_SIZE);
        proof {
            let piece = Piece::Break(self.level * INDENT_SIZE);
            lemma_flatten_push(self.text@, blank.pieces, piece);
            assert(self@ =~= old(self)@.after(blank.with_piece(piece)));
        }
    }

    /// Trailing-comment emission: writes the comments that stand between
    /// the cursor and `next_position` on the line of the cursor, each
    /// behind a space.
    pub fn format_trailing_comment(&mut self, next_position: usize)
        requires
            old(self).inv(),
            old(self)@.cursor.position == 0 || (old(self)@.cursor.position <= next_position
                && clear_at(old(self)@.cursor.ledger, next_position as int)),
        ensures
            final(self)@ == old(self)@.after(
                trailing_step(old(self)@.text, old(self)@.cursor, next_position as int),
            ),
            final(self).inv(),
    {
        let ghost text = self.text@;
        let ghost start = self@.cursor;
        let ghost mut done: Seq<Piece> = Seq::empty();
        proof {
            lemma_trailing_step(text, start, next_position as int);
        }
        if self.text_position == 0 {
            assert(self@ =~= old(self)@.after(start.stay()));
            return ;
        }
        loop
            invariant
                self.inv(),
                self@.text == text,
                text == old(self)@.text,
                start == old(self)@.cursor,
                self@.level == old(self)@.level,
                self@.multiline == old(self)@.multiline,
                self@.cursor.position != 0,
                self@.output == old(self)@.output + flatten(text, done),
                trailing_step(text, start, next_position as int) == (Step {
                    pieces: done + trailing_step(text, self@.cursor, next_position as int).pieces,
                    cursor: trailing_step(text, self@.cursor, next_position as int).cursor,
                }),
            decreases self@.cursor.ledger.len(),
        {
            proof {
                self.lemma_ledger_wf();
                lemma_rank(self.ledger@, self.text_position as int);
            }
            let found = self.ledger.within(self.text_position, next_position);
            let ghost k = rank(self.ledger@, self.text_position as int);
            let stop = match found {
                None => true,
                Some(c) => has_line_feed(self.text, self.text_position, c.end),
            };
            if stop {
                proof {
                    let rest = trailing_step(text, self@.cursor, next_position as int);
                    assert(rest == self@.cursor.stay());
                    assert(done + rest.pieces == done);
                }
                assert(self@ =~= old(self)@.after(
                    trailing_step(text, start, next_position as int),
                ));
                return ;
            }
            let c = found.unwrap();
            let ghost before = self@;
            self.output.push(SPACE);
            push_trailing_text(&mut self.output, self.text, c);
            proof {
                lemma_remove_well_placed(self.ledger@, text.len() as int, k);
            }
            self.ledger.remove(c.start);
            self.text_position = c.end;
            proof {
                lemma_flatten_push(text, done, Piece::Space);
                lemma_flatten_push(text, done.push(Piece::Space), Piece::Trailing(c));
                let rest = trailing_step(text, self@.cursor, next_position as int);
                assert(trailing_step(text, before.cursor, next_position as int) == (Step {
                    pieces: seq![Piece::Space, Piece::Trailing(c)] + rest.pieces,
                    cursor: rest.cursor,
                }));
                assert(done + (seq![Piece::Space, Piece::Trailing(c)] + rest.pieces) == done.push(
                    Piece::Space,
                ).push(Piece::Trailing(c)) + rest.pieces);
                done = done.push(Piece::Space).push(Piece::Trailing(c));
            }
        }
    }

    /// Leading-comment emission: writes the comments that start before
    /// `position`, each on lines of its own at the current nesting depth.
    pub fn format_leading_comment(&mut self, position: usize)
        requires
            old(self).inv(),
            pending_ahead(old(self)@.cursor, position as int),
        ensures
            final(self)@ == old(self)@.after(
                leading_step(
                    old(self)@.text,
                    old(self)@.cursor,
                    old(self)@.level,
                    position as int,
                ),
            ),
            final(self).inv(),
    {
        let ghost text = self.text@;
        let ghost start = self@.cursor;
        let ghost level = self@.level;
        let ghost mut done: Seq<Piece> = Seq::empty();
        loop
            invariant
                self.inv(),
                self@.text == text,
                text == old(self)@.text,
                start == old(self)@.cursor,
                self@.level == level,
                level == old(self)@.level,
                self@.multiline == old(self)@.multiline,
                pending_ahead(self@.cursor, position as int),
                self@.output == old(self)@.output + flatten(text, done),
                leading_step(text, start, level, position as int) == (Step {
                    pieces: done + leading_step(text, self@.cursor, level, position as int).pieces,
                    cursor: leading_step(text, self@.cursor, level, position as int).cursor,
                }),
            decreases self@.cursor.ledger.len(),
        {
            proof {
                self.lemma_ledger_wf();
            }
            let found = self.ledger.earliest_before(position);
            if found.is_none() {
                proof {
                    let rest = leading_step(text, self@.cursor, level, position as int);
                    assert(rest == self@.cursor.stay());
                    assert(done + rest.pieces == done);
                }
                assert(self@ =~= old(self)@.after(
                    leading_step(text, start, level, position as int),
                ));
                return ;
            }
            let c = found.unwrap();
            let ghost before = self@;
            proof {
                assert(self.ledger@[0] == c);
                assert(before.cursor.position <= c.start);
            }
            self.indent(c.start);
            let ghost ind = indent_step(text, before.cursor, level, c.start as int);
            self.text_position = c.start;
            push_leading_text(&mut self.output, self.text, c, self.level * INDENT_SIZE);
            proof {
                lemma_indent_step(text, before.cursor, level, c.start as int);
                lemma_remove_well_placed(self.ledger@, text.len() as int, 0);
            }
            self.ledger.remove(c.start);
            self.text_position = c.end;
            proof {
                let piece = Piece::Leading(c, level * INDENT_SIZE);
                let rest = leading_step(text, self@.cursor, level, position as int);
                lemma_flatten_concat(text, done, ind.pieces);
                lemma_flatten_push(text, done + ind.pieces, piece);
                assert(leading_step(text, before.cursor, level, position as int)
                    == ind.with_piece(piece).followed_by(rest));
                assert(done + (ind.pieces.push(piece) + rest.pieces) == (done + ind.pieces).push(
                    piece,
                ) + rest.pieces);
                assert(pending_ahead(self@.cursor, position as int)) by {
                    let old_ledger = before.cursor.ledger;
                    let new_ledger = self@.cursor.ledger;
                    assert forall|i: int|
                        #![trigger new_ledger[i]]
                        0 <= i < new_ledger.len() && new_ledger[i].start
                            < position implies self@.cursor.position <= new_ledger[i].start by {
                        assert(new_ledger[i] == old_ledger[i + 1]);
                    }
                }
                done = (done + ind.pieces).push(piece);
            }
        }
    }

    /// Writes the comments that stand before `position`: those on the line
    /// of the cursor behind it, the others on lines of their own.
    pub fn format_comments(&mut self, position: usize)
        requires
            old(self).inv(),
            pending_ahead(old(self)@.cursor, position as int),
            old(self)@.cursor.position == 0 || (old(self)@.cursor.position <= position
                && clear_at(old(self)@.cursor.ledger, position as int)),
        ensures
            final(self)@ == old(self)@.after(
                comments_step(
                    old(self)@.text,
                    old(self)@.cursor,
                    old(self)@.level,
                    position as int,
                ),
            ),
            final(self).inv(),
    {
        let ghost text = self@.text;
        let ghost trailing = trailing_step(text, self@.cursor, position as int);
        proof {
            lemma_trailing_step(text, self@.cursor, position as int);
        }
        self.format_trailing_comment(position);
        self.format_leading_comment(position);
        proof {
            reveal(comments_step);
            let leading = leading_step(text, trailing.cursor, self@.level, position as int);
            lemma_flatten_concat(text, trailing.pieces, leading.pieces);
            assert(self@ =~= old(self)@.after(trailing.followed_by(leading)));
        }
    }

    /// Symbol localization: the offset of the next `ch` of the text that
    /// lies in no comment still to be printed, or the length of the text
    /// where there is none.
    pub fn find_symbol(&self, ch: u8) -> (at: usize)
        requires
            self.inv(),
        ensures
            at == symbol_index(self@.text, self@.cursor.ledger, ch, self@.cursor.position),
            self@.cursor.position <= at <= self@.text.len(),
    {
        let ghost text = self.text@;
        let ghost ledger = self.ledger@;
        let len = self.text.len();
        let mut from: usize = self.text_position;
        proof {
            self.lemma_ledger_wf();
        }
        loop
            invariant
                self.inv(),
                self.ledger.wf(),
                text == self.text@,
                ledger == self.ledger@,
                well_placed(ledger, text.len() as int),
                len == text.len(),
                self.text_position <= from <= len,
                symbol_index(text, ledger, ch, from as int) == symbol_index(
                    text,
                    ledger,
                    ch,
                    self.text_position as int,
                ),
            decreases len - from,
        {
            let at = find_byte(self.text, ch, from, len);
            proof {
                lemma_first_index(text, ch, from as int, len as int);
                lemma_symbol_index_skip(text, ledger, ch, from as int, at as int);
            }
            if at >= len {
                return len;
            }
            let nearest = self.ledger.nearest_before(at + 1);
            let covering = match nearest {
                Some(c) => if at < c.end {
                    Some(c)
                } else {
                    None
                },
                None => None,
            };
            match covering {
                Some(c) => {
                    proof {
                        let i = choose|i: int| 0 <= i < ledger.len() && ledger[i] == c;
                        assert forall|k: int| at <= k < c.end implies in_comment(ledger, k) by {
                            assert(ledger[i].start <= k < ledger[i].end);
                        }
                        lemma_symbol_index_skip(text, ledger, ch, at as int, c.end as int);
                    }
                    from = c.end;
                },
                None => {
                    proof {
                        if in_comment(ledger, at as int) {
                            let i = choose|i: int|
                                #![trigger ledger[i]]
                                0 <= i < ledger.len() && ledger[i].start <= at < ledger[i].end;
                            assert(ledger.contains(ledger[i]));
                            let c = nearest->0;
                            let j = choose|j: int| 0 <= j < ledger.len() && ledger[j] == c;
                            if i < j {
                                assert(ledger[i].end <= ledger[j].start);
                            } else if j < i {
                                assert(ledger[j].end <= ledger[i].start);
                            }
                            assert(false);
                        }
                    }
                    return at;
                },
            }
        }
    }

    /// Writes what precedes the symbol `ch` that stands at `at`: the
    /// comments before it and a line break, where the layout asks for them.
    fn format_symbol_lead(&mut self, ch: u8, at: usize)
        requires
            old(self).inv(),
            old(self)@.cursor.position <= at < old(self)@.text.len(),
            !in_comment(old(self)@.cursor.ledger, at as int),
            pending_ahead(old(self)@.cursor, at + 1),
        ensures
            final(self)@ == old(self)@.after(
                symbol_lead_step(
                    old(self)@.text,
                    old(self)@.cursor,
                    old(self)@.level,
                    old(self)@.multiline,
                    ch,
                    at as int,
                ),
            ),
            final(self).inv(),
            final(self)@.cursor.position <= at + 1,
    {
        let ghost text = self@.text;
        let ghost start = self@.cursor;
        let ghost level = self@.level;
        proof {
            self.lemma_text_bound();
        }
        let position = at + 1;
        let closing = ch == CLOSE_BRACKET || ch == CLOSE_BRACE;
        if (self.multiline_mode && closing) || self.contains_comment(position) {
            proof {
                assert(clear_at(start.ledger, position as int)) by {
                    assert forall|i: int|
                        #![trigger start.ledger[i]]
                        0 <= i < start.ledger.len() implies !(start.ledger[i].start < position
                        < start.ledger[i].end) by {
                        if start.ledger[i].start < position < start.ledger[i].end {
                            assert(start.ledger[i].start <= at < start.ledger[i].end);
                            assert(in_comment(start.ledger, at as int));
                        }
                    }
                }
                reveal(flush_ready);
                lemma_comments_step(text, start, level, position as int);
            }
            self.format_comments(position);
            let ghost flushed = comments_step(text, start, level, position as int);
            if closing {
                self.text_position = at;
            }
            let ghost from = if is_closing(ch) {
                flushed.ending_at(at as int)
            } else {
                flushed
            };
            let ghost middle = self@;
            assert(middle == old(self)@.after(from));
            self.indent(position);
            proof {
                let ind = indent_step(text, from.cursor, level, position as int);
                lemma_indent_step(text, from.cursor, level, position as int);
                lemma_flatten_concat(text, from.pieces, ind.pieces);
                assert(self@.output == old(self)@.output + flatten(
                    text,
                    from.followed_by(ind).pieces,
                ));
            }
        } else {
            assert(self@.output == old(self)@.output + flatten(text, start.stay().pieces));
        }
    }

    /// Writes the symbol `ch` that stands at `at`, with the line break or
    /// the space that the layout asks for, and moves the cursor behind it.
    pub fn format_symbol_at(&mut self, ch: u8, at: usize)
        requires
            old(self).inv(),
            old(self)@.cursor.position <= at < old(self)@.text.len(),
            !in_comment(old(self)@.cursor.ledger, at as int),
            pending_ahead(old(self)@.cursor, at + 1),
        ensures
            final(self)@ == old(self)@.after(
                symbol_step_at(
                    old(self)@.text,
                    old(self)@.cursor,
                    old(self)@.level,
                    old(self)@.multiline,
                    ch,
                    at as int,
                ),
            ),
            final(self).inv(),
    {
        let ghost text = self@.text;
        let ghost before = symbol_lead_step(
            text,
            self@.cursor,
            self@.level,
            self@.multiline,
            ch,
            at as int,
        );
        proof {
            self.lemma_text_bound();
        }
        self.format_symbol_lead(ch, at);
        self.output.push(ch);
        let ghost written = before.with_piece(Piece::Symbol(ch));
        proof {
            lemma_flatten_push(text, before.pieces, Piece::Symbol(ch));
        }
        if !self.multiline_mode && ch == COMMA {
            self.output.push(SPACE);
            proof {
                lemma_flatten_push(text, written.pieces, Piece::Space);
            }
        }
        self.text_position = at + 1;
    }

    /// Writes the next symbol `ch` of the text. The symbol is looked for
    /// from the cursor on and outside the comments still to be printed.
    pub fn format_symbol(&mut self, ch: u8)
        requires
            old(self).inv(),
            symbol_index(
                old(self)@.text,
                old(self)@.cursor.ledger,
                ch,
                old(self)@.cursor.position,
            ) < old(self)@.text.len(),
            pending_ahead(
                old(self)@.cursor,
                symbol_index(
                    old(self)@.text,
                    old(self)@.cursor.ledger,
                    ch,
                    old(self)@.cursor.position,
                ) + 1,
            ),
        ensures
            final(self)@ == old(self)@.after(
                symbol_step(
                    old(self)@.text,
                    old(self)@.cursor,
                    old(self)@.level,
                    old(self)@.multiline,
                    ch,
                ),
            ),
            final(self).inv(),
    {
        let at = self.find_symbol(ch);
        proof {
            reveal(symbol_step);
            lemma_symbol_index(self@.text, self@.cursor.ledger, ch, self@.cursor.position);
        }
        self.format_symbol_at(ch, at);
    }

    /// Whether no comment that starts before `position` lies behind the
    /// cursor.
    fn ahead_of(&self, position: usize) -> (ahead: bool)
        requires
            self.inv(),
        ensures
            ahead == pending_ahead(self@.cursor, position as int),
    {
        proof {
            self.lemma_ledger_wf();
        }
        let ahead = match self.ledger.earliest_before(position) {
            Some(c) => self.text_position <= c.start,
            None => true,
        };
        proof {
            let ledger = self.ledger@;
            if ahead {
                assert forall|i: int|
                    #![trigger ledger[i]]
                    0 <= i < ledger.len() && ledger[i].start < position implies self.text_position
                    <= ledger[i].start by {
                    assert(ledger.contains(ledger[i]));
                }
            } else {
                assert(ledger[0].start < position);
            }
        }
        ahead
    }

    /// Whether the comments that stand before `position` can be written.
    fn can_flush(&self, position: usize) -> (ready: bool)
        requires
            self.inv(),
        ensures
            ready == flush_ready(self@.text, self@.cursor, position as int),
    {
        proof {
            reveal(flush_ready);
            self.lemma_ledger_wf();
        }
        if position < self.text_position || position > self.text.len() {
            return false;
        }
        let clear = match self.ledger.nearest_before(position) {
            Some(c) => c.end <= position,
            None => true,
        };
        proof {
            let ledger = self.ledger@;
            if clear {
                assert forall|i: int| #![trigger ledger[i]] 0 <= i < ledger.len() implies !(
                ledger[i].start < position < ledger[i].end) by {
                    if ledger[i].start < position < ledger[i].end {
                        assert(ledger.contains(ledger[i]));
                        let c = nearest_before(ledger, position as int)->0;
                        let j = choose|j: int| 0 <= j < ledger.len() && ledger[j] == c;
                        if i < j {
                            assert(ledger[i].end <= ledger[j].start);
                        } else if j < i {
                            assert(ledger[j].end <= ledger[i].start);
                        }
                    }
                }
            } else {
                let c = nearest_before(ledger, position as int)->0;
                let j = choose|j: int| 0 <= j < ledger.len() && ledger[j] == c;
                assert(ledger[j].start < position < ledger[j].end);
            }
        }
        clear && self.ahead_of(position)
    }

    /// Whether `value` lies within the text.
    fn fits(&self, value: ValueEntry) -> (yes: bool)
        ensures
            yes == value.fits(self@.text.len() as int),
    {
        let len = self.text.len();
        value.len <= len && value.position <= len - value.len
    }

    /// Whether a comment that is still to be printed starts inside
    /// `value`.
    pub fn is_comment_included(&self, value: ValueEntry) -> (included: bool)
        requires
            self.inv(),
            value.fits(self@.text.len() as int),
        ensures
            included == (first_within(self@.cursor.ledger, value.position as int, value.end())
                is Some),
    {
        proof {
            self.lemma_ledger_wf();
        }
        proof {
            self.lemma_text_bound();
        }
        self.ledger.within(value.position, value.position + value.len).is_some()
    }

    /// Whether the bytes of `value` hold a line feed.
    pub fn is_newline_included(&self, value: ValueEntry) -> (included: bool)
        requires
            value.fits(self@.text.len() as int),
        ensures
            included == holds_byte(self@.text, LINE_FEED, value.position as int, value.end()),
    {
        proof {
            self.lemma_text_bound();
        }
        has_line_feed(self.text, value.position, value.position + value.len)
    }

    /// The layout oracle: whether the container `value` is printed on
    /// several lines.
    pub fn is_newline_needed(&self, value: ValueEntry) -> (needed: bool)
        requires
            self.inv(),
            value.fits(self@.text.len() as int),
        ensures
            needed == needs_multiline(self@.text, self@.cursor.ledger, value),
    {
        proof {
            reveal(needs_multiline);
        }
        self.is_comment_included(value) || self.is_newline_included(value)
    }

    /// Writes the comments that stand before `position` and starts a new
    /// line for what stands there.
    fn format_lead_in(&mut self, position: usize)
        requires
            old(self).inv(),
            flush_ready(old(self)@.text, old(self)@.cursor, position as int),
        ensures
            final(self)@ == old(self)@.after(
                lead_in_step(
                    old(self)@.text,
                    old(self)@.cursor,
                    old(self)@.level,
                    position as int,
                ),
            ),
            final(self).inv(),
    {
        let ghost text = self@.text;
        let ghost flushed = comments_step(text, self@.cursor, self@.level, position as int);
        proof {
            reveal(lead_in_step);
            reveal(flush_ready);
            lemma_comments_step(text, self@.cursor, self@.level, position as int);
        }
        self.format_comments(position);
        self.indent(position);
        proof {
            let ind = indent_step(text, flushed.cursor, self@.level, position as int);
            lemma_flatten_concat(text, flushed.pieces, ind.pieces);
            assert(self@.output == old(self)@.output + flatten(
                text,
                flushed.followed_by(ind).pieces,
            ));
        }
    }

    /// Writes the next symbol `ch` of the text, if the text holds one that
    /// can be written from where the cursor stands.
    fn try_format_symbol(&mut self, ch: u8) -> (written: bool)
        requires
            old(self).inv(),
        ensures
            written == symbol_ready(old(self)@.text, old(self)@.cursor, ch),
            written ==> final(self)@ == old(self)@.after(
                symbol_step(
                    old(self)@.text,
                    old(self)@.cursor,
                    old(self)@.level,
                    old(self)@.multiline,
                    ch,
                ),
            ) && final(self).inv(),
    {
        proof {
            reveal(symbol_ready);
            reveal(symbol_step);
        }
        let at = self.find_symbol(ch);
        if at >= self.text.len() {
            return false;
        }
        if !self.ahead_of(at + 1) {
            return false;
        }
        proof {
            lemma_symbol_index(self@.text, self@.cursor.ledger, ch, self@.cursor.position);
        }
        self.format_symbol_at(ch, at);
        true
    }

    /// Prints the value at `index` in the layout of the container around
    /// it: on a line of its own, behind the comments that precede it, where
    /// that container takes several lines. Returns the index of the value
    /// that comes next.
    pub fn format_value(&mut self, document: &Document, index: usize) -> (result: Result<
        usize,
        Inconsistent,
    >)
        requires
            old(self).inv(),
        ensures
            printed(
                old(self)@,
                final(self)@,
                render_value(
                    old(self)@.text,
                    document@,
                    index as int,
                    old(self)@.cursor,
                    old(self)@.level,
                    old(self)@.multiline,
                ),
                result,
            ),
            result is Ok ==> final(self).inv() && index < result->Ok_0 <= document@.len(),
        decreases document@.len() - index, 3int,
    {
        if index >= document.values.len() {
            return Err(Inconsistent);
        }
        let ghost text = self@.text;
        let ghost start = self@.cursor;
        if !self.multiline_mode {
            return self.format_value_content(document, index);
        }
        let position = document.values[index].position;
        if !self.can_flush(position) {
            return Err(Inconsistent);
        }
        self.format_lead_in(position);
        let ghost lead = lead_in_step(text, start, self@.level, position as int);
        let ghost middle = self@;
        let result = self.format_value_content(document, index);
        proof {
            let content = render_content(
                text,
                document@,
                index as int,
                lead.cursor,
                middle.level,
                middle.multiline,
            );
            if let Some(w) = content {
                lemma_flatten_concat(text, lead.pieces, w.pieces);
                assert(self@.output == old(self)@.output + flatten(text, lead.pieces + w.pieces));
            }
        }
        result
    }

    /// Prints the value of an object's member behind its colon: behind a
    /// space, or on a line of its own where comments precede it. Returns
    /// the index of the value that comes next.
    pub fn format_member_value(&mut self, document: &Document, index: usize) -> (result:
        Result<usize, Inconsistent>)
        requires
            old(self).inv(),
        ensures
            printed(
                old(self)@,
                final(self)@,
                render_member_value(
                    old(self)@.text,
                    document@,
                    index as int,
                    old(self)@.cursor,
                    old(self)@.level,
                    old(self)@.multiline,
                ),
                result,
            ),
            result is Ok ==> final(self).inv() && index < result->Ok_0 <= document@.len(),
        decreases document@.len() - index, 3int,
    {
        if index >= document.values.len() {
            return Err(Inconsistent);
        }
        let ghost text = self@.text;
        let ghost start = self@.cursor;
        let position = document.values[index].position;
        let ghost lead = if earliest_before(start.ledger, position as int) is None {
            start.stay().with_piece(Piece::Space)
        } else {
            lead_in_step(text, start, self@.level, position as int)
        };
        if self.contains_comment(position) {
            if !self.can_flush(position) {
                return Err(Inconsistent);
            }
            self.format_lead_in(position);
        } else {
            self.output.push(SPACE);
            proof {
                lemma_flatten_push(text, Seq::empty(), Piece::Space);
                assert(self@.output == old(self)@.output + flatten(text, lead.pieces));
            }
        }
        let ghost middle = self@;
        let result = self.format_value_content(document, index);
        proof {
            let content = render_content(
                text,
                document@,
                index as int,
                lead.cursor,
                middle.level,
                middle.multiline,
            );
            if let Some(w) = content {
                lemma_flatten_concat(text, lead.pieces, w.pieces);
                assert(self@.output == old(self)@.output + flatten(text, lead.pieces + w.pieces));
            }
        }
        result
    }

    /// Prints the value at `index` where the cursor stands: a scalar as it
    /// reads in the text, an array or object with what it holds. Returns
    /// the index of the value that comes next.
    pub fn format_value_content(&mut self, document: &Document, index: usize) -> (result:
        Result<usize, Inconsistent>)
        requires
            old(self).inv(),
        ensures
            printed(
                old(self)@,
                final(self)@,
                render_content(
                    old(self)@.text,
                    document@,
                    index as int,
                    old(self)@.cursor,
                    old(self)@.level,
                    old(self)@.multiline,
                ),
                result,
            ),
            result is Ok ==> final(self).inv() && index < result->Ok_0 <= document@.len(),
        decreases document@.len() - index, 2int,
    {
        if index >= document.values.len() {
            return Err(Inconsistent);
        }
        let value = document.values[index];
        if !self.fits(value) {
            return Err(Inconsistent);
        }
        let ghost text = self@.text;
        proof {
            self.lemma_text_bound();
        }
        let end = value.position + value.len;
        match value.kind {
            ValueKind::Array | ValueKind::Object => {
                let result = self.format_container(document, index);
                self.text_position = end;
                result
            },
            _ => {
                push_range(&mut self.output, self.text, value.position, end);
                self.text_position = end;
                proof {
                    lemma_flatten_push(text, Seq::empty(), Piece::Scalar(value));
                    assert(seq![Piece::Scalar(value)] == Seq::<Piece>::empty().push(
                        Piece::Scalar(value),
                    ));
                }
                Ok(index + 1)
            },
        }
    }

    /// Prints the array at `index` with its elements. Returns the index of
    /// the value that comes next.
    pub fn format_array(&mut self, document: &Document, index: usize) -> (result: Result<
        usize,
        Inconsistent,
    >)
        requires
            old(self).inv(),
            index < document@.len(),
            document@[index as int].kind == ValueKind::Array,
            document@[index as int].fits(old(self)@.text.len() as int),
        ensures
            printed(
                old(self)@,
                final(self)@,
                render_container(
                    old(self)@.text,
                    document@,
                    index as int,
                    old(self)@.cursor,
                    old(self)@.level,
                    old(self)@.multiline,
                ),
                result,
            ),
            result is Ok ==> final(self).inv() && index < result->Ok_0 <= document@.len(),
        decreases document@.len() - index, 1int,
    {
        self.format_container(document, index)
    }

    /// Prints the object at `index` with its members. Returns the index of
    /// the value that comes next.
    pub fn format_object(&mut self, document: &Document, index: usize) -> (result: Result<
        usize,
        Inconsistent,
    >)
        requires
            old(self).inv(),
            index < document@.len(),
            document@[index as int].kind == ValueKind::Object,
            document@[index as int].fits(old(self)@.text.len() as int),
        ensures
            printed(
                old(self)@,
                final(self)@,
                render_container(
                    old(self)@.text,
                    document@,
                    index as int,
                    old(self)@.cursor,
                    old(self)@.level,
                    old(self)@.multiline,
                ),
                result,
            ),
            result is Ok ==> final(self).inv() && index < result->Ok_0 <= document@.len(),
        decreases document@.len() - index, 1int,
    {
        self.format_container(document, index)
    }

    /// Prints the member of the object at `parent` whose name is the value
    /// at `index`: the name, the colon and the value. Returns the index of
    /// the value that comes next.
    fn format_member(&mut self, document: &Document, parent: usize, index: usize) -> (result:
        Result<usize, Inconsistent>)
        requires
            old(self).inv(),
            parent < document@.len(),
            document@[parent as int].fits(old(self)@.text.len() as int),
        ensures
            printed(
                old(self)@,
                final(self)@,
                render_member(
                    old(self)@.text,
                    document@,
                    parent as int,
                    index as int,
                    old(self)@.cursor,
                    old(self)@.level,
                    old(self)@.multiline,
                ),
                result,
            ),
            result is Ok ==> final(self).inv() && index < result->Ok_0 <= document@.len(),
        decreases document@.len() - index, 4int,
    {
        let ghost text = self@.text;
        let ghost start = self@;
        proof {
            self.lemma_text_bound();
        }
        let end = document.values[parent].position + document.values[parent].len;
        let ghost name_walk = render_value(
            text,
            document@,
            index as int,
            start.cursor,
            start.level,
            start.multiline,
        );
        let at = match self.format_value(document, index) {
            Ok(next) => next,
            Err(e) => {
                return Err(e);
            },
        };
        let ghost name = name_walk->0;
        if at >= document.values.len() || document.values[at].position >= end {
            return Err(Inconsistent);
        }
        if !self.try_format_symbol(COLON) {
            return Err(Inconsistent);
        }
        let ghost colon = symbol_step(text, name.cursor, start.level, start.multiline, COLON);
        let ghost value_walk = render_member_value(
            text,
            document@,
            at as int,
            colon.cursor,
            start.level,
            start.multiline,
        );
        assert(render_member(
            text,
            document@,
            parent as int,
            index as int,
            start.cursor,
            start.level,
            start.multiline,
        ) == walk_joined(name, walk_after(colon, value_walk)));
        let ghost coloned = self@;
        proof {
            lemma_flatten_concat(text, name.pieces, colon.pieces);
            assert(coloned.output == start.output + flatten(text, name.pieces + colon.pieces));
        }
        let result = self.format_member_value(document, at);
        proof {
            if let Some(v) = value_walk {
                lemma_flatten_concat(text, name.pieces + colon.pieces, v.pieces);
                assert(name.pieces + (colon.pieces + v.pieces) == name.pieces + colon.pieces
                    + v.pieces);
                assert(self@.output == start.output + flatten(
                    text,
                    name.pieces + (colon.pieces + v.pieces),
                ));
            }
        }
        result
    }

    /// Prints one of the things that the container at `parent` holds, the
    /// one that starts with the value at `index`, behind a comma unless it
    /// is the first. Returns the index of the value that comes next.
    fn format_item(
        &mut self,
        document: &Document,
        parent: usize,
        index: usize,
        first: bool,
    ) -> (result: Result<usize, Inconsistent>)
        requires
            old(self).inv(),
            parent < document@.len(),
            document@[parent as int].fits(old(self)@.text.len() as int),
        ensures
            printed(
                old(self)@,
                final(self)@,
                render_item(
                    old(self)@.text,
                    document@,
                    parent as int,
                    index as int,
                    old(self)@.cursor,
                    old(self)@.level,
                    old(self)@.multiline,
                    first,
                ),
                result,
            ),
            result is Ok ==> final(self).inv() && index < result->Ok_0 <= document@.len(),
        decreases document@.len() - index, 5int,
    {
        let ghost text = self@.text;
        let ghost start = self@;
        let ghost separated = if first {
            start.cursor.stay()
        } else {
            symbol_step(text, start.cursor, start.level, start.multiline, COMMA)
        };
        if !first {
            if !self.try_format_symbol(COMMA) {
                return Err(Inconsistent);
            }
        } else {
            assert(self@.output == start.output + flatten(text, separated.pieces));
        }
        let is_object = match document.values[parent].kind {
            ValueKind::Object => true,
            _ => false,
        };
        let ghost item = if is_object {
            render_member(
                text,
                document@,
                parent as int,
                index as int,
                separated.cursor,
                start.level,
                start.multiline,
            )
        } else {
            render_value(
                text,
                document@,
                index as int,
                separated.cursor,
                start.level,
                start.multiline,
            )
        };
        let result = if is_object {
            self.format_member(document, parent, index)
        } else {
            self.format_value(document, index)
        };
        proof {
            if let Some(one) = item {
                lemma_flatten_concat(text, separated.pieces, one.pieces);
                assert(self@.output == start.output + flatten(
                    text,
                    separated.pieces + one.pieces,
                ));
            }
        }
        result
    }

    /// Prints what the container at `parent` holds. Returns the index of
    /// the value that follows the container.
    fn format_items(&mut self, document: &Document, parent: usize) -> (result: Result<
        usize,
        Inconsistent,
    >)
        requires
            old(self).inv(),
            parent < document@.len(),
            document@[parent as int].fits(old(self)@.text.len() as int),
        ensures
            printed(
                old(self)@,
                final(self)@,
                render_items(
                    old(self)@.text,
                    document@,
                    parent as int,
                    parent + 1,
                    old(self)@.cursor,
                    old(self)@.level,
                    old(self)@.multiline,
                    true,
                ),
                result,
            ),
            result is Ok ==> final(self).inv() && parent < result->Ok_0 <= document@.len(),
        decreases document@.len() - parent, 0int,
    {
        let ghost text = self@.text;
        let ghost start = self@;
        proof {
            self.lemma_text_bound();
        }
        let count = document.values.len();
        let end = document.values[parent].position + document.values[parent].len;
        let ghost mut done: Seq<Piece> = Seq::empty();
        let mut next: usize = parent + 1;
        let mut first = true;
        assert(start.output + flatten(text, done) == start.output);
        while next < count && document.values[next].position < end
            invariant
                self.inv(),
                self@.text == text,
                text == old(self)@.text,
                start == old(self)@,
                self@.level == start.level,
                self@.multiline == start.multiline,
                count == document@.len(),
                parent < next <= count,
                end == document@[parent as int].end(),
                document@[parent as int].fits(text.len() as int),
                self@.output == start.output + flatten(text, done),
                render_items(
                    text,
                    document@,
                    parent as int,
                    parent + 1,
                    start.cursor,
                    start.level,
                    start.multiline,
                    true,
                ) == walk_after(
                    Step { pieces: done, cursor: self@.cursor },
                    render_items(
                        text,
                        document@,
                        parent as int,
                        next as int,
                        self@.cursor,
                        start.level,
                        start.multiline,
                        first,
                    ),
                ),
            decreases count - next,
        {
            let ghost before = self@;
            let ghost item = render_item(
                text,
                document@,
                parent as int,
                next as int,
                before.cursor,
                start.level,
                start.multiline,
                first,
            );
            let after = match self.format_item(document, parent, next, first) {
                Ok(n) => n,
                Err(e) => {
                    return Err(e);
                },
            };
            proof {
                let one = item->0;
                let rest = render_items(
                    text,
                    document@,
                    parent as int,
                    after as int,
                    self@.cursor,
                    start.level,
                    start.multiline,
                    false,
                );
                lemma_flatten_concat(text, done, one.pieces);
                if let Some(r) = rest {
                    assert(done + (one.pieces + r.pieces) == (done + one.pieces) + r.pieces);
                }
                done = done + one.pieces;
            }
            next = after;
            first = false;
        }
        proof {
            assert(done + Seq::<Piece>::empty() == done);
        }
        Ok(next)
    }

    /// Ends the printing of the container `value`: writes the comments
    /// that are left before its end and its closing symbol `close`, one
    /// level up and in the layout `inner` of the container.
    fn format_closing(&mut self, value: ValueEntry, inner: bool, close: u8) -> (done: bool)
        requires
            old(self).inv(),
            old(self)@.level > 0,
            value.fits(old(self)@.text.len() as int),
        ensures
            done == (render_closing(
                old(self)@.text,
                old(self)@.cursor,
                old(self)@.level - 1,
                inner,
                value.end(),
                close,
            ) is Some),
            done ==> final(self).inv(),
            done ==> left_container(
                old(self)@,
                final(self)@,
                inner,
                render_closing(
                    old(self)@.text,
                    old(self)@.cursor,
                    old(self)@.level - 1,
                    inner,
                    value.end(),
                    close,
                )->0,
            ),
    {
        let ghost text = self@.text;
        let ghost start = self@;
        proof {
            self.lemma_text_bound();
        }
        let end = value.position + value.len;
        if !self.can_flush(end) {
            return false;
        }
        proof {
            reveal(flush_ready);
            lemma_comments_step(text, start.cursor, start.level, end as int);
        }
        self.format_comments(end);
        let ghost dangling = comments_step(text, start.cursor, start.level, end as int);
        assert(self@.output == start.output + flatten(text, dangling.pieces));
        self.level -= 1;
        self.multiline_mode = inner;
        if !self.try_format_symbol(close) {
            return false;
        }
        let ghost closed = symbol_step(text, dangling.cursor, start.level - 1, inner, close);
        proof {
            lemma_flatten_concat(text, dangling.pieces, closed.pieces);
            assert(self@.output == start.output + flatten(text, dangling.pieces) + flatten(
                text,
                closed.pieces,
            ));
            assert(self@.output == start.output + flatten(
                text,
                dangling.followed_by(closed).pieces,
            ));
        }
        true
    }

    /// Prints the array or object at `index`: its opening symbol, what it
    /// holds, the comments that are left before its end, and its closing
    /// symbol. Returns the index of the value that comes next.
    #[verifier::rlimit(60)]
    fn format_container(&mut self, document: &Document, index: usize) -> (result: Result<
        usize,
        Inconsistent,
    >)
        requires
            old(self).inv(),
            index < document@.len(),
            document@[index as int].fits(old(self)@.text.len() as int),
        ensures
            printed(
                old(self)@,
                final(self)@,
                render_container(
                    old(self)@.text,
                    document@,
                    index as int,
                    old(self)@.cursor,
                    old(self)@.level,
                    old(self)@.multiline,
                ),
                result,
            ),
            result is Ok ==> final(self).inv() && index < result->Ok_0 <= document@.len(),
        decreases document@.len() - index, 1int,
    {
        let ghost text = self@.text;
        let ghost start = self@;
        let value = document.values[index];
        let is_object = match value.kind {
            ValueKind::Object => true,
            _ => false,
        };
        let open = if is_object {
            OPEN_BRACE
        } else {
            OPEN_BRACKET
        };
        let close = if is_object {
            CLOSE_BRACE
        } else {
            CLOSE_BRACKET
        };
        if !self.try_format_symbol(open) {
            return Err(Inconsistent);
        }
        if self.level >= usize::MAX / INDENT_SIZE {
            return Err(Inconsistent);
        }
        let ghost opened = symbol_step(text, start.cursor, start.level, start.multiline, open);
        let outer_mode = self.multiline_mode;
        let inner = self.is_newline_needed(value);
        self.level += 1;
        self.multiline_mode = inner;
        let ghost items_walk = render_items(
            text,
            document@,
            index as int,
            index + 1,
            opened.cursor,
            start.level + 1,
            inner,
            true,
        );
        let next = match self.format_items(document, index) {
            Ok(n) => n,
            Err(e) => {
                return Err(e);
            },
        };
        let ghost items = items_walk->0;
        let ghost filled = self@;
        let ghost closing_walk = render_closing(
            text,
            items.cursor,
            start.level,
            inner,
            value.end(),
            close,
        );
        assert(filled.output == start.output + flatten(text, opened.pieces) + flatten(
            text,
            items.pieces,
        ));
        if !self.format_closing(value, inner, close) {
            return Err(Inconsistent);
        }
        let ghost closing = closing_walk->0;
        self.multiline_mode = outer_mode;
        proof {
            lemma_flatten_concat(text, opened.pieces, items.pieces);
            lemma_flatten_concat(text, opened.pieces + items.pieces, closing.pieces);
            assert(self@.output == start.output + flatten(
                text,
                opened.pieces + items.pieces + closing.pieces,
            ));
        }
        Ok(next)
    }

    /// Prints the document: its top-level value, the comments that follow
    /// it and a final line feed. Fails where the text, the values and the
    /// comments do not agree; a document that agrees with its text as a
    /// parser's does is always printed.
    pub fn format(&mut self, document: &Document) -> (result: Result<(), Inconsistent>)
        requires
            old(self)@.cursor.position == 0,
            old(self)@.level == 0,
        ensures
            match render_document(old(self)@.text, document@, old(self)@.cursor.ledger) {
                Some(pieces) => result is Ok && final(self)@.output == old(self)@.output + flatten(
                    old(self)@.text,
                    pieces,
                ) && final(self)@.cursor.ledger.len() == 0,
                None => result is Err,
            },
            document_agrees(old(self)@.text, document@, old(self)@.cursor.ledger) ==> result is Ok,
    {
        let ghost text = self@.text;
        let ghost start = self@;
        let len = self.text.len();
        proof {
            if document_agrees(text, document@, start.cursor.ledger) {
                lemma_agreeing_document_prints(text, document@, start.cursor.ledger);
            }
        }
        if document.values.len() == 0 || !self.is_well_formed() {
            return Err(Inconsistent);
        }
        let root = document.values[0];
        if !self.fits(root) {
            return Err(Inconsistent);
        }
        self.multiline_mode = self.is_newline_needed(root);
        let ghost walk = render_value(
            text,
            document@,
            0,
            start.cursor,
            0,
            needs_multiline(text, start.cursor.ledger, root),
        );
        match self.format_value(document, 0) {
            Ok(next) => {
                if next != document.values.len() {
                    return Err(Inconsistent);
                }
            },
            Err(e) => {
                return Err(e);
            },
        }
        if !self.can_flush(len) {
            return Err(Inconsistent);
        }
        let ghost rest = comments_step(text, self@.cursor, 0, len as int);
        proof {
            reveal(flush_ready);
            lemma_comments_step(text, self@.cursor, 0, len as int);
        }
        self.format_comments(len);
        self.output.push(LINE_FEED);
        proof {
            let w = walk->0;
            lemma_flatten_concat(text, w.pieces, rest.pieces);
            lemma_flatten_push(text, w.pieces + rest.pieces, Piece::Newline);
            assert(self@.output == old(self)@.output + flatten(
                text,
                (w.pieces + rest.pieces).push(Piece::Newline),
            ));
            let ledger = self@.cursor.ledger;
            if ledger.len() > 0 {
                assert(ledger[0].start >= len);
                assert(ledger[0].start < ledger[0].end && ledger[0].end <= len);
            }
        }
        Ok(())
    }
}

} // verus!
