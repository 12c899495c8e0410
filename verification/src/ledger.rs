//! The comment ledger: the comments of a source text that have not been
//! printed yet.
//!
//! A comment is a half-open byte range of the text. The ledger keeps its
//! comments ordered by their start, one comment per start, and is drained as
//! the printer moves through the text.

use core::ops::Range;
use vstd::prelude::*;

verus! {

/// The half-open byte range `[start, end)` that a comment takes in the text.
#[derive(Clone, Copy, Debug, PartialEq, Eq, Structural)]
pub struct CommentRange {
    pub start: usize,
    pub end: usize,
}

/// Whether the starts of `s` increase strictly from one entry to the next.
pub open spec fn ordered(s: Seq<CommentRange>) -> bool {
    forall|i: int, j: int| 0 <= i < j < s.len() ==> s[i].start < s[j].start
}

/// Whether the comments of `s` are non-empty ranges of a text of `len`
/// bytes that follow one another without overlap.
pub open spec fn well_placed(s: Seq<CommentRange>, len: int) -> bool {
    &&& forall|i: int| 0 <= i < s.len() ==> s[i].start < s[i].end && s[i].end <= len
    &&& forall|i: int, j: int| 0 <= i < j < s.len() ==> s[i].end <= s[j].start
}

/// How many entries of the first `n` remain once the trailing ones that
/// start at or after `bound` are set aside.
pub open spec fn rank_upto(s: Seq<CommentRange>, bound: int, n: int) -> int
    decreases n,
{
    if n <= 0 {
        0
    } else if s[n - 1].start < bound {
        n
    } else {
        rank_upto(s, bound, n - 1)
    }
}

/// The number of comments of an ordered `s` that start before `bound`;
/// they are its first entries.
pub open spec fn rank(s: Seq<CommentRange>, bound: int) -> int {
    rank_upto(s, bound, s.len() as int)
}

/// The comment with the least start, where that start is before `position`.
pub open spec fn earliest_before(s: Seq<CommentRange>, position: int) -> Option<CommentRange> {
    if s.len() > 0 && s[0].start < position {
        Some(s[0])
    } else {
        None
    }
}

/// The comment with the greatest start before `position`.
pub open spec fn nearest_before(s: Seq<CommentRange>, position: int) -> Option<CommentRange> {
    let k = rank(s, position);
    if k > 0 {
        Some(s[k - 1])
    } else {
        None
    }
}

/// The comment with the least start in `[lo, hi)`.
pub open spec fn first_within(s: Seq<CommentRange>, lo: int, hi: int) -> Option<CommentRange> {
    let k = rank(s, lo);
    if k < s.len() && s[k].start < hi {
        Some(s[k])
    } else {
        None
    }
}

/// `s` without the comment that starts at `start`; `s` itself where it
/// holds none.
pub open spec fn without(s: Seq<CommentRange>, start: int) -> Seq<CommentRange> {
    let k = rank(s, start);
    if k < s.len() && s[k].start == start {
        s.remove(k)
    } else {
        s
    }
}

/// `s` with `c` put in its place; a comment of `s` with the same start
/// makes way for it.
pub open spec fn with_comment(s: Seq<CommentRange>, c: CommentRange) -> Seq<CommentRange> {
    let k = rank(s, c.start as int);
    if k < s.len() && s[k].start == c.start {
        s.update(k, c)
    } else {
        s.insert(k, c)
    }
}

/// The ledger that holds the given ranges, entered one after the other.
pub open spec fn ledger_of(ranges: Seq<Range<usize>>) -> Seq<CommentRange>
    decreases ranges.len(),
{
    if ranges.len() == 0 {
        Seq::empty()
    } else {
        with_comment(
            ledger_of(ranges.drop_last()),
            CommentRange { start: ranges.last().start, end: ranges.last().end },
        )
    }
}

/// In an ordered ledger the rank splits the entries: those before it start
/// before the bound, those from it on do not.
pub proof fn lemma_rank(s: Seq<CommentRange>, bound: int)
    requires
        ordered(s),
    ensures
        0 <= rank(s, bound) <= s.len(),
        forall|i: int| 0 <= i < rank(s, bound) ==> s[i].start < bound,
        forall|i: int| rank(s, bound) <= i < s.len() ==> s[i].start >= bound,
{
    lemma_rank_upto(s, bound, s.len() as int);
}

/// The rank among the first `n` entries splits them at the bound.
proof fn lemma_rank_upto(s: Seq<CommentRange>, bound: int, n: int)
    requires
        ordered(s),
        0 <= n <= s.len(),
    ensures
        0 <= rank_upto(s, bound, n) <= n,
        forall|i: int| 0 <= i < rank_upto(s, bound, n) ==> s[i].start < bound,
        forall|i: int| rank_upto(s, bound, n) <= i < n ==> s[i].start >= bound,
    decreases n,
{
    if n > 0 && s[n - 1].start >= bound {
        lemma_rank_upto(s, bound, n - 1);
    }
}

/// An index that splits an ordered ledger at the bound is its rank.
pub proof fn lemma_rank_unique(s: Seq<CommentRange>, bound: int, k: int)
    requires
        ordered(s),
        0 <= k <= s.len(),
        forall|i: int| 0 <= i < k ==> s[i].start < bound,
        forall|i: int| k <= i < s.len() ==> s[i].start >= bound,
    ensures
        rank(s, bound) == k,
{
    lemma_rank(s, bound);
    let r = rank(s, bound);
    if r < k {
        assert(s[r].start < bound);
    } else if k < r {
        assert(s[k].start >= bound);
    }
}

/// Comments that are well placed are ordered.
pub proof fn lemma_well_placed_ordered(s: Seq<CommentRange>, len: int)
    requires
        well_placed(s, len),
    ensures
        ordered(s),
{
}

/// Taking a comment out keeps the rest ordered and well placed.
pub proof fn lemma_without(s: Seq<CommentRange>, start: int, len: int)
    requires
        ordered(s),
    ensures
        ordered(without(s, start)),
        well_placed(s, len) ==> well_placed(without(s, start), len),
        forall|c: CommentRange| without(s, start).contains(c) ==> s.contains(c),
        forall|c: CommentRange| s.contains(c) && c.start != start ==> without(s, start).contains(c),
{
    lemma_rank(s, start);
    let k = rank(s, start);
    let t = without(s, start);
    if k < s.len() && s[k].start == start {
        assert forall|c: CommentRange| t.contains(c) implies s.contains(c) by {
            let i = choose|i: int| 0 <= i < t.len() && t[i] == c;
            if i < k {
                assert(s[i] == c);
            } else {
                assert(s[i + 1] == c);
            }
        }
        assert forall|c: CommentRange| s.contains(c) && c.start != start implies t.contains(c) by {
            let i = choose|i: int| 0 <= i < s.len() && s[i] == c;
            if i < k {
                assert(t[i] == c);
            } else {
                assert(t[i - 1] == c);
            }
        }
    }
}

/// Putting a comment in keeps the ledger ordered.
pub proof fn lemma_with_comment(s: Seq<CommentRange>, c: CommentRange)
    requires
        ordered(s),
    ensures
        ordered(with_comment(s, c)),
{
    lemma_rank(s, c.start as int);
}

/// The comments of a text that are still to be printed, ordered by start.
///
/// The ledger is drained from the front as the printer moves through the
/// text: taking out its first comment costs no more than a step.
pub struct CommentLedger {
    ranges: Vec<CommentRange>,
    front: usize,
}

impl View for CommentLedger {
    type V = Seq<CommentRange>;

    /// The comments of the ledger in the order of their starts.
    closed spec fn view(&self) -> Seq<CommentRange> {
        self.ranges@.skip(self.first())
    }
}

impl CommentLedger {
    /// The index in the store of the first comment that is still in the
    /// ledger. The comments before it were taken out at the front.
    closed spec fn first(&self) -> int {
        if self.front <= self.ranges@.len() {
            self.front as int
        } else {
            self.ranges@.len() as int
        }
    }

    /// The index in the store of the first comment that is still in the
    /// ledger.
    fn first_stored(&self) -> (first: usize)
        ensures
            first == self.first(),
            first <= self.ranges@.len(),
    {
        if self.front <= self.ranges.len() {
            self.front
        } else {
            self.ranges.len()
        }
    }

    /// The ledger's invariant: one comment per start, in rising order.
    pub open spec fn wf(&self) -> bool {
        ordered(self@)
    }

    /// An empty ledger.
    pub fn new() -> (ledger: Self)
        ensures
            ledger@ == Seq::<CommentRange>::empty(),
            ledger.wf(),
    {
        CommentLedger { ranges: Vec::new(), front: 0 }
    }

    /// The ledger of the given ranges. Of two ranges with one start the
    /// later one stays.
    pub fn from_ranges(ranges: &Vec<Range<usize>>) -> (ledger: Self)
        ensures
            ledger@ == ledger_of(ranges@),
            ledger.wf(),
    {
        let mut ledger = CommentLedger::new();
        let mut done: usize = 0;
        while done < ranges.len()
            invariant
                done <= ranges.len(),
                ledger@ == ledger_of(ranges@.subrange(0, done as int)),
                ledger.wf(),
            decreases ranges.len() - done,
        {
            let comment = CommentRange { start: ranges[done].start, end: ranges[done].end };
            proof {
                let next = ranges@.subrange(0, done + 1);
                assert(next.drop_last() == ranges@.subrange(0, done as int));
            }
            ledger.insert(comment);
            done += 1;
        }
        proof {
            assert(ranges@.subrange(0, done as int) == ranges@);
        }
        ledger
    }

    /// The number of comments in the ledger.
    pub fn len(&self) -> (n: usize)
        ensures
            n == self@.len(),
    {
        self.ranges.len() - self.first_stored()
    }

    /// Whether every comment has been taken out.
    pub fn is_empty(&self) -> (empty: bool)
        ensures
            empty == (self@.len() == 0),
    {
        self.ranges.len() == self.first_stored()
    }

    /// Takes every comment out.
    pub fn clear(&mut self)
        ensures
            final(self)@ == Seq::<CommentRange>::empty(),
            final(self).wf(),
    {
        self.front = 0;
        self.ranges.clear();
    }

    /// The number of comments that start before `bound`.
    fn rank(&self, bound: usize) -> (k: usize)
        requires
            self.wf(),
        ensures
            k == rank(self@, bound as int),
            k <= self@.len(),
            self.first() + k <= self.ranges@.len() <= usize::MAX,
    {
        let first = self.first_stored();
        let ghost view = self@;
        let mut lo: usize = first;
        let mut hi: usize = self.ranges.len();
        while lo < hi
            invariant
                first <= lo <= hi <= self.ranges@.len(),
                view == self.ranges@.skip(first as int),
                ordered(view),
                forall|i: int| 0 <= i < lo - first ==> view[i].start < bound,
                forall|i: int| hi - first <= i < view.len() ==> view[i].start >= bound,
            decreases hi - lo,
        {
            let mid: usize = lo + (hi - lo) / 2;
            assert(self.ranges@[mid as int] == view[mid - first]);
            if self.ranges[mid].start < bound {
                lo = mid + 1;
            } else {
                hi = mid;
            }
        }
        proof {
            lemma_rank_unique(view, bound as int, lo - first);
        }
        lo - first
    }

    /// Puts `comment` in its place, in place of any comment with the same
    /// start.
    pub fn insert(&mut self, comment: CommentRange)
        requires
            old(self).wf(),
        ensures
            final(self)@ == with_comment(old(self)@, comment),
            final(self).wf(),
    {
        let first = self.first_stored();
        let k = self.rank(comment.start);
        let at = first + k;
        proof {
            lemma_with_comment(self@, comment);
        }
        let ghost before = self.ranges@;
        if at < self.ranges.len() && self.ranges[at].start == comment.start {
            self.ranges[at] = comment;
            assert(self.ranges@.skip(first as int) == before.skip(first as int).update(
                k as int,
                comment,
            ));
        } else {
            self.ranges.insert(at, comment);
            assert(self.ranges@.skip(first as int) == before.skip(first as int).insert(
                k as int,
                comment,
            ));
        }
        self.front = first;
    }

    /// The comment with the least start, if that start is before
    /// `position`.
    pub fn earliest_before(&self, position: usize) -> (found: Option<CommentRange>)
        requires
            self.wf(),
        ensures
            found == earliest_before(self@, position as int),
            match found {
                Some(c) => self@.contains(c) && c.start < position && forall|d: CommentRange|
                    self@.contains(d) ==> c.start <= d.start,
                None => forall|d: CommentRange| self@.contains(d) ==> d.start >= position,
            },
    {
        let first = self.first_stored();
        if first < self.ranges.len() && self.ranges[first].start < position {
            Some(self.ranges[first])
        } else {
            None
        }
    }

    /// The comment with the greatest start before `position`.
    pub fn nearest_before(&self, position: usize) -> (found: Option<CommentRange>)
        requires
            self.wf(),
        ensures
            found == nearest_before(self@, position as int),
            match found {
                Some(c) => self@.contains(c) && c.start < position && forall|d: CommentRange|
                    self@.contains(d) && d.start < position ==> d.start <= c.start,
                None => forall|d: CommentRange| self@.contains(d) ==> d.start >= position,
            },
    {
        let k = self.rank(position);
        proof {
            lemma_rank(self@, position as int);
        }
        if k > 0 {
            Some(self.ranges[self.first_stored() + k - 1])
        } else {
            None
        }
    }

    /// The comment with the least start in `[lo, hi)`.
    pub fn within(&self, lo: usize, hi: usize) -> (found: Option<CommentRange>)
        requires
            self.wf(),
        ensures
            found == first_within(self@, lo as int, hi as int),
            match found {
                Some(c) => self@.contains(c) && lo <= c.start < hi && forall|d: CommentRange|
                    self@.contains(d) && lo <= d.start ==> c.start <= d.start,
                None => forall|d: CommentRange| self@.contains(d) ==> !(lo <= d.start < hi),
            },
    {
        let k = self.rank(lo);
        proof {
            lemma_rank(self@, lo as int);
        }
        let at = self.first_stored() + k;
        if at < self.ranges.len() && self.ranges[at].start < hi {
            Some(self.ranges[at])
        } else {
            None
        }
    }

    /// Takes out the comment that starts at `start`. Where the ledger
    /// holds none, nothing changes.
    pub fn remove(&mut self, start: usize)
        requires
            old(self).wf(),
        ensures
            final(self)@ == without(old(self)@, start as int),
            final(self).wf(),
    {
        let first = self.first_stored();
        let k = self.rank(start);
        let at = first + k;
        proof {
            lemma_without(self@, start as int, 0);
        }
        let ghost before = self.ranges@;
        if at < self.ranges.len() && self.ranges[at].start == start {
            if k == 0 {
                self.front = first + 1;
                assert(before.skip(first + 1) == before.skip(first as int).remove(0));
            } else {
                self.ranges.remove(at);
                self.front = first;
                assert(self.ranges@.skip(first as int) == before.skip(first as int).remove(
                    k as int,
                ));
            }
        }
    }

    /// Whether the comments are non-empty ranges of a text of `len` bytes
    /// that follow one another without overlap.
    pub fn is_well_placed(&self, len: usize) -> (yes: bool)
        ensures
            yes == well_placed(self@, len as int),
    {
        let first = self.first_stored();
        let ghost view = self@;
        let mut at: usize = first;
        let mut floor: usize = 0;
        while at < self.ranges.len()
            invariant
                first <= at <= self.ranges@.len(),
                view == self@,
                view == self.ranges@.skip(first as int),
                well_placed(view.subrange(0, at - first), len as int),
                at == first ==> floor == 0,
                at > first ==> floor == view[at - first - 1].end,
            decreases self.ranges@.len() - at,
        {
            let c = self.ranges[at];
            let ghost i = at - first;
            assert(c == view[i]);
            if !(floor <= c.start && c.start < c.end && c.end <= len) {
                proof {
                    assert(0 <= i < view.len());
                    if well_placed(view, len as int) {
                        assert(view[i].start < view[i].end && view[i].end <= len);
                        if c.start < floor {
                            assert(view[i - 1].end <= view[i].start);
                        }
                    }
                }
                return false;
            }
            proof {
                let head = view.subrange(0, i);
                let more = view.subrange(0, i + 1);
                assert forall|a: int, b: int| 0 <= a < b < more.len() implies more[a].end
                    <= more[b].start by {
                    if b < i {
                        assert(head[a].end <= head[b].start);
                    } else if a < i - 1 {
                        assert(head[a].end <= head[i - 1].start);
                        assert(head[i - 1].start < head[i - 1].end);
                    }
                }
                assert forall|a: int| 0 <= a < more.len() implies more[a].start < more[a].end
                    && more[a].end <= len by {
                    if a < i {
                        assert(head[a].start < head[a].end);
                    }
                }
            }
            floor = c.end;
            at += 1;
        }
        proof {
            assert(view.subrange(0, at - first) == view);
        }
        true
    }
}

} // verus!
