//! Walkers: lazy sequences of entries over a cursor.
//!
//! A walker owns its cursor while it walks, and `into_cursor` gives the cursor
//! back where the walk stopped. What a walker has yet to yield is a function
//! of the table and the cursor's position, so a walk can be reasoned about as
//! a whole, and deleting the entry just yielded does not disturb the rest.

use vstd::prelude::*;
use crate::bytes::{bytes_eq, bytes_le, bytes_lt, lex_le, lex_lt};
use crate::cursor::{
    entry_at, last_state, next_state, prev_state, returns_pair, state_at, subkey_fits, Cursor,
    CursorState,
};
use crate::dups::KeyLayout;
use crate::error::{read_error, read_refused, DatabaseError, DatabaseReadOperation};
use crate::store::{
    ascending, lemma_rank, lemma_upper_rank, lemma_upper_rank_unique, rank, upper_rank, Entries,
};
use crate::table::{
    by_composite, key_fits, lemma_pairs_sorted, opt_bytes, Pair, PairResult,
};

verus! {

/// What a walker yields at one step: an entry, or an error, or nothing more.
pub type Step = Option<Result<Pair, DatabaseError>>;

/// The step yields exactly `expected`.
pub open spec fn yields(r: Step, expected: Option<(Seq<u8>, Seq<u8>)>) -> bool {
    match expected {
        Some(e) => r matches Some(Ok(p)) && p.0@ == e.0 && p.1@ == e.1,
        None => r is None,
    }
}

/// The entry that a walker holds, as a sequence of at most one entry.
pub open spec fn held(start: Option<Pair>) -> Entries {
    match start {
        Some(p) => seq![(p.0@, p.1@)],
        None => Seq::empty(),
    }
}

/// The entries that stepping forward from `state` visits.
pub open spec fn after(p: Entries, state: CursorState) -> Entries {
    match state {
        CursorState::Start => p,
        CursorState::End => Seq::empty(),
        CursorState::At(i) => if i < p.len() {
            p.skip(i + 1)
        } else {
            Seq::empty()
        },
    }
}

/// The entries that stepping back from `state` visits.
pub open spec fn before(p: Entries, state: CursorState) -> Entries {
    match state {
        CursorState::Start => p.reverse(),
        CursorState::End => p.reverse(),
        CursorState::At(i) => if i < p.len() {
            p.take(i as int).reverse()
        } else {
            Seq::empty()
        },
    }
}

/// Stepping back from index `i` visits the entry before it first, and then
/// what stepping back from there visits.
pub proof fn lemma_before_step(p: Entries, i: int)
    requires
        0 < i <= p.len(),
    ensures
        p.take(i).reverse().len() == i,
        p.take(i).reverse()[0] == p[i - 1],
        p.take(i).reverse().skip(1) == p.take(i - 1).reverse(),
{
    assert(p.take(i).reverse().skip(1) =~= p.take(i - 1).reverse());
}

/// The first entry of a sequence, if it has one.
pub open spec fn head(s: Entries) -> Option<(Seq<u8>, Seq<u8>)> {
    if s.len() > 0 {
        Some(s[0])
    } else {
        None
    }
}

/// The pairs of a vector, as entries.
pub open spec fn pairs_view(v: Seq<Pair>) -> Entries {
    v.map_values(|p: Pair| (p.0@, p.1@))
}

/// Turns a read of the cursor into a step of a walk.
fn step_of(r: Result<Option<Pair>, DatabaseError>) -> (s: Step)
    ensures
        match r {
            Ok(Some(p)) => s == Some(Ok::<Pair, DatabaseError>(p)),
            Ok(None) => s is None,
            Err(e) => s == Some(Err::<Pair, DatabaseError>(e)),
        },
{
    match r {
        Ok(Some(p)) => Some(Ok(p)),
        Ok(None) => None,
        Err(e) => Some(Err(e)),
    }
}

/// A walk forward through the table.
pub struct Walker<'a> {
    /// The cursor that the walk moves.
    pub cursor: Cursor<'a>,
    /// The entry to yield first, if one was fetched already.
    pub start: Option<Pair>,
}

impl<'a> Walker<'a> {
    /// The cursor is within a consistent table.
    pub open spec fn wf(&self) -> bool {
        self.cursor.wf()
    }

    /// The entries that the walk has yet to yield, in order.
    pub open spec fn remaining(&self) -> Entries {
        held(self.start) + after(self.cursor.pairs(), self.cursor.state)
    }

    /// A walk that yields `start` first and then what follows the cursor.
    pub fn new(cursor: Cursor<'a>, start: Option<Pair>) -> (w: Walker<'a>)
        ensures
            w.cursor.same_table(&cursor),
            w.cursor.state == cursor.state,
            w.start == start,
            *final(w.cursor.table) == *final(cursor.table),
    {
        Walker { cursor, start }
    }

    /// Yields the next entry of the walk: the held entry if there is one, else
    /// the entry that follows the cursor.
    pub fn next(&mut self) -> (r: Step)
        requires
            old(self).wf(),
        ensures
            final(self).wf(),
            final(self).cursor.same_table(&old(self).cursor),
            *final(final(self).cursor.table) == *final(old(self).cursor.table),
            yields(r, head(old(self).remaining())),
            r is Some ==> final(self).remaining() == old(self).remaining().skip(1),
            r is None ==> final(self).remaining().len() == 0,
            final(self).start is None,
            final(self).cursor.state == if old(self).start is Some {
                old(self).cursor.state
            } else {
                next_state(old(self).cursor.pairs(), old(self).cursor.state)
            },
    {
        let start = self.start.take();
        match start {
            Some(p) => {
                proof {
                    let rest = after(old(self).cursor.pairs(), old(self).cursor.state);
                    assert(old(self).remaining() =~= seq![(p.0@, p.1@)] + rest);
                    assert(self.remaining() =~= rest);
                    assert((seq![(p.0@, p.1@)] + rest).skip(1) =~= rest);
                }
                Some(Ok(p))
            },
            None => {
                let r = self.cursor.next();
                proof {
                    let p = old(self).cursor.pairs();
                    assert(old(self).remaining() =~= after(p, old(self).cursor.state));
                    assert(self.remaining() =~= after(p, self.cursor.state));
                    match old(self).cursor.state {
                        CursorState::Start => {
                            if p.len() > 0 {
                                assert(old(self).remaining().skip(1) =~= self.remaining());
                            }
                        },
                        CursorState::End => {},
                        CursorState::At(i) => {
                            if i + 1 < p.len() {
                                assert(p.skip(i + 1).skip(1) =~= p.skip(i + 2));
                                assert(old(self).remaining().skip(1) =~= self.remaining());
                            }
                        },
                    }
                }
                step_of(r)
            },
        }
    }

    /// Deletes the entry the cursor is at, which is the one the walk yielded
    /// last, and goes on from the entry that followed it.
    pub fn delete_current(&mut self) -> (r: Result<(), DatabaseError>)
        requires
            old(self).wf(),
        ensures
            final(self).wf(),
            final(self).cursor.same_schema(&old(self).cursor),
            *final(final(self).cursor.table) == *final(old(self).cursor.table),
            match old(self).cursor.state {
                CursorState::Start => final(self).cursor.unchanged(&old(self).cursor)
                    && final(self).start is None && read_refused(
                    r,
                    DatabaseReadOperation::DeleteCurrent,
                    "Deleting from uninitialized cursor"@,
                    old(self).cursor.table.name(),
                    Seq::empty(),
                ),
                CursorState::End => {
                    &&& final(self).cursor.unchanged(&old(self).cursor)
                    &&& final(self).start is None
                    &&& r is Ok
                },
                CursorState::At(i) => {
                    &&& r is Ok
                    &&& final(self).cursor.pairs() == old(self).cursor.pairs().remove(i as int)
                    &&& final(self).cursor.state == state_at(final(self).cursor.pairs(), i as int)
                    &&& final(self).remaining() == after(
                        old(self).cursor.pairs(),
                        old(self).cursor.state,
                    )
                },
            },
    {
        self.start = None;
        match self.cursor.delete_current() {
            Err(e) => Err(e),
            Ok(()) => {
                match self.cursor.current() {
                    Err(e) => Err(e),
                    Ok(c) => {
                        self.start = c;
                        proof {
                            if let CursorState::At(i) = old(self).cursor.state {
                                let p = old(self).cursor.pairs();
                                assert(self.remaining() =~= p.skip(i + 1));
                            }
                        }
                        Ok(())
                    },
                }
            },
        }
    }

    /// All entries that the walk has yet to yield.
    pub fn collect(&mut self) -> (r: Result<Vec<Pair>, DatabaseError>)
        requires
            old(self).wf(),
        ensures
            final(self).wf(),
            final(self).cursor.same_table(&old(self).cursor),
            *final(final(self).cursor.table) == *final(old(self).cursor.table),
            r matches Ok(v) && pairs_view(v@) == old(self).remaining(),
            final(self).remaining().len() == 0,
    {
        let mut out: Vec<Pair> = Vec::new();
        assert(pairs_view(out@) =~= Seq::empty());
        loop
            invariant
                self.wf(),
                self.cursor.same_table(&old(self).cursor),
                *final(self.cursor.table) == *final(old(self).cursor.table),
                pairs_view(out@) + self.remaining() == old(self).remaining(),
            decreases self.remaining().len(),
        {
            let ghost rest = self.remaining();
            let ghost done = pairs_view(out@);
            match self.next() {
                None => {
                    assert(done + rest =~= done);
                    return Ok(out);
                },
                Some(Err(e)) => {
                    return Err(e);
                },
                Some(Ok(p)) => {
                    out.push(p);
                    assert(pairs_view(out@) =~= done.push(rest[0]));
                    assert(done.push(rest[0]) + rest.skip(1) =~= done + rest);
                },
            }
        }
    }

    /// A walk back from where this walk stands, starting with the entry the
    /// cursor is at.
    pub fn rev(self) -> (r: Result<ReverseWalker<'a>, DatabaseError>)
        requires
            self.wf(),
        ensures
            r matches Ok(w) && w.wf() && w.cursor.same_table(&self.cursor) && w.cursor.state
                == self.cursor.state && *final(w.cursor.table) == *final(self.cursor.table)
                && held(w.start) == held_entry(entry_at(self.cursor.pairs(), self.cursor.state)),
    {
        let mut cursor = self.cursor;
        match cursor.current() {
            Err(e) => Err(e),
            Ok(start) => Ok(ReverseWalker { cursor, start }),
        }
    }

    /// Ends the walk and gives the cursor back, where the walk left it.
    pub fn into_cursor(self) -> (c: Cursor<'a>)
        ensures
            c.same_table(&self.cursor),
            c.state == self.cursor.state,
            *final(c.table) == *final(self.cursor.table),
    {
        self.cursor
    }
}

/// An entry, as a sequence of at most one entry.
pub open spec fn held_entry(e: Option<(Seq<u8>, Seq<u8>)>) -> Entries {
    match e {
        Some(p) => seq![p],
        None => Seq::empty(),
    }
}

/// A walk back through the table.
pub struct ReverseWalker<'a> {
    /// The cursor that the walk moves.
    pub cursor: Cursor<'a>,
    /// The entry to yield first, if one was fetched already.
    pub start: Option<Pair>,
}

impl<'a> ReverseWalker<'a> {
    /// The cursor is within a consistent table.
    pub open spec fn wf(&self) -> bool {
        self.cursor.wf()
    }

    /// The entries that the walk has yet to yield, in order.
    pub open spec fn remaining(&self) -> Entries {
        held(self.start) + before(self.cursor.pairs(), self.cursor.state)
    }

    /// A walk that yields `start` first and then what precedes the cursor.
    pub fn new(cursor: Cursor<'a>, start: Option<Pair>) -> (w: ReverseWalker<'a>)
        ensures
            w.cursor.same_table(&cursor),
            w.cursor.state == cursor.state,
            w.start == start,
            *final(w.cursor.table) == *final(cursor.table),
    {
        ReverseWalker { cursor, start }
    }

    /// Yields the next entry of the walk: the held entry if there is one, else
    /// the entry that precedes the cursor. A walk that has come to the front of
    /// the table yields nothing and leaves the cursor before the first entry.
    pub fn next(&mut self) -> (r: Step)
        requires
            old(self).wf(),
        ensures
            final(self).wf(),
            final(self).cursor.same_table(&old(self).cursor),
            *final(final(self).cursor.table) == *final(old(self).cursor.table),
            yields(r, head(old(self).remaining())),
            r is Some ==> final(self).remaining() == old(self).remaining().skip(1),
            final(self).start is None,
            final(self).cursor.state == if old(self).start is Some {
                old(self).cursor.state
            } else {
                prev_state(old(self).cursor.pairs(), old(self).cursor.state)
            },
    {
        let start = self.start.take();
        match start {
            Some(p) => {
                proof {
                    let rest = before(old(self).cursor.pairs(), old(self).cursor.state);
                    assert(old(self).remaining() =~= seq![(p.0@, p.1@)] + rest);
                    assert(self.remaining() =~= rest);
                    assert((seq![(p.0@, p.1@)] + rest).skip(1) =~= rest);
                }
                Some(Ok(p))
            },
            None => {
                let r = self.cursor.prev();
                proof {
                    let p = old(self).cursor.pairs();
                    assert(old(self).remaining() =~= before(p, old(self).cursor.state));
                    assert(self.remaining() =~= before(p, self.cursor.state));
                    if let CursorState::At(j) = self.cursor.state {
                        lemma_before_step(p, j + 1);
                        assert(p.take(p.len() as int) =~= p);
                        assert(old(self).remaining() == p.take(j + 1).reverse());
                        assert(self.remaining() == p.take(j as int).reverse());
                    }
                }
                step_of(r)
            },
        }
    }

    /// Deletes the entry the cursor is at, which is the one the walk yielded
    /// last, and goes on from the entry that preceded it.
    pub fn delete_current(&mut self) -> (r: Result<(), DatabaseError>)
        requires
            old(self).wf(),
        ensures
            final(self).wf(),
            final(self).cursor.same_schema(&old(self).cursor),
            *final(final(self).cursor.table) == *final(old(self).cursor.table),
            final(self).start is None,
            match old(self).cursor.state {
                CursorState::Start => final(self).cursor.unchanged(&old(self).cursor)
                    && read_refused(
                    r,
                    DatabaseReadOperation::DeleteCurrent,
                    "Deleting from uninitialized cursor"@,
                    old(self).cursor.table.name(),
                    Seq::empty(),
                ),
                CursorState::End => final(self).cursor.unchanged(&old(self).cursor) && r is Ok,
                CursorState::At(i) => {
                    &&& r is Ok
                    &&& final(self).cursor.pairs() == old(self).cursor.pairs().remove(i as int)
                    &&& final(self).cursor.state == state_at(final(self).cursor.pairs(), i as int)
                    &&& final(self).remaining() == before(
                        old(self).cursor.pairs(),
                        old(self).cursor.state,
                    )
                },
            },
    {
        self.start = None;
        let r = self.cursor.delete_current();
        proof {
            if let CursorState::At(i) = old(self).cursor.state {
                let p = old(self).cursor.pairs();
                let q = self.cursor.pairs();
                assert(q.take(i as int) =~= p.take(i as int));
                if i >= q.len() {
                    assert(q =~= p.take(i as int));
                }
                assert(self.remaining() =~= p.take(i as int).reverse());
            }
        }
        r
    }

    /// All entries that the walk has yet to yield.
    pub fn collect(&mut self) -> (r: Result<Vec<Pair>, DatabaseError>)
        requires
            old(self).wf(),
        ensures
            final(self).wf(),
            final(self).cursor.same_table(&old(self).cursor),
            *final(final(self).cursor.table) == *final(old(self).cursor.table),
            r matches Ok(v) && pairs_view(v@) == old(self).remaining(),
    {
        let mut out: Vec<Pair> = Vec::new();
        assert(pairs_view(out@) =~= Seq::empty());
        loop
            invariant
                self.wf(),
                self.cursor.same_table(&old(self).cursor),
                *final(self.cursor.table) == *final(old(self).cursor.table),
                pairs_view(out@) + self.remaining() == old(self).remaining(),
            decreases self.remaining().len(),
        {
            let ghost rest = self.remaining();
            let ghost done = pairs_view(out@);
            match self.next() {
                None => {
                    assert(done + rest =~= done);
                    return Ok(out);
                },
                Some(Err(e)) => {
                    return Err(e);
                },
                Some(Ok(p)) => {
                    out.push(p);
                    assert(pairs_view(out@) =~= done.push(rest[0]));
                    assert(done.push(rest[0]) + rest.skip(1) =~= done + rest);
                },
            }
        }
    }

    /// A walk forward from where this walk stands, starting with the entry
    /// the cursor is at.
    pub fn forward(self) -> (r: Result<Walker<'a>, DatabaseError>)
        requires
            self.wf(),
        ensures
            r matches Ok(w) && w.wf() && w.cursor.same_table(&self.cursor) && w.cursor.state
                == self.cursor.state && *final(w.cursor.table) == *final(self.cursor.table)
                && held(w.start) == held_entry(entry_at(self.cursor.pairs(), self.cursor.state)),
    {
        let mut cursor = self.cursor;
        match cursor.current() {
            Err(e) => Err(e),
            Ok(start) => Ok(Walker { cursor, start }),
        }
    }

    /// Ends the walk and gives the cursor back, where the walk left it.
    pub fn into_cursor(self) -> (c: Cursor<'a>)
        ensures
            c.same_table(&self.cursor),
            c.state == self.cursor.state,
            *final(c.table) == *final(self.cursor.table),
    {
        self.cursor
    }
}

/// Where a range of keys ends.
#[derive(Debug, Clone)]
pub enum KeyBound {
    /// The range ends with this key.
    Included(Vec<u8>),
    /// The range ends before this key.
    Excluded(Vec<u8>),
    /// The range has no end.
    Unbounded,
}

/// Whether `key` is before the end of the range.
pub open spec fn within(end: KeyBound, key: Seq<u8>) -> bool {
    match end {
        KeyBound::Included(e) => lex_le(key, e@),
        KeyBound::Excluded(e) => lex_lt(key, e@),
        KeyBound::Unbounded => true,
    }
}

/// The entries of `s` up to the first whose key is past the end of the range.
pub open spec fn prefix_within(s: Entries, end: KeyBound) -> Entries
    decreases s.len(),
{
    if s.len() == 0 || !within(end, s[0].0) {
        Seq::empty()
    } else {
        seq![s[0]] + prefix_within(s.skip(1), end)
    }
}

/// Whether `key` is before the end of the range.
fn is_within(end: &KeyBound, key: &[u8]) -> (r: bool)
    ensures
        r == within(*end, key@),
{
    match end {
        KeyBound::Included(e) => bytes_le(key, e.as_slice()),
        KeyBound::Excluded(e) => bytes_lt(key, e.as_slice()),
        KeyBound::Unbounded => true,
    }
}

/// A walk forward that stops at the end of a range of keys.
pub struct RangeWalker<'a> {
    /// The cursor that the walk moves.
    pub cursor: Cursor<'a>,
    /// The entry to yield first, if one was fetched already.
    pub start: Option<Pair>,
    /// Where the range ends.
    pub end_key: KeyBound,
    /// The walk has come to the end of the range or of the table.
    pub is_done: bool,
}

impl<'a> RangeWalker<'a> {
    /// The cursor is within a consistent table.
    pub open spec fn wf(&self) -> bool {
        self.cursor.wf()
    }

    /// The entries that the walk has yet to yield, in order.
    pub open spec fn remaining(&self) -> Entries {
        if self.is_done {
            Seq::empty()
        } else {
            prefix_within(
                held(self.start) + after(self.cursor.pairs(), self.cursor.state),
                self.end_key,
            )
        }
    }

    /// A walk that yields `start` first and then what follows the cursor, up
    /// to the end of the range.
    pub fn new(cursor: Cursor<'a>, start: Option<Pair>, end_key: KeyBound) -> (w: RangeWalker<'a>)
        ensures
            w.cursor.same_table(&cursor),
            w.cursor.state == cursor.state,
            w.start == start,
            w.end_key == end_key,
            !w.is_done,
            *final(w.cursor.table) == *final(cursor.table),
    {
        RangeWalker { cursor, start, end_key, is_done: false }
    }

    /// Yields the next entry of the walk, or nothing once an entry is past
    /// the end of the range or the table has ended; from then on the walk
    /// yields nothing.
    pub fn next(&mut self) -> (r: Step)
        requires
            old(self).wf(),
        ensures
            final(self).wf(),
            final(self).cursor.same_table(&old(self).cursor),
            *final(final(self).cursor.table) == *final(old(self).cursor.table),
            final(self).end_key == old(self).end_key,
            yields(r, head(old(self).remaining())),
            r is Some ==> final(self).remaining() == old(self).remaining().skip(1),
            r is None ==> final(self).remaining().len() == 0 && final(self).is_done,
    {
        if self.is_done {
            return None;
        }
        let ghost all = held(self.start) + after(self.cursor.pairs(), self.cursor.state);
        let item = match self.start.take() {
            Some(p) => {
                proof {
                    let rest = after(old(self).cursor.pairs(), old(self).cursor.state);
                    assert((seq![(p.0@, p.1@)] + rest).skip(1) =~= rest);
                    assert(held(self.start) + rest =~= rest);
                }
                Ok(Some(p))
            },
            None => {
                let r = self.cursor.next();
                proof {
                    let p = old(self).cursor.pairs();
                    assert(all =~= after(p, old(self).cursor.state));
                    assert(held(self.start) + after(p, self.cursor.state) =~= after(
                        p,
                        self.cursor.state,
                    ));
                    match old(self).cursor.state {
                        CursorState::Start => {},
                        CursorState::End => {},
                        CursorState::At(i) => {
                            if i + 1 < p.len() {
                                assert(p.skip(i + 1).skip(1) =~= p.skip(i + 2));
                            }
                        },
                    }
                }
                r
            },
        };
        match item {
            Err(e) => Some(Err(e)),
            Ok(None) => {
                self.is_done = true;
                None
            },
            Ok(Some(p)) => {
                if is_within(&self.end_key, p.0.as_slice()) {
                    assert(all[0] == (p.0@, p.1@));
                    assert(held(self.start) + after(self.cursor.pairs(), self.cursor.state)
                        == all.skip(1));
                    assert((seq![all[0]] + prefix_within(all.skip(1), self.end_key)).skip(1)
                        =~= prefix_within(all.skip(1), self.end_key));
                    Some(Ok(p))
                } else {
                    self.is_done = true;
                    None
                }
            },
        }
    }

    /// Deletes the entry the cursor is at, which is the one the walk yielded
    /// last, and goes on from the entry that followed it.
    pub fn delete_current(&mut self) -> (r: Result<(), DatabaseError>)
        requires
            old(self).wf(),
        ensures
            final(self).wf(),
            final(self).cursor.same_schema(&old(self).cursor),
            *final(final(self).cursor.table) == *final(old(self).cursor.table),
            final(self).end_key == old(self).end_key,
            final(self).is_done == old(self).is_done,
            match old(self).cursor.state {
                CursorState::Start => final(self).cursor.unchanged(&old(self).cursor)
                    && read_refused(
                    r,
                    DatabaseReadOperation::DeleteCurrent,
                    "Deleting from uninitialized cursor"@,
                    old(self).cursor.table.name(),
                    Seq::empty(),
                ),
                CursorState::End => final(self).cursor.unchanged(&old(self).cursor) && r is Ok,
                CursorState::At(i) => {
                    &&& r is Ok
                    &&& final(self).cursor.pairs() == old(self).cursor.pairs().remove(i as int)
                    &&& final(self).cursor.state == state_at(final(self).cursor.pairs(), i as int)
                    &&& held(final(self).start) + after(
                        final(self).cursor.pairs(),
                        final(self).cursor.state,
                    ) == after(old(self).cursor.pairs(), old(self).cursor.state)
                },
            },
    {
        self.start = None;
        match self.cursor.delete_current() {
            Err(e) => Err(e),
            Ok(()) => {
                match self.cursor.current() {
                    Err(e) => Err(e),
                    Ok(c) => {
                        self.start = c;
                        proof {
                            if let CursorState::At(i) = old(self).cursor.state {
                                let p = old(self).cursor.pairs();
                                assert(held(self.start) + after(
                                    self.cursor.pairs(),
                                    self.cursor.state,
                                ) =~= p.skip(i + 1));
                            }
                        }
                        Ok(())
                    },
                }
            },
        }
    }

    /// All entries that the walk has yet to yield.
    pub fn collect(&mut self) -> (r: Result<Vec<Pair>, DatabaseError>)
        requires
            old(self).wf(),
        ensures
            final(self).wf(),
            final(self).cursor.same_table(&old(self).cursor),
            *final(final(self).cursor.table) == *final(old(self).cursor.table),
            r matches Ok(v) && pairs_view(v@) == old(self).remaining(),
            final(self).remaining().len() == 0,
    {
        let mut out: Vec<Pair> = Vec::new();
        assert(pairs_view(out@) =~= Seq::empty());
        loop
            invariant
                self.wf(),
                self.cursor.same_table(&old(self).cursor),
                *final(self.cursor.table) == *final(old(self).cursor.table),
                pairs_view(out@) + self.remaining() == old(self).remaining(),
            decreases self.remaining().len(),
        {
            let ghost rest = self.remaining();
            let ghost done = pairs_view(out@);
            match self.next() {
                None => {
                    assert(done + rest =~= done);
                    return Ok(out);
                },
                Some(Err(e)) => {
                    return Err(e);
                },
                Some(Ok(p)) => {
                    out.push(p);
                    assert(pairs_view(out@) =~= done.push(rest[0]));
                    assert(done.push(rest[0]) + rest.skip(1) =~= done + rest);
                },
            }
        }
    }

    /// Ends the walk and gives the cursor back, where the walk left it.
    pub fn into_cursor(self) -> (c: Cursor<'a>)
        ensures
            c.same_table(&self.cursor),
            c.state == self.cursor.state,
            *final(c.table) == *final(self.cursor.table),
    {
        self.cursor
    }
}

/// The entries that stepping forward within the current primary key visits:
/// the rest of the entries of that key. From `Start` these are the entries of
/// the first primary key.
pub open spec fn dup_after(p: Entries, state: CursorState) -> Entries {
    match state {
        CursorState::Start => if p.len() > 0 {
            p.take(upper_rank(p, p[0].0))
        } else {
            Seq::empty()
        },
        CursorState::End => Seq::empty(),
        CursorState::At(i) => if i < p.len() {
            p.subrange(i + 1, upper_rank(p, p[i as int].0))
        } else {
            Seq::empty()
        },
    }
}

/// The entry after index `i` has the primary key of the entry at `i` exactly
/// if it is within the run of that key.
pub proof fn lemma_run_next(p: Entries, i: int)
    requires
        ascending(p),
        0 <= i < p.len(),
    ensures
        i < upper_rank(p, p[i].0) <= p.len(),
        i + 1 < upper_rank(p, p[i].0) <==> (i + 1 < p.len() && p[i + 1].0 == p[i].0),
        i + 1 < upper_rank(p, p[i].0) ==> upper_rank(p, p[i + 1].0) == upper_rank(p, p[i].0),
{
    let key = p[i].0;
    lemma_upper_rank(p, key);
    lemma_rank(p, key);
    let u = upper_rank(p, key);
    if u <= i {
        assert(lex_lt(key, p[i].0));
        crate::bytes::lemma_lex_asymmetric(key, p[i].0);
    }
    if i + 1 < p.len() {
        if i + 1 < u {
            assert(lex_le(p[i + 1].0, key));
            assert(lex_le(p[i].0, p[i + 1].0));
            if p[i + 1].0 != key {
                crate::bytes::lemma_lex_asymmetric(p[i + 1].0, key);
            }
        } else {
            assert(lex_lt(key, p[i + 1].0));
            crate::bytes::lemma_lex_asymmetric(key, p[i + 1].0);
        }
    }
}

/// Removing an entry from a run shortens the run by one.
pub proof fn lemma_run_remove(p: Entries, i: int)
    requires
        ascending(p),
        0 <= i < p.len(),
    ensures
        ascending(p.remove(i)),
        upper_rank(p.remove(i), p[i].0) == upper_rank(p, p[i].0) - 1,
{
    let key = p[i].0;
    let q = p.remove(i);
    lemma_run_next(p, i);
    lemma_upper_rank(p, key);
    let u = upper_rank(p, key);
    assert forall|a: int, b: int| 0 <= a < b < q.len() implies lex_le(
        #[trigger] q[a].0,
        #[trigger] q[b].0,
    ) by {
        let pa = if a < i { a } else { a + 1 };
        let pb = if b < i { b } else { b + 1 };
        assert(q[a] == p[pa] && q[b] == p[pb]);
    }
    assert forall|a: int| 0 <= a < u - 1 implies lex_le(#[trigger] q[a].0, key) by {
        let pa = if a < i { a } else { a + 1 };
        assert(q[a] == p[pa]);
    }
    assert forall|a: int| u - 1 <= a < q.len() implies lex_lt(key, #[trigger] q[a].0) by {
        assert(q[a] == p[a + 1]);
    }
    lemma_upper_rank_unique(q, key, u - 1);
}

/// A walk through the entries of one primary key.
pub struct DupWalker<'a> {
    /// The cursor that the walk moves.
    pub cursor: Cursor<'a>,
    /// The entry to yield first, if one was fetched already.
    pub start: Option<Pair>,
}

impl<'a> DupWalker<'a> {
    /// The cursor is within a consistent table.
    pub open spec fn wf(&self) -> bool {
        self.cursor.wf()
    }

    /// The entries that the walk has yet to yield, in order.
    pub open spec fn remaining(&self) -> Entries {
        held(self.start) + dup_after(self.cursor.pairs(), self.cursor.state)
    }

    /// A walk that yields `start` first and then the entries that follow the
    /// cursor and have the primary key of the entry the cursor is at.
    pub fn new(cursor: Cursor<'a>, start: Option<Pair>) -> (w: DupWalker<'a>)
        ensures
            w.cursor.same_table(&cursor),
            w.cursor.state == cursor.state,
            w.start == start,
            *final(w.cursor.table) == *final(cursor.table),
    {
        DupWalker { cursor, start }
    }

    /// Yields the next entry of the walk: the held entry if there is one, else
    /// the entry that follows the cursor if it has the same primary key. The
    /// walk never crosses into the next primary key.
    pub fn next(&mut self) -> (r: Step)
        requires
            old(self).wf(),
        ensures
            final(self).wf(),
            final(self).cursor.same_table(&old(self).cursor),
            *final(final(self).cursor.table) == *final(old(self).cursor.table),
            yields(r, head(old(self).remaining())),
            r is Some ==> final(self).remaining() == old(self).remaining().skip(1),
            r is None ==> final(self).remaining().len() == 0,
            final(self).start is None,
    {
        let ghost p = self.cursor.pairs();
        proof {
            lemma_pairs_sorted(self.cursor.table.layout(), self.cursor.table.entries());
        }
        match self.start.take() {
            Some(x) => {
                proof {
                    let rest = dup_after(p, old(self).cursor.state);
                    assert(old(self).remaining() =~= seq![(x.0@, x.1@)] + rest);
                    assert(self.remaining() =~= rest);
                    assert((seq![(x.0@, x.1@)] + rest).skip(1) =~= rest);
                }
                Some(Ok(x))
            },
            None => {
                let r = self.cursor.next_dup();
                proof {
                    assert(old(self).remaining() =~= dup_after(p, old(self).cursor.state));
                    assert(self.remaining() =~= dup_after(p, self.cursor.state));
                    match old(self).cursor.state {
                        CursorState::Start => {
                            if p.len() > 0 {
                                lemma_run_next(p, 0);
                                let u = upper_rank(p, p[0].0);
                                assert(p.take(u).skip(1) =~= p.subrange(1, u));
                            }
                        },
                        CursorState::End => {},
                        CursorState::At(i) => {
                            lemma_run_next(p, i as int);
                            let u = upper_rank(p, p[i as int].0);
                            if i + 1 < u {
                                assert(p.subrange(i + 1, u).skip(1) =~= p.subrange(i + 2, u));
                            } else {
                                assert(p.subrange(i + 1, u) =~= Seq::empty());
                            }
                        },
                    }
                }
                step_of(r)
            },
        }
    }

    /// Deletes the entry the cursor is at, which is the one the walk yielded
    /// last, and goes on with the entries of its primary key that followed
    /// it. If none did, the walk is over and the cursor is at `End`.
    pub fn delete_current(&mut self) -> (r: Result<(), DatabaseError>)
        requires
            old(self).wf(),
        ensures
            final(self).wf(),
            final(self).cursor.same_schema(&old(self).cursor),
            *final(final(self).cursor.table) == *final(old(self).cursor.table),
            match old(self).cursor.state {
                CursorState::Start => final(self).cursor.unchanged(&old(self).cursor)
                    && read_refused(
                    r,
                    DatabaseReadOperation::DeleteCurrent,
                    "Deleting from uninitialized cursor"@,
                    old(self).cursor.table.name(),
                    Seq::empty(),
                ),
                CursorState::End => final(self).cursor.unchanged(&old(self).cursor) && r is Ok,
                CursorState::At(i) => {
                    &&& r is Ok
                    &&& final(self).cursor.pairs() == old(self).cursor.pairs().remove(i as int)
                    &&& final(self).remaining() == dup_after(
                        old(self).cursor.pairs(),
                        old(self).cursor.state,
                    )
                    &&& final(self).cursor.state == if final(self).remaining().len() > 0 {
                        CursorState::At(i)
                    } else {
                        CursorState::End
                    }
                },
            },
    {
        self.start = None;
        match self.cursor.state {
            CursorState::At(i) => {
                let ghost p = self.cursor.pairs();
                proof {
                    lemma_pairs_sorted(self.cursor.table.layout(), self.cursor.table.entries());
                    lemma_run_next(p, i as int);
                    lemma_run_remove(p, i as int);
                }
                let here = self.cursor.table.pair_at(i);
                match self.cursor.delete_current() {
                    Err(e) => Err(e),
                    Ok(()) => {
                        match self.cursor.current() {
                            Err(e) => Err(e),
                            Ok(Some(c)) => {
                                let ghost u = upper_rank(p, p[i as int].0);
                                if bytes_eq(c.0.as_slice(), here.0.as_slice()) {
                                    self.start = Some(c);
                                    proof {
                                        let q = self.cursor.pairs();
                                        assert(q[i as int] == p[i + 1]);
                                        assert(q.subrange(i + 1, u - 1) =~= p.subrange(i + 2, u));
                                        assert(self.remaining() =~= p.subrange(i + 1, u));
                                    }
                                } else {
                                    self.cursor.state = CursorState::End;
                                    proof {
                                        assert(self.cursor.pairs()[i as int] == p[i + 1]);
                                        assert(p.subrange(i + 1, u) =~= Seq::empty());
                                        assert(self.remaining() =~= Seq::empty());
                                    }
                                }
                                Ok(())
                            },
                            Ok(None) => {
                                proof {
                                    let u = upper_rank(p, p[i as int].0);
                                    assert(p.subrange(i + 1, u) =~= Seq::empty());
                                    assert(self.remaining() =~= Seq::empty());
                                }
                                Ok(())
                            },
                        }
                    },
                }
            },
            _ => self.cursor.delete_current(),
        }
    }

    /// All entries that the walk has yet to yield.
    pub fn collect(&mut self) -> (r: Result<Vec<Pair>, DatabaseError>)
        requires
            old(self).wf(),
        ensures
            final(self).wf(),
            final(self).cursor.same_table(&old(self).cursor),
            *final(final(self).cursor.table) == *final(old(self).cursor.table),
            r matches Ok(v) && pairs_view(v@) == old(self).remaining(),
            final(self).remaining().len() == 0,
    {
        let mut out: Vec<Pair> = Vec::new();
        assert(pairs_view(out@) =~= Seq::empty());
        loop
            invariant
                self.wf(),
                self.cursor.same_table(&old(self).cursor),
                *final(self.cursor.table) == *final(old(self).cursor.table),
                pairs_view(out@) + self.remaining() == old(self).remaining(),
            decreases self.remaining().len(),
        {
            let ghost rest = self.remaining();
            let ghost done = pairs_view(out@);
            match self.next() {
                None => {
                    assert(done + rest =~= done);
                    return Ok(out);
                },
                Some(Err(e)) => {
                    return Err(e);
                },
                Some(Ok(x)) => {
                    out.push(x);
                    assert(pairs_view(out@) =~= done.push(rest[0]));
                    assert(done.push(rest[0]) + rest.skip(1) =~= done + rest);
                },
            }
        }
    }

    /// Ends the walk and gives the cursor back, where the walk left it.
    pub fn into_cursor(self) -> (c: Cursor<'a>)
        ensures
            c.same_table(&self.cursor),
            c.state == self.cursor.state,
            *final(c.table) == *final(self.cursor.table),
    {
        self.cursor
    }
}

/// Whether a walk through the values of `key`, from `subkey` on if one is
/// given, has no place to start although the table goes on: the search came to
/// an entry of another key, and, with a subkey, the entry before it is not of
/// `key` either.
pub open spec fn missing_start(
    layout: KeyLayout,
    p: Entries,
    key: Seq<u8>,
    subkey: Option<Seq<u8>>,
) -> bool {
    match subkey {
        None => {
            let i = rank(p, key);
            i < p.len() && p[i].0 != key
        },
        Some(s) => {
            let i = rank(by_composite(layout, p), key + s);
            i < p.len() && p[i].0 != key && (i == 0 || p[i - 1].0 != key)
        },
    }
}

/// The index at which a walk through the values of `key` starts.
pub open spec fn dup_start(layout: KeyLayout, p: Entries, key: Seq<u8>, subkey: Option<Seq<u8>>)
    -> int {
    match subkey {
        None => rank(p, key),
        Some(s) => rank(by_composite(layout, p), key + s),
    }
}

/// The search that starts a walk through the values of a key.
pub open spec fn dup_seek(subkey: Option<Seq<u8>>) -> DatabaseReadOperation {
    match subkey {
        None => DatabaseReadOperation::Seek,
        Some(_) => DatabaseReadOperation::SeekBySubkey,
    }
}

/// Whether a key, with a subkey if one is given, can be searched for in a
/// duplicate-aware walk.
pub open spec fn dup_fits(layout: KeyLayout, key: Seq<u8>, subkey: Option<Seq<u8>>) -> bool {
    match subkey {
        None => key_fits(layout, key),
        Some(s) => subkey_fits(layout, key, s),
    }
}

impl<'a> Cursor<'a> {
    /// A walk forward from the first entry at or after `start_key`, or from
    /// the first entry of the table if no key is given.
    pub fn walk(self, start_key: Option<&[u8]>) -> (r: Result<Walker<'a>, DatabaseError>)
        requires
            self.wf(),
        ensures
            match r {
                Ok(w) => {
                    &&& w.wf()
                    &&& w.cursor.same_table(&self)
                    &&& *final(w.cursor.table) == *final(self.table)
                    &&& w.cursor.state == state_at(
                        self.pairs(),
                        match start_key {
                            Some(k) => rank(self.pairs(), k@),
                            None => 0,
                        },
                    )
                    &&& w.remaining() == match start_key {
                        Some(k) => self.pairs().skip(rank(self.pairs(), k@)),
                        None => self.pairs(),
                    }
                    &&& start_key matches Some(k) ==> key_fits(old(self.table).layout(), k@)
                },
                Err(e) => {
                    &&& start_key matches Some(k) && !key_fits(old(self.table).layout(), k@)
                    &&& e.is_read(
                        DatabaseReadOperation::Seek,
                        "InvalidKey"@,
                        old(self.table).name(),
                        start_key->Some_0@,
                    )
                    &&& *final(self.table) == *old(self.table)
                },
            },
    {
        let mut cursor = self;
        let ghost p = cursor.pairs();
        let found = match start_key {
            Some(key) => {
                proof {
                    lemma_pairs_sorted(cursor.table.layout(), cursor.table.entries());
                    lemma_rank(p, key@);
                }
                cursor.seek(key)
            },
            None => cursor.first(),
        };
        match found {
            Err(e) => Err(e),
            Ok(start) => {
                let w = Walker { cursor, start };
                proof {
                    if let CursorState::At(i) = w.cursor.state {
                        assert(w.remaining() =~= p.skip(i as int));
                    } else {
                        assert(w.remaining() =~= Seq::empty());
                        let n = match start_key {
                            Some(k) => rank(p, k@),
                            None => 0,
                        };
                        assert(p.skip(n) =~= Seq::empty());
                    }
                }
                Ok(w)
            },
        }
    }

    /// A walk back from the first entry at or after `start_key`, or from the
    /// last entry of the table if no key is given.
    pub fn walk_back(self, start_key: Option<&[u8]>) -> (r: Result<
        ReverseWalker<'a>,
        DatabaseError,
    >)
        requires
            self.wf(),
        ensures
            match r {
                Ok(w) => {
                    &&& w.wf()
                    &&& w.cursor.same_table(&self)
                    &&& *final(w.cursor.table) == *final(self.table)
                    &&& w.cursor.state == match start_key {
                        Some(k) => state_at(self.pairs(), rank(self.pairs(), k@)),
                        None => last_state(self.pairs()),
                    }
                    &&& held(w.start) == held_entry(entry_at(self.pairs(), w.cursor.state))
                    &&& start_key matches Some(k) ==> key_fits(old(self.table).layout(), k@)
                },
                Err(e) => {
                    &&& start_key matches Some(k) && !key_fits(old(self.table).layout(), k@)
                    &&& e.is_read(
                        DatabaseReadOperation::Seek,
                        "InvalidKey"@,
                        old(self.table).name(),
                        start_key->Some_0@,
                    )
                    &&& *final(self.table) == *old(self.table)
                },
            },
    {
        let mut cursor = self;
        let found = match start_key {
            Some(key) => cursor.seek(key),
            None => cursor.last(),
        };
        match found {
            Err(e) => Err(e),
            Ok(start) => Ok(ReverseWalker { cursor, start }),
        }
    }

    /// A walk forward from the first entry at or after `start_key`, or from
    /// the first entry of the table if no key is given, up to `end_key`.
    pub fn walk_range(self, start_key: Option<&[u8]>, end_key: KeyBound) -> (r: Result<
        RangeWalker<'a>,
        DatabaseError,
    >)
        requires
            self.wf(),
        ensures
            match r {
                Ok(w) => {
                    &&& w.wf()
                    &&& w.cursor.same_table(&self)
                    &&& *final(w.cursor.table) == *final(self.table)
                    &&& w.end_key == end_key
                    &&& w.remaining() == prefix_within(
                        match start_key {
                            Some(k) => self.pairs().skip(rank(self.pairs(), k@)),
                            None => self.pairs(),
                        },
                        end_key,
                    )
                    &&& start_key matches Some(k) ==> key_fits(old(self.table).layout(), k@)
                },
                Err(e) => {
                    &&& start_key matches Some(k) && !key_fits(old(self.table).layout(), k@)
                    &&& e.is_read(
                        DatabaseReadOperation::Seek,
                        "InvalidKey"@,
                        old(self.table).name(),
                        start_key->Some_0@,
                    )
                    &&& *final(self.table) == *old(self.table)
                },
            },
    {
        match self.walk(start_key) {
            Err(e) => Err(e),
            Ok(w) => Ok(
                RangeWalker { cursor: w.cursor, start: w.start, end_key, is_done: false },
            ),
        }
    }

    /// Moves to where a walk through the values of `key` starts, and returns
    /// the entry there, whatever its key.
    fn seek_dup(&mut self, key: &[u8], subkey: Option<&[u8]>) -> (r: PairResult)
        requires
            old(self).wf(),
        ensures
            final(self).wf(),
            final(self).same_table(old(self)),
            *final(final(self).table) == *final(old(self).table),
            dup_fits(old(self).table.layout(), key@, opt_bytes(subkey)) ==> final(self).state
                == state_at(
                old(self).pairs(),
                dup_start(old(self).table.layout(), old(self).pairs(), key@, opt_bytes(subkey)),
            ) && returns_pair(r, entry_at(old(self).pairs(), final(self).state)),
            !dup_fits(old(self).table.layout(), key@, opt_bytes(subkey)) ==> final(self).state
                == old(self).state && read_refused(
                r,
                dup_seek(opt_bytes(subkey)),
                "InvalidKey"@,
                old(self).table.name(),
                key@,
            ),
    {
        match subkey {
            None => self.seek(key),
            Some(s) => match self.seek_by_key_subkey(key, s) {
                Err(e) => Err(e),
                Ok(_) => self.current(),
            },
        }
    }

    /// A walk through the values of one primary key. With no key, the walk
    /// goes through the values of the first primary key of the table. With a
    /// key, it goes through the values of that key, from the first whose
    /// subkey is at or after `subkey` if one is given. A key that the table
    /// does not hold gives an empty walk if no entry follows where the key
    /// would be, and the error `MissingStart` if one does. A subkey without a
    /// key is not supported.
    pub fn walk_dup(self, key: Option<&[u8]>, subkey: Option<&[u8]>) -> (r: Result<
        DupWalker<'a>,
        DatabaseError,
    >)
        requires
            self.wf(),
        ensures
            r matches Ok(w) ==> {
                &&& w.wf()
                &&& w.cursor.same_table(&self)
                &&& *final(w.cursor.table) == *final(self.table)
            },
            r is Err ==> *final(self.table) == *old(self.table),
            match key {
                None => match subkey {
                    None => r matches Ok(w) && w.cursor.state == state_at(self.pairs(), 0)
                        && w.remaining() == dup_after(self.pairs(), CursorState::Start),
                    Some(_) => read_refused(
                        r,
                        DatabaseReadOperation::WalkDup,
                        "Unsupported"@,
                        old(self.table).name(),
                        Seq::empty(),
                    ),
                },
                Some(k) => {
                    let layout = old(self.table).layout();
                    let p = self.pairs();
                    let i = dup_start(layout, p, k@, opt_bytes(subkey));
                    if !dup_fits(layout, k@, opt_bytes(subkey)) {
                        read_refused(
                            r,
                            dup_seek(opt_bytes(subkey)),
                            "InvalidKey"@,
                            old(self.table).name(),
                            k@,
                        )
                    } else if missing_start(layout, p, k@, opt_bytes(subkey)) {
                        read_refused(
                            r,
                            DatabaseReadOperation::WalkDup,
                            "MissingStart"@,
                            old(self.table).name(),
                            k@,
                        )
                    } else if i < p.len() && p[i].0 == k@ {
                        r matches Ok(w) && w.cursor.state == CursorState::At(i as usize)
                            && w.remaining() == p.subrange(i, upper_rank(p, k@))
                    } else {
                        r matches Ok(w) && w.cursor.state == CursorState::End && w.remaining().len()
                            == 0
                    }
                },
            },
    {
        let mut cursor = self;
        let ghost p = cursor.pairs();
        match key {
            None => match subkey {
                Some(_) => Err(
                    read_error(
                        DatabaseReadOperation::WalkDup,
                        "Unsupported",
                        cursor.table.table_name(),
                        Vec::new(),
                    ),
                ),
                None => {
                    match cursor.first() {
                        Err(e) => Err(e),
                        Ok(start) => {
                            let w = DupWalker { cursor, start };
                            proof {
                                lemma_pairs_sorted(
                                    w.cursor.table.layout(),
                                    w.cursor.table.entries(),
                                );
                                if p.len() > 0 {
                                    lemma_run_next(p, 0);
                                    let u = upper_rank(p, p[0].0);
                                    assert(w.remaining() =~= p.take(u));
                                } else {
                                    assert(w.remaining() =~= Seq::empty());
                                }
                            }
                            Ok(w)
                        },
                    }
                },
            },
            Some(k) => {
                proof {
                    let layout = cursor.table.layout();
                    match subkey {
                        None => crate::store::lemma_rank_range(p, k@),
                        Some(s) => crate::store::lemma_rank_range(
                            by_composite(layout, p),
                            k@ + s@,
                        ),
                    }
                }
                match cursor.seek_dup(k, subkey) {
                    Err(e) => Err(e),
                    Ok(None) => {
                        let w = DupWalker { cursor, start: None };
                        assert(w.remaining() =~= Seq::empty());
                        Ok(w)
                    },
                    Ok(Some(el)) => {
                        if bytes_eq(el.0.as_slice(), k) {
                            let w = DupWalker { cursor, start: Some(el) };
                            proof {
                                lemma_pairs_sorted(
                                    w.cursor.table.layout(),
                                    w.cursor.table.entries(),
                                );
                                if let CursorState::At(i) = w.cursor.state {
                                    lemma_run_next(p, i as int);
                                    let u = upper_rank(p, k@);
                                    assert(w.remaining() =~= p.subrange(i as int, u));
                                }
                            }
                            Ok(w)
                        } else {
                            let missing = match cursor.state {
                                CursorState::At(i) => match subkey {
                                    None => true,
                                    Some(_) => {
                                        if i == 0 {
                                            true
                                        } else {
                                            let prior = cursor.table.pair_at(i - 1);
                                            !bytes_eq(prior.0.as_slice(), k)
                                        }
                                    },
                                },
                                _ => false,
                            };
                            if missing {
                                Err(
                                    read_error(
                                        DatabaseReadOperation::WalkDup,
                                        "MissingStart",
                                        cursor.table.table_name(),
                                        crate::bytes::copy_bytes(k),
                                    ),
                                )
                            } else {
                                cursor.state = CursorState::End;
                                let w = DupWalker { cursor, start: None };
                                assert(w.remaining() =~= Seq::empty());
                                Ok(w)
                            }
                        }
                    },
                }
            },
        }
    }
}

} // verus!
