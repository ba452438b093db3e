//! The cursor: a position in one table, and the navigation that moves it.
//!
//! A cursor is before the first entry (`Start`, where every new cursor is),
//! after the last entry (`End`), or at an entry. Every operation is a
//! transition of that state machine over the table's logical entries, which are
//! primary key and value in sorted order, whatever the table's physical layout.

use vstd::prelude::*;
use crate::bytes::{bytes_eq, pad_ones};
use crate::dups::{format_composite_key, zero_extend_composite_key, KeyLayout, TIE_LEN};
use crate::bytes::copy_bytes;
use crate::error::{read_error, read_refused, DatabaseReadOperation};
use crate::store::{lemma_floor_upper, lemma_upper_rank, rank, upper_rank, Entries};
use crate::table::{
    by_composite, decode_item, entry_ok, key_fits, lemma_pairs_sorted, lemma_seek_ceiling,
    lemma_seek_composite, lemma_seek_primary, PairResult, Table, ValueOnlyResult,
};

verus! {

/// Where a cursor is.
#[derive(Clone, Copy, Debug, PartialEq, Eq, Structural)]
pub enum CursorState {
    /// Before the first entry. A new cursor is here.
    Start,
    /// After the last entry.
    End,
    /// At the entry with this index.
    At(usize),
}

/// The entry that a cursor in `state` is at.
pub open spec fn entry_at(p: Entries, state: CursorState) -> Option<(Seq<u8>, Seq<u8>)> {
    match state {
        CursorState::At(i) => if i < p.len() {
            Some(p[i as int])
        } else {
            None
        },
        _ => None,
    }
}

/// The state after a search that came to index `i`: at that entry, or after
/// the last one if the search ran off the table.
pub open spec fn state_at(p: Entries, i: int) -> CursorState {
    if 0 <= i < p.len() {
        CursorState::At(i as usize)
    } else {
        CursorState::End
    }
}

/// The state at the last entry; `End` in an empty table.
pub open spec fn last_state(p: Entries) -> CursorState {
    state_at(p, p.len() - 1)
}

/// The state one entry on. From `Start` that is the first entry, and past the
/// last entry it is `End`, where it stays.
pub open spec fn next_state(p: Entries, state: CursorState) -> CursorState {
    match state {
        CursorState::Start => state_at(p, 0),
        CursorState::End => CursorState::End,
        CursorState::At(i) => state_at(p, i + 1),
    }
}

/// The state one entry back. From `End`, and from `Start`, that is the last
/// entry, and before the first entry it is `Start`.
pub open spec fn prev_state(p: Entries, state: CursorState) -> CursorState {
    match state {
        CursorState::Start => last_state(p),
        CursorState::End => last_state(p),
        CursorState::At(i) => if i > 0 {
            CursorState::At((i - 1) as usize)
        } else {
            CursorState::Start
        },
    }
}

/// The state after a step that stays within the entries of the current
/// primary key: the next entry if it has the same primary key, else where the
/// cursor was. From `Start` it is the first entry.
pub open spec fn next_dup_state(p: Entries, state: CursorState) -> CursorState {
    match state {
        CursorState::Start => state_at(p, 0),
        CursorState::End => CursorState::End,
        CursorState::At(i) => if i + 1 < p.len() && p[i + 1].0 == p[i as int].0 {
            CursorState::At((i + 1) as usize)
        } else {
            state
        },
    }
}

/// The state after a step to the first entry of the next primary key: that
/// entry if there is one, else where the cursor was. From `Start` it is the
/// first entry.
pub open spec fn next_no_dup_state(p: Entries, state: CursorState) -> CursorState {
    match state {
        CursorState::Start => state_at(p, 0),
        CursorState::End => CursorState::End,
        CursorState::At(i) => if upper_rank(p, p[i as int].0) < p.len() {
            CursorState::At(upper_rank(p, p[i as int].0) as usize)
        } else {
            state
        },
    }
}

/// `r` is a successful read of exactly `expected`.
pub open spec fn returns_pair(r: PairResult, expected: Option<(Seq<u8>, Seq<u8>)>) -> bool {
    match expected {
        Some(e) => r matches Ok(Some(p)) && p.0@ == e.0 && p.1@ == e.1,
        None => r matches Ok(None),
    }
}

/// `r` is a successful read of exactly the value `expected`.
pub open spec fn returns_value(r: ValueOnlyResult, expected: Option<Seq<u8>>) -> bool {
    match expected {
        Some(e) => r matches Ok(Some(v)) && v@ == e,
        None => r matches Ok(None),
    }
}

/// The value of an entry, if there is one.
pub open spec fn value_of(e: Option<(Seq<u8>, Seq<u8>)>) -> Option<Seq<u8>> {
    match e {
        Some(p) => Some(p.1),
        None => None,
    }
}

/// The entry, if its primary key is `key`.
pub open spec fn only_key(e: Option<(Seq<u8>, Seq<u8>)>, key: Seq<u8>) -> Option<
    (Seq<u8>, Seq<u8>),
> {
    match e {
        Some(p) => if p.0 == key {
            e
        } else {
            None
        },
        None => None,
    }
}

/// Whether `key` and `subkey` can be the primary key and subkey of an entry of
/// a duplicate-key table.
pub open spec fn subkey_fits(layout: KeyLayout, key: Seq<u8>, subkey: Seq<u8>) -> bool {
    layout is DupSort && key.len() == layout.key_width() && subkey.len() == layout.subkey_width()
}

/// A cursor over one table.
pub struct Cursor<'a> {
    /// The table.
    pub table: &'a mut Table,
    /// Where the cursor is.
    pub state: CursorState,
    /// Whether the cursor was opened for duplicate-aware navigation.
    pub dup_mode: bool,
}

impl<'a> Cursor<'a> {
    /// The logical entries of the table: primary key and value, in order.
    pub open spec fn pairs(&self) -> Entries {
        self.table.pairs()
    }

    /// The physical entries of the table, in key order.
    pub open spec fn entries(&self) -> Entries {
        self.table.entries()
    }

    /// The table is consistent and the cursor is within it.
    pub open spec fn wf(&self) -> bool {
        &&& self.table.wf()
        &&& self.state matches CursorState::At(i) ==> i < self.pairs().len()
    }

    /// The cursor reads the same table contents as `pre` did.
    pub open spec fn same_table(&self, pre: &Cursor) -> bool {
        *self.table == *pre.table && self.dup_mode == pre.dup_mode
    }

    /// A cursor before the first entry of `table`.
    pub fn new(table: &'a mut Table, dup_mode: bool) -> (c: Cursor<'a>)
        ensures
            *c.table == *old(table),
            *final(table) == *final(c.table),
            c.state == CursorState::Start,
            c.dup_mode == dup_mode,
    {
        Cursor { table, state: CursorState::Start, dup_mode }
    }

    /// The physical key of the entry the cursor is at: in a duplicate-key
    /// table the primary key, the subkey and the tie-breaker of the entry.
    pub fn position_key(&self) -> (r: Option<Vec<u8>>)
        requires
            self.wf(),
        ensures
            match self.state {
                CursorState::At(i) => r matches Some(k) && k@ == self.entries()[i as int].0,
                _ => r is None,
            },
    {
        match self.state {
            CursorState::At(i) => Some(copy_bytes(self.table.raw_key(i))),
            _ => None,
        }
    }

    /// Moves to index `i`, or to `End` if that is past the table, and reads.
    fn settle(&mut self, i: usize) -> (r: PairResult)
        requires
            old(self).table.wf(),
        ensures
            final(self).wf(),
            final(self).same_table(old(self)),
            *final(final(self).table) == *final(old(self).table),
            final(self).state == state_at(old(self).pairs(), i as int),
            returns_pair(r, entry_at(old(self).pairs(), final(self).state)),
    {
        if i < self.table.len() {
            self.state = CursorState::At(i);
            assert(entry_ok(self.table.layout(), self.table.entries()[i as int]));
            decode_item(
                &self.table.key_layout(),
                Some((self.table.raw_key(i), self.table.raw_value(i))),
            )
        } else {
            self.state = CursorState::End;
            Ok(None)
        }
    }

    /// Moves to the first entry.
    pub fn first(&mut self) -> (r: PairResult)
        requires
            old(self).wf(),
        ensures
            final(self).wf(),
            final(self).same_table(old(self)),
            *final(final(self).table) == *final(old(self).table),
            final(self).state == state_at(old(self).pairs(), 0),
            returns_pair(r, entry_at(old(self).pairs(), final(self).state)),
    {
        self.settle(0)
    }

    /// Moves to the last entry.
    pub fn last(&mut self) -> (r: PairResult)
        requires
            old(self).wf(),
        ensures
            final(self).wf(),
            final(self).same_table(old(self)),
            *final(final(self).table) == *final(old(self).table),
            final(self).state == last_state(old(self).pairs()),
            returns_pair(r, entry_at(old(self).pairs(), final(self).state)),
    {
        let n: usize = self.table.len();
        if n == 0 {
            self.state = CursorState::End;
            Ok(None)
        } else {
            self.settle(n - 1)
        }
    }

    /// Moves to the first entry whose primary key is at or after `key`, and
    /// returns it. In a duplicate-key table that is the lowest value of the
    /// key. A key that is not of the table's key width is refused, and the
    /// cursor stays.
    pub fn seek(&mut self, key: &[u8]) -> (r: PairResult)
        requires
            old(self).wf(),
        ensures
            final(self).wf(),
            final(self).same_table(old(self)),
            *final(final(self).table) == *final(old(self).table),
            key_fits(old(self).table.layout(), key@) ==> final(self).state == state_at(
                old(self).pairs(),
                rank(old(self).pairs(), key@),
            ) && returns_pair(r, entry_at(old(self).pairs(), final(self).state)),
            !key_fits(old(self).table.layout(), key@) ==> final(self).state == old(self).state
                && read_refused(
                r,
                DatabaseReadOperation::Seek,
                "InvalidKey"@,
                old(self).table.name(),
                key@,
            ),
    {
        match self.table.key_layout() {
            KeyLayout::Plain => {},
            KeyLayout::DupSort { key_len, subkey_len } => {
                if key.len() != key_len {
                    return Err(
                        read_error(
                            DatabaseReadOperation::Seek,
                            "InvalidKey",
                            self.table.table_name(),
                            copy_bytes(key),
                        ),
                    );
                }
            },
        }
        proof {
            lemma_seek_primary(self.table.layout(), self.table.entries(), key@);
        }
        let i: usize = self.table.raw_seek(key);
        self.settle(i)
    }

    /// Moves as `seek` does, and returns the entry only if its primary key is
    /// `key` exactly.
    pub fn seek_exact(&mut self, key: &[u8]) -> (r: PairResult)
        requires
            old(self).wf(),
        ensures
            final(self).wf(),
            final(self).same_table(old(self)),
            *final(final(self).table) == *final(old(self).table),
            key_fits(old(self).table.layout(), key@) ==> final(self).state == state_at(
                old(self).pairs(),
                rank(old(self).pairs(), key@),
            ) && returns_pair(
                r,
                only_key(entry_at(old(self).pairs(), final(self).state), key@),
            ),
            !key_fits(old(self).table.layout(), key@) ==> final(self).state == old(self).state
                && read_refused(
                r,
                DatabaseReadOperation::Seek,
                "InvalidKey"@,
                old(self).table.name(),
                key@,
            ),
    {
        match self.seek(key) {
            Err(e) => Err(e),
            Ok(None) => Ok(None),
            Ok(Some(el)) => {
                if bytes_eq(el.0.as_slice(), key) {
                    Ok(Some(el))
                } else {
                    Ok(None)
                }
            },
        }
    }

    /// Moves one entry on.
    pub fn next(&mut self) -> (r: PairResult)
        requires
            old(self).wf(),
        ensures
            final(self).wf(),
            final(self).same_table(old(self)),
            *final(final(self).table) == *final(old(self).table),
            final(self).state == next_state(old(self).pairs(), old(self).state),
            returns_pair(r, entry_at(old(self).pairs(), final(self).state)),
    {
        match self.state {
            CursorState::Start => self.first(),
            CursorState::End => Ok(None),
            CursorState::At(i) => {
                let n: usize = self.table.len();
                self.settle(i + 1)
            },
        }
    }

    /// Moves one entry back.
    pub fn prev(&mut self) -> (r: PairResult)
        requires
            old(self).wf(),
        ensures
            final(self).wf(),
            final(self).same_table(old(self)),
            *final(final(self).table) == *final(old(self).table),
            final(self).state == prev_state(old(self).pairs(), old(self).state),
            returns_pair(r, entry_at(old(self).pairs(), final(self).state)),
    {
        match self.state {
            CursorState::Start => self.last(),
            CursorState::End => self.last(),
            CursorState::At(i) => {
                if i > 0 {
                    self.settle(i - 1)
                } else {
                    self.state = CursorState::Start;
                    Ok(None)
                }
            },
        }
    }

    /// The entry the cursor is at.
    pub fn current(&mut self) -> (r: PairResult)
        requires
            old(self).wf(),
        ensures
            final(self).wf(),
            final(self).same_table(old(self)),
            *final(final(self).table) == *final(old(self).table),
            final(self).state == old(self).state,
            returns_pair(r, entry_at(old(self).pairs(), old(self).state)),
    {
        match self.state {
            CursorState::Start => Ok(None),
            CursorState::End => Ok(None),
            CursorState::At(i) => self.settle(i),
        }
    }

    /// Moves to the next entry if it has the primary key of the current one,
    /// and returns it. Otherwise returns nothing and the cursor stays where it
    /// was: it never crosses into the next key.
    pub fn next_dup(&mut self) -> (r: PairResult)
        requires
            old(self).wf(),
        ensures
            final(self).wf(),
            final(self).same_table(old(self)),
            *final(final(self).table) == *final(old(self).table),
            final(self).state == next_dup_state(old(self).pairs(), old(self).state),
            returns_pair(
                r,
                if final(self).state == old(self).state {
                    None
                } else {
                    entry_at(old(self).pairs(), final(self).state)
                },
            ),
    {
        match self.state {
            CursorState::Start => self.first(),
            CursorState::End => Ok(None),
            CursorState::At(i) => {
                let n: usize = self.table.len();
                if i + 1 < n {
                    let here = self.table.pair_at(i);
                    let there = self.table.pair_at(i + 1);
                    if bytes_eq(here.0.as_slice(), there.0.as_slice()) {
                        self.state = CursorState::At(i + 1);
                        return Ok(Some(there));
                    }
                }
                Ok(None)
            },
        }
    }

    /// The value of the entry that `next_dup` moves to.
    pub fn next_dup_val(&mut self) -> (r: ValueOnlyResult)
        requires
            old(self).wf(),
        ensures
            final(self).wf(),
            final(self).same_table(old(self)),
            *final(final(self).table) == *final(old(self).table),
            final(self).state == next_dup_state(old(self).pairs(), old(self).state),
            returns_value(
                r,
                if final(self).state == old(self).state {
                    None
                } else {
                    value_of(entry_at(old(self).pairs(), final(self).state))
                },
            ),
    {
        match self.next_dup() {
            Err(e) => Err(e),
            Ok(None) => Ok(None),
            Ok(Some(el)) => Ok(Some(el.1)),
        }
    }

    /// Moves past all entries of the current primary key to the first entry
    /// of the next one, by one search, and returns it. If there is no next
    /// key, returns nothing and the cursor stays where it was.
    pub fn next_no_dup(&mut self) -> (r: PairResult)
        requires
            old(self).wf(),
        ensures
            final(self).wf(),
            final(self).same_table(old(self)),
            *final(final(self).table) == *final(old(self).table),
            final(self).state == next_no_dup_state(old(self).pairs(), old(self).state),
            returns_pair(
                r,
                if final(self).state == old(self).state {
                    None
                } else {
                    entry_at(old(self).pairs(), final(self).state)
                },
            ),
    {
        match self.state {
            CursorState::Start => self.first(),
            CursorState::End => Ok(None),
            CursorState::At(i) => {
                let here = self.table.pair_at(i);
                let ceiling = match self.table.key_layout() {
                    KeyLayout::Plain => pad_ones(here.0.as_slice(), 0),
                    KeyLayout::DupSort { key_len, subkey_len } => pad_ones(
                        here.0.as_slice(),
                        subkey_len + TIE_LEN,
                    ),
                };
                proof {
                    let layout = self.table.layout();
                    assert(entry_ok(layout, self.table.entries()[i as int]));
                    assert(here.0@ + crate::bytes::ones(0) =~= here.0@);
                    lemma_seek_ceiling(layout, self.table.entries(), here.0@);
                    lemma_floor_upper(self.table.entries(), ceiling@);
                    lemma_pairs_sorted(layout, self.table.entries());
                    lemma_upper_rank(self.pairs(), here.0@);
                }
                let n: usize = self.table.len();
                let j: usize = match self.table.raw_seek_for_prev(ceiling.as_slice()) {
                    Some(h) => h + 1,
                    None => 0,
                };
                if j < n {
                    self.settle(j)
                } else {
                    Ok(None)
                }
            },
        }
    }

    /// Moves to the first entry at or after `key` and `subkey`: under `key`,
    /// the lowest value whose subkey is at or after `subkey`. Returns its value
    /// if the entry is under `key`, else nothing; the cursor is at what the
    /// search found either way. On a plain table, or with a key or subkey that
    /// is not of the table's widths, the search is refused and the cursor stays.
    pub fn seek_by_key_subkey(&mut self, key: &[u8], subkey: &[u8]) -> (r: ValueOnlyResult)
        requires
            old(self).wf(),
        ensures
            final(self).wf(),
            final(self).same_table(old(self)),
            *final(final(self).table) == *final(old(self).table),
            subkey_fits(old(self).table.layout(), key@, subkey@) ==> final(self).state
                == state_at(
                old(self).pairs(),
                rank(by_composite(old(self).table.layout(), old(self).pairs()), key@ + subkey@),
            ) && returns_value(
                r,
                value_of(only_key(entry_at(old(self).pairs(), final(self).state), key@)),
            ),
            !subkey_fits(old(self).table.layout(), key@, subkey@) ==> final(self).state == old(
                self,
            ).state && read_refused(
                r,
                DatabaseReadOperation::SeekBySubkey,
                "InvalidKey"@,
                old(self).table.name(),
                key@,
            ),
    {
        let layout = self.table.key_layout();
        match layout {
            KeyLayout::Plain => {
                return Err(
                    read_error(
                        DatabaseReadOperation::SeekBySubkey,
                        "InvalidKey",
                        self.table.table_name(),
                        copy_bytes(key),
                    ),
                );
            },
            KeyLayout::DupSort { key_len, subkey_len } => {
                if key.len() != key_len || subkey.len() != subkey_len {
                    return Err(
                        read_error(
                            DatabaseReadOperation::SeekBySubkey,
                            "InvalidKey",
                            self.table.table_name(),
                            copy_bytes(key),
                        ),
                    );
                }
            },
        }
        let composite = format_composite_key(key, subkey);
        let target = zero_extend_composite_key(&layout, composite.as_slice());
        proof {
            lemma_seek_composite(self.table.layout(), self.table.entries(), composite@);
        }
        let i: usize = self.table.raw_seek(target.as_slice());
        match self.settle(i) {
            Err(e) => Err(e),
            Ok(None) => Ok(None),
            Ok(Some(el)) => {
                if bytes_eq(el.0.as_slice(), key) {
                    Ok(Some(el.1))
                } else {
                    Ok(None)
                }
            },
        }
    }
}

} // verus!
