//! The write path of the cursor.
//!
//! A write to a duplicate-key table has to put the value among the values of
//! its primary key and subkey so that they stay sorted, on a store that knows
//! nothing of duplicates. The values above the new one move up by one
//! tie-breaker each, from the top down, and the new value takes the tie-breaker
//! that became free.

use vstd::prelude::*;
use crate::bytes::{bytes_eq, bytes_lt, copy_bytes, lemma_lex_total, lex_lt, pad_ones};
use crate::cursor::{last_state, state_at, Cursor, CursorState};
use crate::dups::{
    composite_key, format_key, max_extend_composite_key, storable, tie_breaker, tie_of,
    up_extend_composite_key, zero_extend_composite_key, KeyLayout, TIE_LEN, TIE_MAX,
};
use crate::error::{
    read_error, read_refused, write_error, write_refused, DatabaseError, DatabaseReadOperation,
    DatabaseWriteOperation,
};
use crate::model::{lemma_pair_rank, upsert_index, upsert_pairs};
use crate::store::{rank, upper_rank, Entries};
use crate::table::{
    by_composite, entry_ok, lemma_pairs_sorted, lemma_seek_composite, lemma_seek_primary,
    logical, Table,
};
use crate::ties::{
    lemma_bump, lemma_entry_vs_pair, lemma_run, lemma_shift_step, lemma_shifted,
    lemma_slot_insert, lemma_slot_logical, lemma_slot_rank, run_end, run_start, shifted,
    slot_key, slot_ok,
};

verus! {

/// The values of the pair's primary key and subkey have used up the
/// tie-breakers: the highest of them holds the last one below the sentinel, so
/// neither it nor a new value can move above it.
pub open spec fn exhausted(layout: KeyLayout, s: Entries, key: Seq<u8>, value: Seq<u8>) -> bool {
    let c = composite_key(layout, key, value);
    &&& layout is DupSort
    &&& !logical(layout, s).contains((key, value))
    &&& run_start(layout, s, c) < run_end(layout, s, c)
    &&& tie_of(s[run_end(layout, s, c) - 1].0) + 1 >= TIE_MAX
}

/// A table whose run of the pair's composite key has the values below the
/// pair before `slot` and the values above it from `slot` on does not hold the
/// pair.
pub proof fn lemma_absent(layout: KeyLayout, s: Entries, key: Seq<u8>, value: Seq<u8>, slot: int)
    requires
        layout is DupSort,
        crate::store::sorted(s),
        crate::table::well_formed(layout, s),
        storable(layout, key, value),
        forall|j: int|
            run_start(layout, s, composite_key(layout, key, value)) <= j < slot ==> lex_lt(
                (#[trigger] s[j]).1,
                value,
            ),
        forall|j: int|
            slot <= j < run_end(layout, s, composite_key(layout, key, value)) ==> lex_lt(
                value,
                (#[trigger] s[j]).1,
            ),
    ensures
        !logical(layout, s).contains((key, value)),
{
    let c = composite_key(layout, key, value);
    let a = run_start(layout, s, c);
    let b = run_end(layout, s, c);
    crate::dups::lemma_format_round_trip(layout, key, value, 0);
    lemma_run(layout, s, c);
    assert forall|i: int| 0 <= i < s.len() implies logical(layout, s)[i] != (key, value) by {
        assert(entry_ok(layout, s[i]));
        lemma_entry_vs_pair(layout, s[i], key, value);
        crate::model::lemma_pair_order((key, value), (key, value), (key, value));
        lemma_lex_total(value, value);
        if a <= i < b {
            if i < slot {
                assert(lex_lt(s[i].1, value));
            } else {
                assert(lex_lt(value, s[i].1));
            }
        }
    }
}

/// The physical entries after an unconditional write. A plain table gets the
/// value under the key. A duplicate-key table that holds the pair already
/// stays as it is. Otherwise the ties of the pair's primary key and subkey that
/// hold a higher value move up by one tie-breaker each, and the pair takes the
/// tie-breaker after the tie below it, or the lowest one if there is none. No
/// other entry is rewritten.
pub open spec fn upsert_entries(layout: KeyLayout, s: Entries, key: Seq<u8>, value: Seq<u8>)
    -> Entries {
    match layout {
        KeyLayout::Plain => crate::store::put_spec(s, key, value),
        KeyLayout::DupSort { .. } => if logical(layout, s).contains((key, value)) {
            s
        } else {
            let c = composite_key(layout, key, value);
            let slot = crate::model::pair_rank(logical(layout, s), (key, value));
            shifted(layout, s, slot, run_end(layout, s, c)).insert(
                slot,
                (slot_key(layout, s, c, slot), value),
            )
        },
    }
}

/// What an unconditional write of `key` and `value` makes of the table `pre`:
/// the pair is in the table at its sorted place; or the pair cannot be stored,
/// or the tie-breakers are used up, and nothing has changed.
pub open spec fn table_upserted(
    pre: Table,
    post: Table,
    r: Result<(), DatabaseError>,
    key: Seq<u8>,
    value: Seq<u8>,
) -> bool {
    let layout = pre.layout();
    &&& post.layout() == layout
    &&& post.name() == pre.name()
    &&& if !storable(layout, key, value) {
        post == pre && write_refused(
            r,
            DatabaseWriteOperation::CursorUpsert,
            "InvalidKey"@,
            pre.name(),
            key,
        )
    } else if exhausted(layout, pre.entries(), key, value) {
        post == pre && write_refused(
            r,
            DatabaseWriteOperation::CursorUpsert,
            "TieExhausted"@,
            pre.name(),
            key,
        )
    } else {
        &&& r is Ok
        &&& post.pairs() == upsert_pairs(layout, pre.pairs(), key, value)
        &&& post.entries() == upsert_entries(layout, pre.entries(), key, value)
    }
}

/// In a plain table the logical entries are the physical ones.
pub proof fn lemma_logical_plain(layout: KeyLayout, s: Entries)
    requires
        layout is Plain,
    ensures
        logical(layout, s) == s,
{
    assert(logical(layout, s) =~= s);
}

/// Where a value belongs among the entries from `a` up to `b`, whose
/// values rise: after every value below it.
pub(crate) fn find_slot(table: &Table, a: usize, b: usize, value: &[u8]) -> (slot: usize)
    requires
        a <= b <= table.entries().len(),
        forall|i: int, j: int|
            a <= i < j < b ==> lex_lt(
                (#[trigger] table.entries()[i]).1,
                (#[trigger] table.entries()[j]).1,
            ),
    ensures
        a <= slot <= b,
        forall|j: int| slot <= j < b ==> lex_lt(value@, (#[trigger] table.entries()[j]).1),
        forall|j: int|
            a <= j < slot ==> lex_lt((#[trigger] table.entries()[j]).1, value@)
                || table.entries()[j].1 == value@,
        forall|j: int|
            a <= j < slot - 1 ==> lex_lt((#[trigger] table.entries()[j]).1, value@),
{
    let ghost s0 = table.entries();
    let mut slot: usize = b;
    while slot > a && bytes_lt(value, table.raw_value(slot - 1))
        invariant
            a <= slot <= b <= s0.len(),
            s0 == table.entries(),
            forall|j: int| slot <= j < b ==> lex_lt(value@, (#[trigger] s0[j]).1),
        decreases slot,
    {
        slot -= 1;
    }
    proof {
        assert forall|j: int| a <= j < slot implies (lex_lt((#[trigger] s0[j]).1, value@)
            || s0[j].1 == value@) && (j < slot - 1 ==> lex_lt(s0[j].1, value@)) by {
            lemma_lex_total(value@, s0[slot - 1].1);
            if j < slot - 1 {
                assert(lex_lt(s0[j].1, s0[slot - 1].1));
                crate::bytes::lemma_lex_le_transitive(s0[j].1, s0[slot - 1].1, value@);
            }
        }
    }
    slot
}

impl<'a> Cursor<'a> {
    /// The table and the position are as they were in `pre`.
    pub open spec fn unchanged(&self, pre: &Cursor) -> bool {
        *self.table == *pre.table && self.state == pre.state && self.dup_mode == pre.dup_mode
    }

    /// The table is the one of `pre`, whatever it holds now.
    pub open spec fn same_schema(&self, pre: &Cursor) -> bool {
        &&& self.table.layout() == pre.table.layout()
        &&& self.table.name() == pre.table.name()
        &&& self.dup_mode == pre.dup_mode
    }

    /// What an unconditional write of `key` and `value` makes of the cursor
    /// `pre`: the table is written as `table_upserted` says and the cursor is at
    /// the pair, or the write is refused and the cursor stays.
    pub open spec fn upserted(
        &self,
        pre: &Cursor,
        r: Result<(), DatabaseError>,
        key: Seq<u8>,
        value: Seq<u8>,
    ) -> bool {
        &&& self.dup_mode == pre.dup_mode
        &&& table_upserted(*pre.table, *self.table, r, key, value)
        &&& self.state == if r is Ok {
            CursorState::At(upsert_index(pre.table.layout(), pre.pairs(), key, value) as usize)
        } else {
            pre.state
        }
    }

    /// Writes the pair, whatever the table holds. In a plain table the value
    /// replaces the one under `key`. In a duplicate-key table the value joins
    /// the values of `key` at its sorted place, and a pair that is there
    /// already is left alone. The cursor ends at the pair.
    pub fn upsert(&mut self, key: &[u8], value: &[u8]) -> (r: Result<(), DatabaseError>)
        requires
            old(self).wf(),
        ensures
            final(self).wf(),
            *final(final(self).table) == *final(old(self).table),
            final(self).upserted(old(self), r, key@, value@),
    {
        match self.table.key_layout() {
            KeyLayout::Plain => {
                proof {
                    lemma_logical_plain(self.table.layout(), self.table.entries());
                }
                let i: usize = self.table.raw_put(copy_bytes(key), copy_bytes(value));
                proof {
                    lemma_logical_plain(self.table.layout(), self.table.entries());
                }
                self.state = CursorState::At(i);
                Ok(())
            },
            KeyLayout::DupSort { key_len, subkey_len } => {
                if key.len() != key_len || value.len() < subkey_len {
                    return Err(
                        write_error(
                            DatabaseWriteOperation::CursorUpsert,
                            "InvalidKey",
                            self.table.table_name(),
                            copy_bytes(key),
                        ),
                    );
                }
                self.upsert_dup(key, value)
            },
        }
    }

    /// Moves the entries from `slot` up to the end of the run up by one
    /// tie-breaker each, from the top down.
    fn shift_up(
        &mut self,
        slot: usize,
        b: usize,
        Ghost(key): Ghost<Seq<u8>>,
        Ghost(value): Ghost<Seq<u8>>,
    )
        requires
            old(self).table.layout() is DupSort,
            slot_ok(
                old(self).table.layout(),
                old(self).table.entries(),
                key,
                value,
                slot as int,
            ),
            b == run_end(
                old(self).table.layout(),
                old(self).table.entries(),
                composite_key(old(self).table.layout(), key, value),
            ),
            slot <= b,
        ensures
            final(self).table.entries() == shifted(
                old(self).table.layout(),
                old(self).table.entries(),
                slot as int,
                b as int,
            ),
            final(self).same_schema(old(self)),
            final(self).state == old(self).state,
            *final(final(self).table) == *final(old(self).table),
    {
        let layout = self.table.key_layout();
        let ghost s0 = self.table.entries();
        let ghost c = composite_key(layout, key, value);
        proof {
            lemma_run(layout, s0, c);
            assert(shifted(layout, s0, b as int, b as int) =~= s0);
        }
        let mut m: usize = b;
        while m > slot
            invariant
                slot <= m <= b <= s0.len(),
                b == run_end(layout, s0, c),
                slot_ok(layout, s0, key, value, slot as int),
                c == composite_key(layout, key, value),
                self.table.entries() == shifted(layout, s0, m as int, b as int),
                self.table.layout() == layout,
                layout is DupSort,
                self.table.name() == old(self).table.name(),
                self.state == old(self).state,
                self.dup_mode == old(self).dup_mode,
                *final(self.table) == *final(old(self).table),
            decreases m,
        {
            m -= 1;
            proof {
                lemma_shifted(layout, s0, c, m + 1);
                lemma_shift_step(layout, s0, c, m as int);
                lemma_bump(layout, s0, c, slot as int, m as int);
                assert(self.table.entries()[m as int] == s0[m as int]);
                assert(entry_ok(layout, s0[m as int]));
            }
            let raw = copy_bytes(self.table.raw_key(m));
            let val = copy_bytes(self.table.raw_value(m));
            let up = up_extend_composite_key(&layout, raw.as_slice());
            self.table.raw_put(up, val);
            self.table.raw_delete(raw.as_slice());
        }
    }

    /// The write to a duplicate-key table.
    fn upsert_dup(&mut self, key: &[u8], value: &[u8]) -> (r: Result<(), DatabaseError>)
        requires
            old(self).wf(),
            old(self).table.layout() is DupSort,
            storable(old(self).table.layout(), key@, value@),
        ensures
            final(self).wf(),
            *final(final(self).table) == *final(old(self).table),
            final(self).upserted(old(self), r, key@, value@),
    {
        let layout = self.table.key_layout();
        let composite = format_key(&layout, key, value);
        let lo_key = zero_extend_composite_key(&layout, composite.as_slice());
        let hi_key = max_extend_composite_key(&layout, composite.as_slice());
        let a: usize = self.table.raw_seek(lo_key.as_slice());
        let b: usize = self.table.raw_seek(hi_key.as_slice());
        let ghost s0 = self.table.entries();
        let ghost c = composite@;
        let ghost x = (key@, value@);
        proof {
            crate::dups::lemma_format_round_trip(layout, key@, value@, 0);
            lemma_run(layout, s0, c);
        }
        let slot: usize = find_slot(&*self.table, a, b, value);
        if slot > a && bytes_eq(self.table.raw_value(slot - 1), value) {
            proof {
                let e = s0[slot - 1];
                assert(entry_ok(layout, e));
                lemma_entry_vs_pair(layout, e, key@, value@);
                assert(logical(layout, s0)[slot - 1] == x);
                lemma_pairs_sorted(layout, s0);
                lemma_pair_rank(logical(layout, s0), x);
            }
            self.state = CursorState::At(slot - 1);
            return Ok(());
        }
        let top: u64 = if b > a {
            assert(entry_ok(layout, s0[b - 1]));
            tie_breaker(self.table.raw_key(b - 1))
        } else {
            0
        };
        proof {
            if b == a || top < TIE_MAX - 1 {
                assert(slot_ok(layout, s0, key@, value@, slot as int));
                lemma_slot_logical(layout, s0, key@, value@, slot as int);
            } else {
                lemma_absent(layout, s0, key@, value@, slot as int);
            }
        }
        if b > a && top >= TIE_MAX - 1 {
            return Err(
                write_error(
                    DatabaseWriteOperation::CursorUpsert,
                    "TieExhausted",
                    self.table.table_name(),
                    copy_bytes(key),
                ),
            );
        }
        self.shift_up(slot, b, Ghost(key@), Ghost(value@));
        self.put_at_slot(slot, a, b, value, lo_key, Ghost(key@), Ghost(s0));
        Ok(())
    }

    /// Writes the value under the key of its slot, once the run has moved up
    /// from the slot on.
    fn put_at_slot(
        &mut self,
        slot: usize,
        a: usize,
        b: usize,
        value: &[u8],
        lo_key: Vec<u8>,
        Ghost(key): Ghost<Seq<u8>>,
        Ghost(s0): Ghost<Entries>,
    )
        requires
            old(self).table.layout() is DupSort,
            old(self).table.layout().valid(),
            slot_ok(old(self).table.layout(), s0, key, value@, slot as int),
            a == run_start(
                old(self).table.layout(),
                s0,
                composite_key(old(self).table.layout(), key, value@),
            ),
            b == run_end(
                old(self).table.layout(),
                s0,
                composite_key(old(self).table.layout(), key, value@),
            ),
            old(self).table.entries() == shifted(
                old(self).table.layout(),
                s0,
                slot as int,
                b as int,
            ),
            lo_key@ == crate::dups::with_tie(
                old(self).table.layout(),
                composite_key(old(self).table.layout(), key, value@),
                0,
            ),
        ensures
            final(self).wf(),
            final(self).same_schema(old(self)),
            final(self).pairs() == logical(old(self).table.layout(), s0).insert(
                slot as int,
                (key, value@),
            ),
            final(self).table.entries() == shifted(
                old(self).table.layout(),
                s0,
                slot as int,
                b as int,
            ).insert(
                slot as int,
                (
                    slot_key(
                        old(self).table.layout(),
                        s0,
                        composite_key(old(self).table.layout(), key, value@),
                        slot as int,
                    ),
                    value@,
                ),
            ),
            final(self).state == CursorState::At(slot),
            *final(final(self).table) == *final(old(self).table),
    {
        let layout = self.table.key_layout();
        let ghost c = composite_key(layout, key, value@);
        proof {
            lemma_run(layout, s0, c);
            lemma_shifted(layout, s0, c, slot as int);
            lemma_slot_rank(layout, s0, key, value@, slot as int);
            lemma_slot_insert(layout, s0, key, value@, slot as int);
            if slot > a {
                lemma_bump(layout, s0, c, slot as int, slot - 1);
                assert(self.table.entries()[slot - 1] == s0[slot - 1]);
                assert(entry_ok(layout, s0[slot - 1]));
            }
        }
        let new_key = if slot > a {
            up_extend_composite_key(&layout, self.table.raw_key(slot - 1))
        } else {
            lo_key
        };
        assert(new_key@ == slot_key(layout, s0, c, slot as int));
        let i: usize = self.table.raw_put(new_key, copy_bytes(value));
        self.state = CursorState::At(slot);
    }

    /// Writes the pair if the table holds nothing under `key` yet; otherwise
    /// fails with `AlreadyExists` and leaves the table as it is, the cursor at
    /// the first entry at or after the pair's key and subkey, or at the last
    /// entry if there is none.
    pub fn insert(&mut self, key: &[u8], value: &[u8]) -> (r: Result<(), DatabaseError>)
        requires
            old(self).wf(),
        ensures
            final(self).wf(),
            *final(final(self).table) == *final(old(self).table),
            if !storable(old(self).table.layout(), key@, value@) {
                final(self).unchanged(old(self)) && write_refused(
                    r,
                    DatabaseWriteOperation::CursorInsert,
                    "InvalidKey"@,
                    old(self).table.name(),
                    key@,
                )
            } else if key_present(old(self).pairs(), key@) {
                &&& final(self).same_table(old(self))
                &&& final(self).state == conflict_state(
                    old(self).table.layout(),
                    old(self).pairs(),
                    key@,
                    value@,
                )
                &&& write_refused(
                    r,
                    DatabaseWriteOperation::CursorInsert,
                    "AlreadyExists"@,
                    old(self).table.name(),
                    key@,
                )
            } else {
                final(self).upserted(old(self), r, key@, value@)
            },
    {
        let layout = self.table.key_layout();
        match layout {
            KeyLayout::Plain => {},
            KeyLayout::DupSort { key_len, subkey_len } => {
                if key.len() != key_len || value.len() < subkey_len {
                    return Err(
                        write_error(
                            DatabaseWriteOperation::CursorInsert,
                            "InvalidKey",
                            self.table.table_name(),
                            copy_bytes(key),
                        ),
                    );
                }
            },
        }
        proof {
            lemma_seek_primary(self.table.layout(), self.table.entries(), key@);
        }
        let n: usize = self.table.len();
        let i: usize = self.table.raw_seek(key);
        if i < n {
            let found = self.table.pair_at(i);
            if bytes_eq(found.0.as_slice(), key) {
                let composite = format_key(&layout, key, value);
                proof {
                    if layout is DupSort {
                        crate::dups::lemma_format_round_trip(layout, key@, value@, 0);
                        lemma_seek_composite(layout, self.table.entries(), composite@);
                    } else {
                        lemma_logical_plain(layout, self.table.entries());
                    }
                }
                let j: usize = self.table.raw_seek(composite.as_slice());
                self.state = if j < n {
                    CursorState::At(j)
                } else {
                    CursorState::At(n - 1)
                };
                return Err(
                    write_error(
                        DatabaseWriteOperation::CursorInsert,
                        "AlreadyExists",
                        self.table.table_name(),
                        copy_bytes(key),
                    ),
                );
            }
        }
        self.upsert(key, value)
    }

    /// Writes the pair at the end of the table: fails with `KeyMismatch`, the
    /// table as it is and the cursor at the last entry, if `key` is below the
    /// last primary key of the table; otherwise writes as `upsert` does.
    pub fn append(&mut self, key: &[u8], value: &[u8]) -> (r: Result<(), DatabaseError>)
        requires
            old(self).wf(),
        ensures
            final(self).wf(),
            *final(final(self).table) == *final(old(self).table),
            if append_mismatch(old(self).pairs(), key@) {
                &&& final(self).same_table(old(self))
                &&& final(self).state == last_state(old(self).pairs())
                &&& write_refused(
                    r,
                    DatabaseWriteOperation::CursorAppend,
                    "KeyMismatch"@,
                    old(self).table.name(),
                    key@,
                )
            } else {
                final(self).upserted(old(self), r, key@, value@)
            },
    {
        let n: usize = self.table.len();
        if n > 0 {
            let last = self.table.pair_at(n - 1);
            if bytes_lt(key, last.0.as_slice()) {
                self.state = CursorState::At(n - 1);
                return Err(
                    write_error(
                        DatabaseWriteOperation::CursorAppend,
                        "KeyMismatch",
                        self.table.table_name(),
                        copy_bytes(key),
                    ),
                );
            }
        }
        self.upsert(key, value)
    }

    /// Writes the pair at the end of the values of its primary key and
    /// subkey: fails with `KeyMismatch`, and changes nothing, if `key` has a
    /// value with a higher subkey, or one with this subkey that is above
    /// `value`; otherwise writes as `upsert` does.
    pub fn append_dup(&mut self, key: &[u8], value: &[u8]) -> (r: Result<(), DatabaseError>)
        requires
            old(self).wf(),
        ensures
            final(self).wf(),
            *final(final(self).table) == *final(old(self).table),
            if !(old(self).table.layout() is DupSort && storable(
                old(self).table.layout(),
                key@,
                value@,
            )) {
                final(self).unchanged(old(self)) && write_refused(
                    r,
                    DatabaseWriteOperation::CursorAppendDup,
                    "InvalidKey"@,
                    old(self).table.name(),
                    key@,
                )
            } else if append_dup_mismatch(
                old(self).table.layout(),
                old(self).pairs(),
                key@,
                value@,
            ) {
                final(self).unchanged(old(self)) && write_refused(
                    r,
                    DatabaseWriteOperation::CursorAppendDup,
                    "KeyMismatch"@,
                    old(self).table.name(),
                    key@,
                )
            } else {
                final(self).upserted(old(self), r, key@, value@)
            },
    {
        let layout = self.table.key_layout();
        match layout {
            KeyLayout::Plain => {
                return Err(
                    write_error(
                        DatabaseWriteOperation::CursorAppendDup,
                        "InvalidKey",
                        self.table.table_name(),
                        copy_bytes(key),
                    ),
                );
            },
            KeyLayout::DupSort { key_len, subkey_len } => {
                if key.len() != key_len || value.len() < subkey_len {
                    return Err(
                        write_error(
                            DatabaseWriteOperation::CursorAppendDup,
                            "InvalidKey",
                            self.table.table_name(),
                            copy_bytes(key),
                        ),
                    );
                }
            },
        }
        let composite = format_key(&layout, key, value);
        let lo_key = zero_extend_composite_key(&layout, composite.as_slice());
        let hi_key = max_extend_composite_key(&layout, composite.as_slice());
        proof {
            crate::dups::lemma_format_round_trip(layout, key@, value@, 0);
            lemma_run(layout, self.table.entries(), composite@);
            crate::table::lemma_run_composite(layout, self.table.entries(), composite@);
        }
        let n: usize = self.table.len();
        let a: usize = self.table.raw_seek(lo_key.as_slice());
        let b: usize = self.table.raw_seek(hi_key.as_slice());
        if a < n {
            let found = self.table.pair_at(a);
            if bytes_eq(found.0.as_slice(), key) {
                proof {
                    if a < b {
                        assert(crate::dups::composite_of(layout, self.table.entries()[a as int].0)
                            == composite@);
                    } else {
                        assert(lex_lt(
                            composite@,
                            crate::dups::composite_of(layout, self.table.entries()[a as int].0),
                        ));
                        crate::bytes::lemma_lex_asymmetric(
                            composite@,
                            crate::dups::composite_of(layout, self.table.entries()[a as int].0),
                        );
                    }
                }
                if a == b || bytes_lt(value, self.table.raw_value(b - 1)) {
                    return Err(
                        write_error(
                            DatabaseWriteOperation::CursorAppendDup,
                            "KeyMismatch",
                            self.table.table_name(),
                            copy_bytes(key),
                        ),
                    );
                }
            }
        }
        self.upsert(key, value)
    }

    /// Deletes the entry the cursor is at, and moves to the entry that
    /// followed it, or to `End` if none did. A cursor that was never moved has
    /// no entry to delete, which is an error; a cursor after the last entry
    /// deletes nothing.
    pub fn delete_current(&mut self) -> (r: Result<(), DatabaseError>)
        requires
            old(self).wf(),
        ensures
            final(self).wf(),
            *final(final(self).table) == *final(old(self).table),
            final(self).same_schema(old(self)),
            match old(self).state {
                CursorState::Start => final(self).unchanged(old(self)) && read_refused(
                    r,
                    DatabaseReadOperation::DeleteCurrent,
                    "Deleting from uninitialized cursor"@,
                    old(self).table.name(),
                    Seq::empty(),
                ),
                CursorState::End => final(self).unchanged(old(self)) && r is Ok,
                CursorState::At(i) => {
                    &&& r is Ok
                    &&& final(self).pairs() == old(self).pairs().remove(i as int)
                    &&& final(self).table.entries() == old(self).table.entries().remove(i as int)
                    &&& final(self).state == state_at(final(self).pairs(), i as int)
                },
            },
    {
        match self.state {
            CursorState::Start => Err(
                read_error(
                    DatabaseReadOperation::DeleteCurrent,
                    "Deleting from uninitialized cursor",
                    self.table.table_name(),
                    Vec::new(),
                ),
            ),
            CursorState::End => Ok(()),
            CursorState::At(i) => {
                let raw = copy_bytes(self.table.raw_key(i));
                proof {
                    crate::store::lemma_delete_at(self.table.entries(), i as int);
                    crate::table::lemma_remove_well_formed(
                        self.table.layout(),
                        self.table.entries(),
                        i as int,
                    );
                }
                self.table.raw_delete(raw.as_slice());
                let n: usize = self.table.len();
                self.state = if i < n {
                    CursorState::At(i)
                } else {
                    CursorState::End
                };
                Ok(())
            },
        }
    }

    /// Deletes every entry that has the primary key of the current one, and
    /// moves to the first entry of the next primary key, or to `End` if there
    /// is none. Errors and the cursor after the last entry are as in
    /// `delete_current`.
    pub fn delete_current_duplicates(&mut self) -> (r: Result<(), DatabaseError>)
        requires
            old(self).wf(),
        ensures
            final(self).wf(),
            *final(final(self).table) == *final(old(self).table),
            final(self).same_schema(old(self)),
            match old(self).state {
                CursorState::Start => final(self).unchanged(old(self)) && read_refused(
                    r,
                    DatabaseReadOperation::DeleteCurrent,
                    "Deleting from uninitialized cursor"@,
                    old(self).table.name(),
                    Seq::empty(),
                ),
                CursorState::End => final(self).unchanged(old(self)) && r is Ok,
                CursorState::At(i) => {
                    let p = old(self).pairs();
                    let a = rank(p, p[i as int].0);
                    let b = upper_rank(p, p[i as int].0);
                    &&& r is Ok
                    &&& final(self).pairs() == p.take(a) + p.skip(b)
                    &&& final(self).table.entries() == old(self).table.entries().take(a) + old(
                        self,
                    ).table.entries().skip(b)
                    &&& final(self).state == state_at(final(self).pairs(), a)
                },
            },
    {
        match self.state {
            CursorState::Start => Err(
                read_error(
                    DatabaseReadOperation::DeleteCurrent,
                    "Deleting from uninitialized cursor",
                    self.table.table_name(),
                    Vec::new(),
                ),
            ),
            CursorState::End => Ok(()),
            CursorState::At(i) => {
                let layout = self.table.key_layout();
                let here = self.table.pair_at(i);
                let ceiling = match layout {
                    KeyLayout::Plain => pad_ones(here.0.as_slice(), 0),
                    KeyLayout::DupSort { key_len, subkey_len } => pad_ones(
                        here.0.as_slice(),
                        subkey_len + TIE_LEN,
                    ),
                };
                let ghost s0 = self.table.entries();
                let ghost p = self.pairs();
                proof {
                    assert(entry_ok(layout, s0[i as int]));
                    assert(here.0@ + crate::bytes::ones(0) =~= here.0@);
                    lemma_seek_primary(layout, s0, here.0@);
                    crate::table::lemma_seek_ceiling(layout, s0, here.0@);
                    crate::store::lemma_floor_upper(s0, ceiling@);
                    lemma_pairs_sorted(layout, s0);
                    crate::store::lemma_rank(p, here.0@);
                    crate::store::lemma_upper_rank(p, here.0@);
                }
                let n: usize = self.table.len();
                let a: usize = self.table.raw_seek(here.0.as_slice());
                let b: usize = match self.table.raw_seek_for_prev(ceiling.as_slice()) {
                    Some(h) => h + 1,
                    None => 0,
                };
                let mut k: usize = a;
                while k < b
                    invariant
                        a <= k <= b <= s0.len(),
                        self.table.entries() == s0.take(a as int) + s0.skip(k as int),
                        crate::store::sorted(self.table.entries()),
                        crate::table::well_formed(layout, self.table.entries()),
                        self.table.layout() == layout,
                        layout.valid(),
                        self.table.name() == old(self).table.name(),
                        self.dup_mode == old(self).dup_mode,
                        *final(self.table) == *final(old(self).table),
                    decreases b - k,
                {
                    let raw = copy_bytes(self.table.raw_key(a));
                    proof {
                        crate::store::lemma_delete_at(self.table.entries(), a as int);
                        crate::table::lemma_remove_well_formed(
                            layout,
                            self.table.entries(),
                            a as int,
                        );
                        assert((s0.take(a as int) + s0.skip(k as int)).remove(a as int) =~= s0.take(
                            a as int,
                        ) + s0.skip(k + 1));
                    }
                    self.table.raw_delete(raw.as_slice());
                    k += 1;
                }
                proof {
                    assert(logical(layout, s0.take(a as int) + s0.skip(b as int)) =~= p.take(
                        a as int,
                    ) + p.skip(b as int));
                }
                let m: usize = self.table.len();
                self.state = if a < m {
                    CursorState::At(a)
                } else {
                    CursorState::End
                };
                Ok(())
            },
        }
    }
}

/// Whether the logical entries hold an entry under `key`.
pub open spec fn key_present(p: Entries, key: Seq<u8>) -> bool {
    rank(p, key) < p.len() && p[rank(p, key)].0 == key
}

/// Where a refused insert leaves the cursor: at the first entry at or after
/// the pair's primary key and subkey, or at the last entry if there is none.
pub open spec fn conflict_state(layout: KeyLayout, p: Entries, key: Seq<u8>, value: Seq<u8>)
    -> CursorState {
    let i = match layout {
        KeyLayout::Plain => rank(p, key),
        KeyLayout::DupSort { .. } => rank(
            by_composite(layout, p),
            composite_key(layout, key, value),
        ),
    };
    if i < p.len() {
        CursorState::At(i as usize)
    } else {
        CursorState::At((p.len() - 1) as usize)
    }
}

/// Whether `key` is below the last primary key of the table.
pub open spec fn append_mismatch(p: Entries, key: Seq<u8>) -> bool {
    p.len() > 0 && lex_lt(key, p[p.len() - 1].0)
}

/// Whether the pair cannot be appended to the values of its primary key and
/// subkey: the first entry at or after that key and subkey is under `key`, and
/// either has a higher subkey, or the highest value of this subkey is above
/// `value`.
pub open spec fn append_dup_mismatch(
    layout: KeyLayout,
    p: Entries,
    key: Seq<u8>,
    value: Seq<u8>,
) -> bool {
    let c = composite_key(layout, key, value);
    let i = rank(by_composite(layout, p), c);
    let j = upper_rank(by_composite(layout, p), c);
    i < p.len() && p[i].0 == key && (i == j || lex_lt(value, p[j - 1].1))
}

} // verus!
