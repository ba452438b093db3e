//! The transaction: a working copy of the tables of an environment.
//!
//! A transaction reads and writes its own copy of the tables. `commit` makes
//! the copy the state of the environment, and `abort` discards it. The
//! transaction borrows the environment for as long as it lives, so a second
//! transaction cannot begin before the first has ended.

use vstd::prelude::*;
use crate::bytes::{bytes_eq, copy_bytes};
use crate::cursor::{returns_value, Cursor, CursorState};
use crate::cursor_write::{lemma_absent, lemma_logical_plain, table_upserted};
use crate::dups::{
    format_key, max_extend_composite_key, storable, zero_extend_composite_key, KeyLayout,
};
use crate::env::{tables_wf, DatabaseEnv};
use crate::cursor_write::find_slot;
use crate::error::{
    read_error, read_refused, write_error, write_refused, DatabaseError, DatabaseReadOperation,
    DatabaseWriteOperation,
};
use crate::estimate::{entries_estimate, estimate_entries, SAMPLE};
use crate::model::{lemma_pair_rank, pair_rank};
use crate::store::{delete_spec, rank, Entries};
use crate::table::{
    entry_ok, key_fits, lemma_pairs_sorted, lemma_seek_primary, logical, opt_bytes, Table,
    ValueOnlyResult,
};
use crate::ties::{lemma_entry_vs_pair, lemma_run};

verus! {

/// The value of the first entry under `key`, if there is one.
pub open spec fn lookup(p: Entries, key: Seq<u8>) -> Option<Seq<u8>> {
    let i = rank(p, key);
    if 0 <= i < p.len() && p[i].0 == key {
        Some(p[i].1)
    } else {
        None
    }
}

/// The logical entries after a delete. From a plain table the entry under
/// `key` goes, whatever its value. From a duplicate-key table the pair of
/// `key` and `value` goes.
pub open spec fn delete_pairs(layout: KeyLayout, p: Entries, key: Seq<u8>, value: Option<Seq<u8>>)
    -> Entries {
    match layout {
        KeyLayout::Plain => delete_spec(p, key),
        KeyLayout::DupSort { .. } => match value {
            Some(v) => if p.contains((key, v)) {
                p.remove(pair_rank(p, (key, v)))
            } else {
                p
            },
            None => p,
        },
    }
}

/// Deletes from one table, as `Tx::delete` does.
fn delete_from(t: &mut Table, key: &[u8], value: Option<&[u8]>) -> (r: Result<bool, DatabaseError>)
    requires
        old(t).wf(),
    ensures
        final(t).wf(),
        final(t).layout() == old(t).layout(),
        final(t).name() == old(t).name(),
        if old(t).layout() is DupSort && value is None {
            *final(t) == *old(t) && write_refused(
                r,
                DatabaseWriteOperation::Delete,
                "ValueNotSet"@,
                old(t).name(),
                key@,
            )
        } else if old(t).layout() is DupSort && !storable(
            old(t).layout(),
            key@,
            opt_bytes(value)->Some_0,
        ) {
            *final(t) == *old(t) && write_refused(
                r,
                DatabaseWriteOperation::Delete,
                "InvalidKey"@,
                old(t).name(),
                key@,
            )
        } else {
            &&& final(t).pairs() == delete_pairs(
                old(t).layout(),
                old(t).pairs(),
                key@,
                opt_bytes(value),
            )
            &&& r matches Ok(deleted) && deleted == (final(t).pairs().len() < old(t).pairs().len())
        },
{
    let layout = t.key_layout();
    let ghost s0 = t.entries();
    match layout {
        KeyLayout::Plain => {
            proof {
                lemma_logical_plain(layout, s0);
                crate::store::lemma_find(s0, key@);
            }
            let deleted = t.raw_delete(key);
            proof {
                lemma_logical_plain(layout, t.entries());
            }
            Ok(deleted)
        },
        KeyLayout::DupSort { key_len, subkey_len } => {
            let v = match value {
                None => {
                    return Err(
                        write_error(
                            DatabaseWriteOperation::Delete,
                            "ValueNotSet",
                            t.table_name(),
                            copy_bytes(key),
                        ),
                    );
                },
                Some(v) => v,
            };
            if key.len() != key_len || v.len() < subkey_len {
                return Err(
                    write_error(
                        DatabaseWriteOperation::Delete,
                        "InvalidKey",
                        t.table_name(),
                        copy_bytes(key),
                    ),
                );
            }
            let composite = format_key(&layout, key, v);
            let lo_key = zero_extend_composite_key(&layout, composite.as_slice());
            let hi_key = max_extend_composite_key(&layout, composite.as_slice());
            let a: usize = t.raw_seek(lo_key.as_slice());
            let b: usize = t.raw_seek(hi_key.as_slice());
            proof {
                crate::dups::lemma_format_round_trip(layout, key@, v@, 0);
                lemma_run(layout, s0, composite@);
                lemma_pairs_sorted(layout, s0);
                lemma_pair_rank(logical(layout, s0), (key@, v@));
            }
            let slot: usize = find_slot(t, a, b, v);
            if slot > a && bytes_eq(t.raw_value(slot - 1), v) {
                proof {
                    let e = s0[slot - 1];
                    assert(entry_ok(layout, e));
                    lemma_entry_vs_pair(layout, e, key@, v@);
                    assert(logical(layout, s0)[slot - 1] == (key@, v@));
                    crate::store::lemma_delete_at(s0, slot - 1);
                    crate::table::lemma_remove_well_formed(layout, s0, slot - 1);
                }
                let raw = copy_bytes(t.raw_key(slot - 1));
                t.raw_delete(raw.as_slice());
                Ok(true)
            } else {
                proof {
                    lemma_absent(layout, s0, key@, v@, slot as int);
                }
                Ok(false)
            }
        },
    }
}

/// A transaction over the tables of an environment.
pub struct Tx<'e> {
    /// The environment, which holds the committed tables.
    pub env: &'e mut DatabaseEnv,
    /// The working copy of the tables.
    pub tables: Vec<Table>,
}

impl<'e> Tx<'e> {
    /// The tables as the transaction sees them.
    pub open spec fn tables(&self) -> Seq<Table> {
        self.tables@
    }

    /// Every table of the transaction is consistent.
    pub open spec fn wf(&self) -> bool {
        tables_wf(self.tables())
    }

    /// The transaction works on the environment of `pre`, which is as it was.
    pub open spec fn same_env(&self, pre: &Tx) -> bool {
        *self.env == *pre.env
    }

    /// Begins a transaction on a copy of the tables of `env`.
    pub fn new(env: &'e mut DatabaseEnv) -> (tx: Tx<'e>)
        requires
            old(env).wf(),
        ensures
            tx.wf(),
            *tx.env == *old(env),
            *final(env) == *final(tx.env),
            tx.tables().len() == old(env).tables().len(),
            forall|i: int|
                0 <= i < tx.tables().len() ==> (#[trigger] tx.tables()[i]).entries() == old(
                    env,
                ).tables()[i].entries() && tx.tables()[i].layout() == old(env).tables()[i].layout()
                    && tx.tables()[i].name() == old(env).tables()[i].name(),
    {
        let tables = env.snapshot();
        Tx { env, tables }
    }

    /// The index of the table with this name.
    pub fn table_id(&self, name: &str) -> (r: Option<usize>)
        ensures
            match r {
                Some(i) => i == crate::env::index_of(self.tables(), name@) && i
                    < self.tables().len(),
                None => crate::env::index_of(self.tables(), name@) == self.tables().len(),
            },
    {
        crate::env::find_table(&self.tables, name)
    }

    /// The table with this index.
    pub fn table(&self, id: usize) -> (r: Option<&Table>)
        ensures
            match r {
                Some(t) => id < self.tables().len() && *t == self.tables()[id as int],
                None => id >= self.tables().len(),
            },
    {
        if id < self.tables.len() {
            Some(&self.tables[id])
        } else {
            None
        }
    }

    /// The value under `key`. In a duplicate-key table that is the lowest
    /// value of the key.
    pub fn get(&self, table: usize, key: &[u8]) -> (r: ValueOnlyResult)
        requires
            self.wf(),
        ensures
            if table >= self.tables().len() {
                read_refused(r, DatabaseReadOperation::Get, "TableNotFound"@, ""@, key@)
            } else if !key_fits(self.tables()[table as int].layout(), key@) {
                read_refused(
                    r,
                    DatabaseReadOperation::Get,
                    "InvalidKey"@,
                    self.tables()[table as int].name(),
                    key@,
                )
            } else {
                returns_value(r, lookup(self.tables()[table as int].pairs(), key@))
            },
    {
        if table >= self.tables.len() {
            return Err(
                read_error(
                    DatabaseReadOperation::Get,
                    "TableNotFound",
                    "",
                    copy_bytes(key),
                ),
            );
        }
        let t = &self.tables[table];
        assert(t.wf());
        match t.key_layout() {
            KeyLayout::Plain => {},
            KeyLayout::DupSort { key_len, subkey_len } => {
                if key.len() != key_len {
                    return Err(
                        read_error(
                            DatabaseReadOperation::Get,
                            "InvalidKey",
                            t.table_name(),
                            copy_bytes(key),
                        ),
                    );
                }
            },
        }
        proof {
            lemma_seek_primary(t.layout(), t.entries(), key@);
            crate::store::lemma_rank_range(t.pairs(), key@);
        }
        let i: usize = t.raw_seek(key);
        if i < t.len() {
            let found = t.pair_at(i);
            if bytes_eq(found.0.as_slice(), key) {
                return Ok(Some(found.1));
            }
        }
        Ok(None)
    }

    /// The value stored under the physical key that `key` and `value` format
    /// to. The physical keys of a duplicate-key table carry a tie-breaker,
    /// which the formatted key lacks, so there the lookup finds nothing.
    pub fn get_with_value(&self, table: usize, key: &[u8], value: &[u8]) -> (r: ValueOnlyResult)
        requires
            self.wf(),
        ensures
            if table >= self.tables().len() {
                read_refused(r, DatabaseReadOperation::Get, "TableNotFound"@, ""@, key@)
            } else if !storable(self.tables()[table as int].layout(), key@, value@) {
                read_refused(
                    r,
                    DatabaseReadOperation::Get,
                    "InvalidKey"@,
                    self.tables()[table as int].name(),
                    key@,
                )
            } else if self.tables()[table as int].layout() is Plain {
                returns_value(r, lookup(self.tables()[table as int].pairs(), key@))
            } else {
                r matches Ok(None)
            },
    {
        if table >= self.tables.len() {
            return Err(
                read_error(
                    DatabaseReadOperation::Get,
                    "TableNotFound",
                    "",
                    copy_bytes(key),
                ),
            );
        }
        let t = &self.tables[table];
        assert(t.wf());
        let layout = t.key_layout();
        match layout {
            KeyLayout::Plain => {},
            KeyLayout::DupSort { key_len, subkey_len } => {
                if key.len() != key_len || value.len() < subkey_len {
                    return Err(
                        read_error(
                            DatabaseReadOperation::Get,
                            "InvalidKey",
                            t.table_name(),
                            copy_bytes(key),
                        ),
                    );
                }
            },
        }
        let ext_key = format_key(&layout, key, value);
        proof {
            if layout is Plain {
                lemma_logical_plain(layout, t.entries());
            } else {
                crate::dups::lemma_format_round_trip(layout, key@, value@, 0);
            }
            crate::store::lemma_rank_range(t.entries(), ext_key@);
        }
        let i: usize = t.raw_seek(ext_key.as_slice());
        if i < t.len() {
            assert(entry_ok(layout, t.entries()[i as int]));
            if bytes_eq(t.raw_key(i), ext_key.as_slice()) {
                return Ok(Some(copy_bytes(t.raw_value(i))));
            }
        }
        Ok(None)
    }

    /// Writes the pair into the table, as `Cursor::upsert` does.
    pub fn put(&mut self, table: usize, key: &[u8], value: &[u8]) -> (r: Result<
        (),
        DatabaseError,
    >)
        requires
            old(self).wf(),
        ensures
            final(self).wf(),
            final(self).same_env(old(self)),
            *final(final(self).env) == *final(old(self).env),
            if table >= old(self).tables().len() {
                write_refused(
                    r,
                    DatabaseWriteOperation::Put,
                    "TableNotFound"@,
                    ""@,
                    key@,
                ) && final(self).tables() == old(self).tables()
            } else {
                &&& final(self).tables() == old(self).tables().update(
                    table as int,
                    final(self).tables()[table as int],
                )
                &&& table_upserted(
                    old(self).tables()[table as int],
                    final(self).tables()[table as int],
                    r,
                    key@,
                    value@,
                )
            },
    {
        if table >= self.tables.len() {
            return Err(
                write_error(
                    DatabaseWriteOperation::Put,
                    "TableNotFound",
                    "",
                    copy_bytes(key),
                ),
            );
        }
        assert(self.tables()[table as int].wf());
        let r = {
            let mut cursor = Cursor::new(&mut self.tables[table], false);
            cursor.upsert(key, value)
        };
        proof {
            assert forall|i: int| 0 <= i < self.tables().len() implies (
            #[trigger] self.tables()[i]).wf() by {
                if i != table {
                    assert(self.tables()[i] == old(self).tables()[i]);
                }
            }
            assert(self.tables() =~= old(self).tables().update(
                table as int,
                self.tables()[table as int],
            ));
        }
        r
    }

    /// Deletes every entry of the table.
    pub fn clear(&mut self, table: usize) -> (r: Result<(), DatabaseError>)
        requires
            old(self).wf(),
        ensures
            final(self).wf(),
            final(self).same_env(old(self)),
            *final(final(self).env) == *final(old(self).env),
            if table >= old(self).tables().len() {
                write_refused(
                    r,
                    DatabaseWriteOperation::Clear,
                    "TableNotFound"@,
                    ""@,
                    Seq::empty(),
                ) && final(self).tables() == old(self).tables()
            } else {
                &&& r is Ok
                &&& final(self).tables() == old(self).tables().update(
                    table as int,
                    final(self).tables()[table as int],
                )
                &&& final(self).tables()[table as int].pairs() == Seq::<
                    (Seq<u8>, Seq<u8>),
                >::empty()
                &&& final(self).tables()[table as int].layout() == old(
                    self,
                ).tables()[table as int].layout()
                &&& final(self).tables()[table as int].name() == old(
                    self,
                ).tables()[table as int].name()
            },
    {
        if table >= self.tables.len() {
            return Err(write_error(DatabaseWriteOperation::Clear, "TableNotFound", "", Vec::new()));
        }
        assert(self.tables()[table as int].wf());
        self.tables[table].clear();
        proof {
            assert forall|i: int| 0 <= i < self.tables().len() implies (
            #[trigger] self.tables()[i]).wf() by {
                if i != table {
                    assert(self.tables()[i] == old(self).tables()[i]);
                }
            }
            assert(self.tables() =~= old(self).tables().update(
                table as int,
                self.tables()[table as int],
            ));
        }
        Ok(())
    }

    /// Deletes from the table. From a plain table the entry under `key` goes,
    /// and `value` does not matter. From a duplicate-key table the pair of
    /// `key` and `value` goes, and a value must be given. Returns whether an
    /// entry was deleted.
    pub fn delete(&mut self, table: usize, key: &[u8], value: Option<&[u8]>) -> (r: Result<
        bool,
        DatabaseError,
    >)
        requires
            old(self).wf(),
        ensures
            final(self).wf(),
            final(self).same_env(old(self)),
            *final(final(self).env) == *final(old(self).env),
            if table >= old(self).tables().len() {
                write_refused(
                    r,
                    DatabaseWriteOperation::Delete,
                    "TableNotFound"@,
                    ""@,
                    key@,
                ) && final(self).tables() == old(self).tables()
            } else {
                let pre = old(self).tables()[table as int];
                let post = final(self).tables()[table as int];
                &&& final(self).tables() == old(self).tables().update(table as int, post)
                &&& post.layout() == pre.layout()
                &&& post.name() == pre.name()
                &&& if pre.layout() is DupSort && value is None {
                    post == pre && write_refused(
                        r,
                        DatabaseWriteOperation::Delete,
                        "ValueNotSet"@,
                        pre.name(),
                        key@,
                    )
                } else if pre.layout() is DupSort && !storable(
                    pre.layout(),
                    key@,
                    opt_bytes(value)->Some_0,
                ) {
                    post == pre && write_refused(
                        r,
                        DatabaseWriteOperation::Delete,
                        "InvalidKey"@,
                        pre.name(),
                        key@,
                    )
                } else {
                    &&& post.pairs() == delete_pairs(
                        pre.layout(),
                        pre.pairs(),
                        key@,
                        opt_bytes(value),
                    )
                    &&& r matches Ok(deleted) && deleted == (post.pairs().len() < pre.pairs().len())
                }
            },
    {
        if table >= self.tables.len() {
            return Err(
                write_error(
                    DatabaseWriteOperation::Delete,
                    "TableNotFound",
                    "",
                    copy_bytes(key),
                ),
            );
        }
        assert(self.tables()[table as int].wf());
        let r = delete_from(&mut self.tables[table], key, value);
        proof {
            assert forall|i: int| 0 <= i < self.tables().len() implies (
            #[trigger] self.tables()[i]).wf() by {
                if i != table {
                    assert(self.tables()[i] == old(self).tables()[i]);
                }
            }
            assert(self.tables() =~= old(self).tables().update(
                table as int,
                self.tables()[table as int],
            ));
        }
        r
    }

    /// The number of entries of the table: exact for a table below the size
    /// of the sample, and an estimate from the spread of the keys for a larger
    /// one.
    pub fn entries(&self, table: usize) -> (r: Result<usize, DatabaseError>)
        requires
            self.wf(),
        ensures
            if table >= self.tables().len() {
                read_refused(r, DatabaseReadOperation::Entries, "TableNotFound"@, ""@, Seq::empty())
            } else {
                r matches Ok(n) && n == entries_estimate(self.tables()[table as int].entries())
            },
    {
        if table >= self.tables.len() {
            return Err(read_error(DatabaseReadOperation::Entries, "TableNotFound", "", Vec::new()));
        }
        let t = &self.tables[table];
        let n: usize = t.len();
        if n < SAMPLE {
            Ok(n)
        } else {
            Ok(estimate_entries(t.raw_key(0), t.raw_key(SAMPLE - 1), t.raw_key(n - 1)))
        }
    }

    /// A cursor over the table, before its first entry.
    pub fn cursor_write(&mut self, table: usize) -> (r: Result<Cursor<'_>, DatabaseError>)
        requires
            old(self).wf(),
        ensures
            final(self).same_env(old(self)),
            *final(final(self).env) == *final(old(self).env),
            match r {
                Ok(c) => {
                    &&& table < old(self).tables().len()
                    &&& c.wf()
                    &&& *c.table == old(self).tables()[table as int]
                    &&& c.state == CursorState::Start
                    &&& !c.dup_mode
                    &&& final(self).tables() == old(self).tables().update(
                        table as int,
                        *final(c.table),
                    )
                },
                Err(e) => {
                    &&& table >= old(self).tables().len()
                    &&& e.is_read(
                        DatabaseReadOperation::CursorOpen,
                        "TableNotFound"@,
                        ""@,
                        Seq::empty(),
                    )
                    &&& final(self).tables() == old(self).tables()
                },
            },
    {
        if table >= self.tables.len() {
            return Err(
                read_error(
                    DatabaseReadOperation::CursorOpen,
                    "TableNotFound",
                    "",
                    Vec::new(),
                ),
            );
        }
        assert(self.tables()[table as int].wf());
        Ok(Cursor::new(&mut self.tables[table], false))
    }

    /// A cursor over the table, before its first entry.
    pub fn cursor_read(&mut self, table: usize) -> (r: Result<Cursor<'_>, DatabaseError>)
        requires
            old(self).wf(),
        ensures
            final(self).same_env(old(self)),
            *final(final(self).env) == *final(old(self).env),
            match r {
                Ok(c) => {
                    &&& table < old(self).tables().len()
                    &&& c.wf()
                    &&& *c.table == old(self).tables()[table as int]
                    &&& c.state == CursorState::Start
                    &&& !c.dup_mode
                    &&& final(self).tables() == old(self).tables().update(
                        table as int,
                        *final(c.table),
                    )
                },
                Err(e) => {
                    &&& table >= old(self).tables().len()
                    &&& e.is_read(
                        DatabaseReadOperation::CursorOpen,
                        "TableNotFound"@,
                        ""@,
                        Seq::empty(),
                    )
                    &&& final(self).tables() == old(self).tables()
                },
            },
    {
        self.cursor_write(table)
    }

    /// A cursor for duplicate-aware navigation over a duplicate-key table,
    /// before its first entry.
    pub fn cursor_dup_write(&mut self, table: usize) -> (r: Result<Cursor<'_>, DatabaseError>)
        requires
            old(self).wf(),
        ensures
            final(self).same_env(old(self)),
            *final(final(self).env) == *final(old(self).env),
            match r {
                Ok(c) => {
                    &&& table < old(self).tables().len()
                    &&& old(self).tables()[table as int].layout() is DupSort
                    &&& c.wf()
                    &&& *c.table == old(self).tables()[table as int]
                    &&& c.state == CursorState::Start
                    &&& c.dup_mode
                    &&& final(self).tables() == old(self).tables().update(
                        table as int,
                        *final(c.table),
                    )
                },
                Err(e) => {
                    &&& final(self).tables() == old(self).tables()
                    &&& if table >= old(self).tables().len() {
                        e.is_read(
                            DatabaseReadOperation::CursorOpen,
                            "TableNotFound"@,
                            ""@,
                            Seq::empty(),
                        )
                    } else {
                        old(self).tables()[table as int].layout() is Plain && e.is_read(
                            DatabaseReadOperation::CursorOpen,
                            "NotDupSort"@,
                            old(self).tables()[table as int].name(),
                            Seq::empty(),
                        )
                    }
                },
            },
    {
        if table >= self.tables.len() {
            return Err(
                read_error(
                    DatabaseReadOperation::CursorOpen,
                    "TableNotFound",
                    "",
                    Vec::new(),
                ),
            );
        }
        assert(self.tables()[table as int].wf());
        if !self.tables[table].key_layout().is_dupsort() {
            return Err(
                read_error(
                    DatabaseReadOperation::CursorOpen,
                    "NotDupSort",
                    self.tables[table].table_name(),
                    Vec::new(),
                ),
            );
        }
        Ok(Cursor::new(&mut self.tables[table], true))
    }

    /// A cursor for duplicate-aware navigation over a duplicate-key table,
    /// before its first entry.
    pub fn cursor_dup_read(&mut self, table: usize) -> (r: Result<Cursor<'_>, DatabaseError>)
        requires
            old(self).wf(),
        ensures
            final(self).same_env(old(self)),
            *final(final(self).env) == *final(old(self).env),
            match r {
                Ok(c) => {
                    &&& table < old(self).tables().len()
                    &&& old(self).tables()[table as int].layout() is DupSort
                    &&& c.wf()
                    &&& *c.table == old(self).tables()[table as int]
                    &&& c.state == CursorState::Start
                    &&& c.dup_mode
                    &&& final(self).tables() == old(self).tables().update(
                        table as int,
                        *final(c.table),
                    )
                },
                Err(e) => {
                    &&& final(self).tables() == old(self).tables()
                    &&& if table >= old(self).tables().len() {
                        e.is_read(
                            DatabaseReadOperation::CursorOpen,
                            "TableNotFound"@,
                            ""@,
                            Seq::empty(),
                        )
                    } else {
                        old(self).tables()[table as int].layout() is Plain && e.is_read(
                            DatabaseReadOperation::CursorOpen,
                            "NotDupSort"@,
                            old(self).tables()[table as int].name(),
                            Seq::empty(),
                        )
                    }
                },
            },
    {
        self.cursor_dup_write(table)
    }

    /// Makes the tables of the transaction the tables of the environment.
    pub fn commit(self) -> (r: Result<bool, DatabaseError>)
        ensures
            r matches Ok(true),
            final(self.env).tables() == self.tables(),
            final(self.env).metrics() == old(self.env).metrics(),
    {
        let Tx { env, tables } = self;
        env.install(tables);
        Ok(true)
    }

    /// Discards the tables of the transaction. The environment stays as it
    /// was.
    pub fn abort(self)
        ensures
            *final(self.env) == *old(self.env),
    {
    }

    /// The store has no limit on how long a read transaction may stay open,
    /// so there is nothing to disable.
    pub fn disable_long_read_transaction_safety(&mut self)
        ensures
            *final(self) == *old(self),
    {
    }
}

impl DatabaseEnv {
    /// Begins a read transaction.
    pub fn tx(&mut self) -> (r: Result<Tx<'_>, DatabaseError>)
        requires
            old(self).wf(),
        ensures
            r matches Ok(tx) && tx.wf() && *tx.env == *old(self) && *final(self) == *final(tx.env)
                && tx.tables().len() == old(self).tables().len() && forall|i: int|
                0 <= i < tx.tables().len() ==> (#[trigger] tx.tables()[i]).entries() == old(
                    self,
                ).tables()[i].entries() && tx.tables()[i].layout() == old(self).tables()[i].layout()
                    && tx.tables()[i].name() == old(self).tables()[i].name(),
    {
        Ok(Tx::new(self))
    }

    /// Begins a read-write transaction.
    pub fn tx_mut(&mut self) -> (r: Result<Tx<'_>, DatabaseError>)
        requires
            old(self).wf(),
        ensures
            r matches Ok(tx) && tx.wf() && *tx.env == *old(self) && *final(self) == *final(tx.env)
                && tx.tables().len() == old(self).tables().len() && forall|i: int|
                0 <= i < tx.tables().len() ==> (#[trigger] tx.tables()[i]).entries() == old(
                    self,
                ).tables()[i].entries() && tx.tables()[i].layout() == old(self).tables()[i].layout()
                    && tx.tables()[i].name() == old(self).tables()[i].name(),
    {
        Ok(Tx::new(self))
    }
}

} // verus!
