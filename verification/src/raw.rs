//! Writes of physical entries.
//!
//! A physical entry that comes from outside, such as one read back from disk,
//! may enter a table only if the table stays consistent: the entry has to fit
//! the layout, and its value has to stand between the values of the ties next
//! to it.

use vstd::prelude::*;
use crate::bytes::{bytes_eq, bytes_lt, copy_bytes, lemma_lex_total, lemma_lex_transitive, lex_lt};
use crate::dups::{composite_of, tie_breaker, KeyLayout, TIE_LEN, TIE_MAX};
use crate::error::{write_error, write_refused, DatabaseError, DatabaseWriteOperation};
use crate::store::{lemma_put_sorted, lemma_rank, put_spec, rank, Entries};
use crate::table::{
    entry_ok, lemma_insert_well_formed, lemma_update_well_formed, well_formed, Table,
};
use crate::ties::{lemma_run, run_end, run_start};
use crate::tx::Tx;

verus! {

/// The index of the entry after the place of `raw`: after the entry of that
/// key if there is one, else where the key would be put.
pub open spec fn upper_neighbor(s: Entries, raw: Seq<u8>) -> int {
    let i = rank(s, raw);
    if i < s.len() && s[i].0 == raw {
        i + 1
    } else {
        i
    }
}

/// The value stands between the values of the ties next to the place of
/// `raw`: above the value of the entry before it and below the value of the
/// entry after it, where these have the composite key of `raw`.
pub open spec fn between_ties(layout: KeyLayout, s: Entries, raw: Seq<u8>, value: Seq<u8>)
    -> bool {
    let i = rank(s, raw);
    let u = upper_neighbor(s, raw);
    &&& 0 < i <= s.len() && composite_of(layout, s[i - 1].0) == composite_of(layout, raw)
        ==> lex_lt(s[i - 1].1, value)
    &&& 0 <= u < s.len() && composite_of(layout, s[u].0) == composite_of(layout, raw) ==> lex_lt(
        value,
        s[u].1,
    )
}

/// A value between the ties next to its place is between all ties of its
/// composite key.
proof fn lemma_between_ties(layout: KeyLayout, s: Entries, raw: Seq<u8>, value: Seq<u8>)
    requires
        layout is DupSort,
        crate::store::sorted(s),
        well_formed(layout, s),
        entry_ok(layout, (raw, value)),
        between_ties(layout, s, raw, value),
    ensures
        forall|j: int|
            0 <= j < rank(s, raw) && composite_of(layout, (#[trigger] s[j]).0) == composite_of(
                layout,
                raw,
            ) ==> lex_lt(s[j].1, value),
        forall|j: int|
            upper_neighbor(s, raw) <= j < s.len() && composite_of(layout, (#[trigger] s[j]).0)
                == composite_of(layout, raw) ==> lex_lt(value, s[j].1),
{
    let c = composite_of(layout, raw);
    let i = rank(s, raw);
    let u = upper_neighbor(s, raw);
    crate::dups::lemma_physical_parts(layout, raw);
    lemma_run(layout, s, c);
    lemma_rank(s, raw);
    let a = run_start(layout, s, c);
    let b = run_end(layout, s, c);
    assert forall|j: int| 0 <= j < s.len() && composite_of(layout, (#[trigger] s[j]).0)
        == c implies a <= j < b by {
        lemma_lex_total(c, c);
    }
    assert forall|j: int| 0 <= j < i && composite_of(layout, (#[trigger] s[j]).0)
        == c implies lex_lt(s[j].1, value) by {
        assert(a <= j < b);
        assert(lex_lt(s[j].0, s[i - 1].0) || j == i - 1);
        if j < i - 1 {
            assert(entry_ok(layout, s[i - 1]));
            if i - 1 >= b {
                assert(lex_lt(c, composite_of(layout, s[i - 1].0)));
                assert(lex_lt(s[i - 1].0, raw));
                crate::dups::lemma_physical_order(layout, s[i - 1].0, raw);
                crate::bytes::lemma_lex_asymmetric(c, composite_of(layout, s[i - 1].0));
            }
            assert(composite_of(layout, s[i - 1].0) == c);
            assert(lex_lt(s[j].1, s[i - 1].1));
            lemma_lex_transitive(s[j].1, s[i - 1].1, value);
        }
    }
    assert forall|j: int| u <= j < s.len() && composite_of(layout, (#[trigger] s[j]).0)
        == c implies lex_lt(value, s[j].1) by {
        assert(a <= j < b);
        if j > u {
            assert(entry_ok(layout, s[u]));
            if u < a {
                assert(lex_lt(composite_of(layout, s[u].0), c));
                if u == i {
                    assert(crate::bytes::lex_le(raw, s[u].0));
                } else {
                    assert(lex_lt(s[i].0, s[u].0));
                }
                crate::dups::lemma_physical_order(layout, raw, s[u].0);
                crate::bytes::lemma_lex_asymmetric(composite_of(layout, s[u].0), c);
            }
            assert(composite_of(layout, s[u].0) == c);
            assert(lex_lt(s[u].1, s[j].1));
            lemma_lex_transitive(value, s[u].1, s[j].1);
        }
    }
}

/// Whether a physical entry fits the layout.
fn fits(layout: &KeyLayout, raw: &[u8], value: &[u8]) -> (r: bool)
    requires
        layout.valid(),
    ensures
        r == entry_ok(*layout, (raw@, value@)),
{
    match layout {
        KeyLayout::Plain => true,
        KeyLayout::DupSort { key_len, subkey_len } => {
            if raw.len() != *key_len + *subkey_len + TIE_LEN || value.len() < *subkey_len {
                return false;
            }
            if tie_breaker(raw) == TIE_MAX {
                return false;
            }
            let carried = &raw[*key_len..*key_len + *subkey_len];
            let subkey = &value[0..*subkey_len];
            proof {
                let c = composite_of(*layout, raw@);
                let p = crate::dups::primary_of(*layout, raw@);
                crate::dups::lemma_physical_parts(*layout, raw@);
                assert(c =~= p + carried@);
                crate::bytes::lemma_lex_concat(p, carried@, p, subkey@);
            }
            bytes_eq(carried, subkey)
        },
    }
}

impl Table {
    /// Writes a physical entry as it is. The entry must fit the layout, else
    /// the write is refused with `InvalidKey`, and its value must stand
    /// between the values of the ties next to it, else the write is refused
    /// with `KeyMismatch`. A refused write changes nothing.
    pub fn put_raw(&mut self, raw: &[u8], value: &[u8]) -> (r: Result<(), DatabaseError>)
        requires
            old(self).wf(),
        ensures
            final(self).wf(),
            final(self).layout() == old(self).layout(),
            final(self).name() == old(self).name(),
            if !entry_ok(old(self).layout(), (raw@, value@)) {
                *final(self) == *old(self) && write_refused(
                    r,
                    DatabaseWriteOperation::Put,
                    "InvalidKey"@,
                    old(self).name(),
                    raw@,
                )
            } else if !between_ties(old(self).layout(), old(self).entries(), raw@, value@) {
                *final(self) == *old(self) && write_refused(
                    r,
                    DatabaseWriteOperation::Put,
                    "KeyMismatch"@,
                    old(self).name(),
                    raw@,
                )
            } else {
                r is Ok && final(self).entries() == put_spec(old(self).entries(), raw@, value@)
            },
    {
        let layout = self.key_layout();
        if !fits(&layout, raw, value) {
            return Err(
                write_error(
                    DatabaseWriteOperation::Put,
                    "InvalidKey",
                    self.table_name(),
                    copy_bytes(raw),
                ),
            );
        }
        let ghost s0 = self.entries();
        proof {
            lemma_rank(s0, raw@);
            lemma_put_sorted(s0, raw@, value@);
        }
        if layout.is_dupsort() {
            let n: usize = self.len();
            let i: usize = self.raw_seek(raw);
            let composite = crate::dups::unformat_extended_composite_key(&layout, raw);
            let u: usize = if i < n && bytes_eq(self.raw_key(i), raw) {
                i + 1
            } else {
                i
            };
            let mut ordered = true;
            if i > 0 {
                assert(entry_ok(layout, s0[i - 1]));
                let below = crate::dups::unformat_extended_composite_key(
                    &layout,
                    self.raw_key(i - 1),
                );
                if bytes_eq(below.as_slice(), composite.as_slice()) && !bytes_lt(
                    self.raw_value(i - 1),
                    value,
                ) {
                    ordered = false;
                }
            }
            if u < n {
                assert(entry_ok(layout, s0[u as int]));
                let above = crate::dups::unformat_extended_composite_key(
                    &layout,
                    self.raw_key(u),
                );
                if bytes_eq(above.as_slice(), composite.as_slice()) && !bytes_lt(
                    value,
                    self.raw_value(u),
                ) {
                    ordered = false;
                }
            }
            if !ordered {
                return Err(
                    write_error(
                        DatabaseWriteOperation::Put,
                        "KeyMismatch",
                        self.table_name(),
                        copy_bytes(raw),
                    ),
                );
            }
            proof {
                lemma_between_ties(layout, s0, raw@, value@);
                if u > i {
                    lemma_update_well_formed(layout, s0, i as int, (raw@, value@));
                } else {
                    lemma_insert_well_formed(layout, s0, i as int, (raw@, value@));
                }
            }
        }
        self.raw_put(copy_bytes(raw), copy_bytes(value));
        Ok(())
    }
}

impl<'e> Tx<'e> {
    /// Writes a physical entry into the table as it is, as `Table::put_raw`
    /// does.
    pub fn put_raw(&mut self, table: usize, raw: &[u8], value: &[u8]) -> (r: Result<
        (),
        DatabaseError,
    >)
        requires
            old(self).wf(),
        ensures
            final(self).wf(),
            final(self).same_env(old(self)),
            *final(final(self).env) == *final(old(self).env),
            if table >= old(self).tables().len() {
                &&& write_refused(r, DatabaseWriteOperation::Put, "TableNotFound"@, ""@, raw@)
                &&& final(self).tables() == old(self).tables()
            } else {
                let pre = old(self).tables()[table as int];
                let post = final(self).tables()[table as int];
                &&& final(self).tables() == old(self).tables().update(table as int, post)
                &&& post.layout() == pre.layout()
                &&& post.name() == pre.name()
                &&& if !entry_ok(pre.layout(), (raw@, value@)) {
                    post == pre && write_refused(
                        r,
                        DatabaseWriteOperation::Put,
                        "InvalidKey"@,
                        pre.name(),
                        raw@,
                    )
                } else if !between_ties(pre.layout(), pre.entries(), raw@, value@) {
                    post == pre && write_refused(
                        r,
                        DatabaseWriteOperation::Put,
                        "KeyMismatch"@,
                        pre.name(),
                        raw@,
                    )
                } else {
                    r is Ok && post.entries() == put_spec(pre.entries(), raw@, value@)
                }
            },
    {
        if table >= self.tables.len() {
            return Err(
                write_error(DatabaseWriteOperation::Put, "TableNotFound", "", copy_bytes(raw)),
            );
        }
        assert(self.tables()[table as int].wf());
        let r = self.tables[table].put_raw(raw, value);
        proof {
            assert forall|i: int| 0 <= i < self.tables().len() implies (
            #[trigger] self.tables()[i]).wf() by {
                if i != table {
                    assert(self.tables()[i] == old(self).tables()[i]);
                }
            }
            assert(self.tables() =~= old(self).tables().update(
                table as int,
                self.tables()[table as int],
            ));
        }
        r
    }
}

} // verus!
