//! A table: one named keyspace of the flat store, read through its key layout.

use vstd::prelude::*;
use crate::bytes::{copy_bytes, lemma_lex_concat, lemma_lex_extremes, lex_le, lex_lt, ones};
use crate::dups::{
    composite_of, lemma_physical_order, lemma_physical_parts, physical_key, primary_of,
    subkey_of, unformat_key, with_tie, KeyLayout, TIE_LEN,
};
use crate::error::{create_table_error, DatabaseError};
use crate::store::{
    delete_spec, floor, lemma_rank_agree, lemma_upper_rank_agree, put_spec, rank, sorted,
    upper_rank, Entries, Keyspace,
};

verus! {

/// A key with its value.
pub type Pair = (Vec<u8>, Vec<u8>);

/// What a read of one entry returns.
pub type PairResult = Result<Option<Pair>, DatabaseError>;

/// What a read of one value returns.
pub type ValueOnlyResult = Result<Option<Vec<u8>>, DatabaseError>;

/// The bytes of an optional key or value.
pub open spec fn opt_bytes(v: Option<&[u8]>) -> Option<Seq<u8>> {
    match v {
        Some(b) => Some(b@),
        None => None,
    }
}

/// A physical entry fits the layout: its key has the layout's width and a
/// tie-breaker below the sentinel, and it carries the subkey of its value.
pub open spec fn entry_ok(layout: KeyLayout, e: (Seq<u8>, Seq<u8>)) -> bool {
    layout is DupSort ==> {
        &&& physical_key(layout, e.0)
        &&& e.1.len() >= layout.subkey_width()
        &&& composite_of(layout, e.0) == primary_of(layout, e.0) + subkey_of(layout, e.1)
    }
}

/// The physical entries of a table are consistent: each fits the layout, and
/// of two entries with one composite key the one with the lower tie-breaker has
/// the lower value.
pub open spec fn well_formed(layout: KeyLayout, s: Entries) -> bool {
    &&& forall|i: int| 0 <= i < s.len() ==> entry_ok(layout, #[trigger] s[i])
    &&& forall|i: int, j: int|
        0 <= i < j < s.len() && composite_of(layout, #[trigger] s[i].0) == composite_of(
            layout,
            #[trigger] s[j].0,
        ) ==> lex_lt(s[i].1, s[j].1)
}

/// What callers see of the physical entries: primary key and value, in
/// physical order.
pub open spec fn logical(layout: KeyLayout, s: Entries) -> Entries {
    s.map_values(|e: (Seq<u8>, Seq<u8>)| (primary_of(layout, e.0), e.1))
}

/// The order of logical entries: by primary key, then by value.
pub open spec fn pair_lt(a: (Seq<u8>, Seq<u8>), b: (Seq<u8>, Seq<u8>)) -> bool {
    lex_lt(a.0, b.0) || (a.0 == b.0 && lex_lt(a.1, b.1))
}

/// The logical entries rise strictly by primary key and value.
pub open spec fn pairs_sorted(p: Entries) -> bool {
    forall|i: int, j: int| 0 <= i < j < p.len() ==> pair_lt(#[trigger] p[i], #[trigger] p[j])
}

/// Two physical entries of a consistent table are ordered as their logical
/// entries are.
pub proof fn lemma_entry_order(layout: KeyLayout, s: Entries, i: int, j: int)
    requires
        sorted(s),
        well_formed(layout, s),
        0 <= i < j < s.len(),
    ensures
        pair_lt(logical(layout, s)[i], logical(layout, s)[j]),
        layout is Plain ==> lex_lt(logical(layout, s)[i].0, logical(layout, s)[j].0),
{
    assert(lex_lt(s[i].0, s[j].0));
    if layout is DupSort {
        let (ka, va) = s[i];
        let (kb, vb) = s[j];
        assert(entry_ok(layout, s[i]) && entry_ok(layout, s[j]));
        lemma_physical_order(layout, ka, kb);
        let pa = primary_of(layout, ka);
        let pb = primary_of(layout, kb);
        let sa = subkey_of(layout, va);
        let sb = subkey_of(layout, vb);
        lemma_physical_parts(layout, ka);
        lemma_physical_parts(layout, kb);
        lemma_lex_concat(pa, sa, pb, sb);
        if pa == pb && !(composite_of(layout, ka) == composite_of(layout, kb)) {
            assert(lex_lt(sa, sb));
            let ra = va.skip(layout.subkey_width());
            let rb = vb.skip(layout.subkey_width());
            assert(va =~= sa + ra);
            assert(vb =~= sb + rb);
            lemma_lex_concat(sa, ra, sb, rb);
        }
    }
}

/// In a consistent table the logical entries are sorted by primary key and
/// value; in a plain table the primary keys alone rise strictly.
pub proof fn lemma_pairs_sorted(layout: KeyLayout, s: Entries)
    requires
        sorted(s),
        well_formed(layout, s),
    ensures
        pairs_sorted(logical(layout, s)),
        crate::store::ascending(logical(layout, s)),
        layout is Plain ==> sorted(logical(layout, s)),
{
    let p = logical(layout, s);
    assert forall|i: int, j: int| 0 <= i < j < p.len() implies pair_lt(
        #[trigger] p[i],
        #[trigger] p[j],
    ) && (layout is Plain ==> lex_lt(p[i].0, p[j].0)) by {
        lemma_entry_order(layout, s, i, j);
    }
    assert forall|i: int, j: int| 0 <= i < j < p.len() implies lex_le(
        #[trigger] p[i].0,
        #[trigger] p[j].0,
    ) by {
        lemma_entry_order(layout, s, i, j);
    }
}

/// Whether `key` can be a primary key of the table.
pub open spec fn key_fits(layout: KeyLayout, key: Seq<u8>) -> bool {
    layout is DupSort ==> key.len() == layout.key_width()
}

/// The logical entries keyed by composite key: primary key and subkey.
pub open spec fn by_composite(layout: KeyLayout, p: Entries) -> Entries {
    p.map_values(|e: (Seq<u8>, Seq<u8>)| (e.0 + subkey_of(layout, e.1), e.1))
}

/// The physical key that sorts after every entry of `primary` and before
/// every entry of a higher primary key.
pub open spec fn run_ceiling(layout: KeyLayout, primary: Seq<u8>) -> Seq<u8> {
    match layout {
        KeyLayout::Plain => primary,
        KeyLayout::DupSort { .. } => primary + ones((layout.subkey_width() + TIE_LEN) as nat),
    }
}

/// A search of the physical entries for a primary key finds the first logical
/// entry at or after that key.
pub proof fn lemma_seek_primary(layout: KeyLayout, s: Entries, key: Seq<u8>)
    requires
        well_formed(layout, s),
        key_fits(layout, key),
    ensures
        rank(s, key) == rank(logical(layout, s), key),
{
    let p = logical(layout, s);
    assert forall|i: int| 0 <= i < s.len() implies lex_lt(#[trigger] s[i].0, key) == lex_lt(
        p[i].0,
        key,
    ) by {
        if layout is DupSort {
            assert(entry_ok(layout, s[i]));
            let raw = s[i].0;
            let rest = raw.skip(layout.key_width());
            assert(raw =~= p[i].0 + rest);
            assert(key =~= key + Seq::<u8>::empty());
            lemma_lex_concat(p[i].0, rest, key, Seq::<u8>::empty());
            lemma_lex_extremes(rest);
        }
    }
    lemma_rank_agree(s, key, p, key);
}

/// A search of the physical entries for a composite key, with the lowest
/// tie-breaker or with none, finds the first logical entry at or after that
/// primary key and subkey.
pub proof fn lemma_seek_composite(layout: KeyLayout, s: Entries, composite: Seq<u8>)
    requires
        layout is DupSort,
        well_formed(layout, s),
        composite.len() == layout.composite_width(),
    ensures
        rank(s, with_tie(layout, composite, 0)) == rank(
            by_composite(layout, logical(layout, s)),
            composite,
        ),
        rank(s, composite) == rank(by_composite(layout, logical(layout, s)), composite),
{
    let c = by_composite(layout, logical(layout, s));
    let zero = with_tie(layout, composite, 0);
    assert forall|i: int| 0 <= i < s.len() implies lex_lt(#[trigger] s[i].0, zero) == lex_lt(
        c[i].0,
        composite,
    ) && lex_lt(s[i].0, composite) == lex_lt(c[i].0, composite) by {
        assert(entry_ok(layout, s[i]));
        let raw = s[i].0;
        lemma_physical_parts(layout, raw);
        crate::dups::lemma_with_tie_parts(layout, composite, 0);
        lemma_physical_order(layout, raw, zero);
        let tail = raw.skip(raw.len() - TIE_LEN);
        assert(raw =~= c[i].0 + tail);
        assert(composite =~= composite + Seq::<u8>::empty());
        lemma_lex_concat(c[i].0, tail, composite, Seq::<u8>::empty());
        lemma_lex_extremes(tail);
    }
    lemma_rank_agree(s, zero, c, composite);
    lemma_rank_agree(s, composite, c, composite);
}

/// The run of a composite key in the physical entries is the run of that
/// primary key and subkey in the logical entries.
pub proof fn lemma_run_composite(layout: KeyLayout, s: Entries, composite: Seq<u8>)
    requires
        layout is DupSort,
        well_formed(layout, s),
        composite.len() == layout.composite_width(),
    ensures
        rank(s, with_tie(layout, composite, 0)) == rank(
            by_composite(layout, logical(layout, s)),
            composite,
        ),
        rank(s, with_tie(layout, composite, crate::dups::TIE_MAX)) == upper_rank(
            by_composite(layout, logical(layout, s)),
            composite,
        ),
        forall|i: int|
            0 <= i < s.len() ==> (#[trigger] by_composite(layout, logical(layout, s))[i]).0
                == composite_of(layout, s[i].0),
{
    let c = by_composite(layout, logical(layout, s));
    let top = with_tie(layout, composite, crate::dups::TIE_MAX);
    lemma_seek_composite(layout, s, composite);
    assert forall|i: int| 0 <= i < s.len() implies lex_lt(#[trigger] s[i].0, top) == lex_le(
        c[i].0,
        composite,
    ) && c[i].0 == composite_of(layout, s[i].0) by {
        assert(entry_ok(layout, s[i]));
        let raw = s[i].0;
        lemma_physical_parts(layout, raw);
        crate::dups::lemma_with_tie_parts(layout, composite, crate::dups::TIE_MAX);
        lemma_physical_order(layout, raw, top);
    }
    crate::store::lemma_rank_upper_agree(s, top, c, composite);
}

/// A search of the physical entries for the ceiling of a primary key finds the
/// end of that key's run of logical entries.
pub proof fn lemma_seek_ceiling(layout: KeyLayout, s: Entries, primary: Seq<u8>)
    requires
        layout.valid(),
        well_formed(layout, s),
        key_fits(layout, primary),
    ensures
        upper_rank(s, run_ceiling(layout, primary)) == upper_rank(logical(layout, s), primary),
{
    let p = logical(layout, s);
    let top = run_ceiling(layout, primary);
    assert forall|i: int| 0 <= i < s.len() implies lex_le(#[trigger] s[i].0, top) == lex_le(
        p[i].0,
        primary,
    ) by {
        if layout is DupSort {
            assert(entry_ok(layout, s[i]));
            let raw = s[i].0;
            let rest = raw.skip(layout.key_width());
            let pad = ones((layout.subkey_width() + TIE_LEN) as nat);
            assert(raw =~= p[i].0 + rest);
            lemma_lex_concat(p[i].0, rest, primary, pad);
            lemma_lex_extremes(rest);
        }
    }
    lemma_upper_rank_agree(s, top, p, primary);
}

/// A consistent table stays consistent when an entry that fits the layout is
/// put between the lower and the higher values of its composite key, and the
/// logical entries gain the pair at the same index.
pub proof fn lemma_insert_well_formed(
    layout: KeyLayout,
    s: Entries,
    slot: int,
    e: (Seq<u8>, Seq<u8>),
)
    requires
        well_formed(layout, s),
        0 <= slot <= s.len(),
        entry_ok(layout, e),
        forall|i: int|
            0 <= i < slot && composite_of(layout, (#[trigger] s[i]).0) == composite_of(
                layout,
                e.0,
            ) ==> lex_lt(s[i].1, e.1),
        forall|i: int|
            slot <= i < s.len() && composite_of(layout, (#[trigger] s[i]).0) == composite_of(
                layout,
                e.0,
            ) ==> lex_lt(e.1, s[i].1),
    ensures
        well_formed(layout, s.insert(slot, e)),
        logical(layout, s.insert(slot, e)) == logical(layout, s).insert(
            slot,
            (primary_of(layout, e.0), e.1),
        ),
{
    let r = s.insert(slot, e);
    assert forall|i: int| 0 <= i < r.len() implies entry_ok(layout, #[trigger] r[i]) by {
        if i < slot {
            assert(r[i] == s[i]);
        } else if i > slot {
            assert(r[i] == s[i - 1]);
        }
    }
    assert forall|i: int, j: int|
        0 <= i < j < r.len() && composite_of(layout, #[trigger] r[i].0) == composite_of(
            layout,
            #[trigger] r[j].0,
        ) implies lex_lt(r[i].1, r[j].1) by {
        let si = if i < slot { i } else { i - 1 };
        let sj = if j < slot { j } else { j - 1 };
        if i == slot {
            assert(r[j] == s[sj]);
        } else if j == slot {
            assert(r[i] == s[si]);
        } else {
            assert(r[i] == s[si] && r[j] == s[sj]);
        }
    }
    assert(logical(layout, r) =~= logical(layout, s).insert(slot, (primary_of(layout, e.0), e.1)));
}

/// A consistent table stays consistent when the value of an entry changes to
/// one that fits the layout and stands between the lower and the higher
/// values of its composite key.
pub proof fn lemma_update_well_formed(
    layout: KeyLayout,
    s: Entries,
    index: int,
    e: (Seq<u8>, Seq<u8>),
)
    requires
        well_formed(layout, s),
        0 <= index < s.len(),
        entry_ok(layout, e),
        e.0 == s[index].0,
        forall|i: int|
            0 <= i < index && composite_of(layout, (#[trigger] s[i]).0) == composite_of(
                layout,
                e.0,
            ) ==> lex_lt(s[i].1, e.1),
        forall|i: int|
            index < i < s.len() && composite_of(layout, (#[trigger] s[i]).0) == composite_of(
                layout,
                e.0,
            ) ==> lex_lt(e.1, s[i].1),
    ensures
        well_formed(layout, s.update(index, e)),
        logical(layout, s.update(index, e)) == logical(layout, s).update(
            index,
            (primary_of(layout, e.0), e.1),
        ),
{
    let r = s.update(index, e);
    assert forall|i: int| 0 <= i < r.len() implies entry_ok(layout, #[trigger] r[i]) by {
        if i != index {
            assert(r[i] == s[i]);
        }
    }
    assert forall|i: int, j: int|
        0 <= i < j < r.len() && composite_of(layout, #[trigger] r[i].0) == composite_of(
            layout,
            #[trigger] r[j].0,
        ) implies lex_lt(r[i].1, r[j].1) by {
        if i == index {
            assert(r[j] == s[j]);
        } else if j == index {
            assert(r[i] == s[i]);
        } else {
            assert(r[i] == s[i] && r[j] == s[j]);
        }
    }
    assert(logical(layout, r) =~= logical(layout, s).update(
        index,
        (primary_of(layout, e.0), e.1),
    ));
}

/// A consistent table stays consistent when an entry leaves it, and the
/// logical entries lose the pair at the same index.
pub proof fn lemma_remove_well_formed(layout: KeyLayout, s: Entries, index: int)
    requires
        well_formed(layout, s),
        0 <= index < s.len(),
    ensures
        well_formed(layout, s.remove(index)),
        logical(layout, s.remove(index)) == logical(layout, s).remove(index),
{
    let r = s.remove(index);
    assert forall|i: int| 0 <= i < r.len() implies entry_ok(layout, #[trigger] r[i]) by {
        if i < index {
            assert(r[i] == s[i]);
        } else {
            assert(r[i] == s[i + 1]);
        }
    }
    assert forall|i: int, j: int|
        0 <= i < j < r.len() && composite_of(layout, #[trigger] r[i].0) == composite_of(
            layout,
            #[trigger] r[j].0,
        ) implies lex_lt(r[i].1, r[j].1) by {
        let si = if i < index { i } else { i + 1 };
        let sj = if j < index { j } else { j + 1 };
        assert(r[i] == s[si] && r[j] == s[sj]);
    }
    assert(logical(layout, r) =~= logical(layout, s).remove(index));
}

/// One table: its name, its key layout and its keyspace.
pub struct Table {
    name: String,
    layout: KeyLayout,
    ks: Keyspace,
}

impl Table {
    /// The table's name.
    pub closed spec fn name(&self) -> Seq<char> {
        self.name@
    }

    /// The table's key layout.
    pub closed spec fn layout(&self) -> KeyLayout {
        self.layout
    }

    /// The physical entries, in key order.
    pub closed spec fn entries(&self) -> Entries {
        self.ks@
    }

    /// The logical entries: primary key and value, in order.
    pub open spec fn pairs(&self) -> Entries {
        logical(self.layout(), self.entries())
    }

    /// The table is consistent.
    pub open spec fn wf(&self) -> bool {
        &&& self.layout().valid()
        &&& self.entries().len() <= usize::MAX
        &&& sorted(self.entries())
        &&& well_formed(self.layout(), self.entries())
    }

    /// An empty table. The widths of the layout must fit the machine.
    pub fn new(name: &str, layout: KeyLayout) -> (r: Result<Table, DatabaseError>)
        ensures
            r is Ok <==> layout.valid(),
            r matches Ok(t) ==> t.wf() && t.name() == name@ && t.layout() == layout
                && t.entries().len() == 0 && t.pairs() == Seq::<(Seq<u8>, Seq<u8>)>::empty(),
            r matches Err(e) ==> e.is_create_table("InvalidLayout"@),
    {
        match layout {
            KeyLayout::Plain => {},
            KeyLayout::DupSort { key_len, subkey_len } => {
                if key_len > usize::MAX - TIE_LEN || subkey_len > usize::MAX - TIE_LEN - key_len {
                    return Err(create_table_error("InvalidLayout"));
                }
            },
        }
        let t = Table { name: name.to_owned(), layout, ks: Keyspace::new() };
        assert(t.pairs() =~= Seq::<(Seq<u8>, Seq<u8>)>::empty());
        Ok(t)
    }

    /// A copy of the table.
    pub fn duplicate(&self) -> (r: Table)
        ensures
            r.name() == self.name(),
            r.layout() == self.layout(),
            r.entries() == self.entries(),
    {
        Table { name: self.name.clone(), layout: self.layout, ks: self.ks.duplicate() }
    }

    /// The table's name.
    pub fn table_name(&self) -> (r: &str)
        ensures
            r@ == self.name(),
    {
        self.name.as_str()
    }

    /// The table's key layout.
    pub fn key_layout(&self) -> (r: KeyLayout)
        ensures
            r == self.layout(),
    {
        self.layout
    }

    /// The number of entries.
    pub fn len(&self) -> (n: usize)
        ensures
            n == self.entries().len(),
            n == self.pairs().len(),
    {
        self.ks.len()
    }

    /// The physical key of the entry at `index`.
    pub fn raw_key(&self, index: usize) -> (r: &[u8])
        requires
            index < self.entries().len(),
        ensures
            r@ == self.entries()[index as int].0,
    {
        self.ks.key_at(index)
    }

    /// The stored value of the entry at `index`.
    pub fn raw_value(&self, index: usize) -> (r: &[u8])
        requires
            index < self.entries().len(),
        ensures
            r@ == self.entries()[index as int].1,
    {
        self.ks.value_at(index)
    }

    /// The logical entry at `index`: the primary key and the value.
    pub fn pair_at(&self, index: usize) -> (r: Pair)
        requires
            self.wf(),
            index < self.entries().len(),
        ensures
            (r.0@, r.1@) == self.pairs()[index as int],
    {
        let raw = self.ks.key_at(index);
        assert(entry_ok(self.layout(), self.entries()[index as int]));
        let key = unformat_key(&self.layout, raw);
        let value = copy_bytes(self.ks.value_at(index));
        (key, value)
    }

    /// The index of the first physical entry at or after `raw`.
    pub(crate) fn raw_seek(&self, raw: &[u8]) -> (r: usize)
        requires
            sorted(self.entries()),
        ensures
            r == rank(self.entries(), raw@),
            r <= self.entries().len(),
    {
        self.ks.seek(raw)
    }

    /// The index of the last physical entry at or before `raw`.
    pub(crate) fn raw_seek_for_prev(&self, raw: &[u8]) -> (r: Option<usize>)
        requires
            sorted(self.entries()),
        ensures
            r matches Some(i) ==> floor(self.entries(), raw@) == Some(i as int) && i
                < self.entries().len(),
            r is None ==> floor(self.entries(), raw@) is None,
    {
        self.ks.seek_for_prev(raw)
    }

    /// Writes a physical entry.
    pub(crate) fn raw_put(&mut self, raw: Vec<u8>, value: Vec<u8>) -> (r: usize)
        requires
            sorted(old(self).entries()),
        ensures
            sorted(final(self).entries()),
            final(self).entries() == put_spec(old(self).entries(), raw@, value@),
            final(self).layout() == old(self).layout(),
            final(self).name() == old(self).name(),
            r == rank(old(self).entries(), raw@),
            r < final(self).entries().len(),
            final(self).entries()[r as int] == (raw@, value@),
            final(self).entries().len() <= usize::MAX,
    {
        let r: usize = self.ks.put(raw, value);
        let n: usize = self.ks.len();
        r
    }

    /// Deletes a physical entry.
    pub(crate) fn raw_delete(&mut self, raw: &[u8]) -> (r: bool)
        requires
            sorted(old(self).entries()),
        ensures
            sorted(final(self).entries()),
            final(self).entries() == delete_spec(old(self).entries(), raw@),
            final(self).layout() == old(self).layout(),
            final(self).name() == old(self).name(),
            r == (crate::store::find(old(self).entries(), raw@) is Some),
            final(self).entries().len() <= usize::MAX,
    {
        let r = self.ks.delete(raw);
        let n: usize = self.ks.len();
        r
    }

    /// Deletes every entry.
    pub fn clear(&mut self)
        ensures
            final(self).entries().len() == 0,
            final(self).pairs() == Seq::<(Seq<u8>, Seq<u8>)>::empty(),
            final(self).layout() == old(self).layout(),
            final(self).name() == old(self).name(),
            old(self).layout().valid() ==> final(self).wf(),
    {
        self.ks.clear();
        assert(self.pairs() =~= Seq::<(Seq<u8>, Seq<u8>)>::empty());
    }
}

/// Decodes a stored value. A value of a duplicate-key table must hold its
/// subkey.
pub fn decode_value(layout: &KeyLayout, v: &[u8]) -> (r: ValueOnlyResult)
    ensures
        r is Err <==> v@.len() < layout.subkey_width(),
        r matches Err(e) ==> e == DatabaseError::Decode,
        r matches Ok(x) ==> x matches Some(value) && value@ == v@,
{
    match layout {
        KeyLayout::Plain => {},
        KeyLayout::DupSort { key_len, subkey_len } => {
            if v.len() < *subkey_len {
                return Err(DatabaseError::Decode);
            }
        },
    }
    Ok(Some(copy_bytes(v)))
}

/// Decodes what the store returned for one entry: strips the physical key down
/// to the primary key and decodes the value.
pub fn decode_item(layout: &KeyLayout, res: Option<(&[u8], &[u8])>) -> (r: PairResult)
    ensures
        res is None ==> r matches Ok(None),
        res matches Some(el) ==> {
            &&& r is Err <==> el.0@.len() < layout.key_width() || el.1@.len()
                < layout.subkey_width()
            &&& r matches Err(e) ==> e == DatabaseError::Decode
            &&& r matches Ok(x) ==> x matches Some(p) && p.0@ == primary_of(*layout, el.0@) && p.1@
                == el.1@
        },
{
    match res {
        None => Ok(None),
        Some(el) => {
            match layout {
                KeyLayout::Plain => {},
                KeyLayout::DupSort { key_len, subkey_len } => {
                    if el.0.len() < *key_len {
                        return Err(DatabaseError::Decode);
                    }
                },
            }
            let key = unformat_key(layout, el.0);
            match decode_value(layout, el.1) {
                Err(e) => Err(e),
                Ok(None) => Ok(None),
                Ok(Some(value)) => Ok(Some((key, value))),
            }
        },
    }
}

} // verus!
