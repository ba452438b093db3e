//! The flat store: one keyspace of byte keys in byte order, one value per key.
//!
//! This is all the layers above may assume of the storage below them: read,
//! write and delete by key, and a search for the first key at or after, or the
//! last key at or before, a given one.

use vstd::prelude::*;
use crate::bytes::{
    bytes_eq, bytes_lt, lemma_lex_asymmetric, lemma_lex_total, lemma_lex_transitive, lex_le,
    lex_lt,
};

verus! {

/// What a keyspace holds: its entries, key first, in key order.
pub type Entries = Seq<(Seq<u8>, Seq<u8>)>;

/// The keys rise strictly from each entry to the next.
pub open spec fn sorted(s: Entries) -> bool {
    forall|i: int, j: int| 0 <= i < j < s.len() ==> lex_lt(#[trigger] s[i].0, #[trigger] s[j].0)
}

/// The number of entries whose key is below `key`: the index of the first
/// entry at or after `key`, or the length if there is none.
pub open spec fn rank(s: Entries, key: Seq<u8>) -> int
    decreases s.len(),
{
    if s.len() == 0 {
        0
    } else if lex_lt(s.last().0, key) {
        s.len() as int
    } else {
        rank(s.drop_last(), key)
    }
}

/// The index of the entry with this key, if there is one.
pub open spec fn find(s: Entries, key: Seq<u8>) -> Option<int> {
    let i = rank(s, key);
    if i < s.len() && s[i].0 == key {
        Some(i)
    } else {
        None
    }
}

/// The index of the last entry at or before `key`, if there is one.
pub open spec fn floor(s: Entries, key: Seq<u8>) -> Option<int> {
    let i = rank(s, key);
    if i < s.len() && s[i].0 == key {
        Some(i)
    } else if i > 0 {
        Some(i - 1)
    } else {
        None
    }
}

/// The entries after writing `value` under `key`.
pub open spec fn put_spec(s: Entries, key: Seq<u8>, value: Seq<u8>) -> Entries {
    let i = rank(s, key);
    if i < s.len() && s[i].0 == key {
        s.update(i, (key, value))
    } else {
        s.insert(i, (key, value))
    }
}

/// The entries after deleting `key`.
pub open spec fn delete_spec(s: Entries, key: Seq<u8>) -> Entries {
    match find(s, key) {
        Some(i) => s.remove(i),
        None => s,
    }
}

/// A rank is an index into the entries, or their length.
pub proof fn lemma_rank_range(s: Entries, key: Seq<u8>)
    ensures
        0 <= rank(s, key) <= s.len(),
    decreases s.len(),
{
    if s.len() > 0 && !lex_lt(s.last().0, key) {
        lemma_rank_range(s.drop_last(), key);
    }
}

/// The keys never fall from one entry to the next.
pub open spec fn ascending(s: Entries) -> bool {
    forall|i: int, j: int| 0 <= i < j < s.len() ==> lex_le(#[trigger] s[i].0, #[trigger] s[j].0)
}

/// `rank` splits entries whose keys never fall into those below `key` and
/// those at or after it.
pub proof fn lemma_rank(s: Entries, key: Seq<u8>)
    requires
        ascending(s),
    ensures
        0 <= rank(s, key) <= s.len(),
        forall|i: int| 0 <= i < rank(s, key) ==> lex_lt(#[trigger] s[i].0, key),
        forall|i: int| rank(s, key) <= i < s.len() ==> lex_le(key, #[trigger] s[i].0),
    decreases s.len(),
{
    if s.len() > 0 {
        let last = s.len() - 1;
        if lex_lt(s.last().0, key) {
            assert forall|i: int| 0 <= i < s.len() implies lex_lt(#[trigger] s[i].0, key) by {
                if i < last {
                    crate::bytes::lemma_lex_le_transitive(s[i].0, s[last].0, key);
                }
            }
        } else {
            let t = s.drop_last();
            assert(ascending(t)) by {
                assert forall|i: int, j: int| 0 <= i < j < t.len() implies lex_le(
                    #[trigger] t[i].0,
                    #[trigger] t[j].0,
                ) by {
                    assert(t[i] == s[i] && t[j] == s[j]);
                }
            }
            lemma_rank(t, key);
            lemma_lex_total(s.last().0, key);
            assert forall|i: int| 0 <= i < rank(s, key) implies lex_lt(#[trigger] s[i].0, key) by {
                assert(t[i] == s[i]);
            }
            assert forall|i: int| rank(s, key) <= i < s.len() implies lex_le(
                key,
                #[trigger] s[i].0,
            ) by {
                if i < last {
                    assert(t[i] == s[i]);
                }
            }
        }
    }
}

/// Only one index splits the entries as `rank` does.
pub proof fn lemma_rank_unique(s: Entries, key: Seq<u8>, r: int)
    requires
        0 <= r <= s.len(),
        forall|i: int| 0 <= i < r ==> lex_lt(#[trigger] s[i].0, key),
        forall|i: int| r <= i < s.len() ==> lex_le(key, #[trigger] s[i].0),
    ensures
        r == rank(s, key),
    decreases s.len(),
{
    if s.len() > 0 {
        let last = s.len() - 1;
        if lex_lt(s.last().0, key) {
            if r < s.len() {
                assert(lex_le(key, s[last].0));
                lemma_lex_total(s[last].0, key);
            }
        } else {
            let t = s.drop_last();
            if r == s.len() {
                assert(lex_lt(s[last].0, key));
            }
            assert forall|i: int| 0 <= i < r implies lex_lt(#[trigger] t[i].0, key) by {
                assert(t[i] == s[i]);
            }
            assert forall|i: int| r <= i < t.len() implies lex_le(key, #[trigger] t[i].0) by {
                assert(t[i] == s[i]);
            }
            lemma_rank_unique(t, key, r);
        }
    }
}

/// Two searches that tell the same entries apart come to the same index.
pub proof fn lemma_rank_agree(s: Entries, a: Seq<u8>, t: Entries, b: Seq<u8>)
    requires
        s.len() == t.len(),
        forall|i: int| 0 <= i < s.len() ==> lex_lt(#[trigger] s[i].0, a) == lex_lt(t[i].0, b),
    ensures
        rank(s, a) == rank(t, b),
    decreases s.len(),
{
    if s.len() > 0 {
        let last = s.len() - 1;
        assert(lex_lt(s[last].0, a) == lex_lt(t[last].0, b));
        if !lex_lt(s.last().0, a) {
            let s0 = s.drop_last();
            let t0 = t.drop_last();
            assert forall|i: int| 0 <= i < s0.len() implies lex_lt(#[trigger] s0[i].0, a)
                == lex_lt(t0[i].0, b) by {
                assert(s0[i] == s[i] && t0[i] == t[i]);
                assert(lex_lt(s[i].0, a) == lex_lt(t[i].0, b));
            }
            lemma_rank_agree(s0, a, t0, b);
        }
    }
}

/// A key occurs in sorted entries exactly where `find` says.
pub proof fn lemma_find(s: Entries, key: Seq<u8>)
    requires
        sorted(s),
    ensures
        find(s, key) matches Some(i) ==> 0 <= i < s.len() && s[i].0 == key,
        find(s, key) is None ==> forall|i: int| 0 <= i < s.len() ==> (#[trigger] s[i]).0 != key,
        forall|i: int| 0 <= i < s.len() && (#[trigger] s[i]).0 == key ==> find(s, key) == Some(i),
{
    lemma_rank(s, key);
    let r = rank(s, key);
    assert forall|i: int| 0 <= i < s.len() && (#[trigger] s[i]).0 == key implies i == r by {
        if i < r {
            assert(lex_lt(s[i].0, key));
            lemma_lex_asymmetric(s[i].0, key);
        } else if i > r {
            assert(lex_lt(s[r].0, s[i].0));
            assert(lex_le(key, s[r].0));
            lemma_lex_total(s[r].0, key);
        }
    }
}

/// Writing keeps the entries sorted.
pub proof fn lemma_put_sorted(s: Entries, key: Seq<u8>, value: Seq<u8>)
    requires
        sorted(s),
    ensures
        sorted(put_spec(s, key, value)),
        find(put_spec(s, key, value), key) == Some(rank(s, key)),
        put_spec(s, key, value)[rank(s, key)] == (key, value),
{
    lemma_rank(s, key);
    let r = rank(s, key);
    let t = put_spec(s, key, value);
    if r < s.len() && s[r].0 == key {
        assert forall|i: int, j: int| 0 <= i < j < t.len() implies lex_lt(
            #[trigger] t[i].0,
            #[trigger] t[j].0,
        ) by {
            assert(t[i].0 == s[i].0 && t[j].0 == s[j].0);
        }
    } else {
        assert forall|i: int, j: int| 0 <= i < j < t.len() implies lex_lt(
            #[trigger] t[i].0,
            #[trigger] t[j].0,
        ) by {
            let si = if i < r { i } else { i - 1 };
            let sj = if j < r { j } else { j - 1 };
            if i == r {
                assert(t[j] == s[sj]);
                assert(lex_le(key, s[sj].0));
                if sj > r {
                    assert(lex_lt(s[r].0, s[sj].0));
                    crate::bytes::lemma_lex_le_transitive(key, s[r].0, s[sj].0);
                }
            } else if j == r {
                assert(t[i] == s[si]);
            } else {
                assert(t[i] == s[si] && t[j] == s[sj]);
            }
        }
    }
    lemma_find(t, key);
    assert(t[r].0 == key);
}

/// Deleting keeps the entries sorted.
pub proof fn lemma_delete_sorted(s: Entries, key: Seq<u8>)
    requires
        sorted(s),
    ensures
        sorted(delete_spec(s, key)),
        find(delete_spec(s, key), key) is None,
{
    lemma_find(s, key);
    let t = delete_spec(s, key);
    match find(s, key) {
        Some(r) => {
            assert forall|i: int, j: int| 0 <= i < j < t.len() implies lex_lt(
                #[trigger] t[i].0,
                #[trigger] t[j].0,
            ) by {
                let si = if i < r { i } else { i + 1 };
                let sj = if j < r { j } else { j + 1 };
                assert(t[i] == s[si] && t[j] == s[sj]);
            }
            lemma_find(t, key);
            if find(t, key) is Some {
                let i = find(t, key).unwrap();
                let si = if i < r { i } else { i + 1 };
                assert(t[i] == s[si]);
            }
        },
        None => {},
    }
}

/// Writing an entry under a new key that sorts right after its old one, and
/// deleting the old one, changes the key in place.
pub proof fn lemma_move_entry(s: Entries, m: int, key: Seq<u8>, value: Seq<u8>)
    requires
        sorted(s),
        0 <= m < s.len(),
        rank(s, key) == m + 1,
        m + 1 < s.len() ==> s[m + 1].0 != key,
    ensures
        sorted(put_spec(s, key, value)),
        delete_spec(put_spec(s, key, value), s[m].0) == s.update(m, (key, value)),
{
    let put = put_spec(s, key, value);
    assert(put == s.insert(m + 1, (key, value)));
    lemma_put_sorted(s, key, value);
    assert(put[m] == s[m]);
    lemma_find(put, s[m].0);
    assert(find(put, s[m].0) == Some(m));
    assert(put.remove(m) =~= s.update(m, (key, value)));
}

/// One entry of a keyspace.
pub struct Entry {
    pub key: Vec<u8>,
    pub value: Vec<u8>,
}

/// One keyspace of the flat store.
pub struct Keyspace {
    entries: Vec<Entry>,
}

impl View for Keyspace {
    type V = Entries;

    closed spec fn view(&self) -> Entries {
        self.entries@.map_values(|e: Entry| (e.key@, e.value@))
    }
}

impl Keyspace {
    /// The entries are in strict key order.
    pub open spec fn wf(&self) -> bool {
        sorted(self@)
    }

    /// An empty keyspace.
    pub fn new() -> (r: Keyspace)
        ensures
            r@ == Seq::<(Seq<u8>, Seq<u8>)>::empty(),
            r.wf(),
    {
        let r = Keyspace { entries: Vec::new() };
        assert(r@ =~= Seq::<(Seq<u8>, Seq<u8>)>::empty());
        r
    }

    /// The number of entries.
    pub fn len(&self) -> (n: usize)
        ensures
            n == self@.len(),
    {
        self.entries.len()
    }

    /// The key of the entry at `index`.
    pub fn key_at(&self, index: usize) -> (r: &[u8])
        requires
            index < self@.len(),
        ensures
            r@ == self@[index as int].0,
    {
        self.entries[index].key.as_slice()
    }

    /// The value of the entry at `index`.
    pub fn value_at(&self, index: usize) -> (r: &[u8])
        requires
            index < self@.len(),
        ensures
            r@ == self@[index as int].1,
    {
        self.entries[index].value.as_slice()
    }

    /// The index of the first entry whose key is at or after `key`; the number
    /// of entries if there is none.
    pub fn seek(&self, key: &[u8]) -> (r: usize)
        requires
            self.wf(),
        ensures
            r == rank(self@, key@),
            r <= self@.len(),
    {
        let mut lo: usize = 0;
        let mut hi: usize = self.entries.len();
        while lo < hi
            invariant
                0 <= lo <= hi <= self@.len(),
                self@.len() == self.entries@.len(),
                forall|i: int| 0 <= i < lo ==> lex_lt(#[trigger] self@[i].0, key@),
                forall|i: int| hi <= i < self@.len() ==> lex_le(key@, #[trigger] self@[i].0),
                sorted(self@),
            decreases hi - lo,
        {
            let mid: usize = lo + (hi - lo) / 2;
            if bytes_lt(self.entries[mid].key.as_slice(), key) {
                assert forall|i: int| 0 <= i < mid + 1 implies lex_lt(
                    #[trigger] self@[i].0,
                    key@,
                ) by {
                    if i < mid {
                        lemma_lex_transitive(self@[i].0, self@[mid as int].0, key@);
                    }
                }
                lo = mid + 1;
            } else {
                assert forall|i: int| mid <= i < self@.len() implies lex_le(
                    key@,
                    #[trigger] self@[i].0,
                ) by {
                    lemma_lex_total(self@[mid as int].0, key@);
                    if i > mid {
                        crate::bytes::lemma_lex_le_transitive(
                            key@,
                            self@[mid as int].0,
                            self@[i].0,
                        );
                    }
                }
                hi = mid;
            }
        }
        proof {
            lemma_rank_unique(self@, key@, lo as int);
        }
        lo
    }

    /// The index of the last entry whose key is at or before `key`.
    pub fn seek_for_prev(&self, key: &[u8]) -> (r: Option<usize>)
        requires
            self.wf(),
        ensures
            r matches Some(i) ==> floor(self@, key@) == Some(i as int) && i < self@.len(),
            r is None ==> floor(self@, key@) is None,
    {
        let i: usize = self.seek(key);
        if i < self.entries.len() && bytes_eq(self.entries[i].key.as_slice(), key) {
            Some(i)
        } else if i > 0 {
            Some(i - 1)
        } else {
            None
        }
    }

    /// The value stored under `key`.
    pub fn get(&self, key: &[u8]) -> (r: Option<&[u8]>)
        requires
            self.wf(),
        ensures
            match find(self@, key@) {
                Some(i) => r matches Some(v) && v@ == self@[i].1,
                None => r is None,
            },
    {
        let i: usize = self.seek(key);
        if i < self.entries.len() && bytes_eq(self.entries[i].key.as_slice(), key) {
            Some(self.entries[i].value.as_slice())
        } else {
            None
        }
    }

    /// Writes `value` under `key`, replacing what was there. Returns the index
    /// of the entry.
    pub fn put(&mut self, key: Vec<u8>, value: Vec<u8>) -> (r: usize)
        requires
            old(self).wf(),
        ensures
            final(self).wf(),
            final(self)@ == put_spec(old(self)@, key@, value@),
            r == rank(old(self)@, key@),
            r < final(self)@.len(),
            final(self)@[r as int] == (key@, value@),
    {
        let i: usize = self.seek(key.as_slice());
        proof {
            lemma_put_sorted(self@, key@, value@);
        }
        if i < self.entries.len() && bytes_eq(self.entries[i].key.as_slice(), key.as_slice()) {
            self.entries[i] = Entry { key, value };
            assert(self@ =~= put_spec(old(self)@, key@, value@));
        } else {
            self.entries.insert(i, Entry { key, value });
            assert(self@ =~= put_spec(old(self)@, key@, value@));
        }
        i
    }

    /// Deletes the entry under `key`. Returns whether there was one.
    pub fn delete(&mut self, key: &[u8]) -> (r: bool)
        requires
            old(self).wf(),
        ensures
            final(self).wf(),
            final(self)@ == delete_spec(old(self)@, key@),
            r == (find(old(self)@, key@) is Some),
    {
        let i: usize = self.seek(key);
        proof {
            lemma_delete_sorted(self@, key@);
        }
        if i < self.entries.len() && bytes_eq(self.entries[i].key.as_slice(), key) {
            self.entries.remove(i);
            assert(self@ =~= delete_spec(old(self)@, key@));
            true
        } else {
            false
        }
    }

    /// A copy of the keyspace.
    pub fn duplicate(&self) -> (r: Keyspace)
        ensures
            r@ == self@,
    {
        let mut entries: Vec<Entry> = Vec::new();
        let mut i: usize = 0;
        while i < self.entries.len()
            invariant
                i <= self.entries@.len(),
                entries@.len() == i,
                forall|j: int|
                    0 <= j < i ==> (#[trigger] entries@[j]).key@ == self.entries@[j].key@
                        && entries@[j].value@ == self.entries@[j].value@,
            decreases self.entries@.len() - i,
        {
            let e = &self.entries[i];
            entries.push(
                Entry {
                    key: crate::bytes::copy_bytes(e.key.as_slice()),
                    value: crate::bytes::copy_bytes(e.value.as_slice()),
                },
            );
            i += 1;
        }
        let r = Keyspace { entries };
        assert(r@ =~= self@);
        r
    }

    /// Deletes every entry.
    pub fn clear(&mut self)
        ensures
            final(self)@ == Seq::<(Seq<u8>, Seq<u8>)>::empty(),
            final(self).wf(),
    {
        self.entries.clear();
        assert(self@ =~= Seq::<(Seq<u8>, Seq<u8>)>::empty());
    }
}


/// The number of entries whose key is at or below `key`: the index of the first
/// entry after `key`, or the length if there is none.
pub open spec fn upper_rank(s: Entries, key: Seq<u8>) -> int
    decreases s.len(),
{
    if s.len() == 0 {
        0
    } else if lex_le(s.last().0, key) {
        s.len() as int
    } else {
        upper_rank(s.drop_last(), key)
    }
}

/// `upper_rank` splits entries whose keys never fall into those at or below
/// `key` and those after it.
pub proof fn lemma_upper_rank(s: Entries, key: Seq<u8>)
    requires
        ascending(s),
    ensures
        0 <= upper_rank(s, key) <= s.len(),
        rank(s, key) <= upper_rank(s, key),
        forall|i: int| 0 <= i < upper_rank(s, key) ==> lex_le(#[trigger] s[i].0, key),
        forall|i: int| upper_rank(s, key) <= i < s.len() ==> lex_lt(key, #[trigger] s[i].0),
        forall|i: int| rank(s, key) <= i < upper_rank(s, key) ==> (#[trigger] s[i]).0 == key,
    decreases s.len(),
{
    lemma_rank(s, key);
    if s.len() > 0 {
        let last = s.len() - 1;
        lemma_lex_total(key, s.last().0);
        if lex_le(s.last().0, key) {
            assert forall|i: int| 0 <= i < s.len() implies lex_le(#[trigger] s[i].0, key) by {
                if i < last {
                    crate::bytes::lemma_lex_le_transitive(s[i].0, s[last].0, key);
                }
            }
        } else {
            let t = s.drop_last();
            assert(ascending(t)) by {
                assert forall|i: int, j: int| 0 <= i < j < t.len() implies lex_le(
                    #[trigger] t[i].0,
                    #[trigger] t[j].0,
                ) by {
                    assert(t[i] == s[i] && t[j] == s[j]);
                }
            }
            lemma_upper_rank(t, key);
            assert(rank(s, key) == rank(t, key));
            assert forall|i: int| 0 <= i < upper_rank(s, key) implies lex_le(
                #[trigger] s[i].0,
                key,
            ) by {
                assert(t[i] == s[i]);
            }
            assert forall|i: int| upper_rank(s, key) <= i < s.len() implies lex_lt(
                key,
                #[trigger] s[i].0,
            ) by {
                if i < last {
                    assert(t[i] == s[i]);
                }
            }
        }
    }
    assert forall|i: int| rank(s, key) <= i < upper_rank(s, key) implies (#[trigger] s[i]).0
        == key by {
        assert(lex_le(key, s[i].0));
        assert(lex_le(s[i].0, key));
        if s[i].0 != key {
            lemma_lex_asymmetric(s[i].0, key);
        }
    }
}

/// Only one index splits the entries as `upper_rank` does.
pub proof fn lemma_upper_rank_unique(s: Entries, key: Seq<u8>, r: int)
    requires
        0 <= r <= s.len(),
        forall|i: int| 0 <= i < r ==> lex_le(#[trigger] s[i].0, key),
        forall|i: int| r <= i < s.len() ==> lex_lt(key, #[trigger] s[i].0),
    ensures
        r == upper_rank(s, key),
    decreases s.len(),
{
    if s.len() > 0 {
        let last = s.len() - 1;
        lemma_lex_total(key, s[last].0);
        if lex_le(s.last().0, key) {
            if r < s.len() {
                assert(lex_lt(key, s[last].0));
            }
        } else {
            let t = s.drop_last();
            if r == s.len() {
                assert(lex_le(s[last].0, key));
            }
            assert forall|i: int| 0 <= i < r implies lex_le(#[trigger] t[i].0, key) by {
                assert(t[i] == s[i]);
            }
            assert forall|i: int| r <= i < t.len() implies lex_lt(key, #[trigger] t[i].0) by {
                assert(t[i] == s[i]);
            }
            lemma_upper_rank_unique(t, key, r);
        }
    }
}

/// Two upper searches that tell the same entries apart come to the same index.
pub proof fn lemma_upper_rank_agree(s: Entries, a: Seq<u8>, t: Entries, b: Seq<u8>)
    requires
        s.len() == t.len(),
        forall|i: int| 0 <= i < s.len() ==> lex_le(#[trigger] s[i].0, a) == lex_le(t[i].0, b),
    ensures
        upper_rank(s, a) == upper_rank(t, b),
    decreases s.len(),
{
    if s.len() > 0 {
        let last = s.len() - 1;
        assert(lex_le(s[last].0, a) == lex_le(t[last].0, b));
        if !lex_le(s.last().0, a) {
            let s0 = s.drop_last();
            let t0 = t.drop_last();
            assert forall|i: int| 0 <= i < s0.len() implies lex_le(#[trigger] s0[i].0, a)
                == lex_le(t0[i].0, b) by {
                assert(s0[i] == s[i] && t0[i] == t[i]);
                assert(lex_le(s[i].0, a) == lex_le(t[i].0, b));
            }
            lemma_upper_rank_agree(s0, a, t0, b);
        }
    }
}

/// A lower search and an upper search that tell the same entries apart come to
/// the same index.
pub proof fn lemma_rank_upper_agree(s: Entries, a: Seq<u8>, t: Entries, b: Seq<u8>)
    requires
        s.len() == t.len(),
        forall|i: int| 0 <= i < s.len() ==> lex_lt(#[trigger] s[i].0, a) == lex_le(t[i].0, b),
    ensures
        rank(s, a) == upper_rank(t, b),
    decreases s.len(),
{
    if s.len() > 0 {
        let last = s.len() - 1;
        assert(lex_lt(s[last].0, a) == lex_le(t[last].0, b));
        if !lex_lt(s.last().0, a) {
            let s0 = s.drop_last();
            let t0 = t.drop_last();
            assert forall|i: int| 0 <= i < s0.len() implies lex_lt(#[trigger] s0[i].0, a)
                == lex_le(t0[i].0, b) by {
                assert(s0[i] == s[i] && t0[i] == t[i]);
                assert(lex_lt(s[i].0, a) == lex_le(t[i].0, b));
            }
            lemma_rank_upper_agree(s0, a, t0, b);
        }
    }
}

/// Deleting the key of an entry removes that entry.
pub proof fn lemma_delete_at(s: Entries, index: int)
    requires
        sorted(s),
        0 <= index < s.len(),
    ensures
        delete_spec(s, s[index].0) == s.remove(index),
{
    lemma_find(s, s[index].0);
}

/// In sorted entries, the entry that `floor` finds is the last one at or below
/// the key.
pub proof fn lemma_floor_upper(s: Entries, key: Seq<u8>)
    requires
        sorted(s),
    ensures
        upper_rank(s, key) == match floor(s, key) {
            Some(h) => h + 1,
            None => 0,
        },
{
    lemma_rank(s, key);
    lemma_upper_rank(s, key);
    let r = rank(s, key);
    let u = upper_rank(s, key);
    if r < s.len() && s[r].0 == key {
        if u > r + 1 {
            assert(s[r + 1].0 == key);
            assert(lex_lt(s[r].0, s[r + 1].0));
            lemma_lex_asymmetric(s[r].0, s[r + 1].0);
        }
        if u <= r {
            assert(lex_lt(key, s[r].0));
            lemma_lex_asymmetric(key, s[r].0);
        }
    } else if u > r {
        assert(s[r].0 == key);
    }
}

} // verus!
