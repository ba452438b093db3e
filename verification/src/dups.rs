//! The composite key formatter.
//!
//! A duplicate-key table keeps many values under one primary key. The flat
//! store below it holds one value per key, so each value gets a physical key of
//! its own: the encoded primary key, then the subkey that the value starts
//! with, then a fixed-width tie-breaker that orders the values which share a
//! primary key and a subkey. A plain table uses the encoded primary key as it is.

use vstd::prelude::*;
use crate::bytes::{copy_bytes, join, lemma_lex_concat, lex_lt};
use crate::codec::{
    be_value, decode_u64, encode_u64, lemma_be_order, lemma_u64_bytes_order, u64_bytes,
};

verus! {

/// Width of the tie-breaker suffix, in bytes.
pub const TIE_LEN: usize = 8;

/// The highest tie-breaker. It is never stored: it is the sentinel that sorts
/// after every stored tie of a composite key.
pub const TIE_MAX: u64 = 0xffff_ffff_ffff_ffff;

/// How a table lays out its physical keys.
#[derive(Clone, Copy, Debug)]
pub enum KeyLayout {
    /// One value per key. The physical key is the encoded primary key.
    Plain,
    /// A sorted set of values per key. Primary keys and subkeys have a fixed
    /// width, and every value starts with its subkey.
    DupSort { key_len: usize, subkey_len: usize },
}

impl KeyLayout {
    /// The widths fit the machine.
    pub open spec fn valid(self) -> bool {
        match self {
            KeyLayout::Plain => true,
            KeyLayout::DupSort { key_len, subkey_len } => key_len + subkey_len + TIE_LEN
                <= usize::MAX,
        }
    }

    /// Width of the primary key part of a physical key.
    pub open spec fn key_width(self) -> int {
        match self {
            KeyLayout::Plain => 0,
            KeyLayout::DupSort { key_len, subkey_len } => key_len as int,
        }
    }

    /// Width of the subkey part of a physical key.
    pub open spec fn subkey_width(self) -> int {
        match self {
            KeyLayout::Plain => 0,
            KeyLayout::DupSort { key_len, subkey_len } => subkey_len as int,
        }
    }

    /// Width of a composite key: primary key and subkey.
    pub open spec fn composite_width(self) -> int {
        self.key_width() + self.subkey_width()
    }

    /// Whether the table keeps duplicates.
    pub fn is_dupsort(&self) -> (r: bool)
        ensures
            r == (self is DupSort),
    {
        matches!(self, KeyLayout::DupSort { .. })
    }
}

/// The subkey that a value of a duplicate-key table starts with.
pub open spec fn subkey_of(layout: KeyLayout, value: Seq<u8>) -> Seq<u8> {
    value.take(layout.subkey_width())
}

/// Whether a primary key and a value can be stored together in the table.
pub open spec fn storable(layout: KeyLayout, primary: Seq<u8>, value: Seq<u8>) -> bool {
    layout is DupSort ==> primary.len() == layout.key_width() && value.len()
        >= layout.subkey_width()
}

/// The composite key of a primary key and a value, without tie-breaker.
pub open spec fn composite_key(layout: KeyLayout, primary: Seq<u8>, value: Seq<u8>) -> Seq<u8> {
    match layout {
        KeyLayout::Plain => primary,
        KeyLayout::DupSort { .. } => primary + subkey_of(layout, value),
    }
}

/// A composite key extended by a tie-breaker.
pub open spec fn with_tie(layout: KeyLayout, composite: Seq<u8>, tie: u64) -> Seq<u8> {
    match layout {
        KeyLayout::Plain => composite,
        KeyLayout::DupSort { .. } => composite + u64_bytes(tie),
    }
}

/// The primary key part of a physical key.
pub open spec fn primary_of(layout: KeyLayout, raw: Seq<u8>) -> Seq<u8> {
    match layout {
        KeyLayout::Plain => raw,
        KeyLayout::DupSort { .. } => raw.take(layout.key_width()),
    }
}

/// A physical key without its tie-breaker.
pub open spec fn composite_of(layout: KeyLayout, raw: Seq<u8>) -> Seq<u8> {
    match layout {
        KeyLayout::Plain => raw,
        KeyLayout::DupSort { .. } => raw.take(raw.len() - TIE_LEN),
    }
}

/// The tie-breaker of a physical key.
pub open spec fn tie_of(raw: Seq<u8>) -> nat {
    be_value(raw.skip(raw.len() - TIE_LEN))
}

/// A physical key of the right width whose tie-breaker is not the sentinel.
pub open spec fn physical_key(layout: KeyLayout, raw: Seq<u8>) -> bool {
    layout is DupSort ==> raw.len() == layout.composite_width() + TIE_LEN && tie_of(raw) < TIE_MAX
}

/// A physical key is its composite key extended by its tie-breaker, and
/// building a physical key from parts of the right widths gives those parts
/// back.
pub proof fn lemma_physical_parts(layout: KeyLayout, raw: Seq<u8>)
    requires
        layout is DupSort,
        raw.len() == layout.composite_width() + TIE_LEN,
    ensures
        tie_of(raw) <= TIE_MAX,
        raw == with_tie(layout, composite_of(layout, raw), tie_of(raw) as u64),
        composite_of(layout, raw).len() == layout.composite_width(),
        primary_of(layout, raw) == composite_of(layout, raw).take(layout.key_width()),
{
    let tail = raw.skip(raw.len() - TIE_LEN);
    crate::codec::lemma_be_value_bound(tail);
    crate::codec::lemma_pow256_8();
    crate::codec::lemma_be_bytes_of_value(tail);
    assert(raw =~= composite_of(layout, raw) + tail);
    assert(primary_of(layout, raw) =~= composite_of(layout, raw).take(layout.key_width()));
}

/// Taking apart what `with_tie` built.
pub proof fn lemma_with_tie_parts(layout: KeyLayout, composite: Seq<u8>, tie: u64)
    requires
        layout is DupSort,
        composite.len() == layout.composite_width(),
    ensures
        with_tie(layout, composite, tie).len() == layout.composite_width() + TIE_LEN,
        composite_of(layout, with_tie(layout, composite, tie)) == composite,
        tie_of(with_tie(layout, composite, tie)) == tie,
        primary_of(layout, with_tie(layout, composite, tie)) == composite.take(
            layout.key_width(),
        ),
{
    let raw = with_tie(layout, composite, tie);
    lemma_u64_bytes_order(tie, tie);
    assert(raw.take(raw.len() - TIE_LEN) =~= composite);
    assert(raw.skip(raw.len() - TIE_LEN) =~= u64_bytes(tie));
    assert(raw.take(layout.key_width()) =~= composite.take(layout.key_width()));
}

/// Round trip of the formatter: the primary key comes back out of the
/// physical key that was formatted from it, whatever the tie-breaker.
pub proof fn lemma_format_round_trip(
    layout: KeyLayout,
    primary: Seq<u8>,
    value: Seq<u8>,
    tie: u64,
)
    requires
        storable(layout, primary, value),
    ensures
        primary_of(layout, with_tie(layout, composite_key(layout, primary, value), tie))
            == primary,
        composite_of(layout, with_tie(layout, composite_key(layout, primary, value), tie))
            == composite_key(layout, primary, value),
        layout is DupSort ==> composite_key(layout, primary, value).len()
            == layout.composite_width(),
{
    if layout is DupSort {
        let c = composite_key(layout, primary, value);
        lemma_with_tie_parts(layout, c, tie);
        assert(c.take(layout.key_width()) =~= primary);
    }
}

/// Physical keys of one composite key are ordered by their tie-breakers, and
/// physical keys of different composite keys by those.
pub proof fn lemma_physical_order(layout: KeyLayout, a: Seq<u8>, b: Seq<u8>)
    requires
        layout is DupSort,
        a.len() == layout.composite_width() + TIE_LEN,
        b.len() == layout.composite_width() + TIE_LEN,
    ensures
        lex_lt(a, b) <==> (lex_lt(composite_of(layout, a), composite_of(layout, b)) || (
        composite_of(layout, a) == composite_of(layout, b) && tie_of(a) < tie_of(b))),
        a == b <==> (composite_of(layout, a) == composite_of(layout, b) && tie_of(a) == tie_of(
            b,
        )),
{
    let ca = composite_of(layout, a);
    let cb = composite_of(layout, b);
    let ta = a.skip(a.len() - TIE_LEN);
    let tb = b.skip(b.len() - TIE_LEN);
    assert(a =~= ca + ta);
    assert(b =~= cb + tb);
    lemma_lex_concat(ca, ta, cb, tb);
    lemma_be_order(ta, tb);
}

/// Concatenates the encoded primary key and the encoded subkey.
pub fn format_composite_key(primary: &[u8], subkey: &[u8]) -> (r: Vec<u8>)
    ensures
        r@ == primary@ + subkey@,
{
    join(primary, subkey)
}

/// The composite key under which a value is stored: for a plain table the
/// primary key, for a duplicate-key table the primary key and the value's subkey.
pub fn format_key(layout: &KeyLayout, primary: &[u8], value: &[u8]) -> (r: Vec<u8>)
    requires
        storable(*layout, primary@, value@),
    ensures
        r@ == composite_key(*layout, primary@, value@),
{
    match layout {
        KeyLayout::Plain => copy_bytes(primary),
        KeyLayout::DupSort { key_len, subkey_len } => {
            let subkey = &value[0..*subkey_len];
            format_composite_key(primary, subkey)
        },
    }
}

/// The primary key part of a physical key. The tie-breaker and the subkey are
/// stripped.
pub fn unformat_key(layout: &KeyLayout, raw: &[u8]) -> (r: Vec<u8>)
    requires
        raw@.len() >= layout.key_width(),
    ensures
        r@ == primary_of(*layout, raw@),
{
    match layout {
        KeyLayout::Plain => copy_bytes(raw),
        KeyLayout::DupSort { key_len, subkey_len } => copy_bytes(&raw[0..*key_len]),
    }
}

/// A physical key without its tie-breaker.
pub fn unformat_extended_composite_key(layout: &KeyLayout, raw: &[u8]) -> (r: Vec<u8>)
    requires
        layout is DupSort ==> raw@.len() >= TIE_LEN,
    ensures
        r@ == composite_of(*layout, raw@),
{
    match layout {
        KeyLayout::Plain => copy_bytes(raw),
        KeyLayout::DupSort { key_len, subkey_len } => copy_bytes(&raw[0..raw.len() - TIE_LEN]),
    }
}

/// Extends a composite key by the lowest tie-breaker, the one a first value gets.
pub fn zero_extend_composite_key(layout: &KeyLayout, composite: &[u8]) -> (r: Vec<u8>)
    ensures
        r@ == with_tie(*layout, composite@, 0),
{
    match layout {
        KeyLayout::Plain => copy_bytes(composite),
        KeyLayout::DupSort { key_len, subkey_len } => {
            let tie = encode_u64(0);
            join(composite, tie.as_slice())
        },
    }
}

/// Extends a composite key by the sentinel that sorts after all its stored ties.
pub fn max_extend_composite_key(layout: &KeyLayout, composite: &[u8]) -> (r: Vec<u8>)
    ensures
        r@ == with_tie(*layout, composite@, TIE_MAX),
{
    match layout {
        KeyLayout::Plain => copy_bytes(composite),
        KeyLayout::DupSort { key_len, subkey_len } => {
            let tie = encode_u64(TIE_MAX);
            join(composite, tie.as_slice())
        },
    }
}

/// The tie-breaker of a physical key of a duplicate-key table.
pub fn tie_breaker(raw: &[u8]) -> (r: u64)
    requires
        raw@.len() >= TIE_LEN,
    ensures
        r == tie_of(raw@),
{
    let tail = &raw[raw.len() - TIE_LEN..raw.len()];
    assert(tail@ =~= raw@.skip(raw@.len() - TIE_LEN));
    match decode_u64(tail) {
        Some(t) => t,
        None => 0,
    }
}

/// The physical key with the next tie-breaker: same composite key, tie-breaker
/// one higher.
pub fn up_extend_composite_key(layout: &KeyLayout, raw: &[u8]) -> (r: Vec<u8>)
    requires
        layout is DupSort,
        raw@.len() >= TIE_LEN,
        tie_of(raw@) < TIE_MAX,
    ensures
        r@ == with_tie(*layout, composite_of(*layout, raw@), (tie_of(raw@) + 1) as u64),
{
    let tie: u64 = tie_breaker(raw);
    let next = encode_u64(tie + 1);
    join(&raw[0..raw.len() - TIE_LEN], next.as_slice())
}

/// The composite key under which a value is stored, if the primary key and
/// the value fit the layout.
pub fn checked_format_key(layout: &KeyLayout, primary: &[u8], value: &[u8]) -> (r: Option<
    Vec<u8>,
>)
    ensures
        r is Some <==> storable(*layout, primary@, value@),
        r matches Some(k) ==> k@ == composite_key(*layout, primary@, value@),
{
    match layout {
        KeyLayout::Plain => {},
        KeyLayout::DupSort { key_len, subkey_len } => {
            if primary.len() != *key_len || value.len() < *subkey_len {
                return None;
            }
        },
    }
    Some(format_key(layout, primary, value))
}

/// The primary key part of a physical key, if the key is long enough to hold
/// one.
pub fn checked_unformat_key(layout: &KeyLayout, raw: &[u8]) -> (r: Option<Vec<u8>>)
    ensures
        r is Some <==> raw@.len() >= layout.key_width(),
        r matches Some(k) ==> k@ == primary_of(*layout, raw@),
{
    match layout {
        KeyLayout::Plain => {},
        KeyLayout::DupSort { key_len, subkey_len } => {
            if raw.len() < *key_len {
                return None;
            }
        },
    }
    Some(unformat_key(layout, raw))
}

/// Storage slots by account: an address of 20 bytes, and values that start
/// with a slot key of 32 bytes.
pub struct PlainStorageState;

impl PlainStorageState {
    /// The layout of the table.
    pub open spec fn spec_layout() -> KeyLayout {
        KeyLayout::DupSort { key_len: 20, subkey_len: 32 }
    }

    /// The name of the table.
    pub fn name() -> (r: &'static str)
        ensures
            r@ == "PlainStorageState"@,
    {
        "PlainStorageState"
    }

    /// The layout of the table.
    pub fn layout() -> (r: KeyLayout)
        ensures
            r == Self::spec_layout(),
            r.valid(),
    {
        KeyLayout::DupSort { key_len: 20, subkey_len: 32 }
    }

    /// The composite key of an address and a storage entry.
    pub fn format_key(k: &[u8], v: &[u8]) -> (r: Option<Vec<u8>>)
        ensures
            r is Some <==> storable(Self::spec_layout(), k@, v@),
            r matches Some(c) ==> c@ == composite_key(Self::spec_layout(), k@, v@),
    {
        checked_format_key(&Self::layout(), k, v)
    }

    /// The address of a physical key.
    pub fn unformat_key(raw_key: &[u8]) -> (r: Option<Vec<u8>>)
        ensures
            r is Some <==> raw_key@.len() >= 20,
            r matches Some(k) ==> k@ == primary_of(Self::spec_layout(), raw_key@),
    {
        checked_unformat_key(&Self::layout(), raw_key)
    }
}

/// Accounts as they were before a block: a block number of 8 bytes, and
/// values that start with an address of 20 bytes.
pub struct AccountChangeSets;

impl AccountChangeSets {
    /// The layout of the table.
    pub open spec fn spec_layout() -> KeyLayout {
        KeyLayout::DupSort { key_len: 8, subkey_len: 20 }
    }

    /// The name of the table.
    pub fn name() -> (r: &'static str)
        ensures
            r@ == "AccountChangeSets"@,
    {
        "AccountChangeSets"
    }

    /// The layout of the table.
    pub fn layout() -> (r: KeyLayout)
        ensures
            r == Self::spec_layout(),
            r.valid(),
    {
        KeyLayout::DupSort { key_len: 8, subkey_len: 20 }
    }

    /// The composite key of a block number and an account before the block.
    pub fn format_key(k: &[u8], v: &[u8]) -> (r: Option<Vec<u8>>)
        ensures
            r is Some <==> storable(Self::spec_layout(), k@, v@),
            r matches Some(c) ==> c@ == composite_key(Self::spec_layout(), k@, v@),
    {
        checked_format_key(&Self::layout(), k, v)
    }

    /// The block number of a physical key, encoded.
    pub fn unformat_key(raw_key: &[u8]) -> (r: Option<Vec<u8>>)
        ensures
            r is Some <==> raw_key@.len() >= 8,
            r matches Some(k) ==> k@ == primary_of(Self::spec_layout(), raw_key@),
    {
        checked_unformat_key(&Self::layout(), raw_key)
    }
}

/// Storage slots as they were before a block: a block number and an address
/// of 28 bytes together, and values that start with a slot key of 32 bytes.
pub struct StorageChangeSets;

impl StorageChangeSets {
    /// The layout of the table.
    pub open spec fn spec_layout() -> KeyLayout {
        KeyLayout::DupSort { key_len: 28, subkey_len: 32 }
    }

    /// The name of the table.
    pub fn name() -> (r: &'static str)
        ensures
            r@ == "StorageChangeSets"@,
    {
        "StorageChangeSets"
    }

    /// The layout of the table.
    pub fn layout() -> (r: KeyLayout)
        ensures
            r == Self::spec_layout(),
            r.valid(),
    {
        KeyLayout::DupSort { key_len: 28, subkey_len: 32 }
    }

    /// The composite key of a block number with an address and a storage
    /// entry.
    pub fn format_key(k: &[u8], v: &[u8]) -> (r: Option<Vec<u8>>)
        ensures
            r is Some <==> storable(Self::spec_layout(), k@, v@),
            r matches Some(c) ==> c@ == composite_key(Self::spec_layout(), k@, v@),
    {
        checked_format_key(&Self::layout(), k, v)
    }

    /// The block number and address of a physical key, encoded.
    pub fn unformat_key(raw_key: &[u8]) -> (r: Option<Vec<u8>>)
        ensures
            r is Some <==> raw_key@.len() >= 28,
            r matches Some(k) ==> k@ == primary_of(Self::spec_layout(), raw_key@),
    {
        checked_unformat_key(&Self::layout(), raw_key)
    }
}

/// Storage slots by hashed account: a hash of 32 bytes, and values that start
/// with a hashed slot key of 32 bytes.
pub struct HashedStorages;

impl HashedStorages {
    /// The layout of the table.
    pub open spec fn spec_layout() -> KeyLayout {
        KeyLayout::DupSort { key_len: 32, subkey_len: 32 }
    }

    /// The name of the table.
    pub fn name() -> (r: &'static str)
        ensures
            r@ == "HashedStorages"@,
    {
        "HashedStorages"
    }

    /// The layout of the table.
    pub fn layout() -> (r: KeyLayout)
        ensures
            r == Self::spec_layout(),
            r.valid(),
    {
        KeyLayout::DupSort { key_len: 32, subkey_len: 32 }
    }

    /// The composite key of a hashed address and a storage entry.
    pub fn format_key(k: &[u8], v: &[u8]) -> (r: Option<Vec<u8>>)
        ensures
            r is Some <==> storable(Self::spec_layout(), k@, v@),
            r matches Some(c) ==> c@ == composite_key(Self::spec_layout(), k@, v@),
    {
        checked_format_key(&Self::layout(), k, v)
    }

    /// The hashed address of a physical key.
    pub fn unformat_key(raw_key: &[u8]) -> (r: Option<Vec<u8>>)
        ensures
            r is Some <==> raw_key@.len() >= 32,
            r matches Some(k) ==> k@ == primary_of(Self::spec_layout(), raw_key@),
    {
        checked_unformat_key(&Self::layout(), raw_key)
    }
}

/// Nodes of the storage tries by hashed account: a hash of 32 bytes, and
/// values that start with a path of nibbles stored in 33 bytes.
pub struct StoragesTrie;

impl StoragesTrie {
    /// The layout of the table.
    pub open spec fn spec_layout() -> KeyLayout {
        KeyLayout::DupSort { key_len: 32, subkey_len: 33 }
    }

    /// The name of the table.
    pub fn name() -> (r: &'static str)
        ensures
            r@ == "StoragesTrie"@,
    {
        "StoragesTrie"
    }

    /// The layout of the table.
    pub fn layout() -> (r: KeyLayout)
        ensures
            r == Self::spec_layout(),
            r.valid(),
    {
        KeyLayout::DupSort { key_len: 32, subkey_len: 33 }
    }

    /// The composite key of a hashed address and a trie entry.
    pub fn format_key(k: &[u8], v: &[u8]) -> (r: Option<Vec<u8>>)
        ensures
            r is Some <==> storable(Self::spec_layout(), k@, v@),
            r matches Some(c) ==> c@ == composite_key(Self::spec_layout(), k@, v@),
    {
        checked_format_key(&Self::layout(), k, v)
    }

    /// The hashed address of a physical key.
    pub fn unformat_key(raw_key: &[u8]) -> (r: Option<Vec<u8>>)
        ensures
            r is Some <==> raw_key@.len() >= 32,
            r matches Some(k) ==> k@ == primary_of(Self::spec_layout(), raw_key@),
    {
        checked_unformat_key(&Self::layout(), raw_key)
    }
}

} // verus!
