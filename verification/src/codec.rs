//! Big-endian integer encoding.
//!
//! Integers are stored big-endian at a fixed width, so that the byte order of
//! the encodings is the numeric order of the integers. Primary keys that are
//! numbers and the tie-breaker suffix of composite keys both use it.

use vstd::prelude::*;
use crate::bytes::{lemma_lex_concat, lemma_lex_total, lex_lt, differs_below};

verus! {

/// 256 to the power `n`.
pub open spec fn pow256(n: nat) -> nat
    decreases n,
{
    if n == 0 {
        1
    } else {
        256 * pow256((n - 1) as nat)
    }
}

/// The number that a byte string denotes when read big-endian.
pub open spec fn be_value(s: Seq<u8>) -> nat
    decreases s.len(),
{
    if s.len() == 0 {
        0
    } else {
        be_value(s.drop_last()) * 256 + s.last() as nat
    }
}

/// The `n` low-order bytes of `x`, most significant first.
pub open spec fn be_bytes(x: nat, n: nat) -> Seq<u8>
    decreases n,
{
    if n == 0 {
        Seq::empty()
    } else {
        be_bytes(x / 256, (n - 1) as nat).push((x % 256) as u8)
    }
}

/// The encoding of a `u64`: eight bytes, big-endian.
pub open spec fn u64_bytes(x: u64) -> Seq<u8> {
    be_bytes(x as nat, 8)
}

/// `be_bytes` yields exactly `n` bytes.
pub proof fn lemma_be_bytes_len(x: nat, n: nat)
    ensures
        be_bytes(x, n).len() == n,
    decreases n,
{
    if n > 0 {
        lemma_be_bytes_len(x / 256, (n - 1) as nat);
    }
}

/// A byte string of length `n` denotes a number below `256^n`.
pub proof fn lemma_be_value_bound(s: Seq<u8>)
    ensures
        be_value(s) < pow256(s.len()),
    decreases s.len(),
{
    if s.len() > 0 {
        lemma_be_value_bound(s.drop_last());
    }
}

/// Decoding undoes encoding for every number that fits the width.
pub proof fn lemma_be_value_of_bytes(x: nat, n: nat)
    requires
        x < pow256(n),
    ensures
        be_value(be_bytes(x, n)) == x,
    decreases n,
{
    if n > 0 {
        let rest = be_bytes(x / 256, (n - 1) as nat);
        lemma_be_value_of_bytes(x / 256, (n - 1) as nat);
        assert(be_bytes(x, n).drop_last() =~= rest);
    }
}

/// Encoding undoes decoding at the width of the byte string.
pub proof fn lemma_be_bytes_of_value(s: Seq<u8>)
    ensures
        be_bytes(be_value(s), s.len()) == s,
    decreases s.len(),
{
    if s.len() > 0 {
        let v = be_value(s);
        lemma_be_bytes_of_value(s.drop_last());
        assert(v / 256 == be_value(s.drop_last()));
        assert(v % 256 == s.last() as nat);
        assert(be_bytes(v, s.len()) =~= s);
    } else {
        assert(be_bytes(be_value(s), 0) =~= s);
    }
}

/// Among byte strings of one length, byte order is numeric order.
pub proof fn lemma_be_order(a: Seq<u8>, b: Seq<u8>)
    requires
        a.len() == b.len(),
    ensures
        lex_lt(a, b) <==> be_value(a) < be_value(b),
        a == b <==> be_value(a) == be_value(b),
    decreases a.len(),
{
    if a.len() == 0 {
        assert(a =~= b);
    } else {
        let a0 = a.drop_last();
        let b0 = b.drop_last();
        let x = seq![a.last()];
        let y = seq![b.last()];
        lemma_be_order(a0, b0);
        assert(a =~= a0 + x);
        assert(b =~= b0 + y);
        lemma_lex_concat(a0, x, b0, y);
        if a.last() < b.last() {
            assert(differs_below(x, y, 0));
        }
        if lex_lt(x, y) {
            let k = choose|k: int| differs_below(x, y, k);
            assert(k == 0);
        }
        assert(x == y <==> a.last() == b.last()) by {
            if a.last() == b.last() {
                assert(x =~= y);
            } else {
                assert(x[0] != y[0]);
            }
        }
        lemma_lex_total(a0, b0);
    }
}

/// Encoding is monotone: smaller numbers have smaller encodings.
pub proof fn lemma_u64_bytes_order(x: u64, y: u64)
    ensures
        u64_bytes(x).len() == 8,
        be_value(u64_bytes(x)) == x,
        x < y <==> lex_lt(u64_bytes(x), u64_bytes(y)),
        x == y <==> u64_bytes(x) == u64_bytes(y),
{
    lemma_pow256_8();
    lemma_be_bytes_len(x as nat, 8);
    lemma_be_bytes_len(y as nat, 8);
    lemma_be_value_of_bytes(x as nat, 8);
    lemma_be_value_of_bytes(y as nat, 8);
    lemma_be_order(u64_bytes(x), u64_bytes(y));
}

/// The value of `256^8`, the first number that eight bytes cannot hold.
pub proof fn lemma_pow256_8()
    ensures
        pow256(7) == 0x100_0000_0000_0000,
        pow256(8) == 0x1_0000_0000_0000_0000,
{
    assert(pow256(0) == 1);
    assert(pow256(1) == 0x100);
    assert(pow256(2) == 0x1_0000);
    assert(pow256(3) == 0x100_0000);
    assert(pow256(4) == 0x1_0000_0000);
    assert(pow256(5) == 0x100_0000_0000);
    assert(pow256(6) == 0x1_0000_0000_0000);
    assert(pow256(7) == 0x100_0000_0000_0000);
}

fn encode_be(x: u64, n: usize) -> (r: Vec<u8>)
    ensures
        r@ == be_bytes(x as nat, n as nat),
    decreases n,
{
    if n == 0 {
        Vec::new()
    } else {
        let mut r: Vec<u8> = encode_be(x / 256, n - 1);
        r.push((x % 256) as u8);
        r
    }
}

/// Encodes a number as eight big-endian bytes.
pub fn encode_u64(x: u64) -> (r: Vec<u8>)
    ensures
        r@ == u64_bytes(x),
        r@.len() == 8,
{
    proof {
        lemma_be_bytes_len(x as nat, 8);
    }
    encode_be(x, 8)
}

/// Decodes eight big-endian bytes; any other length is not a number.
pub fn decode_u64(s: &[u8]) -> (r: Option<u64>)
    ensures
        r is Some <==> s@.len() == 8,
        r matches Some(x) ==> x == be_value(s@) && u64_bytes(x) == s@,
{
    if s.len() != 8 {
        return None;
    }
    let mut acc: u64 = 0;
    let mut i: usize = 0;
    while i < 8
        invariant
            i <= 8,
            s@.len() == 8,
            acc == be_value(s@.take(i as int)),
        decreases 8 - i,
    {
        proof {
            lemma_be_value_bound(s@.take(i as int));
            lemma_pow256_8();
            lemma_pow256_monotone(i as nat, 7);
            assert(s@.take(i + 1).drop_last() =~= s@.take(i as int));
        }
        acc = acc * 256 + s[i] as u64;
        i += 1;
    }
    proof {
        assert(s@.take(8) =~= s@);
        lemma_be_bytes_of_value(s@);
    }
    Some(acc)
}

/// Powers of 256 grow with the exponent.
pub proof fn lemma_pow256_monotone(m: nat, n: nat)
    requires
        m <= n,
    ensures
        pow256(m) <= pow256(n),
        pow256(m) >= 1,
    decreases n,
{
    if m < n {
        lemma_pow256_monotone(m, (n - 1) as nat);
    } else if n > 0 {
        lemma_pow256_monotone((m - 1) as nat, (n - 1) as nat);
    }
}

/// The encoding of a block number with an address: the number, then the
/// address.
pub open spec fn number_address_bytes(number: u64, address: Seq<u8>) -> Seq<u8> {
    u64_bytes(number) + address
}

/// Encodes a block number with an address.
pub fn encode_block_number_address(number: u64, address: &[u8]) -> (r: Vec<u8>)
    ensures
        r@ == number_address_bytes(number, address@),
        r@.len() == 8 + address@.len(),
{
    let head = encode_u64(number);
    crate::bytes::join(head.as_slice(), address)
}

/// Decodes a block number with an address. The bytes must hold the number.
pub fn decode_block_number_address(bytes: &[u8]) -> (r: Option<(u64, Vec<u8>)>)
    ensures
        r is Some <==> bytes@.len() >= 8,
        r matches Some(p) ==> number_address_bytes(p.0, p.1@) == bytes@ && p.1@ == bytes@.skip(8),
{
    if bytes.len() < 8 {
        return None;
    }
    let head = &bytes[0..8];
    let tail = &bytes[8..bytes.len()];
    match decode_u64(head) {
        None => None,
        Some(number) => {
            assert(bytes@ =~= head@ + tail@);
            assert(tail@ =~= bytes@.skip(8));
            Some((number, crate::bytes::copy_bytes(tail)))
        },
    }
}

/// The encoding of a key sharded by block number: the key, then the highest
/// block number of the shard.
pub open spec fn sharded_key_bytes(key: Seq<u8>, highest_block_number: u64) -> Seq<u8> {
    key + u64_bytes(highest_block_number)
}

/// Encodes a key sharded by block number.
pub fn encode_sharded_key(key: &[u8], highest_block_number: u64) -> (r: Vec<u8>)
    ensures
        r@ == sharded_key_bytes(key@, highest_block_number),
        r@.len() == key@.len() + 8,
{
    let tail = encode_u64(highest_block_number);
    crate::bytes::join(key, tail.as_slice())
}

/// Decodes a key sharded by block number. The bytes must hold the number.
pub fn decode_sharded_key(bytes: &[u8]) -> (r: Option<(Vec<u8>, u64)>)
    ensures
        r is Some <==> bytes@.len() >= 8,
        r matches Some(p) ==> sharded_key_bytes(p.0@, p.1) == bytes@ && p.0@ == bytes@.take(
            bytes@.len() - 8,
        ),
{
    if bytes.len() < 8 {
        return None;
    }
    let head = &bytes[0..bytes.len() - 8];
    let tail = &bytes[bytes.len() - 8..bytes.len()];
    match decode_u64(tail) {
        None => None,
        Some(number) => {
            assert(bytes@ =~= head@ + tail@);
            assert(head@ =~= bytes@.take(bytes@.len() - 8));
            Some((crate::bytes::copy_bytes(head), number))
        },
    }
}

/// A value of a duplicate-key table: the subkey it is sorted by, and the rest.
#[derive(Debug, Clone, PartialEq, Eq)]
pub struct DupValue {
    /// The subkey.
    pub subkey: Vec<u8>,
    /// What follows the subkey.
    pub rest: Vec<u8>,
}

/// The stored form of a value: the subkey, then the rest.
pub fn compress(value: &DupValue) -> (r: Vec<u8>)
    ensures
        r@ == value.subkey@ + value.rest@,
{
    crate::bytes::join(value.subkey.as_slice(), value.rest.as_slice())
}

/// The value of a stored form, for subkeys of the given width. The stored
/// form must hold the subkey.
pub fn decompress(subkey_len: usize, bytes: &[u8]) -> (r: Option<DupValue>)
    ensures
        r is Some <==> bytes@.len() >= subkey_len,
        r matches Some(v) ==> v.subkey@ == bytes@.take(subkey_len as int) && v.rest@
            == bytes@.skip(subkey_len as int),
{
    if bytes.len() < subkey_len {
        return None;
    }
    let head = &bytes[0..subkey_len];
    let tail = &bytes[subkey_len..bytes.len()];
    assert(head@ =~= bytes@.take(subkey_len as int));
    assert(tail@ =~= bytes@.skip(subkey_len as int));
    Some(DupValue { subkey: crate::bytes::copy_bytes(head), rest: crate::bytes::copy_bytes(tail) })
}

} // verus!
