//! Byte strings and their lexicographic order.
//!
//! Every physical key of the store is a byte string, and the store keeps its
//! entries in byte-lexicographic order. This module defines that order once,
//! proves that it is a strict total order that composes over concatenation, and
//! provides the executable comparisons the rest of the crate uses.

use vstd::prelude::*;

verus! {

/// `a` and `b` agree on their first `k` bytes, and at position `k` either `a`
/// has ended while `b` goes on, or `a` holds the smaller byte.
pub open spec fn differs_below(a: Seq<u8>, b: Seq<u8>, k: int) -> bool {
    &&& 0 <= k <= a.len()
    &&& k <= b.len()
    &&& forall|i: int| 0 <= i < k ==> a[i] == b[i]
    &&& if k == a.len() {
        k < b.len()
    } else {
        k < b.len() && a[k] < b[k]
    }
}

/// Strict byte-lexicographic order.
pub open spec fn lex_lt(a: Seq<u8>, b: Seq<u8>) -> bool {
    exists|k: int| differs_below(a, b, k)
}

/// Byte-lexicographic order.
pub open spec fn lex_le(a: Seq<u8>, b: Seq<u8>) -> bool {
    a == b || lex_lt(a, b)
}

/// No byte string is below itself.
pub proof fn lemma_lex_irreflexive(a: Seq<u8>)
    ensures
        !lex_lt(a, a),
{
}

/// The order is asymmetric.
pub proof fn lemma_lex_asymmetric(a: Seq<u8>, b: Seq<u8>)
    requires
        lex_lt(a, b),
    ensures
        !lex_lt(b, a),
        a != b,
{
    let k = choose|k: int| differs_below(a, b, k);
    if lex_lt(b, a) {
        let j = choose|j: int| differs_below(b, a, j);
        if j < k {
            assert(a[j] == b[j]);
        } else if k < j {
            assert(b[k] == a[k]);
        }
    }
}

/// The order is transitive.
pub proof fn lemma_lex_transitive(a: Seq<u8>, b: Seq<u8>, c: Seq<u8>)
    requires
        lex_lt(a, b),
        lex_lt(b, c),
    ensures
        lex_lt(a, c),
{
    let k = choose|k: int| differs_below(a, b, k);
    let j = choose|j: int| differs_below(b, c, j);
    let m = if k <= j { k } else { j };
    assert forall|i: int| 0 <= i < m implies a[i] == c[i] by {
        assert(a[i] == b[i]);
        assert(b[i] == c[i]);
    }
    if k < j {
        assert(b[k] == c[k]);
    } else if j < k {
        assert(a[j] == b[j]);
    }
    assert(differs_below(a, c, m));
}

/// `lex_le` is transitive, and mixes with `lex_lt` as expected.
pub proof fn lemma_lex_le_transitive(a: Seq<u8>, b: Seq<u8>, c: Seq<u8>)
    requires
        lex_le(a, b),
        lex_le(b, c),
    ensures
        lex_le(a, c),
        lex_lt(a, b) || lex_lt(b, c) ==> lex_lt(a, c),
{
    if lex_lt(a, b) && lex_lt(b, c) {
        lemma_lex_transitive(a, b, c);
    }
}

proof fn lemma_scan(a: Seq<u8>, b: Seq<u8>, i: int)
    requires
        0 <= i <= a.len(),
        i <= b.len(),
        forall|j: int| 0 <= j < i ==> a[j] == b[j],
    ensures
        lex_lt(a, b) || a == b || lex_lt(b, a),
    decreases a.len() - i,
{
    if i == a.len() {
        if i == b.len() {
            assert(a =~= b);
        } else {
            assert(differs_below(a, b, i));
        }
    } else if i == b.len() {
        assert(differs_below(b, a, i));
    } else if a[i] < b[i] {
        assert(differs_below(a, b, i));
    } else if b[i] < a[i] {
        assert(differs_below(b, a, i));
    } else {
        lemma_scan(a, b, i + 1);
    }
}

/// Any two byte strings are comparable.
pub proof fn lemma_lex_total(a: Seq<u8>, b: Seq<u8>)
    ensures
        lex_lt(a, b) || a == b || lex_lt(b, a),
        !lex_lt(a, b) <==> lex_le(b, a),
{
    lemma_scan(a, b, 0);
    if lex_lt(a, b) {
        lemma_lex_asymmetric(a, b);
    }
    if lex_lt(b, a) {
        lemma_lex_asymmetric(b, a);
    }
}

/// Two strings that start with heads of one length compare by their heads
/// first and by their tails next.
pub proof fn lemma_lex_concat(a: Seq<u8>, x: Seq<u8>, b: Seq<u8>, y: Seq<u8>)
    requires
        a.len() == b.len(),
    ensures
        lex_lt(a + x, b + y) <==> (lex_lt(a, b) || (a == b && lex_lt(x, y))),
        (a + x == b + y) <==> (a == b && x == y),
{
    let n = a.len() as int;
    let l = a + x;
    let r = b + y;
    if lex_lt(a, b) {
        let k = choose|k: int| differs_below(a, b, k);
        assert forall|i: int| 0 <= i < k implies l[i] == r[i] by {
            assert(a[i] == b[i]);
        }
        assert(l[k] == a[k] && r[k] == b[k]);
        assert(differs_below(l, r, k));
    }
    if a == b && lex_lt(x, y) {
        let k = choose|k: int| differs_below(x, y, k);
        assert forall|i: int| 0 <= i < n + k implies l[i] == r[i] by {
            if i >= n {
                assert(x[i - n] == y[i - n]);
            }
        }
        if k < x.len() {
            assert(l[n + k] == x[k] && r[n + k] == y[k]);
        }
        assert(differs_below(l, r, n + k));
    }
    if lex_lt(l, r) {
        let k = choose|k: int| differs_below(l, r, k);
        if k < n {
            assert forall|i: int| 0 <= i < k implies a[i] == b[i] by {
                assert(l[i] == r[i]);
            }
            assert(l[k] == a[k] && r[k] == b[k]);
            assert(differs_below(a, b, k));
        } else {
            assert forall|i: int| 0 <= i < n implies a[i] == b[i] by {
                assert(l[i] == r[i]);
            }
            assert(a =~= b);
            assert forall|i: int| 0 <= i < k - n implies x[i] == y[i] by {
                assert(l[i + n] == r[i + n]);
            }
            if k < l.len() {
                assert(l[k] == x[k - n] && r[k] == y[k - n]);
            }
            assert(differs_below(x, y, k - n));
        }
    }
    if l == r {
        assert forall|i: int| 0 <= i < n implies a[i] == b[i] by {
            assert(l[i] == r[i]);
        }
        assert(a =~= b);
        assert(x.len() == y.len());
        assert forall|i: int| 0 <= i < x.len() implies x[i] == y[i] by {
            assert(l[i + n] == r[i + n]);
        }
        assert(x =~= y);
    }
}

/// `n` bytes, each the highest.
pub open spec fn ones(n: nat) -> Seq<u8> {
    Seq::new(n, |i: int| 0xffu8)
}

/// The empty string is below no string, and no string is above the string of
/// highest bytes of its length.
pub proof fn lemma_lex_extremes(a: Seq<u8>)
    ensures
        !lex_lt(a, Seq::<u8>::empty()),
        lex_le(a, ones(a.len())),
{
    lemma_lex_total(ones(a.len()), a);
    if lex_lt(ones(a.len()), a) {
        let k = choose|k: int| differs_below(ones(a.len()), a, k);
        assert(ones(a.len())[k] == 0xffu8);
    }
}

/// Whether two byte strings are equal.
pub fn bytes_eq(a: &[u8], b: &[u8]) -> (r: bool)
    ensures
        r == (a@ == b@),
{
    if a.len() != b.len() {
        return false;
    }
    let mut i: usize = 0;
    while i < a.len()
        invariant
            i <= a.len(),
            a.len() == b.len(),
            forall|j: int| 0 <= j < i ==> a@[j] == b@[j],
        decreases a.len() - i,
    {
        if a[i] != b[i] {
            return false;
        }
        i += 1;
    }
    assert(a@ =~= b@);
    true
}

/// Whether `a` comes strictly before `b` in byte-lexicographic order.
pub fn bytes_lt(a: &[u8], b: &[u8]) -> (r: bool)
    ensures
        r == lex_lt(a@, b@),
{
    let mut i: usize = 0;
    while i < a.len() && i < b.len()
        invariant
            i <= a.len(),
            i <= b.len(),
            forall|j: int| 0 <= j < i ==> a@[j] == b@[j],
        decreases a.len() - i,
    {
        if a[i] < b[i] {
            assert(differs_below(a@, b@, i as int));
            return true;
        }
        if a[i] > b[i] {
            proof {
                assert(differs_below(b@, a@, i as int));
                lemma_lex_asymmetric(b@, a@);
            }
            return false;
        }
        i += 1;
    }
    if i < b.len() {
        assert(differs_below(a@, b@, i as int));
        true
    } else {
        proof {
            if i < a.len() {
                assert(differs_below(b@, a@, i as int));
                lemma_lex_asymmetric(b@, a@);
            } else {
                assert(a@ =~= b@);
            }
        }
        false
    }
}

/// Whether `a` comes before `b`, or equals it, in byte-lexicographic order.
pub fn bytes_le(a: &[u8], b: &[u8]) -> (r: bool)
    ensures
        r == lex_le(a@, b@),
{
    proof {
        lemma_lex_total(b@, a@);
    }
    !bytes_lt(b, a)
}

/// An owned copy of a byte string.
pub fn copy_bytes(s: &[u8]) -> (r: Vec<u8>)
    ensures
        r@ == s@,
{
    let mut r: Vec<u8> = Vec::new();
    let mut i: usize = 0;
    while i < s.len()
        invariant
            i <= s.len(),
            r@ == s@.take(i as int),
        decreases s.len() - i,
    {
        r.push(s[i]);
        assert(s@.take(i + 1) =~= s@.take(i as int).push(s@[i as int]));
        i += 1;
    }
    assert(s@.take(s.len() as int) =~= s@);
    r
}

/// `primary` followed by `n` highest bytes.
pub fn pad_ones(primary: &[u8], n: usize) -> (r: Vec<u8>)
    ensures
        r@ == primary@ + ones(n as nat),
{
    let mut r: Vec<u8> = copy_bytes(primary);
    let mut i: usize = 0;
    while i < n
        invariant
            i <= n,
            r@ == primary@ + ones(i as nat),
        decreases n - i,
    {
        r.push(0xffu8);
        assert(primary@ + ones((i + 1) as nat) =~= (primary@ + ones(i as nat)).push(0xffu8));
        i += 1;
    }
    r
}

/// The concatenation of two byte strings.
pub fn join(a: &[u8], b: &[u8]) -> (r: Vec<u8>)
    ensures
        r@ == a@ + b@,
{
    let mut r: Vec<u8> = copy_bytes(a);
    let mut i: usize = 0;
    while i < b.len()
        invariant
            i <= b.len(),
            r@ == a@ + b@.take(i as int),
        decreases b.len() - i,
    {
        r.push(b[i]);
        assert(a@ + b@.take(i + 1) =~= (a@ + b@.take(i as int)).push(b@[i as int]));
        i += 1;
    }
    assert(b@.take(b.len() as int) =~= b@);
    r
}

} // verus!
