//! What the write operations do to the logical entries of a table.

use vstd::prelude::*;
use crate::bytes::{lemma_lex_asymmetric, lemma_lex_total, lemma_lex_transitive, lex_lt};
use crate::dups::KeyLayout;
use crate::store::{lemma_put_sorted, lemma_rank, put_spec, rank, sorted, Entries};
use crate::table::{pair_lt, pairs_sorted};

verus! {

/// The number of logical entries below `x`: the index at which `x` stands, or
/// would stand, among sorted entries.
pub open spec fn pair_rank(p: Entries, x: (Seq<u8>, Seq<u8>)) -> int
    decreases p.len(),
{
    if p.len() == 0 {
        0
    } else if pair_lt(p.last(), x) {
        p.len() as int
    } else {
        pair_rank(p.drop_last(), x)
    }
}

/// The order of logical entries is a strict total order.
pub proof fn lemma_pair_order(a: (Seq<u8>, Seq<u8>), b: (Seq<u8>, Seq<u8>), c: (Seq<u8>, Seq<u8>))
    ensures
        !pair_lt(a, a),
        pair_lt(a, b) ==> !pair_lt(b, a),
        pair_lt(a, b) && pair_lt(b, c) ==> pair_lt(a, c),
        pair_lt(a, b) || a == b || pair_lt(b, a),
{
    lemma_lex_total(a.0, b.0);
    lemma_lex_total(a.1, b.1);
    if lex_lt(a.0, b.0) {
        lemma_lex_asymmetric(a.0, b.0);
    }
    if lex_lt(a.1, b.1) {
        lemma_lex_asymmetric(a.1, b.1);
    }
    if pair_lt(a, b) && pair_lt(b, c) {
        if lex_lt(a.0, b.0) && lex_lt(b.0, c.0) {
            lemma_lex_transitive(a.0, b.0, c.0);
        }
        if lex_lt(a.1, b.1) && lex_lt(b.1, c.1) {
            lemma_lex_transitive(a.1, b.1, c.1);
        }
    }
}

/// Only one index splits the entries as `pair_rank` does.
pub proof fn lemma_pair_rank_unique(p: Entries, x: (Seq<u8>, Seq<u8>), r: int)
    requires
        0 <= r <= p.len(),
        forall|i: int| 0 <= i < r ==> pair_lt(#[trigger] p[i], x),
        forall|i: int| r <= i < p.len() ==> !pair_lt(#[trigger] p[i], x),
    ensures
        r == pair_rank(p, x),
    decreases p.len(),
{
    if p.len() > 0 {
        let last = p.len() - 1;
        if pair_lt(p.last(), x) {
            if r < p.len() {
                assert(!pair_lt(p[last], x));
            }
        } else {
            let t = p.drop_last();
            if r == p.len() {
                assert(pair_lt(p[last], x));
            }
            assert forall|i: int| 0 <= i < r implies pair_lt(#[trigger] t[i], x) by {
                assert(t[i] == p[i]);
            }
            assert forall|i: int| r <= i < t.len() implies !pair_lt(#[trigger] t[i], x) by {
                assert(t[i] == p[i]);
            }
            lemma_pair_rank_unique(t, x, r);
        }
    }
}

/// `pair_rank` splits sorted entries into those below `x` and those at or
/// after it; `x` itself, if it is there, stands at that index.
pub proof fn lemma_pair_rank(p: Entries, x: (Seq<u8>, Seq<u8>))
    requires
        pairs_sorted(p),
    ensures
        0 <= pair_rank(p, x) <= p.len(),
        forall|i: int| 0 <= i < pair_rank(p, x) ==> pair_lt(#[trigger] p[i], x),
        forall|i: int| pair_rank(p, x) <= i < p.len() ==> !pair_lt(#[trigger] p[i], x),
        forall|i: int| 0 <= i < p.len() && #[trigger] p[i] == x ==> i == pair_rank(p, x),
        p.contains(x) <==> (pair_rank(p, x) < p.len() && p[pair_rank(p, x)] == x),
    decreases p.len(),
{
    if p.len() > 0 {
        let last = p.len() - 1;
        if pair_lt(p.last(), x) {
            assert forall|i: int| 0 <= i < p.len() implies pair_lt(#[trigger] p[i], x) by {
                if i < last {
                    assert(pair_lt(p[i], p[last]));
                    lemma_pair_order(p[i], p[last], x);
                }
            }
        } else {
            let t = p.drop_last();
            assert(pairs_sorted(t)) by {
                assert forall|i: int, j: int| 0 <= i < j < t.len() implies pair_lt(
                    #[trigger] t[i],
                    #[trigger] t[j],
                ) by {
                    assert(t[i] == p[i] && t[j] == p[j]);
                }
            }
            lemma_pair_rank(t, x);
            assert forall|i: int| 0 <= i < pair_rank(p, x) implies pair_lt(#[trigger] p[i], x) by {
                assert(t[i] == p[i]);
            }
            assert forall|i: int| pair_rank(p, x) <= i < p.len() implies !pair_lt(
                #[trigger] p[i],
                x,
            ) by {
                if i < last {
                    assert(t[i] == p[i]);
                }
            }
        }
    }
    let r = pair_rank(p, x);
    assert forall|i: int| 0 <= i < p.len() && #[trigger] p[i] == x implies i == r by {
        lemma_pair_order(x, x, x);
        if i > r {
            assert(pair_lt(p[r], p[i]));
        }
    }
    if p.contains(x) {
        let i = choose|i: int| 0 <= i < p.len() && p[i] == x;
        assert(p[i] == x);
    }
}

/// The logical entries after an unconditional write. A plain table gets the
/// value under the key, in place of what was there. A duplicate-key table gets
/// the pair at its sorted place, unless it holds the pair already.
pub open spec fn upsert_pairs(layout: KeyLayout, p: Entries, key: Seq<u8>, value: Seq<u8>)
    -> Entries {
    match layout {
        KeyLayout::Plain => put_spec(p, key, value),
        KeyLayout::DupSort { .. } => if p.contains((key, value)) {
            p
        } else {
            p.insert(pair_rank(p, (key, value)), (key, value))
        },
    }
}

/// The index of the written pair after an unconditional write.
pub open spec fn upsert_index(layout: KeyLayout, p: Entries, key: Seq<u8>, value: Seq<u8>)
    -> int {
    match layout {
        KeyLayout::Plain => rank(p, key),
        KeyLayout::DupSort { .. } => pair_rank(p, (key, value)),
    }
}

/// An unconditional write keeps the logical entries sorted, wherever the pair
/// goes, and the pair stands at the index that `upsert_index` gives.
pub proof fn lemma_upsert_sorted(layout: KeyLayout, p: Entries, key: Seq<u8>, value: Seq<u8>)
    requires
        pairs_sorted(p),
        layout is Plain ==> sorted(p),
    ensures
        pairs_sorted(upsert_pairs(layout, p, key, value)),
        layout is Plain ==> sorted(upsert_pairs(layout, p, key, value)),
        0 <= upsert_index(layout, p, key, value) < upsert_pairs(layout, p, key, value).len(),
        upsert_pairs(layout, p, key, value)[upsert_index(layout, p, key, value)] == (key, value),
        upsert_pairs(layout, p, key, value).contains((key, value)),
{
    let x = (key, value);
    let q = upsert_pairs(layout, p, key, value);
    match layout {
        KeyLayout::Plain => {
            lemma_rank(p, key);
            lemma_put_sorted(p, key, value);
            assert forall|i: int, j: int| 0 <= i < j < q.len() implies pair_lt(
                #[trigger] q[i],
                #[trigger] q[j],
            ) by {
                assert(lex_lt(q[i].0, q[j].0));
            }
            assert(q[rank(p, key)] == x);
        },
        KeyLayout::DupSort { .. } => {
            lemma_pair_rank(p, x);
            let r = pair_rank(p, x);
            if !p.contains(x) {
                assert forall|i: int, j: int| 0 <= i < j < q.len() implies pair_lt(
                    #[trigger] q[i],
                    #[trigger] q[j],
                ) by {
                    let pi = if i < r { i } else { i - 1 };
                    let pj = if j < r { j } else { j - 1 };
                    if i == r {
                        assert(q[j] == p[pj]);
                        assert(!pair_lt(p[pj], x));
                        lemma_pair_order(p[pj], x, x);
                        assert(p[pj] != x);
                    } else if j == r {
                        assert(q[i] == p[pi]);
                    } else {
                        assert(q[i] == p[pi] && q[j] == p[pj]);
                    }
                }
                assert(q[r] == x);
            }
        },
    }
}

/// Writing a pair that was just written changes nothing.
pub proof fn lemma_upsert_idempotent(layout: KeyLayout, p: Entries, key: Seq<u8>, value: Seq<u8>)
    requires
        pairs_sorted(p),
        layout is Plain ==> sorted(p),
    ensures
        upsert_pairs(layout, upsert_pairs(layout, p, key, value), key, value) == upsert_pairs(
            layout,
            p,
            key,
            value,
        ),
{
    let q = upsert_pairs(layout, p, key, value);
    lemma_upsert_sorted(layout, p, key, value);
    match layout {
        KeyLayout::Plain => {
            lemma_rank(p, key);
            lemma_put_sorted(p, key, value);
            crate::store::lemma_find(q, key);
            let r = rank(p, key);
            assert(q[r].0 == key);
            assert(rank(q, key) == r);
            assert(put_spec(q, key, value) =~= q);
        },
        KeyLayout::DupSort { .. } => {},
    }
}

} // verus!
