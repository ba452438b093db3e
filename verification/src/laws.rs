//! Laws: what holds of every key, every value and every table.

use vstd::prelude::*;
use crate::bytes::{lemma_lex_asymmetric, lemma_lex_concat, lemma_lex_total, lex_le, lex_lt};
use crate::codec::{
    be_value, lemma_u64_bytes_order, number_address_bytes, sharded_key_bytes, u64_bytes,
};
use crate::cursor::{next_dup_state, state_at, CursorState};
use crate::cursor_write::{append_mismatch, exhausted};
use crate::dups::{
    composite_key, composite_of, lemma_format_round_trip, lemma_physical_order,
    lemma_physical_parts, lemma_with_tie_parts, physical_key, primary_of, storable, subkey_of,
    with_tie, KeyLayout, TIE_MAX,
};
use crate::model::{
    lemma_pair_rank_unique, lemma_upsert_idempotent, lemma_upsert_sorted, upsert_pairs,
};
use crate::store::{
    ascending, lemma_rank, lemma_rank_unique, lemma_upper_rank, put_spec, rank, sorted,
    upper_rank, Entries,
};
use crate::table::{lemma_pairs_sorted, logical, pair_lt, pairs_sorted, well_formed};
use crate::ties::{lemma_entry_vs_pair, lemma_run, run_end, run_start};
use crate::walker::{after, held_entry, prefix_within, within, KeyBound};

verus! {

/// Round trip of the key encodings: a number comes back out of its eight
/// bytes, and a block number with an address, and a key sharded by block
/// number, come back out of theirs.
pub proof fn law_key_round_trip(number: u64, bytes: Seq<u8>)
    ensures
        u64_bytes(number).len() == 8,
        be_value(u64_bytes(number)) == number,
        number_address_bytes(number, bytes).take(8) == u64_bytes(number),
        number_address_bytes(number, bytes).skip(8) == bytes,
        sharded_key_bytes(bytes, number).take(bytes.len() as int) == bytes,
        sharded_key_bytes(bytes, number).skip(bytes.len() as int) == u64_bytes(number),
{
    lemma_u64_bytes_order(number, number);
    assert(number_address_bytes(number, bytes).take(8) =~= u64_bytes(number));
    assert(number_address_bytes(number, bytes).skip(8) =~= bytes);
    assert(sharded_key_bytes(bytes, number).take(bytes.len() as int) =~= bytes);
    assert(sharded_key_bytes(bytes, number).skip(bytes.len() as int) =~= u64_bytes(number));
}

/// Round trip of values: the subkey and the rest of a value come back out of
/// its stored form.
pub proof fn law_value_round_trip(subkey: Seq<u8>, rest: Seq<u8>)
    ensures
        (subkey + rest).take(subkey.len() as int) == subkey,
        (subkey + rest).skip(subkey.len() as int) == rest,
{
    assert((subkey + rest).take(subkey.len() as int) =~= subkey);
    assert((subkey + rest).skip(subkey.len() as int) =~= rest);
}

/// Round trip of the composite key formatter: the primary key and the
/// composite key come back out of the physical key, whatever the tie-breaker,
/// and the composite key carries the subkey of the value.
pub proof fn law_format_round_trip(layout: KeyLayout, primary: Seq<u8>, value: Seq<u8>, tie: u64)
    requires
        storable(layout, primary, value),
    ensures
        primary_of(layout, with_tie(layout, composite_key(layout, primary, value), tie))
            == primary,
        composite_of(layout, with_tie(layout, composite_key(layout, primary, value), tie))
            == composite_key(layout, primary, value),
        layout is DupSort ==> composite_key(layout, primary, value).skip(layout.key_width())
            == subkey_of(layout, value),
{
    lemma_format_round_trip(layout, primary, value, tie);
    if layout is DupSort {
        assert(composite_key(layout, primary, value).skip(layout.key_width()) =~= subkey_of(
            layout,
            value,
        ));
    }
}

/// The bounds of a run of ties: the lowest extension of a composite key is at
/// most every physical key of that composite key, and the sentinel extension
/// is above all of them, so a search for either finds an end of the run.
pub proof fn law_extension_bounds(layout: KeyLayout, raw: Seq<u8>)
    requires
        layout.valid(),
        physical_key(layout, raw),
    ensures
        lex_le(with_tie(layout, composite_of(layout, raw), 0), raw),
        lex_le(raw, with_tie(layout, composite_of(layout, raw), TIE_MAX)),
        layout is DupSort ==> lex_lt(raw, with_tie(layout, composite_of(layout, raw), TIE_MAX)),
{
    if layout is DupSort {
        let c = composite_of(layout, raw);
        lemma_physical_parts(layout, raw);
        let lo = with_tie(layout, c, 0);
        let hi = with_tie(layout, c, TIE_MAX);
        lemma_with_tie_parts(layout, c, 0);
        lemma_with_tie_parts(layout, c, TIE_MAX);
        lemma_physical_order(layout, lo, raw);
        lemma_physical_order(layout, raw, hi);
    }
}

/// Order preservation of the key encodings: numbers are ordered as their
/// encodings are, and so are block numbers with addresses of one width, by
/// number first, and keys of one width sharded by block number, by key first.
pub proof fn law_key_order(m: u64, n: u64, a: Seq<u8>, b: Seq<u8>)
    requires
        a.len() == b.len(),
    ensures
        m < n <==> lex_lt(u64_bytes(m), u64_bytes(n)),
        lex_lt(number_address_bytes(m, a), number_address_bytes(n, b)) <==> (m < n || (m == n
            && lex_lt(a, b))),
        lex_lt(sharded_key_bytes(a, m), sharded_key_bytes(b, n)) <==> (lex_lt(a, b) || (a == b
            && m < n)),
{
    lemma_u64_bytes_order(m, n);
    lemma_u64_bytes_order(n, m);
    lemma_lex_concat(u64_bytes(m), a, u64_bytes(n), b);
    lemma_lex_concat(a, u64_bytes(m), b, u64_bytes(n));
}

/// Order preservation of the composite key formatter: of two primary keys of
/// a table, the lower one has the lower physical keys, whatever the values and
/// the tie-breakers.
pub proof fn law_format_order(
    layout: KeyLayout,
    a: Seq<u8>,
    v: Seq<u8>,
    s: u64,
    b: Seq<u8>,
    w: Seq<u8>,
    t: u64,
)
    requires
        storable(layout, a, v),
        storable(layout, b, w),
        lex_lt(a, b),
    ensures
        lex_lt(
            with_tie(layout, composite_key(layout, a, v), s),
            with_tie(layout, composite_key(layout, b, w), t),
        ),
{
    if layout is DupSort {
        let ca = composite_key(layout, a, v);
        let cb = composite_key(layout, b, w);
        lemma_format_round_trip(layout, a, v, s);
        lemma_format_round_trip(layout, b, w, t);
        lemma_with_tie_parts(layout, ca, s);
        lemma_with_tie_parts(layout, cb, t);
        lemma_lex_concat(a, subkey_of(layout, v), b, subkey_of(layout, w));
        lemma_physical_order(layout, with_tie(layout, ca, s), with_tie(layout, cb, t));
    }
}

/// The logical entries after a sequence of unconditional writes to an empty
/// table.
pub open spec fn upsert_all(layout: KeyLayout, writes: Entries) -> Entries
    decreases writes.len(),
{
    if writes.len() == 0 {
        Seq::empty()
    } else {
        upsert_pairs(
            layout,
            upsert_all(layout, writes.drop_last()),
            writes.last().0,
            writes.last().1,
        )
    }
}

/// Sorted walk: whatever is written to a table, in whatever order, its
/// logical entries, which a walk yields in order, are sorted by primary key
/// first and by value next.
pub proof fn law_sorted_walk(layout: KeyLayout, writes: Entries)
    ensures
        pairs_sorted(upsert_all(layout, writes)),
        layout is Plain ==> sorted(upsert_all(layout, writes)),
    decreases writes.len(),
{
    if writes.len() > 0 {
        law_sorted_walk(layout, writes.drop_last());
        lemma_upsert_sorted(
            layout,
            upsert_all(layout, writes.drop_last()),
            writes.last().0,
            writes.last().1,
        );
    }
}

/// Sorted walk, of the tables themselves: the logical entries of a consistent
/// table are sorted by primary key first and by value next.
pub proof fn law_table_sorted(layout: KeyLayout, s: Entries)
    requires
        sorted(s),
        well_formed(layout, s),
    ensures
        pairs_sorted(logical(layout, s)),
        ascending(logical(layout, s)),
        layout is Plain ==> sorted(logical(layout, s)),
{
    lemma_pairs_sorted(layout, s);
}

/// Append ordering: a pair whose key is above every key of the table is not
/// refused as out of order, finds room, and becomes the last entry.
pub proof fn law_append_last(layout: KeyLayout, s: Entries, key: Seq<u8>, value: Seq<u8>)
    requires
        layout.valid(),
        sorted(s),
        well_formed(layout, s),
        storable(layout, key, value),
        forall|i: int| 0 <= i < s.len() ==> lex_lt((#[trigger] logical(layout, s)[i]).0, key),
    ensures
        !append_mismatch(logical(layout, s), key),
        !exhausted(layout, s, key, value),
        upsert_pairs(layout, logical(layout, s), key, value) == logical(layout, s).push(
            (key, value),
        ),
{
    let p = logical(layout, s);
    let x = (key, value);
    if p.len() > 0 {
        assert(lex_lt(p[p.len() - 1].0, key));
        lemma_lex_asymmetric(p[p.len() - 1].0, key);
    }
    match layout {
        KeyLayout::Plain => {
            lemma_rank_unique(p, key, p.len() as int);
            assert(put_spec(p, key, value) =~= p.push(x));
        },
        KeyLayout::DupSort { .. } => {
            assert forall|i: int| 0 <= i < p.len() implies pair_lt(#[trigger] p[i], x) by {
                assert(lex_lt(p[i].0, key));
            }
            lemma_pair_rank_unique(p, x, p.len() as int);
            if p.contains(x) {
                let i = choose|i: int| 0 <= i < p.len() && p[i] == x;
                assert(lex_lt(p[i].0, key));
                lemma_lex_asymmetric(p[i].0, key);
            }
            assert(p.insert(p.len() as int, x) =~= p.push(x));
            let c = composite_key(layout, key, value);
            lemma_format_round_trip(layout, key, value, 0);
            lemma_run(layout, s, c);
            let a = run_start(layout, s, c);
            if a < run_end(layout, s, c) {
                assert(crate::table::entry_ok(layout, s[a]));
                lemma_entry_vs_pair(layout, s[a], key, value);
                assert(composite_of(layout, s[a].0) == c);
                assert(p[a].0 == key);
                assert(lex_lt(p[a].0, key));
                lemma_lex_asymmetric(p[a].0, key);
            }
        },
    }
}

/// The state after `n` steps within the entries of the current primary key.
pub open spec fn dup_steps(p: Entries, state: CursorState, n: nat) -> CursorState
    decreases n,
{
    if n == 0 {
        state
    } else {
        next_dup_state(p, dup_steps(p, state, (n - 1) as nat))
    }
}

/// Duplicate scoping: steps within a primary key, from any of its entries,
/// visit the entries of that key that follow, one by one, and then stay at the
/// last of them. They never come to an entry of another key.
pub proof fn law_dup_scoping(p: Entries, i: int, n: nat)
    requires
        ascending(p),
        0 <= i < p.len(),
        p.len() <= usize::MAX,
    ensures
        i < upper_rank(p, p[i].0) <= p.len(),
        forall|j: int|
            rank(p, p[i].0) <= j < upper_rank(p, p[i].0) ==> (#[trigger] p[j]).0 == p[i].0,
        forall|j: int|
            0 <= j < p.len() && (#[trigger] p[j]).0 == p[i].0 ==> rank(p, p[i].0) <= j
                < upper_rank(p, p[i].0),
        dup_steps(p, CursorState::At(i as usize), n) == CursorState::At(
            if i + n < upper_rank(p, p[i].0) {
                (i + n) as usize
            } else {
                (upper_rank(p, p[i].0) - 1) as usize
            },
        ),
    decreases n,
{
    let key = p[i].0;
    let u = upper_rank(p, key);
    lemma_rank(p, key);
    lemma_upper_rank(p, key);
    crate::walker::lemma_run_next(p, i);
    assert forall|j: int| 0 <= j < p.len() && (#[trigger] p[j]).0 == key implies rank(p, key)
        <= j < u by {
        if j < rank(p, key) {
            assert(lex_lt(p[j].0, key));
            lemma_lex_asymmetric(p[j].0, key);
        }
        if j >= u {
            assert(lex_lt(key, p[j].0));
            lemma_lex_asymmetric(key, p[j].0);
        }
    }
    if n > 0 {
        law_dup_scoping(p, i, (n - 1) as nat);
        let m = if i + n - 1 < u {
            i + n - 1
        } else {
            u - 1
        };
        assert(dup_steps(p, CursorState::At(i as usize), (n - 1) as nat) == CursorState::At(
            m as usize,
        ));
        assert(p[m].0 == key);
        crate::walker::lemma_run_next(p, m);
    }
}

/// Delete during a walk: once the entry at the cursor is gone and the cursor
/// is at the entry that followed it, that entry and what follows it are what
/// followed the deleted entry. Nothing is skipped and nothing comes twice.
pub proof fn law_delete_during_walk(p: Entries, i: int)
    requires
        0 <= i < p.len(),
        p.len() <= usize::MAX,
    ensures
        held_entry(crate::cursor::entry_at(p.remove(i), state_at(p.remove(i), i))) + after(
            p.remove(i),
            state_at(p.remove(i), i),
        ) == after(p, CursorState::At(i as usize)),
{
    let q = p.remove(i);
    assert(held_entry(crate::cursor::entry_at(q, state_at(q, i))) + after(q, state_at(q, i))
        =~= p.skip(i + 1));
}

/// A walk that stops at the first key out of the range yields the first `m`
/// entries if these are in the range and the next one is not.
pub proof fn lemma_prefix_within(s: Entries, end: KeyBound, m: int)
    requires
        0 <= m <= s.len(),
        forall|i: int| 0 <= i < m ==> within(end, (#[trigger] s[i]).0),
        m < s.len() ==> !within(end, s[m].0),
    ensures
        prefix_within(s, end) == s.take(m),
    decreases m,
{
    if m == 0 {
        assert(s.take(0) =~= Seq::empty());
    } else {
        let rest = s.skip(1);
        assert forall|i: int| 0 <= i < m - 1 implies within(end, (#[trigger] rest[i]).0) by {
            assert(rest[i] == s[i + 1]);
        }
        if m - 1 < rest.len() {
            assert(rest[m - 1] == s[m]);
        }
        lemma_prefix_within(rest, end, m - 1);
        assert(seq![s[0]] + rest.take(m - 1) =~= s.take(m));
    }
}

/// Range walk bounds: a walk from key `a` up to, and without, key `b` yields
/// exactly the entries whose key is at or after `a` and before `b`, in order.
/// A range that is empty or inverted yields nothing.
pub proof fn law_range_walk(p: Entries, a: Seq<u8>, b: Seq<u8>, end: KeyBound)
    requires
        ascending(p),
        end matches KeyBound::Excluded(e) && e@ == b,
    ensures
        0 <= rank(p, a) <= p.len(),
        0 <= rank(p, b) <= p.len(),
        prefix_within(p.skip(rank(p, a)), end) == if rank(p, a) <= rank(p, b) {
            p.subrange(rank(p, a), rank(p, b))
        } else {
            Seq::empty()
        },
        forall|i: int|
            0 <= i < p.len() ==> ((rank(p, a) <= i < rank(p, b)) <==> (lex_le(
                a,
                (#[trigger] p[i]).0,
            ) && lex_lt(p[i].0, b))),
        !lex_lt(a, b) ==> prefix_within(p.skip(rank(p, a)), end).len() == 0,
{
    let lo = rank(p, a);
    let hi = rank(p, b);
    lemma_rank(p, a);
    lemma_rank(p, b);
    assert forall|i: int| 0 <= i < p.len() implies ((lo <= i < hi) <==> (lex_le(
        a,
        (#[trigger] p[i]).0,
    ) && lex_lt(p[i].0, b))) by {
        lemma_lex_total(p[i].0, a);
        lemma_lex_total(p[i].0, b);
        if i < lo {
            assert(lex_lt(p[i].0, a));
        } else {
            assert(lex_le(a, p[i].0));
        }
        if i < hi {
            assert(lex_lt(p[i].0, b));
        } else {
            assert(lex_le(b, p[i].0));
        }
    }
    let s = p.skip(lo);
    let m = if lo <= hi {
        hi - lo
    } else {
        0
    };
    assert forall|i: int| 0 <= i < m implies within(end, (#[trigger] s[i]).0) by {
        assert(s[i] == p[lo + i]);
        assert(lex_lt(p[lo + i].0, b));
    }
    if m < s.len() {
        assert(s[m] == p[lo + m]);
        assert(lex_le(b, p[lo + m].0));
        lemma_lex_total(p[lo + m].0, b);
    }
    lemma_prefix_within(s, end, m);
    if lo <= hi {
        assert(s.take(m) =~= p.subrange(lo, hi));
    } else {
        assert(s.take(m) =~= Seq::empty());
    }
    if !lex_lt(a, b) && lo < hi {
        lemma_lex_total(a, b);
        assert(lex_le(a, p[lo].0) && lex_lt(p[lo].0, b));
        crate::bytes::lemma_lex_le_transitive(a, p[lo].0, b);
    }
}

/// Idempotent upsert: writing a pair a second time leaves the logical entries
/// as the first write made them, and the pair is among them once.
pub proof fn law_upsert_idempotent(layout: KeyLayout, p: Entries, key: Seq<u8>, value: Seq<u8>)
    requires
        pairs_sorted(p),
        layout is Plain ==> sorted(p),
    ensures
        upsert_pairs(layout, upsert_pairs(layout, p, key, value), key, value) == upsert_pairs(
            layout,
            p,
            key,
            value,
        ),
        upsert_pairs(layout, p, key, value).contains((key, value)),
        forall|i: int, j: int|
            0 <= i < j < upsert_pairs(layout, p, key, value).len() ==> upsert_pairs(
                layout,
                p,
                key,
                value,
            )[i] != upsert_pairs(layout, p, key, value)[j],
{
    lemma_upsert_idempotent(layout, p, key, value);
    lemma_upsert_sorted(layout, p, key, value);
    let q = upsert_pairs(layout, p, key, value);
    assert forall|i: int, j: int| 0 <= i < j < q.len() implies q[i] != q[j] by {
        assert(pair_lt(q[i], q[j]));
        crate::model::lemma_pair_order(q[i], q[j], q[i]);
    }
}

} // verus!
