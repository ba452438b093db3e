//! Runs of ties: the physical entries of one composite key.
//!
//! The values that share a primary key and a subkey stand next to each other
//! in the store, ordered by their tie-breakers, and a consistent table keeps
//! them ordered by value as well. This module states where such a run lies, and
//! what becomes of the table when the upper part of a run moves up by one
//! tie-breaker to make room for a new value.

use vstd::prelude::*;
use crate::bytes::{lemma_lex_asymmetric, lemma_lex_concat, lemma_lex_total, lex_le, lex_lt};
use crate::dups::{
    composite_key, composite_of, lemma_physical_order, lemma_physical_parts,
    lemma_with_tie_parts, primary_of, storable, subkey_of, tie_of, with_tie, KeyLayout,
    TIE_LEN, TIE_MAX,
};
use crate::store::{
    delete_spec, lemma_put_sorted, lemma_rank, lemma_rank_unique, put_spec, rank, sorted,
    Entries,
};
use crate::table::{entry_ok, logical, pair_lt, well_formed};

verus! {

/// Index of the first entry of the run of `composite`.
pub open spec fn run_start(layout: KeyLayout, s: Entries, composite: Seq<u8>) -> int {
    rank(s, with_tie(layout, composite, 0))
}

/// Index after the last entry of the run of `composite`.
pub open spec fn run_end(layout: KeyLayout, s: Entries, composite: Seq<u8>) -> int {
    rank(s, with_tie(layout, composite, TIE_MAX))
}

/// The run of a composite key is contiguous: before it stand the lower
/// composite keys, after it the higher ones, and within it the tie-breakers
/// and the values rise together.
pub proof fn lemma_run(layout: KeyLayout, s: Entries, composite: Seq<u8>)
    requires
        layout is DupSort,
        sorted(s),
        well_formed(layout, s),
        composite.len() == layout.composite_width(),
    ensures
        0 <= run_start(layout, s, composite) <= run_end(layout, s, composite) <= s.len(),
        forall|i: int|
            0 <= i < run_start(layout, s, composite) ==> lex_lt(
                composite_of(layout, #[trigger] s[i].0),
                composite,
            ),
        forall|i: int|
            run_start(layout, s, composite) <= i < run_end(layout, s, composite)
                ==> composite_of(layout, #[trigger] s[i].0) == composite,
        forall|i: int|
            run_end(layout, s, composite) <= i < s.len() ==> lex_lt(
                composite,
                composite_of(layout, #[trigger] s[i].0),
            ),
        forall|i: int, j: int|
            run_start(layout, s, composite) <= i < j < run_end(layout, s, composite) ==> tie_of(
                #[trigger] s[i].0,
            ) < tie_of(#[trigger] s[j].0) && lex_lt(s[i].1, s[j].1),
{
    let lo = with_tie(layout, composite, 0);
    let hi = with_tie(layout, composite, TIE_MAX);
    let a = rank(s, lo);
    let b = rank(s, hi);
    lemma_with_tie_parts(layout, composite, 0);
    lemma_with_tie_parts(layout, composite, TIE_MAX);
    lemma_rank(s, lo);
    lemma_rank(s, hi);
    assert forall|i: int| 0 <= i < s.len() implies {
        let c = composite_of(layout, #[trigger] s[i].0);
        &&& i < a ==> lex_lt(c, composite)
        &&& i >= a ==> lex_le(composite, c)
        &&& i < b ==> lex_le(c, composite)
        &&& i >= b ==> lex_lt(composite, c)
    } by {
        assert(entry_ok(layout, s[i]));
        lemma_physical_order(layout, s[i].0, lo);
        lemma_physical_order(layout, lo, s[i].0);
        lemma_physical_order(layout, s[i].0, hi);
        lemma_physical_order(layout, hi, s[i].0);
        lemma_lex_total(s[i].0, lo);
        lemma_lex_total(s[i].0, hi);
        lemma_lex_total(composite_of(layout, s[i].0), composite);
    }
    if b < a {
        assert(lex_lt(composite_of(layout, s[b].0), composite));
        assert(lex_lt(composite, composite_of(layout, s[b].0)));
        lemma_lex_asymmetric(composite, composite_of(layout, s[b].0));
    }
    assert forall|i: int| a <= i < b implies composite_of(layout, #[trigger] s[i].0)
        == composite by {
        let c = composite_of(layout, s[i].0);
        assert(lex_le(composite, c) && lex_le(c, composite));
        if c != composite {
            lemma_lex_asymmetric(c, composite);
        }
    }
    assert forall|i: int, j: int| a <= i < j < b implies tie_of(#[trigger] s[i].0) < tie_of(
        #[trigger] s[j].0,
    ) && lex_lt(s[i].1, s[j].1) by {
        assert(composite_of(layout, s[i].0) == composite);
        assert(composite_of(layout, s[j].0) == composite);
        assert(entry_ok(layout, s[i]) && entry_ok(layout, s[j]));
        assert(lex_lt(s[i].0, s[j].0));
        lemma_physical_order(layout, s[i].0, s[j].0);
        crate::bytes::lemma_lex_irreflexive(composite);
    }
}

/// An entry whose tie-breaker is one higher.
pub open spec fn bump(layout: KeyLayout, e: (Seq<u8>, Seq<u8>)) -> (Seq<u8>, Seq<u8>) {
    (with_tie(layout, composite_of(layout, e.0), (tie_of(e.0) + 1) as u64), e.1)
}

/// The entries with those from `lo` up to `hi` moved up by one tie-breaker.
pub open spec fn shifted(layout: KeyLayout, s: Entries, lo: int, hi: int) -> Entries {
    Seq::new(
        s.len(),
        |i: int|
            if lo <= i < hi {
                bump(layout, s[i])
            } else {
                s[i]
            },
    )
}

/// The upper part of a run can move up: the top tie-breaker has room.
pub open spec fn can_shift(layout: KeyLayout, s: Entries, composite: Seq<u8>, lo: int) -> bool {
    &&& layout is DupSort
    &&& sorted(s)
    &&& well_formed(layout, s)
    &&& composite.len() == layout.composite_width()
    &&& run_start(layout, s, composite) <= lo <= run_end(layout, s, composite)
    &&& run_start(layout, s, composite) < run_end(layout, s, composite) ==> tie_of(
        s[run_end(layout, s, composite) - 1].0,
    ) + 1 < TIE_MAX
}

/// What a bumped entry is made of.
pub proof fn lemma_bump(layout: KeyLayout, s: Entries, composite: Seq<u8>, lo: int, i: int)
    requires
        can_shift(layout, s, composite, lo),
        run_start(layout, s, composite) <= i < run_end(layout, s, composite),
    ensures
        ({
            let e = bump(layout, s[i]);
            &&& e.0.len() == layout.composite_width() + TIE_LEN
            &&& composite_of(layout, e.0) == composite
            &&& composite_of(layout, s[i].0) == composite
            &&& tie_of(e.0) == tie_of(s[i].0) + 1
            &&& tie_of(e.0) < TIE_MAX
            &&& primary_of(layout, e.0) == primary_of(layout, s[i].0)
            &&& entry_ok(layout, e)
            &&& lex_lt(s[i].0, e.0)
        }),
{
    lemma_run(layout, s, composite);
    let b = run_end(layout, s, composite);
    assert(entry_ok(layout, s[i]));
    assert(entry_ok(layout, s[b - 1]));
    if i < b - 1 {
        assert(tie_of(s[i].0) < tie_of(s[b - 1].0));
    }
    let t = (tie_of(s[i].0) + 1) as u64;
    lemma_with_tie_parts(layout, composite, t);
    lemma_physical_parts(layout, s[i].0);
    lemma_physical_order(layout, s[i].0, bump(layout, s[i]).0);
}

/// Moving the upper part of a run up keeps the table consistent and leaves
/// its logical entries as they were.
pub proof fn lemma_shifted(layout: KeyLayout, s: Entries, composite: Seq<u8>, lo: int)
    requires
        can_shift(layout, s, composite, lo),
    ensures
        sorted(shifted(layout, s, lo, run_end(layout, s, composite))),
        well_formed(layout, shifted(layout, s, lo, run_end(layout, s, composite))),
        logical(layout, shifted(layout, s, lo, run_end(layout, s, composite))) == logical(
            layout,
            s,
        ),
{
    let a = run_start(layout, s, composite);
    let b = run_end(layout, s, composite);
    let t = shifted(layout, s, lo, b);
    lemma_run(layout, s, composite);
    assert forall|i: int| 0 <= i < t.len() implies entry_ok(layout, #[trigger] t[i])
        && composite_of(layout, t[i].0) == composite_of(layout, s[i].0) && primary_of(
        layout,
        t[i].0,
    ) == primary_of(layout, s[i].0) && t[i].1 == s[i].1 && t[i].0.len() == s[i].0.len() by {
        assert(entry_ok(layout, s[i]));
        if lo <= i < b {
            lemma_bump(layout, s, composite, lo, i);
        }
    }
    assert forall|i: int, j: int| 0 <= i < j < t.len() implies lex_lt(
        #[trigger] t[i].0,
        #[trigger] t[j].0,
    ) by {
        assert(entry_ok(layout, t[i]) && entry_ok(layout, t[j]));
        assert(entry_ok(layout, s[i]) && entry_ok(layout, s[j]));
        assert(lex_lt(s[i].0, s[j].0));
        lemma_physical_order(layout, s[i].0, s[j].0);
        lemma_physical_order(layout, t[i].0, t[j].0);
        if composite_of(layout, s[i].0) == composite_of(layout, s[j].0) {
            if lo <= j < b {
                lemma_bump(layout, s, composite, lo, j);
                if lo <= i {
                    lemma_bump(layout, s, composite, lo, i);
                }
            } else if lo <= i < b {
                assert(composite_of(layout, s[i].0) == composite);
                assert(lex_lt(composite, composite_of(layout, s[j].0)));
                lemma_lex_asymmetric(composite, composite_of(layout, s[j].0));
            }
        }
    }
    assert forall|i: int, j: int|
        0 <= i < j < t.len() && composite_of(layout, #[trigger] t[i].0) == composite_of(
            layout,
            #[trigger] t[j].0,
        ) implies lex_lt(t[i].1, t[j].1) by {
        assert(entry_ok(layout, t[i]) && entry_ok(layout, t[j]));
        assert(composite_of(layout, s[i].0) == composite_of(layout, s[j].0));
    }
    assert(logical(layout, t) =~= logical(layout, s)) by {
        assert forall|i: int| 0 <= i < t.len() implies logical(layout, t)[i] == logical(
            layout,
            s,
        )[i] by {
            assert(entry_ok(layout, t[i]));
        }
    }
}

/// Where the next tie-breaker of the top unmoved entry of a run sorts: right
/// after that entry, and before everything that has moved.
pub proof fn lemma_shift_rank(layout: KeyLayout, s: Entries, composite: Seq<u8>, m: int)
    requires
        can_shift(layout, s, composite, m),
        m < run_end(layout, s, composite),
    ensures
        ({
            let cur = shifted(layout, s, m + 1, run_end(layout, s, composite));
            let up = bump(layout, s[m]);
            &&& rank(cur, up.0) == m + 1
            &&& cur[m] == s[m]
            &&& m + 1 < cur.len() ==> cur[m + 1].0 != up.0
        }),
{
    let b = run_end(layout, s, composite);
    let cur = shifted(layout, s, m + 1, b);
    let up = bump(layout, s[m]);
    lemma_run(layout, s, composite);
    lemma_bump(layout, s, composite, m, m);
    assert forall|i: int| 0 <= i < m + 1 implies lex_lt(#[trigger] cur[i].0, up.0) by {
        assert(cur[i] == s[i]);
        if i < m {
            assert(lex_lt(s[i].0, s[m].0));
            crate::bytes::lemma_lex_transitive(s[i].0, s[m].0, up.0);
        }
    }
    assert forall|i: int| m + 1 <= i < cur.len() implies lex_lt(up.0, #[trigger] cur[i].0) by {
        assert(entry_ok(layout, s[i]));
        if i < b {
            lemma_bump(layout, s, composite, m + 1, i);
            assert(tie_of(s[m].0) < tie_of(s[i].0));
            lemma_physical_order(layout, up.0, cur[i].0);
        } else {
            assert(cur[i] == s[i]);
            assert(lex_lt(composite, composite_of(layout, s[i].0)));
            lemma_physical_order(layout, up.0, cur[i].0);
        }
    }
    lemma_rank_unique(cur, up.0, m + 1);
    if m + 1 < cur.len() {
        assert(lex_lt(up.0, cur[m + 1].0));
        lemma_lex_asymmetric(up.0, cur[m + 1].0);
    }
}

/// One step of the move: writing the top unmoved entry of the run under its
/// next tie-breaker and deleting it under its old one moves it up.
pub proof fn lemma_shift_step(layout: KeyLayout, s: Entries, composite: Seq<u8>, m: int)
    requires
        can_shift(layout, s, composite, m),
        m < run_end(layout, s, composite),
    ensures
        ({
            let b = run_end(layout, s, composite);
            let cur = shifted(layout, s, m + 1, b);
            let up = bump(layout, s[m]);
            let put = put_spec(cur, up.0, up.1);
            &&& rank(cur, up.0) == m + 1
            &&& sorted(put)
            &&& delete_spec(put, s[m].0) == shifted(layout, s, m, b)
        }),
{
    let b = run_end(layout, s, composite);
    let cur = shifted(layout, s, m + 1, b);
    let up = bump(layout, s[m]);
    lemma_run(layout, s, composite);
    lemma_shifted(layout, s, composite, m + 1);
    lemma_shift_rank(layout, s, composite, m);
    crate::store::lemma_move_entry(cur, m, up.0, up.1);
    assert(cur.update(m, up) =~= shifted(layout, s, m, b));
}

/// How a physical entry compares with a pair follows from how its composite
/// key compares with that of the pair.
pub proof fn lemma_entry_vs_pair(
    layout: KeyLayout,
    e: (Seq<u8>, Seq<u8>),
    key: Seq<u8>,
    value: Seq<u8>,
)
    requires
        layout is DupSort,
        entry_ok(layout, e),
        storable(layout, key, value),
    ensures
        ({
            let c = composite_key(layout, key, value);
            let q = (primary_of(layout, e.0), e.1);
            &&& lex_lt(composite_of(layout, e.0), c) ==> pair_lt(q, (key, value))
            &&& lex_lt(c, composite_of(layout, e.0)) ==> pair_lt((key, value), q)
            &&& composite_of(layout, e.0) == c ==> q.0 == key
            &&& c.len() == layout.composite_width()
        }),
{
    let w = layout.subkey_width();
    let pe = primary_of(layout, e.0);
    let se = subkey_of(layout, e.1);
    let sv = subkey_of(layout, value);
    lemma_physical_parts(layout, e.0);
    lemma_lex_concat(pe, se, key, sv);
    lemma_lex_concat(key, sv, pe, se);
    let re = e.1.skip(w);
    let rv = value.skip(w);
    assert(e.1 =~= se + re);
    assert(value =~= sv + rv);
    lemma_lex_concat(se, re, sv, rv);
    lemma_lex_concat(sv, rv, se, re);
}

/// `slot` is where `value` belongs in the run of its composite key: the values
/// below it stand before the slot, the values above it from the slot on, and
/// the run has room to move up.
pub open spec fn slot_ok(
    layout: KeyLayout,
    s: Entries,
    key: Seq<u8>,
    value: Seq<u8>,
    slot: int,
) -> bool {
    let c = composite_key(layout, key, value);
    &&& storable(layout, key, value)
    &&& can_shift(layout, s, c, slot)
    &&& forall|j: int| run_start(layout, s, c) <= j < slot ==> lex_lt((#[trigger] s[j]).1, value)
    &&& forall|j: int| slot <= j < run_end(layout, s, c) ==> lex_lt(value, (#[trigger] s[j]).1)
}

/// The physical key for a new value at `slot`: one tie-breaker above the
/// entry before the slot, or the lowest tie-breaker at the start of the run.
pub open spec fn slot_key(layout: KeyLayout, s: Entries, composite: Seq<u8>, slot: int) -> Seq<
    u8,
> {
    if slot > run_start(layout, s, composite) {
        bump(layout, s[slot - 1]).0
    } else {
        with_tie(layout, composite, 0)
    }
}

/// Once the run has moved up from the slot on, the key of the slot is free and
/// sorts at the slot.
pub proof fn lemma_slot_rank(
    layout: KeyLayout,
    s: Entries,
    key: Seq<u8>,
    value: Seq<u8>,
    slot: int,
)
    requires
        slot_ok(layout, s, key, value, slot),
    ensures
        ({
            let c = composite_key(layout, key, value);
            let cur = shifted(layout, s, slot, run_end(layout, s, c));
            let nk = slot_key(layout, s, c, slot);
            &&& rank(cur, nk) == slot
            &&& slot < cur.len() ==> cur[slot].0 != nk
            &&& put_spec(cur, nk, value) == cur.insert(slot, (nk, value))
            &&& entry_ok(layout, (nk, value))
            &&& composite_of(layout, nk) == c
            &&& primary_of(layout, nk) == key
        }),
{
    let c = composite_key(layout, key, value);
    let a = run_start(layout, s, c);
    let b = run_end(layout, s, c);
    let cur = shifted(layout, s, slot, b);
    let nk = slot_key(layout, s, c, slot);
    lemma_run(layout, s, c);
    crate::dups::lemma_format_round_trip(layout, key, value, 0);
    lemma_with_tie_parts(layout, c, 0);
    if slot > a {
        lemma_bump(layout, s, c, slot, slot - 1);
    }
    assert(nk.len() == layout.composite_width() + TIE_LEN);
    assert(composite_of(layout, nk) == c);
    assert(primary_of(layout, nk) == key) by {
        lemma_physical_parts(layout, nk);
        assert(c.take(layout.key_width()) =~= key);
    }
    assert forall|i: int| 0 <= i < slot implies lex_lt(#[trigger] cur[i].0, nk) by {
        assert(cur[i] == s[i]);
        assert(entry_ok(layout, s[i]));
        lemma_physical_order(layout, s[i].0, nk);
        if a <= i < slot - 1 {
            assert(tie_of(s[i].0) < tie_of(s[slot - 1].0));
        }
    }
    assert forall|i: int| slot <= i < cur.len() implies lex_lt(nk, #[trigger] cur[i].0) by {
        assert(entry_ok(layout, s[i]));
        if i < b {
            lemma_bump(layout, s, c, slot, i);
            if slot > a {
                assert(tie_of(s[slot - 1].0) < tie_of(s[i].0));
            }
        } else {
            assert(cur[i] == s[i]);
        }
        lemma_physical_order(layout, nk, cur[i].0);
    }
    lemma_rank_unique(cur, nk, slot);
    if slot < cur.len() {
        assert(lex_lt(nk, cur[slot].0));
        lemma_lex_asymmetric(nk, cur[slot].0);
    }
}

/// The slot is the index at which the pair belongs among the logical entries,
/// and the table does not hold the pair yet.
pub proof fn lemma_slot_logical(
    layout: KeyLayout,
    s: Entries,
    key: Seq<u8>,
    value: Seq<u8>,
    slot: int,
)
    requires
        slot_ok(layout, s, key, value, slot),
    ensures
        slot == crate::model::pair_rank(logical(layout, s), (key, value)),
        !logical(layout, s).contains((key, value)),
{
    let c = composite_key(layout, key, value);
    let a = run_start(layout, s, c);
    let b = run_end(layout, s, c);
    let p = logical(layout, s);
    let x = (key, value);
    lemma_run(layout, s, c);
    assert forall|i: int| 0 <= i < p.len() implies (if i < slot {
        pair_lt(#[trigger] p[i], x)
    } else {
        pair_lt(x, p[i])
    }) by {
        assert(entry_ok(layout, s[i]));
        lemma_entry_vs_pair(layout, s[i], key, value);
        if a <= i < b {
            assert(composite_of(layout, s[i].0) == c);
            if i < slot {
                assert(lex_lt(s[i].1, value));
            } else {
                assert(lex_lt(value, s[i].1));
            }
        }
    }
    assert forall|i: int| slot <= i < p.len() implies !pair_lt(#[trigger] p[i], x) by {
        assert(pair_lt(x, p[i]));
        crate::model::lemma_pair_order(x, p[i], x);
    }
    crate::model::lemma_pair_rank_unique(p, x, slot);
    if p.contains(x) {
        let i = choose|i: int| 0 <= i < p.len() && p[i] == x;
        assert(if i < slot {
            pair_lt(p[i], x)
        } else {
            pair_lt(x, p[i])
        });
        crate::model::lemma_pair_order(x, x, x);
    }
}

/// Writing the value under the key of its slot, after the run has moved up
/// from the slot on, keeps the table consistent and puts the pair at the slot
/// among the logical entries.
pub proof fn lemma_slot_insert(
    layout: KeyLayout,
    s: Entries,
    key: Seq<u8>,
    value: Seq<u8>,
    slot: int,
)
    requires
        slot_ok(layout, s, key, value, slot),
    ensures
        ({
            let c = composite_key(layout, key, value);
            let cur = shifted(layout, s, slot, run_end(layout, s, c));
            let r = put_spec(cur, slot_key(layout, s, c, slot), value);
            &&& sorted(r)
            &&& well_formed(layout, r)
            &&& logical(layout, r) == logical(layout, s).insert(slot, (key, value))
        }),
{
    let c = composite_key(layout, key, value);
    let a = run_start(layout, s, c);
    let b = run_end(layout, s, c);
    let cur = shifted(layout, s, slot, b);
    let nk = slot_key(layout, s, c, slot);
    lemma_run(layout, s, c);
    lemma_shifted(layout, s, c, slot);
    lemma_slot_rank(layout, s, key, value, slot);
    lemma_put_sorted(cur, nk, value);
    assert forall|i: int|
        0 <= i < cur.len() && composite_of(layout, (#[trigger] cur[i]).0) == c implies (if i
        < slot {
        lex_lt(cur[i].1, value)
    } else {
        lex_lt(value, cur[i].1)
    }) by {
        if slot <= i < b {
            lemma_bump(layout, s, c, slot, i);
        }
        assert(cur[i].1 == s[i].1);
        assert(composite_of(layout, s[i].0) == c);
        lemma_lex_total(c, c);
        assert(a <= i < b);
    }
    crate::table::lemma_insert_well_formed(layout, cur, slot, (nk, value));
}

} // verus!
