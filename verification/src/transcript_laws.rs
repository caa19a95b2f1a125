//! What a transcript binds: different values lead to different histories.

use crate::field::{le_value, length_bytes, modulus, reduced, scalar_bytes, vector_bytes};
use crate::transcript::{drawn, entry_history, log_history, Entry};
use vstd::prelude::*;

verus! {

/// The number of values of `n` bytes.
spec fn byte_range(n: int) -> int
    decreases n,
{
    if n <= 0 {
        1
    } else {
        256 * byte_range(n - 1)
    }
}

/// The bytes of a number, least significant first.
spec fn le_bytes(v: int, n: int) -> Seq<u8>
    decreases n,
{
    if n <= 0 {
        Seq::empty()
    } else {
        seq![(v % 256) as u8] + le_bytes(v / 256, n - 1)
    }
}

proof fn lemma_le_bytes(v: int, n: int)
    requires
        0 <= n,
        0 <= v < byte_range(n),
    ensures
        le_bytes(v, n).len() == n,
        le_value(le_bytes(v, n)) == v,
    decreases n,
{
    if n > 0 {
        lemma_le_bytes(v / 256, n - 1);
        let b = le_bytes(v, n);
        assert(b.skip(1) =~= le_bytes(v / 256, n - 1));
        assert(b[0] == v % 256);
    }
}

/// The bytes of a field element hold its value.
pub proof fn law_scalar_bytes(v: int)
    requires
        reduced(v),
    ensures
        scalar_bytes(v).len() == 32,
        le_value(scalar_bytes(v)) == v,
{
    reveal_with_fuel(byte_range, 9);
    reveal(modulus);
    assert(byte_range(8) == 0x1_0000_0000_0000_0000);
    assert(byte_range(16) == 0x1_0000_0000_0000_0000_0000_0000_0000_0000);
    assert(byte_range(24) == 0x1_0000_0000_0000_0000_0000_0000_0000_0000_0000_0000_0000_0000);
    assert(byte_range(32)
        == 0x1_0000_0000_0000_0000_0000_0000_0000_0000_0000_0000_0000_0000_0000_0000_0000_0000);
    lemma_le_bytes(v, 32);
    let b = le_bytes(v, 32);
    assert(b.len() == 32 && le_value(b) == v);
}

proof fn lemma_length_bytes(n: int)
    requires
        0 <= n < 0x1_0000_0000_0000_0000,
    ensures
        length_bytes(n).len() == 8,
        le_value(length_bytes(n)) == n,
{
    reveal_with_fuel(byte_range, 9);
    lemma_le_bytes(n, 8);
    let b = le_bytes(n, 8);
    assert(b.len() == 8 && le_value(b) == n);
}

proof fn lemma_vector_len(vs: Seq<int>, n: int)
    requires
        0 <= n <= vs.len(),
        vs.len() < 0x1_0000_0000_0000_0000,
        forall|i: int| 0 <= i < vs.len() ==> reduced(#[trigger] vs[i]),
    ensures
        vector_bytes(vs, n).len() == 8 + 32 * n,
        vector_bytes(vs, n).take(8) == length_bytes(vs.len() as int),
    decreases n,
{
    lemma_length_bytes(vs.len() as int);
    if n > 0 {
        lemma_vector_len(vs, n - 1);
        law_scalar_bytes(vs[n - 1]);
        assert(vector_bytes(vs, n).take(8) =~= vector_bytes(vs, n - 1).take(8));
    } else {
        assert(vector_bytes(vs, n).take(8) =~= length_bytes(vs.len() as int));
    }
}

proof fn lemma_vector_entries(vs: Seq<int>, ws: Seq<int>, n: int)
    requires
        0 <= n <= vs.len(),
        vs.len() == ws.len(),
        vs.len() < 0x1_0000_0000_0000_0000,
        forall|i: int| 0 <= i < vs.len() ==> reduced(#[trigger] vs[i]),
        forall|i: int| 0 <= i < ws.len() ==> reduced(#[trigger] ws[i]),
        vector_bytes(vs, n) == vector_bytes(ws, n),
    ensures
        forall|i: int| 0 <= i < n ==> #[trigger] vs[i] == ws[i],
    decreases n,
{
    if n > 0 {
        lemma_vector_len(vs, n - 1);
        lemma_vector_len(ws, n - 1);
        law_scalar_bytes(vs[n - 1]);
        law_scalar_bytes(ws[n - 1]);
        let a = vector_bytes(vs, n);
        let b = vector_bytes(ws, n);
        let k = 8 + 32 * (n - 1);
        assert(a.take(k) =~= vector_bytes(vs, n - 1));
        assert(b.take(k) =~= vector_bytes(ws, n - 1));
        assert(a.skip(k) =~= scalar_bytes(vs[n - 1]));
        assert(b.skip(k) =~= scalar_bytes(ws[n - 1]));
        lemma_vector_entries(vs, ws, n - 1);
    }
}

/// A transcript that is given a vector of field elements binds its label, its length and
/// each of its elements.
pub proof fn law_vector_is_bound(l: Seq<char>, vs: Seq<int>, m: Seq<char>, ws: Seq<int>)
    requires
        vs.len() < 0x1_0000_0000_0000_0000,
        ws.len() < 0x1_0000_0000_0000_0000,
        forall|i: int| 0 <= i < vs.len() ==> reduced(#[trigger] vs[i]),
        forall|i: int| 0 <= i < ws.len() ==> reduced(#[trigger] ws[i]),
        entry_history(Entry::Fields(l, vs)) == entry_history(Entry::Fields(m, ws)),
    ensures
        l == m,
        vs == ws,
{
    let a = entry_history(Entry::Fields(l, vs));
    let b = entry_history(Entry::Fields(m, ws));
    assert(a[0] == b[0]);
    lemma_vector_len(vs, vs.len() as int);
    lemma_vector_len(ws, ws.len() as int);
    lemma_length_bytes(vs.len() as int);
    lemma_length_bytes(ws.len() as int);
    lemma_vector_entries(vs, ws, vs.len() as int);
    assert(vs =~= ws);
}

/// A transcript that is given a field element binds its label and its value.
pub proof fn law_field_is_bound(l: Seq<char>, v: int, m: Seq<char>, w: int)
    requires
        reduced(v),
        reduced(w),
        entry_history(Entry::Field(l, v)) == entry_history(Entry::Field(m, w)),
    ensures
        l == m,
        v == w,
{
    let a = entry_history(Entry::Field(l, v));
    let b = entry_history(Entry::Field(m, w));
    assert(a[0] == b[0]);
    law_scalar_bytes(v);
    law_scalar_bytes(w);
}

/// A transcript that drew a challenge binds its label and its value.
pub proof fn law_challenge_is_bound(l: Seq<char>, v: int, m: Seq<char>, w: int)
    requires
        reduced(v),
        reduced(w),
        entry_history(Entry::Challenge(l, v)) == entry_history(Entry::Challenge(m, w)),
    ensures
        l == m,
        v == w,
{
    let a = entry_history(Entry::Challenge(l, v));
    let b = entry_history(Entry::Challenge(m, w));
    assert(a[1] == b[1]);
    law_scalar_bytes(v);
    law_scalar_bytes(w);
}

/// A history goes on from what stands before: what Merlin is given for a longer history
/// starts with what it is given for the shorter one.
pub proof fn law_history_goes_on(log: Seq<Entry>, e: Entry)
    ensures
        log_history(log.push(e)) == log_history(log) + entry_history(e),
        entry_history(e).len() > 0,
{
    assert(log.push(e).drop_last() =~= log);
}

/// A challenge that was drawn is usable and stands last, behind fewer than 64 draws under
/// its label that were not.
pub proof fn law_drawn_is_usable(
    old_log: Seq<Entry>,
    new_log: Seq<Entry>,
    label: Seq<char>,
    usable: spec_fn(int) -> bool,
    c: int,
)
    requires
        drawn(old_log, new_log, label, usable, Some(c)),
    ensures
        usable(c),
        old_log.len() < new_log.len() <= old_log.len() + 64,
        new_log.take(old_log.len() as int) == old_log,
        new_log.last() == Entry::Challenge(label, c),
        forall|i: int|
            old_log.len() <= i < new_log.len() - 1 ==> (#[trigger] new_log[i] matches
                Entry::Challenge(l, d) && l == label && !usable(d)),
{
    assert(new_log[new_log.len() - 1] == Entry::Challenge(label, c));
}

/// Draws are given up after 64 under one label of which none is usable.
pub proof fn law_draws_are_exhausted(
    old_log: Seq<Entry>,
    new_log: Seq<Entry>,
    label: Seq<char>,
    usable: spec_fn(int) -> bool,
)
    requires
        drawn(old_log, new_log, label, usable, None),
    ensures
        new_log.len() == old_log.len() + 64,
        new_log.take(old_log.len() as int) == old_log,
        forall|i: int|
            old_log.len() <= i < new_log.len() ==> (#[trigger] new_log[i] matches
                Entry::Challenge(l, d) && l == label && !usable(d)),
{
}

} // verus!
