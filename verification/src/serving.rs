//! How a run that is served may still end without a result: on challenges that cannot
//! be used.

use crate::transcript::{drawn, is_course, lemma_drawn_prefix, lemma_prefix_trans, Entry};
use vstd::prelude::*;

verus! {

/// Whether the challenge `c` was drawn under a label in a course that goes on from
/// `start` to `end`.
pub open spec fn heard(start: Seq<Entry>, end: Seq<Entry>, label: Seq<char>, c: int) -> bool {
    &&& is_course(end)
    &&& start.is_prefix_of(end)
    &&& exists|i: int|
        start.len() <= i < end.len() && #[trigger] end[i] == Entry::Challenge(label, c)
}

/// Whether a course that goes on from `start` ends in 64 challenges under one label of
/// which none is usable.
pub open spec fn exhausted(
    start: Seq<Entry>,
    end: Seq<Entry>,
    label: Seq<char>,
    usable: spec_fn(int) -> bool,
) -> bool {
    &&& is_course(end)
    &&& start.is_prefix_of(end)
    &&& start.len() + 64 <= end.len()
    &&& forall|i: int|
        end.len() - 64 <= i < end.len() ==> (#[trigger] end[i] matches Entry::Challenge(l, c) && l
            == label && !usable(c))
}

pub(crate) proof fn lemma_heard(
    start: Seq<Entry>,
    before: Seq<Entry>,
    end: Seq<Entry>,
    label: Seq<char>,
    c: int,
)
    requires
        is_course(end),
        start.is_prefix_of(before),
        before.push(Entry::Challenge(label, c)).is_prefix_of(end),
    ensures
        heard(start, end, label, c),
{
    let next = before.push(Entry::Challenge(label, c));
    let i = before.len() as int;
    lemma_prefix_trans(start, before, next);
    lemma_prefix_trans(start, next, end);
    assert(next[i] == end.subrange(0, next.len() as int)[i]);
    assert(end[i] == Entry::Challenge(label, c));
}

pub(crate) proof fn lemma_exhausted(
    start: Seq<Entry>,
    before: Seq<Entry>,
    end: Seq<Entry>,
    label: Seq<char>,
    usable: spec_fn(int) -> bool,
)
    requires
        is_course(end),
        start.is_prefix_of(before),
        drawn(before, end, label, usable, None),
    ensures
        exhausted(start, end, label, usable),
{
    lemma_drawn_prefix(before, end, label, usable, None);
    lemma_prefix_trans(start, before, end);
    assert(end.len() == before.len() + 64);
}

} // verus!
