//! The Fiat-Shamir transcript as the schemes see it.
//!
//! A [`IOPTranscript`] hands every message on to a Merlin transcript. Its view is
//! the sequence of everything that was absorbed and squeezed; every challenge in
//! it is determined by its label and by what stands before it.

use crate::errors::{invalid_parameters, PCSError};
use crate::field::{
    finv, fmul, is_inverse, le_value, modulus, scalar_bytes, vals, vector_bytes, vector_to_bytes,
    Scalar,
};
use crate::group::{g1_encoding, G1};
use vstd::utf8::encode_utf8;
use vstd::prelude::*;

verus! {

/// The transcript type of the `merlin` crate.
#[verifier::external_type_specification]
#[verifier::external_body]
pub struct ExMerlinTranscript(merlin::Transcript);

/// What a Merlin transcript was given: first the name that it was made with, as
/// the label of an empty message; then under each label a message, or nothing where
/// a challenge was taken.
pub uninterp spec fn merlin_history(t: merlin::Transcript) -> Seq<(Seq<char>, Option<Seq<u8>>)>;

/// The challenge bytes that a Merlin transcript gives after a history, under a
/// label.
pub uninterp spec fn merlin_answer(
    history: Seq<(Seq<char>, Option<Seq<u8>>)>,
    label: Seq<char>,
) -> Seq<u8>;

/// `merlin::Transcript::new`: a transcript that was given its name alone.
#[verifier::external_body]
fn merlin_new(label: &'static str) -> (t: merlin::Transcript)
    ensures
        merlin_history(t) == seq![(label@, Some(Seq::<u8>::empty()))],
{
    merlin::Transcript::new(label.as_bytes())
}

/// `merlin::Transcript::append_message`: the message joins the history under its
/// label. Messages of four gigabytes and more are refused.
#[verifier::external_body]
fn merlin_append(t: &mut merlin::Transcript, label: &'static str, message: &[u8])
    requires
        message@.len() <= u32::MAX,
    ensures
        merlin_history(*final(t)) == merlin_history(*old(t)).push((label@, Some(message@))),
{
    t.append_message(label.as_bytes(), message);
}

/// `merlin::Transcript::challenge_bytes` for 64 bytes: they depend on the history
/// and the label alone, and that they were taken joins the history.
#[verifier::external_body]
fn merlin_challenge(t: &mut merlin::Transcript, label: &'static str) -> (r: [u8; 64])
    ensures
        r@ == merlin_answer(merlin_history(*old(t)), label@),
        merlin_history(*final(t)) == merlin_history(*old(t)).push((label@, None)),
{
    let mut bytes = [0u8; 64];
    t.challenge_bytes(label.as_bytes(), &mut bytes);
    bytes
}

/// One step in the history of a transcript, under its label.
pub enum Entry {
    Domain(Seq<char>),
    Message(Seq<char>, Seq<char>),
    Field(Seq<char>, int),
    Fields(Seq<char>, Seq<int>),
    Point(Seq<char>, int),
    Challenge(Seq<char>, int),
}

/// Whether a vector of `n` field elements fits in one message.
pub open spec fn vector_fits(n: int) -> bool {
    8 + 32 * n <= u32::MAX
}

/// What Merlin is given for an entry.
pub open spec fn entry_history(e: Entry) -> Seq<(Seq<char>, Option<Seq<u8>>)> {
    match e {
        Entry::Domain(d) => seq![(d, Some(Seq::empty()))],
        Entry::Message(l, m) => seq![(l, Some(encode_utf8(m)))],
        Entry::Field(l, v) => seq![(l, Some(scalar_bytes(v)))],
        Entry::Fields(l, vs) => seq![(l, Some(vector_bytes(vs, vs.len() as int)))],
        Entry::Point(l, p) => seq![(l, Some(g1_encoding(p)))],
        Entry::Challenge(l, c) => seq![(l, None), (l, Some(scalar_bytes(c)))],
    }
}

/// What Merlin is given for a history.
pub open spec fn log_history(log: Seq<Entry>) -> Seq<(Seq<char>, Option<Seq<u8>>)>
    decreases log.len(),
{
    if log.len() == 0 {
        Seq::empty()
    } else {
        log_history(log.drop_last()) + entry_history(log.last())
    }
}

/// The challenge that follows a history, under a label.
pub open spec fn answer(log: Seq<Entry>, label: Seq<char>) -> int {
    le_value(merlin_answer(log_history(log), label)) % modulus()
}

/// Whether every challenge of a history is the one that follows what stands
/// before it.
pub open spec fn is_course(log: Seq<Entry>) -> bool {
    forall|i: int|
        0 <= i < log.len() ==> (#[trigger] log[i] matches Entry::Challenge(l, c) ==> c == answer(
            log.take(i),
            l,
        ))
}

/// A Merlin transcript with its history.
struct Sponge {
    inner: merlin::Transcript,
    heard: Ghost<Seq<Entry>>,
}

impl Sponge {
    spec fn wf(&self) -> bool {
        &&& merlin_history(self.inner) == log_history(self.heard@)
        &&& is_course(self.heard@)
    }

    fn new(domain: &'static str) -> (s: Sponge)
        ensures
            s.wf(),
            s.heard@ == seq![Entry::Domain(domain@)],
    {
        let ghost start = seq![Entry::Domain(domain@)];
        proof {
            assert(start.drop_last() =~= Seq::<Entry>::empty());
            assert(log_history(start) =~= seq![(domain@, Some(Seq::<u8>::empty()))]) by {
                reveal_with_fuel(log_history, 2);
            }
        }
        Sponge { inner: merlin_new(domain), heard: Ghost(start) }
    }
}

/// A course goes on with the answer to it, or with anything that is no
/// challenge.
proof fn lemma_course_push(log: Seq<Entry>, e: Entry)
    requires
        is_course(log),
        e matches Entry::Challenge(l, c) ==> c == answer(log, l),
    ensures
        is_course(log.push(e)),
        log_history(log.push(e)) == log_history(log) + entry_history(e),
{
    let next = log.push(e);
    assert forall|i: int| 0 <= i < next.len() implies (#[trigger] next[i] matches Entry::Challenge(
        l,
        c,
    ) ==> c == answer(next.take(i), l)) by {
        if i < log.len() {
            assert(next[i] == log[i]);
            assert(next.take(i) =~= log.take(i));
        } else {
            assert(next.take(i) =~= log);
        }
    }
    assert(next.drop_last() =~= log);
}

/// A Fiat-Shamir transcript.
pub struct IOPTranscript {
    sponge: Sponge,
}

impl View for IOPTranscript {
    type V = Seq<Entry>;

    closed spec fn view(&self) -> Seq<Entry> {
        self.sponge.heard@
    }
}

impl IOPTranscript {
    /// The history is what Merlin was given, and a course.
    #[verifier::type_invariant]
    pub closed spec fn on_course(self) -> bool {
        self.sponge.wf()
    }

    pub proof fn lemma_course(self)
        requires
            self.on_course(),
        ensures
            is_course(self@),
    {
    }

    /// A fresh transcript for the given domain.
    pub fn new(domain: &'static str) -> (r: IOPTranscript)
        ensures
            r@ == seq![Entry::Domain(domain@)],
    {
        IOPTranscript { sponge: Sponge::new(domain) }
    }

    /// Takes the sponge out of the transcript and leaves a fresh one in its
    /// place, so that the transcript is on course whatever becomes of the
    /// sponge.
    fn take_sponge(&mut self) -> (s: Sponge)
        ensures
            s.wf(),
            s.heard@ == old(self)@,
    {
        proof {
            use_type_invariant(&*self);
        }
        let mut s = Sponge::new("");
        std::mem::swap(&mut s, &mut self.sponge);
        s
    }

    /// Appends a text.
    pub fn append_message(&mut self, label: &'static str, message: &'static str)
        requires
            encode_utf8(message@).len() <= u32::MAX,
        ensures
            final(self)@ == old(self)@.push(Entry::Message(label@, message@)),
    {
        let mut s = self.take_sponge();
        proof {
            lemma_course_push(s.heard@, Entry::Message(label@, message@));
        }
        merlin_append(&mut s.inner, label, message.as_bytes());
        s.heard = Ghost(s.heard@.push(Entry::Message(label@, message@)));
        assert(merlin_history(s.inner) =~= log_history(s.heard@));
        self.sponge = s;
    }

    /// Appends a field element.
    pub fn append_field_element(&mut self, label: &'static str, value: &Scalar)
        ensures
            final(self)@ == old(self)@.push(Entry::Field(label@, value@)),
    {
        let mut s = self.take_sponge();
        proof {
            lemma_course_push(s.heard@, Entry::Field(label@, value@));
        }
        merlin_append(&mut s.inner, label, value.to_bytes().as_slice());
        s.heard = Ghost(s.heard@.push(Entry::Field(label@, value@)));
        assert(merlin_history(s.inner) =~= log_history(s.heard@));
        self.sponge = s;
    }

    /// Appends a vector of field elements as one message.
    pub fn append_field_elements(&mut self, label: &'static str, values: &[Scalar])
        requires
            vector_fits(values@.len() as int),
        ensures
            final(self)@ == old(self)@.push(Entry::Fields(label@, vals(values@))),
    {
        let mut s = self.take_sponge();
        proof {
            lemma_course_push(s.heard@, Entry::Fields(label@, vals(values@)));
        }
        merlin_append(&mut s.inner, label, vector_to_bytes(values).as_slice());
        s.heard = Ghost(s.heard@.push(Entry::Fields(label@, vals(values@))));
        assert(merlin_history(s.inner) =~= log_history(s.heard@));
        self.sponge = s;
    }

    /// Appends a point.
    pub fn append_point(&mut self, label: &'static str, point: &G1)
        ensures
            final(self)@ == old(self)@.push(Entry::Point(label@, point@)),
    {
        let mut s = self.take_sponge();
        proof {
            lemma_course_push(s.heard@, Entry::Point(label@, point@));
        }
        merlin_append(&mut s.inner, label, point.to_bytes().as_slice());
        s.heard = Ghost(s.heard@.push(Entry::Point(label@, point@)));
        assert(merlin_history(s.inner) =~= log_history(s.heard@));
        self.sponge = s;
    }

    /// Draws a challenge, which the transcript absorbs in turn.
    pub fn get_and_append_challenge(&mut self, label: &'static str) -> (c: Scalar)
        ensures
            c@ == answer(old(self)@, label@),
            final(self)@ == old(self)@.push(Entry::Challenge(label@, c@)),
    {
        let mut s = self.take_sponge();
        let bytes = merlin_challenge(&mut s.inner, label);
        let c = Scalar::from_bytes_mod_order(bytes.as_slice());
        proof {
            lemma_course_push(s.heard@, Entry::Challenge(label@, c@));
        }
        merlin_append(&mut s.inner, label, c.to_bytes().as_slice());
        s.heard = Ghost(s.heard@.push(Entry::Challenge(label@, c@)));
        assert(merlin_history(s.inner) =~= log_history(s.heard@));
        self.sponge = s;
        c
    }
}

/// Number of challenges that are drawn before a prover or verifier gives up.
pub const MAX_CHALLENGE_RETRY: usize = 64;

/// Whether `new` is the history `old` followed by draws under the label of
/// which the last alone is usable and is `result`, or by the greatest number
/// of draws with none usable where there is no result.
pub open spec fn drawn(
    old_log: Seq<Entry>,
    new_log: Seq<Entry>,
    label: Seq<char>,
    usable: spec_fn(int) -> bool,
    result: Option<int>,
) -> bool {
    let a = old_log.len();
    let b = new_log.len();
    &&& a <= b <= a + MAX_CHALLENGE_RETRY
    &&& new_log.take(a as int) == old_log
    &&& forall|i: int|
        a <= i < b ==> (#[trigger] new_log[i] matches Entry::Challenge(l, c) && l == label && (
        usable(c) <==> (result is Some && i == b - 1)))
    &&& match result {
        Some(c) => a < b && new_log[b - 1] == Entry::Challenge(label, c),
        None => b == a + MAX_CHALLENGE_RETRY,
    }
}

/// Whether a challenge is not zero.
pub open spec fn nonzero() -> spec_fn(int) -> bool {
    |c: int| c != 0
}

/// Whether a challenge and its inverse are distinct points.
pub open spec fn reciprocal() -> spec_fn(int) -> bool {
    |c: int| c != 0 && fmul(c, c) != 1
}

/// Draws a challenge that is not zero.
pub fn draw_nonzero(t: &mut IOPTranscript, label: &'static str) -> (r: Result<Scalar, PCSError>)
    ensures
        drawn(
            old(t)@,
            final(t)@,
            label@,
            nonzero(),
            match r {
                Ok(c) => Some(c@),
                Err(_) => None,
            },
        ),
        r matches Ok(c) ==> c@ != 0,
        r matches Err(e) ==> e is InvalidParameters,
{
    let ghost l0 = t@;
    let mut i: usize = 0;
    while i < MAX_CHALLENGE_RETRY
        invariant
            i <= MAX_CHALLENGE_RETRY,
            l0 == old(t)@,
            t@.len() == l0.len() + i,
            t@.take(l0.len() as int) == l0,
            forall|k: int|
                l0.len() <= k < t@.len() ==> (#[trigger] t@[k] matches Entry::Challenge(l, c) && l
                    == label@ && c == 0),
        decreases MAX_CHALLENGE_RETRY - i,
    {
        let ghost before = t@;
        let c = t.get_and_append_challenge(label);
        assert(t@.take(l0.len() as int) =~= before.take(l0.len() as int));
        assert forall|k: int| l0.len() <= k < before.len() implies t@[k] == before[k] by {}
        if !c.is_zero() {
            return Ok(c);
        }
        i = i + 1;
    }
    Err(invalid_parameters("exhausted retries drawing a nonzero challenge"))
}

/// Draws a challenge that differs from its inverse, and returns both.
pub fn draw_reciprocal(t: &mut IOPTranscript, label: &'static str) -> (r: Result<
    (Scalar, Scalar),
    PCSError,
>)
    ensures
        drawn(
            old(t)@,
            final(t)@,
            label@,
            reciprocal(),
            match r {
                Ok(c) => Some(c.0@),
                Err(_) => None,
            },
        ),
        r matches Ok(c) ==> reciprocal()(c.0@) && c.1@ == finv(c.0@) && is_inverse(c.0@, c.1@),
        r matches Err(e) ==> e is InvalidParameters,
{
    let ghost l0 = t@;
    let mut i: usize = 0;
    while i < MAX_CHALLENGE_RETRY
        invariant
            i <= MAX_CHALLENGE_RETRY,
            l0 == old(t)@,
            t@.len() == l0.len() + i,
            t@.take(l0.len() as int) == l0,
            forall|k: int|
                l0.len() <= k < t@.len() ==> (#[trigger] t@[k] matches Entry::Challenge(l, c) && l
                    == label@ && !reciprocal()(c)),
        decreases MAX_CHALLENGE_RETRY - i,
    {
        let ghost before = t@;
        let c = t.get_and_append_challenge(label);
        assert(t@.take(l0.len() as int) =~= before.take(l0.len() as int));
        assert forall|k: int| l0.len() <= k < before.len() implies t@[k] == before[k] by {}
        let one = Scalar::one();
        let sq = c.square();
        if !c.is_zero() && !sq.equals(&one) {
            assert(reciprocal()(c@));
            let c_inv = c.inverse().unwrap();
            return Ok((c, c_inv));
        }
        assert(!reciprocal()(c@));
        i = i + 1;
    }
    Err(invalid_parameters("exhausted retries drawing a reciprocal challenge"))
}

/// A prefix of a prefix is a prefix.
pub proof fn lemma_prefix_trans(a: Seq<Entry>, b: Seq<Entry>, c: Seq<Entry>)
    requires
        a.is_prefix_of(b),
        b.is_prefix_of(c),
    ensures
        a.is_prefix_of(c),
{
    assert(a =~= c.subrange(0, a.len() as int)) by {
        assert forall|i: int| 0 <= i < a.len() implies a[i] == c[i] by {
            assert(a[i] == b.subrange(0, a.len() as int)[i]);
            assert(b[i] == c.subrange(0, b.len() as int)[i]);
        }
    }
}

/// What stood before a draw still stands after it.
pub proof fn lemma_drawn_prefix(
    log: Seq<Entry>,
    after: Seq<Entry>,
    label: Seq<char>,
    usable: spec_fn(int) -> bool,
    result: Option<int>,
)
    requires
        drawn(log, after, label, usable, result),
    ensures
        log.is_prefix_of(after),
{
    assert(after.take(log.len() as int) =~= after.subrange(0, log.len() as int));
}

/// A challenge of a course is the answer to what stands before it.
pub proof fn lemma_course_challenge(end: Seq<Entry>, before: Seq<Entry>, label: Seq<char>, c: int)
    requires
        is_course(end),
        before.push(Entry::Challenge(label, c)).is_prefix_of(end),
    ensures
        c == answer(before, label),
{
    let n = before.len() as int;
    let next = before.push(Entry::Challenge(label, c));
    assert(next[n] == end.subrange(0, n + 1)[n]);
    assert(end[n] == Entry::Challenge(label, c));
    assert(before =~= end.take(n)) by {
        assert forall|i: int| 0 <= i < n implies before[i] == end[i] by {
            assert(next[i] == end.subrange(0, n + 1)[i]);
        }
    }
}

/// The entries of two draws from one history agree as long as both go on.
proof fn lemma_draws_agree(
    log: Seq<Entry>,
    end: Seq<Entry>,
    other: Seq<Entry>,
    first: Seq<Entry>,
    second: Seq<Entry>,
    label: Seq<char>,
    usable: spec_fn(int) -> bool,
    c: Option<int>,
    d: Option<int>,
    n: int,
)
    requires
        is_course(end),
        is_course(other),
        drawn(log, first, label, usable, c),
        drawn(log, second, label, usable, d),
        first.is_prefix_of(end),
        second.is_prefix_of(other),
        0 <= n <= first.len(),
        n <= second.len(),
    ensures
        first.take(n) == second.take(n),
    decreases n,
{
    if n <= log.len() {
        assert forall|i: int| 0 <= i < n implies first[i] == second[i] by {
            assert(first.take(log.len() as int)[i] == second.take(log.len() as int)[i]);
        }
    } else {
        lemma_draws_agree(log, end, other, first, second, label, usable, c, d, n - 1);
        assert(first[n - 1] is Challenge);
        assert(second[n - 1] is Challenge);
        let x = first[n - 1]->Challenge_1;
        let y = second[n - 1]->Challenge_1;
        let before = first.take(n - 1);
        assert(before.push(first[n - 1]) =~= first.take(n));
        assert(before.push(second[n - 1]) =~= second.take(n));
        assert(first.take(n).is_prefix_of(first));
        assert(second.take(n).is_prefix_of(second));
        lemma_prefix_trans(first.take(n), first, end);
        lemma_prefix_trans(second.take(n), second, other);
        lemma_course_challenge(end, before, label, x);
        lemma_course_challenge(other, before, label, y);
    }
    assert(first.take(n) =~= second.take(n));
}

/// A draw is determined by what stands before it: on any two courses it takes
/// the same challenges and comes to the same end.
pub proof fn law_draw_is_determined(
    log: Seq<Entry>,
    end: Seq<Entry>,
    other: Seq<Entry>,
    first: Seq<Entry>,
    second: Seq<Entry>,
    label: Seq<char>,
    usable: spec_fn(int) -> bool,
    c: Option<int>,
    d: Option<int>,
)
    requires
        is_course(end),
        is_course(other),
        drawn(log, first, label, usable, c),
        drawn(log, second, label, usable, d),
        first.is_prefix_of(end),
        second.is_prefix_of(other),
    ensures
        first == second,
        c == d,
{
    let m = first.len() as int;
    let n = second.len() as int;
    let k = if m <= n {
        m
    } else {
        n
    };
    lemma_draws_agree(log, end, other, first, second, label, usable, c, d, k);
    assert forall|i: int| 0 <= i < k implies first[i] == second[i] by {
        assert(first.take(k)[i] == second.take(k)[i]);
    }
    if m < n {
        assert(second[m - 1] == first[m - 1]);
        assert(false);
    }
    if n < m {
        assert(first[n - 1] == second[n - 1]);
        assert(false);
    }
    assert(first =~= second);
    if m > log.len() {
        assert(first[m - 1] == second[m - 1]);
    }
}

} // verus!
