//! What an opening and a verification of it come to together.

use crate::batching::BatchPlan;
use crate::batching_laws::{
    combined_commitment, is_batch_of, law_reordered_batch_commitment, reordered,
};
use crate::chopin::{
    fresh_log, is_opening, is_verification, key_model, key_point, key_table, opened, opening_ok,
    table_commitment, verification_ok, verified, verifier_stopped, ChopinProof,
};
use crate::chopin::laws::{key_of, law_honest_run_is_accepted};
use crate::chopin::model::{
    after_alpha, honest_claims, honest_proof, honest_values, is_batch_run, is_honest_run,
    is_honest_stop, is_opening_run, is_stopped_run, is_verdict, left_part, opening_holds,
    right_part, run_end, stated, usable_beta, usable_z, with_restriction, with_values,
    ChopinChallenges, ChopinKey, ChopinModel, ChopinRun,
};
use crate::chopin::srs::{
    is_grid_key, layout, lemma_base_of_position, lemma_grid_dims, position_base, ChopinProverParam,
    ChopinVerifierParam,
};
use crate::dims::{lemma_pow2_mono, lemma_row_major, padded};
use crate::errors::PCSError;
use crate::field::{vals, Scalar};
use crate::grid::law_padding_keeps_value;
use crate::group::G1;
use crate::poly::dot;
use crate::tensor::{mle_eval, Mle};
use crate::transcript::{
    answer, drawn, is_course, law_draw_is_determined, lemma_course_challenge, lemma_drawn_prefix,
    lemma_prefix_trans, nonzero, Entry,
};
use vstd::arithmetic::power2::pow2;
use vstd::prelude::*;

verus! {

/// Whether two provers send the same for the same challenges so far.
pub open spec fn send_alike(
    p: ChopinModel,
    c: ChopinChallenges,
    q: ChopinModel,
    d: ChopinChallenges,
) -> bool {
    let gamma = c.alpha == d.alpha && c.gamma == d.gamma;
    let beta = gamma && c.beta == d.beta;
    &&& p.comm_f_zr == q.comm_f_zr
    &&& c.alpha == d.alpha ==> p.comm_f_alpha == q.comm_f_alpha && p.a == q.a
    &&& gamma ==> p.comm_s == q.comm_s
    &&& beta ==> with_values(Seq::empty(), p) == with_values(Seq::empty(), q)
    &&& beta && c.rho == d.rho ==> p.batch_w == q.batch_w
}

proof fn lemma_values_alike(log: Seq<Entry>, p: ChopinModel, q: ChopinModel)
    requires
        with_values(Seq::empty(), p) == with_values(Seq::empty(), q),
    ensures
        with_values(log, p) == with_values(log, q),
{
    let e = Seq::<Entry>::empty();
    assert(with_values(log, p) =~= log + with_values(e, p));
    assert(with_values(log, q) =~= log + with_values(e, q));
}

/// The histories of a run up to the values are prefixes of the last of them.
proof fn lemma_opening_prefixes(
    start: Seq<Entry>,
    p: ChopinModel,
    c: ChopinChallenges,
    h: ChopinRun,
)
    requires
        is_opening_run(start, p, c, h),
    ensures
        h.after_gamma.is_prefix_of(h.after_beta),
        with_restriction(start, p, c.alpha).is_prefix_of(h.after_beta),
{
    let l0 = with_restriction(start, p, c.alpha);
    let l1 = h.after_gamma.push(Entry::Point("cs"@, p.comm_s));
    lemma_drawn_prefix(l0, h.after_gamma, "gamma"@, nonzero(), Some(c.gamma));
    lemma_drawn_prefix(l1, h.after_beta, "beta"@, usable_beta(c.alpha), Some(c.beta));
    assert(h.after_gamma.is_prefix_of(l1));
    lemma_prefix_trans(h.after_gamma, l1, h.after_beta);
    lemma_prefix_trans(l0, h.after_gamma, h.after_beta);
}

/// The histories of a whole run are prefixes of its end.
proof fn lemma_run_prefixes(start: Seq<Entry>, p: ChopinModel, c: ChopinChallenges, h: ChopinRun)
    requires
        is_opening_run(start, p, c, h),
        is_batch_run(p, c, h),
    ensures
        h.after_z.is_prefix_of(run_end(p, h)),
        h.after_rho.is_prefix_of(run_end(p, h)),
        h.after_beta.is_prefix_of(run_end(p, h)),
        h.after_gamma.is_prefix_of(run_end(p, h)),
        with_restriction(start, p, c.alpha).is_prefix_of(run_end(p, h)),
{
    let end = run_end(p, h);
    let l2 = with_values(h.after_beta, p);
    let l3 = h.after_rho.push(Entry::Point("w"@, p.batch_w));
    lemma_opening_prefixes(start, p, c, h);
    lemma_drawn_prefix(l2, h.after_rho, "rho"@, nonzero(), Some(c.rho));
    lemma_drawn_prefix(l3, h.after_z, "z"@, usable_z(c.alpha, c.beta), Some(c.z));
    assert(h.after_z.is_prefix_of(end));
    assert(h.after_rho.is_prefix_of(l3));
    lemma_prefix_trans(h.after_rho, l3, h.after_z);
    lemma_prefix_trans(h.after_rho, h.after_z, end);
    assert(h.after_beta.is_prefix_of(l2));
    lemma_prefix_trans(h.after_beta, l2, h.after_rho);
    lemma_prefix_trans(h.after_beta, h.after_rho, end);
    lemma_prefix_trans(h.after_gamma, h.after_beta, end);
    lemma_prefix_trans(with_restriction(start, p, c.alpha), h.after_beta, end);
}

/// The first challenge of a run is determined by the history before it.
proof fn lemma_alpha(start: Seq<Entry>, end: Seq<Entry>, p: ChopinModel, alpha: int)
    requires
        is_course(end),
        with_restriction(start, p, alpha).is_prefix_of(end),
    ensures
        alpha == answer(start.push(Entry::Point("c0"@, p.comm_f_zr)), "alpha"@),
{
    let l = after_alpha(start, p, alpha);
    assert(l.is_prefix_of(with_restriction(start, p, alpha)));
    lemma_prefix_trans(l, with_restriction(start, p, alpha), end);
    lemma_course_challenge(
        end,
        start.push(Entry::Point("c0"@, p.comm_f_zr)),
        "alpha"@,
        alpha,
    );
}

/// The course of a run up to the values is determined by what stands before it
/// and what is sent.
proof fn lemma_opening_determined(
    start: Seq<Entry>,
    end: Seq<Entry>,
    p: ChopinModel,
    c: ChopinChallenges,
    h: ChopinRun,
    other: Seq<Entry>,
    q: ChopinModel,
    d: ChopinChallenges,
    k: ChopinRun,
)
    requires
        is_course(end),
        is_course(other),
        is_opening_run(start, p, c, h),
        is_opening_run(start, q, d, k),
        h.after_beta.is_prefix_of(end),
        k.after_beta.is_prefix_of(other),
        send_alike(p, c, q, d),
    ensures
        c.alpha == d.alpha,
        c.gamma == d.gamma,
        c.beta == d.beta,
        h.after_gamma == k.after_gamma,
        h.after_beta == k.after_beta,
{
    lemma_opening_prefixes(start, p, c, h);
    lemma_opening_prefixes(start, q, d, k);
    lemma_prefix_trans(h.after_gamma, h.after_beta, end);
    lemma_prefix_trans(k.after_gamma, k.after_beta, other);
    lemma_prefix_trans(with_restriction(start, p, c.alpha), h.after_beta, end);
    lemma_prefix_trans(with_restriction(start, q, d.alpha), k.after_beta, other);
    lemma_alpha(start, end, p, c.alpha);
    lemma_alpha(start, other, q, d.alpha);
    law_draw_is_determined(
        with_restriction(start, p, c.alpha),
        end,
        other,
        h.after_gamma,
        k.after_gamma,
        "gamma"@,
        nonzero(),
        Some(c.gamma),
        Some(d.gamma),
    );
    law_draw_is_determined(
        h.after_gamma.push(Entry::Point("cs"@, p.comm_s)),
        end,
        other,
        h.after_beta,
        k.after_beta,
        "beta"@,
        usable_beta(c.alpha),
        Some(c.beta),
        Some(d.beta),
    );
}

/// The course of a run is determined by what stands before it and what is sent.
pub proof fn law_run_is_determined(
    start: Seq<Entry>,
    p: ChopinModel,
    c: ChopinChallenges,
    h: ChopinRun,
    q: ChopinModel,
    d: ChopinChallenges,
    k: ChopinRun,
)
    requires
        is_opening_run(start, p, c, h),
        is_batch_run(p, c, h),
        is_opening_run(start, q, d, k),
        is_batch_run(q, d, k),
        is_course(run_end(p, h)),
        is_course(run_end(q, k)),
        send_alike(p, c, q, d),
    ensures
        c == d,
        h == k,
{
    let end = run_end(p, h);
    let other = run_end(q, k);
    lemma_run_prefixes(start, p, c, h);
    lemma_run_prefixes(start, q, d, k);
    lemma_opening_determined(start, end, p, c, h, other, q, d, k);
    lemma_values_alike(h.after_beta, p, q);
    law_draw_is_determined(
        with_values(h.after_beta, p),
        end,
        other,
        h.after_rho,
        k.after_rho,
        "rho"@,
        nonzero(),
        Some(c.rho),
        Some(d.rho),
    );
    law_draw_is_determined(
        h.after_rho.push(Entry::Point("w"@, p.batch_w)),
        end,
        other,
        h.after_z,
        k.after_z,
        "z"@,
        usable_z(c.alpha, c.beta),
        Some(c.z),
        Some(d.z),
    );
}

/// Where one run comes to its end, another from the same history that sends the
/// same is not given up.
proof fn lemma_not_stopped(
    start: Seq<Entry>,
    p: ChopinModel,
    c: ChopinChallenges,
    h: ChopinRun,
    other: Seq<Entry>,
    q: ChopinModel,
    d: ChopinChallenges,
    k: ChopinRun,
    looked: bool,
)
    requires
        is_opening_run(start, p, c, h),
        is_batch_run(p, c, h),
        is_course(run_end(p, h)),
        is_course(other),
        send_alike(p, c, q, d),
    ensures
        !is_stopped_run(start, other, q, d, k, looked),
{
    if is_stopped_run(start, other, q, d, k, looked) {
        let end = run_end(p, h);
        let l0 = with_restriction(start, q, d.alpha);
        let l1 = k.after_gamma.push(Entry::Point("cs"@, q.comm_s));
        let l2 = with_values(k.after_beta, q);
        let l3 = k.after_rho.push(Entry::Point("w"@, q.batch_w));
        lemma_run_prefixes(start, p, c, h);
        lemma_alpha(start, end, p, c.alpha);
        assert(other.is_prefix_of(other));
        assert(k.after_gamma.is_prefix_of(l1));
        assert(k.after_beta.is_prefix_of(l2));
        assert(k.after_rho.is_prefix_of(l3));
        if drawn(l0, other, "gamma"@, nonzero(), None) {
            lemma_drawn_prefix(l0, other, "gamma"@, nonzero(), None);
            lemma_alpha(start, other, q, d.alpha);
            law_draw_is_determined(
                l0,
                end,
                other,
                h.after_gamma,
                other,
                "gamma"@,
                nonzero(),
                Some(c.gamma),
                None,
            );
        } else if drawn(l1, other, "beta"@, usable_beta(d.alpha), None) {
            lemma_drawn_prefix(l1, other, "beta"@, usable_beta(d.alpha), None);
            lemma_drawn_prefix(l0, k.after_gamma, "gamma"@, nonzero(), Some(d.gamma));
            lemma_prefix_trans(k.after_gamma, l1, other);
            lemma_prefix_trans(l0, k.after_gamma, other);
            lemma_alpha(start, other, q, d.alpha);
            law_draw_is_determined(
                l0,
                end,
                other,
                h.after_gamma,
                k.after_gamma,
                "gamma"@,
                nonzero(),
                Some(c.gamma),
                Some(d.gamma),
            );
            law_draw_is_determined(
                l1,
                end,
                other,
                h.after_beta,
                other,
                "beta"@,
                usable_beta(c.alpha),
                Some(c.beta),
                None,
            );
        } else if drawn(l2, other, "rho"@, nonzero(), None) {
            lemma_drawn_prefix(l2, other, "rho"@, nonzero(), None);
            lemma_prefix_trans(k.after_beta, l2, other);
            lemma_opening_determined(start, end, p, c, h, other, q, d, k);
            lemma_values_alike(h.after_beta, p, q);
            law_draw_is_determined(
                l2,
                end,
                other,
                h.after_rho,
                other,
                "rho"@,
                nonzero(),
                Some(c.rho),
                None,
            );
        } else {
            lemma_drawn_prefix(l3, other, "z"@, usable_z(d.alpha, d.beta), None);
            lemma_drawn_prefix(l2, k.after_rho, "rho"@, nonzero(), Some(d.rho));
            lemma_prefix_trans(k.after_rho, l3, other);
            lemma_prefix_trans(k.after_beta, l2, k.after_rho);
            lemma_prefix_trans(k.after_beta, k.after_rho, other);
            lemma_opening_determined(start, end, p, c, h, other, q, d, k);
            lemma_values_alike(h.after_beta, p, q);
            law_draw_is_determined(
                l2,
                end,
                other,
                h.after_rho,
                k.after_rho,
                "rho"@,
                nonzero(),
                Some(c.rho),
                Some(d.rho),
            );
            law_draw_is_determined(
                l3,
                end,
                other,
                h.after_z,
                other,
                "z"@,
                usable_z(c.alpha, c.beta),
                Some(c.z),
                None,
            );
        }
    }
}

/// A verdict on what an honest run sent is the one for the run's challenges.
proof fn lemma_verdict(
    start: Seq<Entry>,
    vk: ChopinKey,
    com: int,
    u: Seq<int>,
    y: int,
    p: ChopinModel,
    c: ChopinChallenges,
    h: ChopinRun,
    other: Seq<Entry>,
    ok: bool,
    d: ChopinChallenges,
    k: ChopinRun,
)
    requires
        is_verdict(start, run_end(p, h), vk, com, u, y, p, true, c, h),
        is_verdict(start, other, vk, com, u, y, p, ok, d, k),
        is_course(run_end(p, h)),
        is_course(other),
    ensures
        ok,
{
    let end = run_end(p, h);
    let l2 = with_values(k.after_beta, p);
    assert(k.after_beta.is_prefix_of(l2));
    let (ul, ur) = (left_part(u), right_part(u));
    assert(opening_holds(vk, com, ul, ur, y, p, c));
    lemma_run_prefixes(start, p, c, h);
    if opening_holds(vk, com, ul, ur, y, p, d) {
        lemma_run_prefixes(start, p, d, k);
    }
    lemma_opening_determined(start, end, p, c, h, other, p, d, k);
    assert(opening_holds(vk, com, ul, ur, y, p, d));
    law_run_is_determined(start, p, c, h, p, d, k);
}

/// Completeness: where `open` returned a proof and a value, `verify` under the
/// matching key returns `true` for them, the commitment and the point. The
/// polynomial may have fewer variables than the key.
#[verifier::spinoff_prover]
#[verifier::rlimit(40)]
pub proof fn law_opening_is_accepted(
    pp: &ChopinProverParam,
    vp: &ChopinVerifierParam,
    g: int,
    tau: int,
    sigma: int,
    poly: &Mle,
    point: Seq<Scalar>,
    proof: ChopinProof,
    value: Scalar,
    r: Result<bool, PCSError>,
)
    requires
        pp.dims(),
        poly.wf(),
        opening_ok(pp, poly, point),
        is_grid_key(pp.key(), pp.ml(), pp.mr(), g, tau, sigma),
        key_model(vp) == key_of(g, tau, sigma, vp.g2_one@),
        pp.num_vars <= vp.max_num_vars,
        is_opening(pp, poly, point, table_commitment(pp, poly), Ok((proof, value))),
        is_verification(vp, table_commitment(pp, poly), point, value@, &proof, r),
    ensures
        verification_ok(vp, point, &proof),
        value@ == mle_eval(poly.table(), vals(point)),
        r == Ok::<bool, PCSError>(true),
{
    let f = key_table(pp, poly);
    let u = key_point(pp, point);
    let com = table_commitment(pp, poly);
    let p = proof.model();
    let y = mle_eval(f, u);
    let log = fresh_log();
    law_padding_keeps_value(poly.table(), vals(point), pp.num_vars as nat);
    let res: Result<(ChopinProof, Scalar), PCSError> = Ok((proof, value));
    let end = choose|end: Seq<Entry>|
        is_course(end) && #[trigger] opened(log, end, pp, poly, point, com, res);
    assert(y == value@);
    let start = stated(log, com, u, y);
    let (c, h) = choose|c: ChopinChallenges, h: ChopinRun|
        run_end(p, h) == end && #[trigger] is_honest_run(start, pp.key(), f, u, p, c, h);
    assert(is_honest_run(start, pp.key(), f, u, p, c, h));
    lemma_pow2_mono(poly.num_vars as int, pp.num_vars as int);
    law_honest_run_is_accepted(start, pp.key(), g, tau, sigma, vp.g2_one@, f, u, p, c, h);
    assert(u == padded(vals(point), proof.mu as nat));
    let vk = key_model(vp);
    let other = choose|other: Seq<Entry>|
        is_course(other) && #[trigger] verified(log, other, vp, com, point, value@, &proof, r);
    assert(verified(log, other, vp, com, point, value@, &proof, r));
    match r {
        Ok(ok) => {
            let (d, k) = choose|d: ChopinChallenges, k: ChopinRun| #[trigger]
                is_verdict(start, other, vk, com, u, y, p, ok, d, k);
            assert(is_verdict(start, other, vk, com, u, y, p, ok, d, k));
            lemma_verdict(start, vk, com, u, y, p, c, h, other, ok, d, k);
        },
        Err(e) => {
            let (d, k) = choose|d: ChopinChallenges, k: ChopinRun| #[trigger]
                verifier_stopped(start, other, vp, com, u, y, &proof, d, k);
            assert(verifier_stopped(start, other, vp, com, u, y, &proof, d, k));
            let looked = opening_holds(vk, com, left_part(u), right_part(u), y, p, d);
            lemma_not_stopped(start, p, c, h, other, p, d, k, looked);
        },
    }
}

/// What an honest prover sends depends on the challenges so far alone.
proof fn lemma_honest_steps(
    key: Seq<int>,
    f: Seq<int>,
    ul: Seq<int>,
    ur: Seq<int>,
    c: ChopinChallenges,
    d: ChopinChallenges,
)
    ensures
        send_alike(honest_proof(key, f, ul, ur, c), c, honest_proof(key, f, ul, ur, d), d),
{
    if c.alpha == d.alpha && c.gamma == d.gamma && c.beta == d.beta {
        assert(honest_values(key, f, ul, ur, c) == honest_values(key, f, ul, ur, d));
        assert(honest_claims(key, f, ul, ur, c) == honest_claims(key, f, ul, ur, d));
    }
}

/// Two openings of one polynomial at one point for one commitment agree: both
/// are refused, or both hold the same proof and the same value. In particular
/// `open` and `open_with_commitment` agree where the commitment is the
/// polynomial's.
pub proof fn law_openings_agree(
    pp: &ChopinProverParam,
    poly: &Mle,
    point: Seq<Scalar>,
    com: int,
    r: Result<(ChopinProof, Scalar), PCSError>,
    s: Result<(ChopinProof, Scalar), PCSError>,
)
    requires
        is_opening(pp, poly, point, com, r),
        is_opening(pp, poly, point, com, s),
    ensures
        r is Ok <==> s is Ok,
        r matches Ok((proof, value)) ==> {
            &&& proof.model() == s->Ok_0.0.model()
            &&& proof.mu == s->Ok_0.0.mu
            &&& value@ == s->Ok_0.1@
        },
{
    let end = choose|end: Seq<Entry>|
        is_course(end) && #[trigger] opened(fresh_log(), end, pp, poly, point, com, r);
    let other = choose|other: Seq<Entry>|
        is_course(other) && #[trigger] opened(fresh_log(), other, pp, poly, point, com, s);
    if r is Ok {
        lemma_openings_agree(pp, poly, point, com, end, r->Ok_0, other, s);
    }
    if s is Ok {
        lemma_openings_agree(pp, poly, point, com, other, s->Ok_0, end, r);
    }
}

proof fn lemma_openings_agree(
    pp: &ChopinProverParam,
    poly: &Mle,
    point: Seq<Scalar>,
    com: int,
    end: Seq<Entry>,
    got: (ChopinProof, Scalar),
    other: Seq<Entry>,
    s: Result<(ChopinProof, Scalar), PCSError>,
)
    requires
        is_course(end),
        is_course(other),
        opened(fresh_log(), end, pp, poly, point, com, Ok(got)),
        opened(fresh_log(), other, pp, poly, point, com, s),
    ensures
        s is Ok,
        got.0.model() == s->Ok_0.0.model(),
{
    let f = key_table(pp, poly);
    let u = key_point(pp, point);
    let y = mle_eval(poly.table(), vals(point));
    let start = stated(fresh_log(), com, u, y);
    let key = pp.key();
    let p = got.0.model();
    let (c, h) = choose|c: ChopinChallenges, h: ChopinRun|
        run_end(p, h) == end && #[trigger] is_honest_run(start, key, f, u, p, c, h);
    assert(is_honest_run(start, key, f, u, p, c, h));
    match s {
        Ok((proof, value)) => {
            let q = proof.model();
            let (d, k) = choose|d: ChopinChallenges, k: ChopinRun|
                run_end(q, k) == other && #[trigger] is_honest_run(start, key, f, u, q, d, k);
            assert(is_honest_run(start, key, f, u, q, d, k));
            lemma_honest_steps(key, f, left_part(u), right_part(u), c, d);
            law_run_is_determined(start, p, c, h, q, d, k);
        },
        Err(e) => {
            let (d, k) = choose|d: ChopinChallenges, k: ChopinRun| #[trigger]
                is_honest_stop(start, other, key, f, u, d, k);
            assert(is_honest_stop(start, other, key, f, u, d, k));
            lemma_honest_steps(key, f, left_part(u), right_part(u), c, d);
            let q = honest_proof(key, f, left_part(u), right_part(u), d);
            lemma_not_stopped(start, p, c, h, other, q, d, k, true);
        },
    }
}

/// Where the entry at a position of the key stands in a table.
spec fn place(ml: int, mr: int) -> spec_fn(int) -> int {
    |p: int| position_base(ml, mr, p).0 + ml * position_base(ml, mr, p).1
}

/// The commitment to a polynomial is that to its table in the order of the key.
proof fn lemma_commitment_is_reordered(pp: &ChopinProverParam, poly: &Mle)
    requires
        pp.dims(),
        poly.wf(),
        poly.num_vars <= pp.num_vars,
    ensures
        table_commitment(pp, poly) == dot(
            pp.key(),
            reordered(poly.table(), pow2(pp.num_vars as nat), place(pp.ml(), pp.mr())),
            pow2(pp.num_vars as nat) as int,
        ),
{
    let n = pow2(pp.num_vars as nat);
    let (ml, mr) = (pp.ml(), pp.mr());
    lemma_grid_dims(pp.num_vars as int);
    lemma_pow2_mono(poly.num_vars as int, pp.num_vars as int);
    let want = reordered(poly.table(), n, place(ml, mr));
    assert(layout(key_table(pp, poly), ml, mr) =~= want) by {
        assert forall|p: int| 0 <= p < n implies layout(key_table(pp, poly), ml, mr)[p]
            == #[trigger] want[p] by {
            lemma_base_of_position(ml, mr, p);
            let (i, j) = position_base(ml, mr, p);
            lemma_row_major(ml, mr, i, j);
            assert(j * ml == ml * j) by (nonlinear_arith);
            assert(place(ml, mr)(p) == i + ml * j);
        }
    }
}

/// The combined commitment of a batch is the commitment to the aggregated
/// polynomial.
pub proof fn law_grid_batch_commitment(
    pp: &ChopinProverParam,
    plan: &BatchPlan,
    polys: Seq<Mle>,
    points: Seq<Vec<Scalar>>,
    a: Seq<Scalar>,
    g: &Mle,
    coms: Seq<G1>,
)
    requires
        pp.dims(),
        a.len() <= pp.num_vars,
        is_batch_of(plan, polys, points, a, g),
        coms.len() == polys.len(),
        forall|i: int|
            0 <= i < coms.len() ==> (#[trigger] coms[i])@ == table_commitment(pp, &polys[i]),
    ensures
        combined_commitment(plan.weights@, coms, points, a) == table_commitment(pp, g),
{
    let n = pow2(pp.num_vars as nat);
    let at = place(pp.ml(), pp.mr());
    assert forall|i: int| 0 <= i < coms.len() implies (#[trigger] coms[i])@ == dot(
        pp.key(),
        reordered(polys[i].table(), n, at),
        n as int,
    ) by {
        assert(polys[i].wf());
        lemma_commitment_is_reordered(pp, &polys[i]);
    }
    lemma_commitment_is_reordered(pp, g);
    law_reordered_batch_commitment(pp.key(), plan, polys, points, a, g, coms, n, at);
}

/// A batch is accepted: where the aggregated polynomial was opened to a proof and
/// a value, the verification of the commitment that is combined for the same
/// weights returns `true` under the matching key.
pub proof fn law_batch_is_accepted(
    pp: &ChopinProverParam,
    vp: &ChopinVerifierParam,
    g: int,
    tau: int,
    sigma: int,
    plan: &BatchPlan,
    polys: Seq<Mle>,
    points: Seq<Vec<Scalar>>,
    coms: Seq<G1>,
    poly: &Mle,
    point: Seq<Scalar>,
    proof: ChopinProof,
    value: Scalar,
    r: Result<bool, PCSError>,
)
    requires
        is_batch_of(plan, polys, points, point, poly),
        coms.len() == polys.len(),
        forall|i: int|
            0 <= i < coms.len() ==> (#[trigger] coms[i])@ == table_commitment(pp, &polys[i]),
        pp.dims(),
        poly.wf(),
        opening_ok(pp, poly, point),
        is_grid_key(pp.key(), pp.ml(), pp.mr(), g, tau, sigma),
        key_model(vp) == key_of(g, tau, sigma, vp.g2_one@),
        pp.num_vars <= vp.max_num_vars,
        is_opening(pp, poly, point, table_commitment(pp, poly), Ok((proof, value))),
        is_verification(
            vp,
            combined_commitment(plan.weights@, coms, points, point),
            point,
            value@,
            &proof,
            r,
        ),
    ensures
        verification_ok(vp, point, &proof),
        value@ == mle_eval(poly.table(), vals(point)),
        r == Ok::<bool, PCSError>(true),
{
    law_grid_batch_commitment(pp, plan, polys, points, point, poly, coms);
    law_opening_is_accepted(pp, vp, g, tau, sigma, poly, point, proof, value, r);
}

} // verus!
