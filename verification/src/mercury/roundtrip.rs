//! What an opening and a verification of it come to together.

use crate::batching::BatchPlan;
use crate::batching_laws::{combined_commitment, is_batch_of, law_batch_commitment};
use crate::errors::PCSError;
use crate::field::{fmul, fpow, vals, Scalar};
use crate::group::G1;
use crate::kzg::is_power_key;
use crate::mercury::{
    fresh_log, is_opening, is_verification, key_model, opened, request_ok, verification_ok,
    verified, MercuryProof,
};
use crate::mercury::laws::{key_of, law_honest_run_is_accepted};
use crate::mercury::model::{
    after_beta, after_z, after_zeta, committed, honest_claims, honest_polys, honest_proof,
    is_honest_run, is_honest_stop, is_verdict, left_part, points_ok, prover_stopped, right_part,
    run_end, stated, verifier_stopped, z_ok, MercuryChallenges, MercuryModel,
};
use crate::mercury::srs::{MercuryProverParam, MercuryVerifierParam};
use crate::poly::dot;
use crate::tensor::{mle_eval, p2, Mle};
use crate::transcript::{is_course, lemma_course_challenge, lemma_prefix_trans, Entry};
use vstd::prelude::*;

verus! {

/// Whether two provers send the same for the same challenges so far.
pub open spec fn send_alike(
    p: MercuryModel,
    c: MercuryChallenges,
    q: MercuryModel,
    d: MercuryChallenges,
) -> bool {
    let gamma = c.alpha == d.alpha && c.gamma == d.gamma;
    let zeta = gamma && c.zeta == d.zeta;
    let beta = zeta && c.beta == d.beta;
    &&& p.comm_h == q.comm_h
    &&& c.alpha == d.alpha ==> p.comm_q == q.comm_q && p.comm_g == q.comm_g
    &&& gamma ==> p.comm_s == q.comm_s && p.comm_d == q.comm_d
    &&& zeta ==> p.g_zeta == q.g_zeta && p.g_zeta_inv == q.g_zeta_inv && p.h_zeta == q.h_zeta
        && p.h_zeta_inv == q.h_zeta_inv && p.s_zeta == q.s_zeta && p.s_zeta_inv == q.s_zeta_inv
        && p.comm_quot_f == q.comm_quot_f
    &&& beta ==> p.comm_w == q.comm_w
    &&& beta && c.z == d.z ==> p.comm_w_prime == q.comm_w_prime
}

/// The challenges up to `zeta` are determined by what stands before them and what
/// is sent.
proof fn lemma_zeta(
    start: Seq<Entry>,
    end: Seq<Entry>,
    p: MercuryModel,
    c: MercuryChallenges,
    other: Seq<Entry>,
    q: MercuryModel,
    d: MercuryChallenges,
)
    requires
        is_course(end),
        is_course(other),
        after_zeta(start, p, c).is_prefix_of(end),
        after_zeta(start, q, d).is_prefix_of(other),
        send_alike(p, c, q, d),
    ensures
        c.alpha == d.alpha,
        c.gamma == d.gamma,
        c.zeta == d.zeta,
{
    let lc = after_zeta(start, p, c);
    let ld = after_zeta(start, q, d);
    let h = start.push(Entry::Point("h"@, p.comm_h));
    let ac = h.push(Entry::Challenge("a"@, c.alpha));
    let ad = h.push(Entry::Challenge("a"@, d.alpha));
    assert(ac.is_prefix_of(lc));
    assert(ad.is_prefix_of(ld));
    lemma_prefix_trans(ac, lc, end);
    lemma_prefix_trans(ad, ld, other);
    lemma_course_challenge(end, h, "a"@, c.alpha);
    lemma_course_challenge(other, h, "a"@, d.alpha);
    let g = ac.push(Entry::Point("q"@, p.comm_q)).push(Entry::Point("g"@, p.comm_g));
    let gc = g.push(Entry::Challenge("gm"@, c.gamma));
    let gd = g.push(Entry::Challenge("gm"@, d.gamma));
    assert(gc.is_prefix_of(lc));
    assert(gd.is_prefix_of(ld));
    lemma_prefix_trans(gc, lc, end);
    lemma_prefix_trans(gd, ld, other);
    lemma_course_challenge(end, g, "gm"@, c.gamma);
    lemma_course_challenge(other, g, "gm"@, d.gamma);
    let s = gc.push(Entry::Point("s"@, p.comm_s)).push(Entry::Point("d"@, p.comm_d));
    lemma_course_challenge(end, s, "zt"@, c.zeta);
    lemma_course_challenge(other, s, "zt"@, d.zeta);
}

/// The challenge `beta` is determined as well.
proof fn lemma_beta(
    start: Seq<Entry>,
    end: Seq<Entry>,
    p: MercuryModel,
    c: MercuryChallenges,
    other: Seq<Entry>,
    q: MercuryModel,
    d: MercuryChallenges,
)
    requires
        is_course(end),
        is_course(other),
        after_beta(start, p, c).is_prefix_of(end),
        after_beta(start, q, d).is_prefix_of(other),
        send_alike(p, c, q, d),
    ensures
        c.alpha == d.alpha,
        c.gamma == d.gamma,
        c.zeta == d.zeta,
        c.beta == d.beta,
{
    let lc = after_beta(start, p, c);
    let ld = after_beta(start, q, d);
    assert(after_zeta(start, p, c).is_prefix_of(lc));
    assert(after_zeta(start, q, d).is_prefix_of(ld));
    lemma_prefix_trans(after_zeta(start, p, c), lc, end);
    lemma_prefix_trans(after_zeta(start, q, d), ld, other);
    lemma_zeta(start, end, p, c, other, q, d);
    let b = lc.drop_last();
    assert(lc =~= b.push(Entry::Challenge("bt"@, c.beta)));
    assert(ld =~= b.push(Entry::Challenge("bt"@, d.beta)));
    lemma_course_challenge(end, b, "bt"@, c.beta);
    lemma_course_challenge(other, b, "bt"@, d.beta);
}

/// The challenge `z` is determined as well.
proof fn lemma_z(
    start: Seq<Entry>,
    end: Seq<Entry>,
    p: MercuryModel,
    c: MercuryChallenges,
    other: Seq<Entry>,
    q: MercuryModel,
    d: MercuryChallenges,
)
    requires
        is_course(end),
        is_course(other),
        after_z(start, p, c).is_prefix_of(end),
        after_z(start, q, d).is_prefix_of(other),
        send_alike(p, c, q, d),
    ensures
        c.alpha == d.alpha,
        c.gamma == d.gamma,
        c.zeta == d.zeta,
        c.beta == d.beta,
        c.z == d.z,
{
    let lc = after_z(start, p, c);
    let ld = after_z(start, q, d);
    assert(after_beta(start, p, c).is_prefix_of(lc));
    assert(after_beta(start, q, d).is_prefix_of(ld));
    lemma_prefix_trans(after_beta(start, p, c), lc, end);
    lemma_prefix_trans(after_beta(start, q, d), ld, other);
    lemma_beta(start, end, p, c, other, q, d);
    let b = after_beta(start, p, c).push(Entry::Point("w"@, p.comm_w));
    assert(after_beta(start, p, c) == after_beta(start, q, d));
    assert(lc =~= b.push(Entry::Challenge("z"@, c.z)));
    assert(ld =~= b.push(Entry::Challenge("z"@, d.z)));
    lemma_course_challenge(end, b, "z"@, c.z);
    lemma_course_challenge(other, b, "z"@, d.z);
}

/// The course of a run is determined by what stands before it and what is sent.
pub proof fn law_run_is_determined(
    start: Seq<Entry>,
    p: MercuryModel,
    c: MercuryChallenges,
    q: MercuryModel,
    d: MercuryChallenges,
)
    requires
        is_course(run_end(start, p, c)),
        is_course(run_end(start, q, d)),
        send_alike(p, c, q, d),
    ensures
        c == d,
{
    let end = run_end(start, p, c);
    let other = run_end(start, q, d);
    assert(after_z(start, p, c).is_prefix_of(end));
    assert(after_z(start, q, d).is_prefix_of(other));
    lemma_z(start, end, p, c, other, q, d);
    assert(after_z(start, p, c) == after_z(start, q, d));
    let b = after_z(start, p, c).push(Entry::Point("wp"@, p.comm_w_prime));
    assert(end.is_prefix_of(end));
    assert(other.is_prefix_of(other));
    lemma_course_challenge(end, b, "pd"@, c.pair);
    lemma_course_challenge(other, b, "pd"@, d.pair);
}

/// Where one run comes to its end, another from the same history that sends the
/// same does not meet a challenge that cannot be used.
proof fn lemma_not_stopped(
    start: Seq<Entry>,
    p: MercuryModel,
    c: MercuryChallenges,
    other: Seq<Entry>,
    q: MercuryModel,
    d: MercuryChallenges,
)
    requires
        is_course(run_end(start, p, c)),
        is_course(other),
        points_ok(c),
        z_ok(c),
        send_alike(p, c, q, d),
    ensures
        !prover_stopped(start, other, q, d),
        !verifier_stopped(start, other, q, d),
{
    let end = run_end(start, p, c);
    assert(after_zeta(start, p, c).is_prefix_of(end));
    assert(after_beta(start, p, c).is_prefix_of(end));
    assert(after_z(start, p, c).is_prefix_of(end));
    assert(other.is_prefix_of(other));
    if other == after_zeta(start, q, d) {
        lemma_zeta(start, end, p, c, other, q, d);
    }
    if other == after_beta(start, q, d) {
        lemma_beta(start, end, p, c, other, q, d);
    }
    if other == after_z(start, q, d) {
        lemma_z(start, end, p, c, other, q, d);
    }
}

/// Completeness: where `open` returned a proof and a value, `verify` under the
/// matching key returns `true` for them, the commitment and the point.
pub proof fn law_opening_is_accepted(
    pp: &MercuryProverParam,
    vp: &MercuryVerifierParam,
    g: int,
    tau: int,
    poly: &Mle,
    point: Seq<Scalar>,
    proof: MercuryProof,
    value: Scalar,
    r: Result<bool, PCSError>,
)
    requires
        pp.wf(),
        poly.wf(),
        request_ok(pp, poly, point),
        is_power_key(pp.key(), g, tau),
        vp.g1_one@ == pp.key()[0],
        vp.g2_tau@ == fmul(vp.g2_one@, tau),
        vp.max_degree == pp.max_degree,
        is_opening(pp, poly, point, committed(pp.key(), poly.table()), Ok((proof, value))),
        is_verification(vp, committed(pp.key(), poly.table()), point, value@, &proof, r),
    ensures
        verification_ok(vp, point, &proof),
        value@ == mle_eval(poly.table(), vals(point)),
        r == Ok::<bool, PCSError>(true),
{
    let f = poly.table();
    let u = vals(point);
    let com = committed(pp.key(), f);
    let p = proof.model();
    let start = stated(fresh_log(), com, u, value@);
    let res: Result<(MercuryProof, Scalar), PCSError> = Ok((proof, value));
    let end = choose|end: Seq<Entry>|
        is_course(end) && #[trigger] opened(end, pp, poly, u, com, res);
    assert(opened(end, pp, poly, u, com, res));
    let c = choose|c: MercuryChallenges| #[trigger]
        is_honest_run(start, end, pp.key(), f, u, p, c);
    assert(is_honest_run(start, end, pp.key(), f, u, p, c));
    law_honest_run_is_accepted(start, end, pp.key(), g, tau, vp.g2_one@, f, u, p, c);
    assert(fpow(tau, 0) == 1);
    assert(key_model(vp) == key_of(g, tau, vp.g2_one@));
    let other = choose|other: Seq<Entry>|
        is_course(other) && #[trigger] verified(
            fresh_log(),
            other,
            vp,
            com,
            u,
            value@,
            &proof,
            r,
        );
    match r {
        Ok(ok) => {
            let d = choose|d: MercuryChallenges| #[trigger]
                is_verdict(start, other, key_model(vp), com, u, value@, p, ok, d);
            assert(is_verdict(start, other, key_model(vp), com, u, value@, p, ok, d));
            law_run_is_determined(start, p, c, p, d);
        },
        Err(e) => {
            let d = choose|d: MercuryChallenges| #[trigger] verifier_stopped(start, other, p, d);
            assert(verifier_stopped(start, other, p, d));
            lemma_not_stopped(start, p, c, other, p, d);
        },
    }
}

/// What an honest prover sends depends on the challenges so far alone.
proof fn lemma_honest_steps(
    key: Seq<int>,
    f: Seq<int>,
    u1: Seq<int>,
    u2: Seq<int>,
    c: MercuryChallenges,
    d: MercuryChallenges,
)
    ensures
        send_alike(honest_proof(key, f, u1, u2, c), c, honest_proof(key, f, u1, u2, d), d),
{
    if c.alpha == d.alpha && c.gamma == d.gamma && c.zeta == d.zeta {
        let p = honest_polys(f, u1, u2, c);
        assert(p == honest_polys(f, u1, u2, d));
        assert(honest_claims(p, c) == honest_claims(p, d));
    }
}

/// Two openings of one polynomial at one point for one commitment agree: both
/// are refused, or both hold the same proof and the same value. In particular
/// `open` and `open_with_commitment` agree where the commitment is the
/// polynomial's.
pub proof fn law_openings_agree(
    pp: &MercuryProverParam,
    poly: &Mle,
    point: Seq<Scalar>,
    com: int,
    r: Result<(MercuryProof, Scalar), PCSError>,
    s: Result<(MercuryProof, Scalar), PCSError>,
)
    requires
        is_opening(pp, poly, point, com, r),
        is_opening(pp, poly, point, com, s),
    ensures
        r is Ok <==> s is Ok,
        r matches Ok((proof, value)) ==> {
            &&& proof.model() == s->Ok_0.0.model()
            &&& proof.mu == s->Ok_0.0.mu
            &&& value@ == s->Ok_0.1@
        },
{
    let end = choose|end: Seq<Entry>|
        is_course(end) && #[trigger] opened(end, pp, poly, vals(point), com, r);
    let other = choose|other: Seq<Entry>|
        is_course(other) && #[trigger] opened(other, pp, poly, vals(point), com, s);
    if r is Ok {
        lemma_openings_agree(pp, poly, vals(point), com, end, r->Ok_0, other, s);
    }
    if s is Ok {
        lemma_openings_agree(pp, poly, vals(point), com, other, s->Ok_0, end, r);
    }
}

proof fn lemma_openings_agree(
    pp: &MercuryProverParam,
    poly: &Mle,
    u: Seq<int>,
    com: int,
    end: Seq<Entry>,
    got: (MercuryProof, Scalar),
    other: Seq<Entry>,
    s: Result<(MercuryProof, Scalar), PCSError>,
)
    requires
        is_course(end),
        is_course(other),
        opened(end, pp, poly, u, com, Ok(got)),
        opened(other, pp, poly, u, com, s),
    ensures
        s is Ok,
        got.0.model() == s->Ok_0.0.model(),
{
    let f = poly.table();
    let y = mle_eval(f, u);
    let start = stated(fresh_log(), com, u, y);
    let key = pp.key();
    let p = got.0.model();
    let c = choose|c: MercuryChallenges| #[trigger] is_honest_run(start, end, key, f, u, p, c);
    assert(is_honest_run(start, end, key, f, u, p, c));
    let (u1, u2) = (left_part(u), right_part(u));
    match s {
        Ok((proof, value)) => {
            let q = proof.model();
            let d = choose|d: MercuryChallenges| #[trigger]
                is_honest_run(start, other, key, f, u, q, d);
            assert(is_honest_run(start, other, key, f, u, q, d));
            lemma_honest_steps(key, f, u1, u2, c, d);
            law_run_is_determined(start, p, c, q, d);
        },
        Err(e) => {
            let d = choose|d: MercuryChallenges| #[trigger]
                is_honest_stop(start, other, key, f, u, d);
            assert(is_honest_stop(start, other, key, f, u, d));
            lemma_honest_steps(key, f, u1, u2, c, d);
            lemma_not_stopped(start, p, c, other, honest_proof(key, f, u1, u2, d), d);
        },
    }
}

/// A batch is accepted: where the aggregated polynomial was opened to a proof and
/// a value, the verification of the commitment that is combined for the same
/// weights returns `true` under the matching key.
pub proof fn law_batch_is_accepted(
    pp: &MercuryProverParam,
    vp: &MercuryVerifierParam,
    g: int,
    tau: int,
    plan: &BatchPlan,
    polys: Seq<Mle>,
    points: Seq<Vec<Scalar>>,
    coms: Seq<G1>,
    poly: &Mle,
    point: Seq<Scalar>,
    proof: MercuryProof,
    value: Scalar,
    r: Result<bool, PCSError>,
)
    requires
        is_batch_of(plan, polys, points, point, poly),
        coms.len() == polys.len(),
        forall|i: int|
            0 <= i < coms.len() ==> (#[trigger] coms[i])@ == dot(
                pp.key(),
                polys[i].table(),
                p2(point.len() as int),
            ),
        pp.wf(),
        poly.wf(),
        request_ok(pp, poly, point),
        is_power_key(pp.key(), g, tau),
        vp.g1_one@ == pp.key()[0],
        vp.g2_tau@ == fmul(vp.g2_one@, tau),
        vp.max_degree == pp.max_degree,
        is_opening(pp, poly, point, committed(pp.key(), poly.table()), Ok((proof, value))),
        is_verification(
            vp,
            combined_commitment(plan.weights@, coms, points, point),
            point,
            value@,
            &proof,
            r,
        ),
    ensures
        verification_ok(vp, point, &proof),
        value@ == mle_eval(poly.table(), vals(point)),
        r == Ok::<bool, PCSError>(true),
{
    law_batch_commitment(pp.key(), plan, polys, points, point, poly, coms);
    law_opening_is_accepted(pp, vp, g, tau, poly, point, proof, value, r);
}

} // verus!
