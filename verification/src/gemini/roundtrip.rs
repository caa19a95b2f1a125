//! What an opening and a verification of it come to together.

use crate::batching::BatchPlan;
use crate::batching_laws::{combined_commitment, is_batch_of, law_batch_commitment};
use crate::errors::PCSError;
use crate::field::{fmul, vals, Scalar};
use crate::gemini::{
    is_opening, is_verification, key_model, opened, opening_result, proof_ok, request_ok,
    table_commitment, verification_result, verified, GeminiProof,
};
use crate::gemini::laws::law_honest_run_is_accepted;
use crate::gemini::model::{
    after_nu, after_r, claims_of, honest_claims, honest_proof, run_end, stated, with_claims,
    with_folds, GeminiChallenges,
};
use crate::gemini::shplonk::{all_commitments, Opening};
use crate::gemini::srs::{GeminiProverParam, GeminiVerifierParam};
use crate::group::G1;
use crate::kzg::is_power_key;
use crate::poly::{dot, lemma_vals_reduced};
use crate::tensor::{mle_eval, p2, Mle};
use crate::transcript::{is_course, lemma_course_challenge, Entry};
use vstd::prelude::*;

verus! {

proof fn lemma_with_claims(log: Seq<Entry>, os: Seq<Opening>, coms: Seq<int>, n: int)
    requires
        0 <= n,
    ensures
        with_claims(log, os, coms, n).len() == log.len() + 4 * n,
        forall|i: int|
            0 <= i < log.len() ==> #[trigger] with_claims(log, os, coms, n)[i] == log[i],
    decreases n,
{
    if n > 0 {
        lemma_with_claims(log, os, coms, n - 1);
    }
}

/// The histories of the stages of a run are prefixes of its history.
proof fn lemma_stages(
    start: Seq<Entry>,
    os: Seq<Opening>,
    com: int,
    folds: Seq<int>,
    q: int,
    c: GeminiChallenges,
)
    ensures
        ({
            let first = after_r(start, folds, c.r);
            let second = after_nu(start, os, com, folds, c.r, c.nu);
            let end = run_end(start, os, com, folds, q, c);
            &&& first.is_prefix_of(second)
            &&& second.is_prefix_of(end)
            &&& first.is_prefix_of(end)
        }),
{
    let first = after_r(start, folds, c.r);
    lemma_with_claims(first, os, all_commitments(com, folds), os.len() as int);
    let second = after_nu(start, os, com, folds, c.r, c.nu);
    let end = run_end(start, os, com, folds, q, c);
    assert(first =~= second.subrange(0, first.len() as int));
    assert(second =~= end.subrange(0, second.len() as int));
    assert(first =~= end.subrange(0, first.len() as int));
}

/// The course of a run is determined by what stands before it and what is sent:
/// another course from the same history, with the same commitments, draws the
/// same challenges as far as it goes.
pub proof fn law_run_is_determined(
    start: Seq<Entry>,
    os: Seq<Opening>,
    com: int,
    folds: Seq<int>,
    q: int,
    c: GeminiChallenges,
    other: Seq<Entry>,
    ps: Seq<Opening>,
    p: int,
    d: GeminiChallenges,
)
    requires
        is_course(run_end(start, os, com, folds, q, c)),
        is_course(other),
        c.r == d.r ==> os == ps,
        c.r == d.r && c.nu == d.nu ==> q == p,
    ensures
        other == after_r(start, folds, d.r) ==> c.r == d.r,
        other == after_nu(start, ps, com, folds, d.r, d.nu) ==> c.r == d.r && c.nu == d.nu,
        other == run_end(start, ps, com, folds, p, d) ==> c == d,
{
    let end = run_end(start, os, com, folds, q, c);
    lemma_stages(start, os, com, folds, q, c);
    lemma_stages(start, ps, com, folds, p, d);
    assert(other.is_prefix_of(other));
    assert(end.is_prefix_of(end));
    let third = run_end(start, ps, com, folds, p, d);
    let second = after_nu(start, ps, com, folds, d.r, d.nu);
    let first = after_r(start, folds, d.r);
    if other == first || other == second || other == third {
        let before = with_folds(start, folds, folds.len() as int);
        lemma_course_challenge(end, before, "r"@, c.r);
        lemma_course_challenge(other, before, "r"@, d.r);
    }
    if other == second || other == third {
        let before = with_claims(
            first,
            ps,
            all_commitments(com, folds),
            ps.len() as int,
        );
        lemma_course_challenge(end, before, "Shplonk:nu"@, c.nu);
        lemma_course_challenge(other, before, "Shplonk:nu"@, d.nu);
    }
    if other == third {
        let before = second.push(Entry::Point("Shplonk:Q"@, p));
        lemma_course_challenge(end, before, "Shplonk:z"@, c.z);
        lemma_course_challenge(other, before, "Shplonk:z"@, d.z);
    }
}

/// Completeness: where `open` returned a proof and a value, `verify` under the
/// matching key returns `true` for them, the commitment and the point.
pub proof fn law_opening_is_accepted(
    log: Seq<Entry>,
    pp: &GeminiProverParam,
    vp: &GeminiVerifierParam,
    g: int,
    x: int,
    poly: &Mle,
    point: Seq<Scalar>,
    proof: GeminiProof,
    value: Scalar,
    r: Result<bool, PCSError>,
)
    requires
        poly.wf(),
        request_ok(pp, poly, point),
        is_power_key(pp.key(), g, x),
        vp.g@ == pp.key()[0],
        vp.h_x@ == fmul(vp.h@, x),
        poly.num_vars <= vp.max_num_vars,
        p2(poly.num_vars as int) <= vp.max_degree,
        is_opening(log, pp, poly, point, table_commitment(pp, poly), Ok((proof, value))),
        is_verification(log, vp, table_commitment(pp, poly), point, value@, &proof, r),
    ensures
        proof_ok(vp, point, &proof),
        value@ == mle_eval(poly.table(), vals(point)),
        r == Ok::<bool, PCSError>(true),
{
    let f = poly.table();
    let u = vals(point);
    let mu = u.len() as int;
    let com = table_commitment(pp, poly);
    let p = proof.model();
    let y = mle_eval(f, u);
    let start = stated(log, com, u, y);
    let res: Result<(GeminiProof, Scalar), PCSError> = Ok((proof, value));
    let end = choose|end: Seq<Entry>|
        is_course(end) && #[trigger] opened(log, end, pp, poly, u, com, res);
    assert(opened(log, end, pp, poly, u, com, res));
    let c = choose|c: GeminiChallenges| #[trigger]
        opening_result(start, end, pp.key(), f, u, com, y, res, c);
    assert(opening_result(start, end, pp.key(), f, u, com, y, res, c));
    lemma_vals_reduced(poly.evaluations@);
    let vk = key_model(vp);
    law_honest_run_is_accepted(start, end, pp.key(), g, x, vk, f, u, p, c);
    let os = claims_of(p, mu, c.r);
    assert(os == honest_claims(f, u, c.r));
    assert(p.fold_comms.len() == proof.fold_comms@.len());
    assert(p.fold_evals.len() == proof.fold_evals@.len());
    let other = choose|other: Seq<Entry>|
        is_course(other) && #[trigger] verified(log, other, vp, com, u, value@, &proof, r);
    assert(verified(log, other, vp, com, u, y, &proof, r));
    let d = choose|d: GeminiChallenges| #[trigger]
        verification_result(start, other, vp, com, u, y, &proof, r, d);
    assert(verification_result(start, other, vp, com, u, y, &proof, r, d));
    let ds = claims_of(p, mu, d.r);
    law_run_is_determined(
        start,
        os,
        com,
        p.fold_comms,
        p.q_commit,
        c,
        other,
        ds,
        p.q_commit,
        d,
    );
}

/// Two openings of one polynomial at one point for one commitment agree: both
/// are refused, or both hold the same proof and the same value. In particular
/// `open` and `open_with_commitment` agree where the commitment is the
/// polynomial's.
pub proof fn law_openings_agree(
    log: Seq<Entry>,
    pp: &GeminiProverParam,
    poly: &Mle,
    point: Seq<Scalar>,
    com: int,
    r: Result<(GeminiProof, Scalar), PCSError>,
    s: Result<(GeminiProof, Scalar), PCSError>,
)
    requires
        is_opening(log, pp, poly, point, com, r),
        is_opening(log, pp, poly, point, com, s),
    ensures
        r is Ok <==> s is Ok,
        r matches Ok((proof, value)) ==> {
            &&& proof.model() == s->Ok_0.0.model()
            &&& proof.mu == s->Ok_0.0.mu
            &&& value@ == s->Ok_0.1@
        },
{
    let end = choose|end: Seq<Entry>|
        is_course(end) && #[trigger] opened(log, end, pp, poly, vals(point), com, r);
    let other = choose|other: Seq<Entry>|
        is_course(other) && #[trigger] opened(log, other, pp, poly, vals(point), com, s);
    if r is Ok {
        lemma_openings_agree(log, pp, poly, vals(point), com, end, r->Ok_0, other, s);
    }
    if s is Ok {
        lemma_openings_agree(log, pp, poly, vals(point), com, other, s->Ok_0, end, r);
    }
}

proof fn lemma_openings_agree(
    log: Seq<Entry>,
    pp: &GeminiProverParam,
    poly: &Mle,
    u: Seq<int>,
    com: int,
    end: Seq<Entry>,
    got: (GeminiProof, Scalar),
    other: Seq<Entry>,
    s: Result<(GeminiProof, Scalar), PCSError>,
)
    requires
        is_course(end),
        is_course(other),
        opened(log, end, pp, poly, u, com, Ok(got)),
        opened(log, other, pp, poly, u, com, s),
    ensures
        s is Ok,
        got.0.model() == s->Ok_0.0.model(),
        got.0.mu == s->Ok_0.0.mu,
        got.1@ == s->Ok_0.1@,
{
    let f = poly.table();
    let y = mle_eval(f, u);
    let start = stated(log, com, u, y);
    let key = pp.key();
    let r: Result<(GeminiProof, Scalar), PCSError> = Ok(got);
    let c = choose|c: GeminiChallenges| #[trigger]
        opening_result(start, end, key, f, u, com, y, r, c);
    assert(opening_result(start, end, key, f, u, com, y, r, c));
    let d = choose|d: GeminiChallenges| #[trigger]
        opening_result(start, other, key, f, u, com, y, s, d);
    assert(opening_result(start, other, key, f, u, com, y, s, d));
    let p = honest_proof(key, f, u, c);
    let q = honest_proof(key, f, u, d);
    assert(p.fold_comms == q.fold_comms);
    law_run_is_determined(
        start,
        honest_claims(f, u, c.r),
        com,
        p.fold_comms,
        p.q_commit,
        c,
        other,
        honest_claims(f, u, d.r),
        q.q_commit,
        d,
    );
}

/// A batch is accepted: where the aggregated polynomial was opened to a proof and
/// a value, the verification of the commitment that is combined for the same
/// weights returns `true` under the matching key.
pub proof fn law_batch_is_accepted(
    log: Seq<Entry>,
    pp: &GeminiProverParam,
    vp: &GeminiVerifierParam,
    g: int,
    x: int,
    plan: &BatchPlan,
    polys: Seq<Mle>,
    points: Seq<Vec<Scalar>>,
    coms: Seq<G1>,
    poly: &Mle,
    point: Seq<Scalar>,
    proof: GeminiProof,
    value: Scalar,
    r: Result<bool, PCSError>,
)
    requires
        is_batch_of(plan, polys, points, point, poly),
        coms.len() == polys.len(),
        forall|i: int|
            0 <= i < coms.len() ==> (#[trigger] coms[i])@ == dot(
                pp.key(),
                polys[i].table(),
                p2(point.len() as int),
            ),
        poly.wf(),
        request_ok(pp, poly, point),
        is_power_key(pp.key(), g, x),
        vp.g@ == pp.key()[0],
        vp.h_x@ == fmul(vp.h@, x),
        poly.num_vars <= vp.max_num_vars,
        p2(poly.num_vars as int) <= vp.max_degree,
        is_opening(log, pp, poly, point, table_commitment(pp, poly), Ok((proof, value))),
        is_verification(
            log,
            vp,
            combined_commitment(plan.weights@, coms, points, point),
            point,
            value@,
            &proof,
            r,
        ),
    ensures
        proof_ok(vp, point, &proof),
        value@ == mle_eval(poly.table(), vals(point)),
        r == Ok::<bool, PCSError>(true),
{
    law_batch_commitment(pp.key(), plan, polys, points, point, poly, coms);
    law_opening_is_accepted(log, pp, vp, g, x, poly, point, proof, value, r);
}

} // verus!
