//! What an opening and a verification of it come to together.

use crate::batching::BatchPlan;
use crate::batching_laws::{combined_commitment, is_batch_of, law_batch_commitment};
use crate::errors::PCSError;
use crate::field::{fmul, vals, Scalar};
use crate::group::G1;
use crate::kzg::is_power_key;
use crate::poly::{dot, lemma_vals_reduced};
use crate::recipcs::{
    core_opened, is_opening, is_verification, labels, opened, proof_ok, request_ok, stated,
    verified, ReciProof,
};
use crate::recipcs::srs::{ReciProverParam, ReciVerifierParam};
use crate::reciprocal::{verification_result, ReciChallenges};
use crate::reciprocal_laws::law_verification_of_honest_run;
use crate::tensor::{lemma_p2_step, mle_eval, p2, Mle};
use crate::transcript::{is_course, Entry};
use vstd::prelude::*;

verus! {

/// Completeness: where `open` returned a proof and a value, `verify` under the
/// matching key returns `true` for them, the commitment and the point.
pub proof fn law_opening_is_accepted(
    pp: &ReciProverParam,
    vp: &ReciVerifierParam,
    g: int,
    x: int,
    poly: &Mle,
    point: Seq<Scalar>,
    proof: ReciProof,
    value: Scalar,
    r: Result<bool, PCSError>,
)
    requires
        pp.wf(),
        poly.wf(),
        request_ok(pp, poly, point),
        is_power_key(pp.key(), g, x),
        vp.g1_one@ == pp.key()[0],
        vp.g1_tau@ == pp.key()[1],
        vp.g2_tau@ == fmul(vp.g2_one@, x),
        vp.g2_tau2@ == fmul(vp.g2_tau@, x),
        vp.max_degree >= p2(poly.num_vars as int) - 1,
        is_opening(pp, poly, point, Ok((proof, value))),
        is_verification(
            vp,
            dot(pp.key(), poly.table(), poly.evaluations@.len() as int),
            point,
            value@,
            &proof,
            r,
        ),
    ensures
        proof_ok(vp, point, &proof),
        value@ == mle_eval(poly.table(), vals(point)),
        r == Ok::<bool, PCSError>(true),
{
    let f = poly.table();
    let u = vals(point);
    let com = dot(pp.key(), f, poly.evaluations@.len() as int);
    let y = mle_eval(f, u);
    let start = stated(u.len() as int, com, u, y);
    let res: Result<(ReciProof, Scalar), PCSError> = Ok((proof, value));
    let end = choose|end: Seq<Entry>|
        is_course(end) && #[trigger] opened(end, pp, poly, u, res);
    let c = choose|c: ReciChallenges| #[trigger]
        core_opened(start, end, pp.key(), f, u, res, c);
    assert(core_opened(start, end, pp.key(), f, u, res, c));
    let vk = vp.model();
    let p = proof.model();
    let other = choose|other: Seq<Entry>|
        is_course(other) && #[trigger] verified(start, other, vp, com, u, y, &proof, r);
    let d = choose|d: ReciChallenges| #[trigger]
        verification_result(start, other, labels(), vk, com, u, y, p, None, r, d);
    assert(verification_result(start, other, labels(), vk, com, u, y, p, None, r, d));
    lemma_vals_reduced(poly.evaluations@);
    lemma_p2_step(u.len() as int);
    law_verification_of_honest_run(
        start,
        end,
        other,
        labels(),
        pp.key(),
        g,
        x,
        vk,
        f,
        u,
        p,
        None,
        c,
        r,
        d,
    );
}

/// A batch is accepted: where the aggregated polynomial was opened to a proof and
/// a value, the verification of the commitment that is combined for the same
/// weights returns `true` under the matching key.
pub proof fn law_batch_is_accepted(
    pp: &ReciProverParam,
    vp: &ReciVerifierParam,
    g: int,
    x: int,
    plan: &BatchPlan,
    polys: Seq<Mle>,
    points: Seq<Vec<Scalar>>,
    coms: Seq<G1>,
    poly: &Mle,
    point: Seq<Scalar>,
    proof: ReciProof,
    value: Scalar,
    r: Result<bool, PCSError>,
)
    requires
        is_batch_of(plan, polys, points, point, poly),
        coms.len() == polys.len(),
        forall|i: int|
            0 <= i < coms.len() ==> (#[trigger] coms[i])@ == dot(
                pp.key(),
                polys[i].table(),
                p2(point.len() as int),
            ),
        pp.wf(),
        poly.wf(),
        request_ok(pp, poly, point),
        is_power_key(pp.key(), g, x),
        vp.g1_one@ == pp.key()[0],
        vp.g1_tau@ == pp.key()[1],
        vp.g2_tau@ == fmul(vp.g2_one@, x),
        vp.g2_tau2@ == fmul(vp.g2_tau@, x),
        vp.max_degree >= p2(poly.num_vars as int) - 1,
        is_opening(pp, poly, point, Ok((proof, value))),
        is_verification(
            vp,
            combined_commitment(plan.weights@, coms, points, point),
            point,
            value@,
            &proof,
            r,
        ),
    ensures
        proof_ok(vp, point, &proof),
        value@ == mle_eval(poly.table(), vals(point)),
        r == Ok::<bool, PCSError>(true),
{
    law_batch_commitment(pp.key(), plan, polys, points, point, poly, coms);
    law_opening_is_accepted(pp, vp, g, x, poly, point, proof, value, r);
}

} // verus!
