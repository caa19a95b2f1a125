//! What an opening and a verification of it come to together.

use crate::batching::BatchPlan;
use crate::batching_laws::{combined_commitment, is_batch_of, law_batch_commitment};
use crate::errors::PCSError;
use crate::field::{fmul, vals, Scalar};
use crate::group::G1;
use crate::kzg::is_power_key;
use crate::mulcs::{
    is_opening, is_verification, key_fits, key_model, opened, opening_result, proof_ok,
    verification_result, verified, MulcsProof,
};
use crate::mulcs::claymore::powers_apart;
use crate::mulcs::laws::law_honest_run_is_accepted;
use crate::mulcs::model::{run_end, MulcsChallenges};
use crate::mulcs::srs::{MulcsProverParam, MulcsVerifierParam};
use crate::mulcs::symmetric::{labels, symmetric_result, MulcsSymmetricProof};
use crate::poly::{dot, lemma_vals_reduced};
use crate::reciprocal::ReciChallenges;
use crate::reciprocal_laws::law_verification_of_honest_run;
use crate::tensor::{lemma_p2_step, mle_eval, p2, Mle};
use crate::transcript::{is_course, lemma_course_challenge, Entry};
use vstd::prelude::*;

verus! {

/// The course of a run is determined by what stands before it and what is sent.
proof fn lemma_run_determined(
    start: Seq<Entry>,
    cm_hbar: int,
    c: MulcsChallenges,
    d: MulcsChallenges,
)
    requires
        is_course(run_end(start, cm_hbar, c)),
        is_course(run_end(start, cm_hbar, d)),
    ensures
        c == d,
{
    let end = run_end(start, cm_hbar, c);
    let other = run_end(start, cm_hbar, d);
    assert(start.push(Entry::Challenge("mulcs_delta"@, c.delta)).is_prefix_of(end));
    assert(start.push(Entry::Challenge("mulcs_delta"@, d.delta)).is_prefix_of(other));
    lemma_course_challenge(end, start, "mulcs_delta"@, c.delta);
    lemma_course_challenge(other, start, "mulcs_delta"@, d.delta);
    let before = start.push(Entry::Challenge("mulcs_delta"@, c.delta)).push(
        Entry::Point("cm_hbar"@, cm_hbar),
    );
    assert(end.is_prefix_of(end));
    assert(other.is_prefix_of(other));
    lemma_course_challenge(end, before, "mulcs_z"@, c.z);
    lemma_course_challenge(other, before, "mulcs_z"@, d.z);
}

/// Completeness: where `open` returned a proof and a value, `verify` under the
/// matching key returns `true` for them, the commitment and the point, provided
/// that the powers of `gamma` in use are distinct.
pub proof fn law_opening_is_accepted(
    start: Seq<Entry>,
    pp: &MulcsProverParam,
    vp: &MulcsVerifierParam,
    g: int,
    x: int,
    poly: &Mle,
    point: Seq<Scalar>,
    proof: MulcsProof,
    value: Scalar,
    r: Result<bool, PCSError>,
)
    requires
        poly.wf(),
        poly.num_vars >= 1,
        key_fits(pp, poly),
        point.len() == poly.num_vars,
        is_power_key(pp.key(), g, x),
        vp.g1_one@ == pp.key()[0],
        vp.g1_x@ == pp.key()[1],
        vp.g2_x@ == fmul(vp.g2_one@, x),
        vp.g2_x2@ == fmul(vp.g2_x@, x),
        vp.gamma@ == pp.gamma@,
        vp.max_degree >= p2(poly.num_vars as int) - 1,
        powers_apart(
            pp.gamma@,
            poly.evaluations@.len() as int,
            2 * poly.evaluations@.len() - 1,
        ),
        is_opening(start, pp, poly, point, Ok((proof, value))),
        is_verification(
            start,
            vp,
            dot(pp.key(), poly.table(), poly.evaluations@.len() as int),
            point,
            value@,
            &proof,
            r,
        ),
    ensures
        proof_ok(vp, point, &proof),
        value@ == mle_eval(poly.table(), vals(point)),
        r == Ok::<bool, PCSError>(true),
{
    let f = poly.table();
    let u = vals(point);
    let com = dot(pp.key(), f, poly.evaluations@.len() as int);
    let p = proof.model();
    let res: Result<(MulcsProof, Scalar), PCSError> = Ok((proof, value));
    let end = choose|end: Seq<Entry>|
        is_course(end) && #[trigger] opened(start, end, pp, poly, u, res);
    let c = choose|c: MulcsChallenges| #[trigger]
        opening_result(start, end, pp.key(), pp.gamma@, f, u, res, c);
    assert(opening_result(start, end, pp.key(), pp.gamma@, f, u, res, c));
    lemma_vals_reduced(poly.evaluations@);
    law_honest_run_is_accepted(start, end, pp.key(), g, x, key_model(vp), f, u, p, c);
    let other = choose|other: Seq<Entry>|
        is_course(other) && #[trigger] verified(start, other, vp, com, u, value@, &proof, r);
    let d = choose|d: MulcsChallenges| #[trigger]
        verification_result(start, other, vp, com, u, value@, &proof, r, d);
    assert(verification_result(start, other, vp, com, u, value@, &proof, r, d));
    lemma_run_determined(start, p.cm_hbar, c, d);
    assert(c == d);
}

/// A symmetric opening is accepted: where the opening returned a proof and a
/// value, the verification under the matching key returns `true` for them, the
/// commitment and the point.
pub proof fn law_symmetric_opening_is_accepted(
    start: Seq<Entry>,
    pp: &MulcsProverParam,
    vp: &MulcsVerifierParam,
    g: int,
    x: int,
    poly: &Mle,
    point: Seq<Scalar>,
    proof: MulcsSymmetricProof,
    value: Scalar,
    r: Result<bool, PCSError>,
)
    requires
        poly.wf(),
        1 <= poly.num_vars < usize::BITS,
        point.len() == poly.num_vars,
        poly.evaluations@.len() <= pp.key().len(),
        is_power_key(pp.key(), g, x),
        vp.g1_one@ == pp.key()[0],
        vp.g1_x@ == pp.key()[1],
        vp.g2_x@ == fmul(vp.g2_one@, x),
        vp.g2_x2@ == fmul(vp.g2_x@, x),
        vp.max_degree >= p2(poly.num_vars as int) - 1,
        crate::mulcs::symmetric::is_opening(
            start,
            pp,
            poly,
            point,
            Ok((proof, value)),
        ),
        crate::mulcs::symmetric::is_verification(
            start,
            vp,
            dot(pp.key(), poly.table(), poly.evaluations@.len() as int),
            point,
            value@,
            &proof,
            r,
        ),
    ensures
        crate::mulcs::symmetric::proof_ok(vp, point, &proof),
        value@ == mle_eval(poly.table(), vals(point)),
        r == Ok::<bool, PCSError>(true),
{
    let f = poly.table();
    let u = vals(point);
    let com = dot(pp.key(), f, poly.evaluations@.len() as int);
    let y = mle_eval(f, u);
    let res: Result<(MulcsSymmetricProof, Scalar), PCSError> = Ok((proof, value));
    let end = choose|end: Seq<Entry>|
        is_course(end) && #[trigger]
            crate::mulcs::symmetric::opened(start, end, pp, poly, u, res);
    let c = choose|c: ReciChallenges| #[trigger]
        symmetric_result(start, end, pp.key(), f, u, res, c);
    assert(symmetric_result(start, end, pp.key(), f, u, res, c));
    let vk = crate::mulcs::symmetric::key_model(vp);
    let p = proof.model();
    let named = Some(proof.z@);
    let other = choose|other: Seq<Entry>|
        is_course(other) && #[trigger]
            crate::mulcs::symmetric::verified(start, other, vp, com, u, y, &proof, r);
    let d = choose|d: ReciChallenges| #[trigger]
        crate::reciprocal::verification_result(
            start,
            other,
            labels(),
            vk,
            com,
            u,
            y,
            p,
            named,
            r,
            d,
        );
    assert(crate::reciprocal::verification_result(
        start,
        other,
        labels(),
        vk,
        com,
        u,
        y,
        p,
        named,
        r,
        d,
    ));
    lemma_vals_reduced(poly.evaluations@);
    lemma_p2_step(u.len() as int);
    law_verification_of_honest_run(
        start,
        end,
        other,
        labels(),
        pp.key(),
        g,
        x,
        vk,
        f,
        u,
        p,
        named,
        c,
        r,
        d,
    );
}

/// A batch is accepted: where the aggregated polynomial was opened to a proof and
/// a value, the verification of the commitment that is combined for the same
/// weights returns `true` under the matching key.
pub proof fn law_batch_is_accepted(
    start: Seq<Entry>,
    pp: &MulcsProverParam,
    vp: &MulcsVerifierParam,
    g: int,
    x: int,
    plan: &BatchPlan,
    polys: Seq<Mle>,
    points: Seq<Vec<Scalar>>,
    coms: Seq<G1>,
    poly: &Mle,
    point: Seq<Scalar>,
    proof: MulcsProof,
    value: Scalar,
    r: Result<bool, PCSError>,
)
    requires
        is_batch_of(plan, polys, points, point, poly),
        coms.len() == polys.len(),
        forall|i: int|
            0 <= i < coms.len() ==> (#[trigger] coms[i])@ == dot(
                pp.key(),
                polys[i].table(),
                p2(point.len() as int),
            ),
        poly.wf(),
        poly.num_vars >= 1,
        key_fits(pp, poly),
        point.len() == poly.num_vars,
        is_power_key(pp.key(), g, x),
        vp.g1_one@ == pp.key()[0],
        vp.g1_x@ == pp.key()[1],
        vp.g2_x@ == fmul(vp.g2_one@, x),
        vp.g2_x2@ == fmul(vp.g2_x@, x),
        vp.gamma@ == pp.gamma@,
        vp.max_degree >= p2(poly.num_vars as int) - 1,
        powers_apart(
            pp.gamma@,
            poly.evaluations@.len() as int,
            2 * poly.evaluations@.len() - 1,
        ),
        is_opening(start, pp, poly, point, Ok((proof, value))),
        is_verification(
            start,
            vp,
            combined_commitment(plan.weights@, coms, points, point),
            point,
            value@,
            &proof,
            r,
        ),
    ensures
        proof_ok(vp, point, &proof),
        value@ == mle_eval(poly.table(), vals(point)),
        r == Ok::<bool, PCSError>(true),
{
    law_batch_commitment(pp.key(), plan, polys, points, point, poly, coms);
    law_opening_is_accepted(start, pp, vp, g, x, poly, point, proof, value, r);
}

/// A symmetric batch is accepted: where the aggregated polynomial was opened to a proof and
/// a value, the verification of the commitment that is combined for the same
/// weights returns `true` under the matching key.
pub proof fn law_symmetric_batch_is_accepted(
    start: Seq<Entry>,
    pp: &MulcsProverParam,
    vp: &MulcsVerifierParam,
    g: int,
    x: int,
    plan: &BatchPlan,
    polys: Seq<Mle>,
    points: Seq<Vec<Scalar>>,
    coms: Seq<G1>,
    poly: &Mle,
    point: Seq<Scalar>,
    proof: MulcsSymmetricProof,
    value: Scalar,
    r: Result<bool, PCSError>,
)
    requires
        is_batch_of(plan, polys, points, point, poly),
        coms.len() == polys.len(),
        forall|i: int|
            0 <= i < coms.len() ==> (#[trigger] coms[i])@ == dot(
                pp.key(),
                polys[i].table(),
                p2(point.len() as int),
            ),
        poly.wf(),
        1 <= poly.num_vars < usize::BITS,
        point.len() == poly.num_vars,
        poly.evaluations@.len() <= pp.key().len(),
        is_power_key(pp.key(), g, x),
        vp.g1_one@ == pp.key()[0],
        vp.g1_x@ == pp.key()[1],
        vp.g2_x@ == fmul(vp.g2_one@, x),
        vp.g2_x2@ == fmul(vp.g2_x@, x),
        vp.max_degree >= p2(poly.num_vars as int) - 1,
        crate::mulcs::symmetric::is_opening(
            start,
            pp,
            poly,
            point,
            Ok((proof, value)),
        ),
        crate::mulcs::symmetric::is_verification(
            start,
            vp,
            combined_commitment(plan.weights@, coms, points, point),
            point,
            value@,
            &proof,
            r,
        ),
    ensures
        crate::mulcs::symmetric::proof_ok(vp, point, &proof),
        value@ == mle_eval(poly.table(), vals(point)),
        r == Ok::<bool, PCSError>(true),
{
    law_batch_commitment(pp.key(), plan, polys, points, point, poly, coms);
    law_symmetric_opening_is_accepted(start, pp, vp, g, x, poly, point, proof, value, r);
}

} // verus!
