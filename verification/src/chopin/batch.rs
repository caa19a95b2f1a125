//! Batched openings: many claims at many points are reduced to one by a
//! sumcheck, which the caller runs between the two stages.

use crate::batching::{
    aggregate, aggregate_commitments, aggregate_scalars, batch_ok, batched, claim_batch, claims_ok,
    is_aggregate, is_plan, plan_batch, tables, weighted_sum, BatchClaim, BatchPlan,
};
use crate::bdfg::poly_views;
use crate::chopin::{
    is_opening, is_verification, opening_ok, table_commitment, verification_ok, ChopinPCS,
    ChopinProof,
};
use crate::chopin::srs::{ChopinProverParam, ChopinVerifierParam};
use crate::errors::{invalid_parameters, invalid_prover, PCSError};
use crate::field::{vals, Scalar};
use crate::group::{logs, G1};
use crate::poly::dot;
use crate::tensor::{p2, Mle};
use crate::transcript::{vector_fits, IOPTranscript};
use vstd::prelude::*;

verus! {

/// Whether a result is that of an opening of `g` at `a`, where `g` aggregates
/// the polynomials of a batch.
pub open spec fn aggregate_opened(
    pp: &ChopinProverParam,
    plan: &BatchPlan,
    a: Seq<Scalar>,
    com: int,
    g: Mle,
    res: Result<(ChopinProof, Scalar), PCSError>,
) -> bool {
    &&& is_aggregate(plan, a, &g)
    &&& if opening_ok(pp, &g, a) {
        is_opening(pp, &g, a, com, res)
    } else {
        res matches Err(e) && e is InvalidParameters
    }
}

/// Whether a result is that of a verification that `com` opens at `a` to `y`.
pub open spec fn aggregate_verified(
    vp: &ChopinVerifierParam,
    com: int,
    a: Seq<Scalar>,
    y: int,
    proof: &ChopinProof,
    res: Result<bool, PCSError>,
) -> bool {
    if verification_ok(vp, a, proof) {
        is_verification(vp, com, a, y, proof, res)
    } else {
        res matches Err(e) && e is InvalidProof
    }
}

impl ChopinPCS {
    /// The first stage of a batched opening: what the sumcheck has to prove.
    pub fn multi_open_begin(
        polys: &[Mle],
        points: &[Vec<Scalar>],
        evals: &[Scalar],
        transcript: &mut IOPTranscript,
    ) -> (r: Result<BatchPlan, PCSError>)
        requires
            polys@.len() <= p2(usize::BITS - 1),
            forall|i: int| 0 <= i < polys@.len() ==> (#[trigger] polys@[i]).wf(),
        ensures
            r is Ok <==> batch_ok(polys@, points@, evals@),
            r matches Err(e) ==> e is InvalidParameters && final(transcript)@ == old(transcript)@,
            r matches Ok(plan) ==> {
                &&& plan.wf()
                &&& is_plan(
                    &plan,
                    tables(polys@),
                    poly_views(points@),
                    polys@[0].num_vars as int,
                )
                &&& batched(
                    old(transcript)@,
                    final(transcript)@,
                    poly_views(points@),
                    vals(evals@),
                    vals(plan.weights@),
                )
            },
    {
        plan_batch(polys, points, evals, transcript)
    }

    /// The second stage of a batched opening, with the final point of the
    /// sumcheck, or with none where the sumcheck failed.
    pub fn multi_open_finish(
        pp: &ChopinProverParam,
        plan: &BatchPlan,
        a2: Option<&[Scalar]>,
    ) -> (res: Result<(ChopinProof, Scalar), PCSError>)
        requires
            pp.dims(),
            plan.wf(),
            a2 matches Some(a) ==> a@.len() == plan.num_var,
        ensures
            a2 is None ==> (res matches Err(e) && e is InvalidProver),
            a2 matches Some(a) ==> exists|g: Mle| #[trigger]
                aggregate_opened(pp, plan, a@, table_commitment(pp, &g), g, res),
    {
        match a2 {
            None => Err(invalid_prover("Sumcheck failed")),
            Some(a) => {
                let g = aggregate(plan, a)?;
                let res = Self::open(pp, &g, a);
                assert(aggregate_opened(pp, plan, a@, table_commitment(pp, &g), g, res));
                res
            },
        }
    }

    /// The first stage of a batched opening for which the commitments are at
    /// hand.
    pub fn multi_open_with_commitments_begin(
        polys: &[Mle],
        coms: &[G1],
        points: &[Vec<Scalar>],
        evals: &[Scalar],
        transcript: &mut IOPTranscript,
    ) -> (r: Result<BatchPlan, PCSError>)
        requires
            polys@.len() <= p2(usize::BITS - 1),
            forall|i: int| 0 <= i < polys@.len() ==> (#[trigger] polys@[i]).wf(),
        ensures
            r is Ok <==> coms@.len() == polys@.len() && batch_ok(polys@, points@, evals@),
            r matches Err(e) ==> e is InvalidParameters && final(transcript)@ == old(transcript)@,
            r matches Ok(plan) ==> {
                &&& plan.wf()
                &&& plan.weights@.len() >= coms@.len()
                &&& is_plan(
                    &plan,
                    tables(polys@),
                    poly_views(points@),
                    polys@[0].num_vars as int,
                )
                &&& batched(
                    old(transcript)@,
                    final(transcript)@,
                    poly_views(points@),
                    vals(evals@),
                    vals(plan.weights@),
                )
            },
    {
        if coms.len() != polys.len() {
            return Err(invalid_parameters("commitment count mismatch"));
        }
        plan_batch(polys, points, evals, transcript)
    }

    /// The second stage of a batched opening for which the commitments are at
    /// hand: that to the aggregated polynomial is combined from them.
    pub fn multi_open_with_commitments_finish(
        pp: &ChopinProverParam,
        plan: &BatchPlan,
        coms: &[G1],
        points: &[Vec<Scalar>],
        a2: Option<&[Scalar]>,
    ) -> (res: Result<(ChopinProof, Scalar), PCSError>)
        requires
            pp.dims(),
            plan.wf(),
            coms@.len() == points@.len(),
            points@.len() <= plan.weights@.len(),
            forall|i: int|
                0 <= i < points@.len() ==> (#[trigger] points@[i])@.len() == plan.num_var,
            a2 matches Some(a) ==> a@.len() == plan.num_var,
        ensures
            a2 is None ==> (res matches Err(e) && e is InvalidProver),
            a2 matches Some(a) ==> exists|g: Mle| #[trigger]
                aggregate_opened(
                    pp,
                    plan,
                    a@,
                    dot(
                        logs(coms@),
                        aggregate_scalars(vals(plan.weights@), vals(a@), poly_views(points@)),
                        coms@.len() as int,
                    ),
                    g,
                    res,
                ),
    {
        match a2 {
            None => Err(invalid_prover("Sumcheck failed")),
            Some(a) => {
                let g = aggregate(plan, a)?;
                let com = aggregate_commitments(coms, points, plan.weights.as_slice(), a)?;
                let res = Self::open_with_commitment(pp, &g, a, &com);
                assert(aggregate_opened(pp, plan, a@, com@, g, res));
                res
            },
        }
    }

    /// The first stage of a batched verification: the sum that the sumcheck
    /// has to prove. `num_var` is the dimension of its final point.
    pub fn batch_verify_begin(
        coms: &[G1],
        points: &[Vec<Scalar>],
        evals: &[Scalar],
        num_var: usize,
        transcript: &mut IOPTranscript,
    ) -> (r: Result<BatchClaim, PCSError>)
        requires
            vector_fits(num_var as int),
            coms@.len() <= p2(usize::BITS - 1),
        ensures
            r is Ok <==> claims_ok(coms@, points@, evals@, num_var as int),
            r matches Err(e) ==> e is InvalidProof && final(transcript)@ == old(transcript)@,
            r matches Ok(c) ==> {
                &&& c.weights@.len() >= coms@.len()
                &&& c.sum@ == weighted_sum(vals(c.weights@), vals(evals@), evals@.len() as int)
                &&& batched(
                    old(transcript)@,
                    final(transcript)@,
                    poly_views(points@),
                    vals(evals@),
                    vals(c.weights@),
                )
            },
    {
        claim_batch(coms, points, evals, num_var, transcript)
    }

    /// The second stage of a batched verification, with the final point of the
    /// sumcheck and the value that it expects there, or with none where the
    /// sumcheck failed.
    pub fn batch_verify_finish(
        vp: &ChopinVerifierParam,
        coms: &[G1],
        points: &[Vec<Scalar>],
        claim: &BatchClaim,
        a2: &[Scalar],
        expected: Option<Scalar>,
        proof: &ChopinProof,
    ) -> (res: Result<bool, PCSError>)
        requires
            coms@.len() == points@.len(),
            points@.len() <= claim.weights@.len(),
            forall|i: int| 0 <= i < points@.len() ==> (#[trigger] points@[i])@.len() == a2@.len(),
        ensures
            expected is None ==> (res matches Err(e) && e is InvalidProver),
            expected matches Some(y) ==> aggregate_verified(
                vp,
                dot(
                    logs(coms@),
                    aggregate_scalars(vals(claim.weights@), vals(a2@), poly_views(points@)),
                    coms@.len() as int,
                ),
                a2@,
                y@,
                proof,
                res,
            ),
    {
        match expected {
            None => Err(invalid_prover("Sumcheck verify failed")),
            Some(y) => {
                let g_prime_commit = aggregate_commitments(
                    coms,
                    points,
                    claim.weights.as_slice(),
                    a2,
                )?;
                Self::verify(vp, &g_prime_commit, a2, &y, proof)
            },
        }
    }
}

} // verus!
