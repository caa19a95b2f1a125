//! The symmetric variant of Mulcs: openings at a point and its inverse, over
//! the parameters of Mulcs. The witness and the quotient are half as long, and
//! the verifier needs one multiplication in G2.

use crate::batching::{
    aggregate, aggregate_commitments, aggregate_scalars, append_and_claim_batch, batch_ok, batched,
    claims_ok, counts_ok, is_aggregate, is_plan, plan_batch, points_fit, tables, weighted_sum,
    with_claims, BatchClaim, BatchPlan,
};
use crate::bdfg::poly_views;
use crate::dims::{lemma_pow2_fits, lemma_pow2_mono, pow2_usize};
use crate::errors::{invalid_parameters, invalid_proof, invalid_prover, PCSError};
use crate::field::{fmul, vals, Scalar};
use crate::group::{logs, G1, G2};
use crate::kzg::is_power_key;
use crate::laurent::symmetric_witness;
use crate::mulcs::MulcsPCS;
use crate::mulcs::srs::{MulcsProverParam, MulcsUniversalParams, MulcsVerifierParam};
use crate::poly::dot;
use crate::reciprocal::{
    after_z, honest_proof, is_honest_run, opening_result, reciprocal_open, reciprocal_verify,
    verification_result, ReciChallenges, ReciKey, ReciLabels, ReciModel, ReciParts, ReciPoints,
};
use crate::tensor::{lemma_p2_step, mle_eval, p2, Mle};
use crate::transcript::{is_course, reciprocal, vector_fits, Entry, IOPTranscript};
use vstd::prelude::*;

verus! {

/// A proof of an opening.
#[derive(Clone, Debug)]
pub struct MulcsSymmetricProof {
    pub cm_hbar: G1,
    pub f_z: Scalar,
    pub f_z_inv: Scalar,
    pub hbar_z: Scalar,
    pub hbar_z_inv: Scalar,
    pub z: Scalar,
    pub pi: G1,
    /// Number of variables.
    pub mu: usize,
}

impl MulcsSymmetricProof {
    /// The values that the proof holds, but for `z`.
    pub open spec fn model(&self) -> ReciModel {
        ReciModel {
            cm_hbar: self.cm_hbar@,
            pi: self.pi@,
            f_z: self.f_z@,
            f_z_inv: self.f_z_inv@,
            hbar_z: self.hbar_z@,
            hbar_z_inv: self.hbar_z_inv@,
        }
    }
}

/// The labels of the scheme.
pub open spec fn labels() -> ReciLabels {
    ReciLabels {
        cm_hbar: "cm_hbar",
        z: "mulcs_sym_z",
        f_z: "f_z",
        f_z_inv: "f_z_inv",
        hbar_z: "hbar_z",
        hbar_z_inv: "hbar_z_inv",
        alpha: "mulcs_sym_alpha",
    }
}

fn scheme_labels() -> (l: ReciLabels)
    ensures
        l == labels(),
{
    ReciLabels {
        cm_hbar: "cm_hbar",
        z: "mulcs_sym_z",
        f_z: "f_z",
        f_z_inv: "f_z_inv",
        hbar_z: "hbar_z",
        hbar_z_inv: "hbar_z_inv",
        alpha: "mulcs_sym_alpha",
    }
}

/// The history of a fresh transcript for a number of variables.
pub open spec fn fresh_log(mu: int) -> Seq<Entry> {
    seq![Entry::Domain("mulcs-sym-open"@), Entry::Field("mu"@, mu)]
}

/// The history of a fresh transcript for the aggregated polynomial of a batch.
pub open spec fn aggregate_log(a: Seq<int>) -> Seq<Entry> {
    seq![
        Entry::Domain("mulcs-sym-gprime-open"@),
        Entry::Fields("point_a2"@, a),
        Entry::Field("mu"@, a.len() as int),
    ]
}

/// What comes of an opening of the table `f` at `u` for the challenges that
/// were drawn: the honest proof, or an error where `z` cannot be used.
pub open spec fn symmetric_result(
    start: Seq<Entry>,
    end: Seq<Entry>,
    key: Seq<int>,
    f: Seq<int>,
    u: Seq<int>,
    res: Result<(MulcsSymmetricProof, Scalar), PCSError>,
    c: ReciChallenges,
) -> bool {
    match res {
        Ok((proof, value)) => {
            &&& is_honest_run(start, end, labels(), key, f, u, proof.model(), c)
            &&& proof.z@ == c.z
            &&& proof.mu == u.len()
            &&& value@ == mle_eval(f, u)
        },
        Err(e) => {
            &&& e is InvalidParameters
            &&& !reciprocal()(c.z)
            &&& end == after_z(start, labels(), honest_proof(key, f, u, c).cm_hbar, c.z)
        },
    }
}

/// What comes of an opening, for some challenges.
pub open spec fn opened(
    start: Seq<Entry>,
    end: Seq<Entry>,
    pp: &MulcsProverParam,
    poly: &Mle,
    u: Seq<int>,
    res: Result<(MulcsSymmetricProof, Scalar), PCSError>,
) -> bool {
    exists|c: ReciChallenges| #[trigger]
        symmetric_result(start, end, pp.key(), poly.table(), u, res, c)
}

/// Whether a key is long enough for the witness of a table.
pub open spec fn key_fits(pp: &MulcsProverParam, poly: &Mle) -> bool {
    poly.evaluations@.len() - 1 <= pp.g1_powers@.len()
}

/// Opens a polynomial at a point. The key has to be long enough.
pub fn symmetric_open_with_transcript(
    pp: &MulcsProverParam,
    polynomial: &Mle,
    point: &[Scalar],
    transcript: &mut IOPTranscript,
) -> (res: Result<(MulcsSymmetricProof, Scalar), PCSError>)
    requires
        polynomial.wf(),
        polynomial.num_vars + 1 < usize::BITS,
        key_fits(pp, polynomial),
    ensures
        point@.len() != polynomial.num_vars ==> (res matches Err(e) && e is InvalidParameters)
            && final(transcript)@ == old(transcript)@,
        point@.len() == polynomial.num_vars ==> opened(
            old(transcript)@,
            final(transcript)@,
            pp,
            polynomial,
            vals(point@),
            res,
        ),
{
    let mu: usize = polynomial.num_vars;
    let ghost start = transcript@;
    let ghost f = polynomial.table();
    let ghost u = vals(point@);
    let y = match polynomial.evaluate(point) {
        Some(v) => v,
        None => {
            return Err(invalid_parameters("evaluation failed"));
        },
    };
    proof {
        lemma_p2_step(mu + 1);
        lemma_pow2_fits(mu + 1);
    }
    let coeffs = polynomial.evaluations.as_slice();
    let hbar = symmetric_witness(coeffs, point, mu);
    let labels = scheme_labels();
    let opening = reciprocal_open(
        pp.g1_powers.as_slice(),
        coeffs,
        hbar.as_slice(),
        Ghost(u),
        &labels,
        transcript,
    );
    let ghost c = choose|c: ReciChallenges|
        opening_result(start, transcript@, labels, pp.key(), f, u, opening, c);
    match opening {
        Ok(parts) => {
            let proof = MulcsSymmetricProof {
                cm_hbar: parts.cm_hbar,
                f_z: parts.f_z,
                f_z_inv: parts.f_z_inv,
                hbar_z: parts.hbar_z,
                hbar_z_inv: parts.hbar_z_inv,
                z: parts.z,
                pi: parts.pi,
                mu,
            };
            let res: Result<(MulcsSymmetricProof, Scalar), PCSError> = Ok((proof, y));
            assert(symmetric_result(start, transcript@, pp.key(), f, u, res, c));
            res
        },
        Err(e) => {
            let res: Result<(MulcsSymmetricProof, Scalar), PCSError> = Err(
                invalid_parameters(e.message()),
            );
            assert(symmetric_result(start, transcript@, pp.key(), f, u, res, c));
            res
        },
    }
}

/// The verifier's key.
pub open spec fn key_model(vp: &MulcsVerifierParam) -> ReciKey {
    ReciKey {
        g1_one: vp.g1_one@,
        g1_tau: vp.g1_x@,
        g2_one: vp.g2_one@,
        g2_tau: vp.g2_x@,
        g2_tau2: vp.g2_x2@,
    }
}

/// Whether a proof has the form that the key and the point ask for.
pub open spec fn proof_ok(
    vp: &MulcsVerifierParam,
    point: Seq<Scalar>,
    proof: &MulcsSymmetricProof,
) -> bool {
    &&& 1 <= proof.mu < usize::BITS
    &&& point.len() == proof.mu
    &&& vp.max_degree >= p2(proof.mu as int) - 1
}

/// What comes of the verification of a proof of the right form, for some
/// challenges.
pub open spec fn verified(
    start: Seq<Entry>,
    end: Seq<Entry>,
    vp: &MulcsVerifierParam,
    com: int,
    u: Seq<int>,
    y: int,
    proof: &MulcsSymmetricProof,
    res: Result<bool, PCSError>,
) -> bool {
    exists|c: ReciChallenges| #[trigger]
        verification_result(
            start,
            end,
            labels(),
            key_model(vp),
            com,
            u,
            y,
            proof.model(),
            Some(proof.z@),
            res,
            c,
        )
}

/// Verifies a proof.
pub fn symmetric_verify_with_transcript(
    vp: &MulcsVerifierParam,
    commitment: &G1,
    point: &[Scalar],
    value: &Scalar,
    proof: &MulcsSymmetricProof,
    transcript: &mut IOPTranscript,
) -> (res: Result<bool, PCSError>)
    ensures
        !proof_ok(vp, point@, proof) ==> (res matches Err(e) && e is InvalidProof)
            && final(transcript)@ == old(transcript)@,
        proof_ok(vp, point@, proof) ==> verified(
            old(transcript)@,
            final(transcript)@,
            vp,
            commitment@,
            vals(point@),
            value@,
            proof,
            res,
        ),
{
    let mu: usize = proof.mu;
    if mu == 0 {
        return Err(invalid_proof("mu is zero"));
    }
    if mu >= usize::BITS as usize {
        return Err(invalid_proof("mu exceeds platform word size"));
    }
    let n: usize = pow2_usize(mu);
    if point.len() != mu {
        return Err(invalid_proof("point length differs from proof.mu"));
    }
    proof {
        lemma_pow2_mono(0, mu as int);
    }
    if vp.max_degree < n - 1 {
        return Err(invalid_proof("verifier param max_degree insufficient"));
    }
    let parts = ReciParts {
        cm_hbar: proof.cm_hbar,
        pi: proof.pi,
        f_z: proof.f_z,
        f_z_inv: proof.f_z_inv,
        hbar_z: proof.hbar_z,
        hbar_z_inv: proof.hbar_z_inv,
        z: proof.z,
    };
    let points = ReciPoints {
        g1_one: vp.g1_one,
        g1_tau: vp.g1_x,
        g2_one: vp.g2_one,
        g2_tau: vp.g2_x,
        g2_tau2: vp.g2_x2,
    };
    let labels = scheme_labels();
    assert(parts.model() == proof.model());
    assert(points.model() == key_model(vp));
    reciprocal_verify(
        &points,
        commitment,
        point,
        value,
        &parts,
        Some(proof.z),
        &labels,
        transcript,
    )
}

/// Whether a result is that of an opening in a transcript with the history
/// `start`: its course is determined by that and what the prover sends.
pub open spec fn is_opening(
    start: Seq<Entry>,
    pp: &MulcsProverParam,
    poly: &Mle,
    point: Seq<Scalar>,
    res: Result<(MulcsSymmetricProof, Scalar), PCSError>,
) -> bool {
    exists|end: Seq<Entry>|
        is_course(end) && #[trigger] opened(start, end, pp, poly, vals(point), res)
}

/// Whether a result is that of a verification in a transcript with the history
/// `start`: its course is determined by that and the proof.
pub open spec fn is_verification(
    start: Seq<Entry>,
    vp: &MulcsVerifierParam,
    com: int,
    point: Seq<Scalar>,
    value: int,
    proof: &MulcsSymmetricProof,
    res: Result<bool, PCSError>,
) -> bool {
    exists|end: Seq<Entry>|
        is_course(end) && #[trigger] verified(
            start,
            end,
            vp,
            com,
            vals(point),
            value,
            proof,
            res,
        )
}

/// The commitment scheme.
pub struct MulcsSymmetricPCS {}

impl MulcsSymmetricPCS {
    /// Parameters for up to `s` variables from a trapdoor, a point of each
    /// group and `gamma`. For testing only.
    pub fn gen_srs_for_testing(x: Scalar, g1: G1, g2: G2, gamma: Scalar, s: usize) -> (r: Result<
        MulcsUniversalParams,
        PCSError,
    >)
        requires
            s + 1 < usize::BITS,
        ensures
            r is Ok <==> s > 0,
            r matches Err(e) ==> e is InvalidParameters,
            r matches Ok(srs) ==> {
                &&& srs.wf()
                &&& srs.prover_param.max_degree == 2 * p2(s as int)
                &&& is_power_key(srs.prover_param.key(), g1@, x@)
                &&& srs.prover_param.g2_one@ == g2@
                &&& srs.prover_param.g2_x@ == fmul(g2@, x@)
                &&& srs.prover_param.g2_x2@ == fmul(fmul(g2@, x@), x@)
                &&& srs.prover_param.gamma == gamma
                &&& srs.verifier_param.g1_one@ == srs.prover_param.key()[0]
                &&& srs.verifier_param.g1_x@ == srs.prover_param.key()[1]
                &&& srs.verifier_param.g2_one@ == g2@
                &&& srs.verifier_param.g2_x@ == fmul(g2@, x@)
                &&& srs.verifier_param.g2_x2@ == fmul(fmul(g2@, x@), x@)
                &&& srs.verifier_param.gamma == gamma
                &&& srs.verifier_param.max_degree == srs.prover_param.max_degree
            },
    {
        MulcsUniversalParams::gen_srs_for_testing(x, g1, g2, gamma, s)
    }

    /// Prover and verifier parameters for a number of variables, which has to
    /// be given.
    pub fn trim(srs: &MulcsUniversalParams, nv: Option<usize>) -> (r: Result<
        (MulcsProverParam, MulcsVerifierParam),
        PCSError,
    >)
        requires
            srs.wf(),
            nv matches Some(m) ==> m < usize::BITS,
        ensures
            r is Ok <==> (nv matches Some(m) && p2(m as int) <= srs.prover_param.max_degree),
            r matches Err(e) ==> e is InvalidParameters,
            r matches Ok((ck, vk)) ==> (nv matches Some(m) && {
                &&& ck.wf()
                &&& ck.max_degree == p2(m as int)
                &&& ck.g1_powers@ == srs.prover_param.g1_powers@.take(ck.max_degree + 1)
                &&& ck.g2_one == srs.prover_param.g2_one
                &&& ck.g2_x == srs.prover_param.g2_x
                &&& ck.g2_x2 == srs.prover_param.g2_x2
                &&& ck.gamma == srs.prover_param.gamma
                &&& vk.g1_one == srs.verifier_param.g1_one
                &&& vk.g1_x == srs.prover_param.g1_powers@[1]
                &&& vk.g2_one == srs.verifier_param.g2_one
                &&& vk.g2_x == srs.verifier_param.g2_x
                &&& vk.g2_x2 == srs.verifier_param.g2_x2
                &&& vk.gamma == srs.verifier_param.gamma
                &&& vk.max_degree == ck.max_degree
            }),
    {
        match nv {
            None => Err(invalid_parameters("need num_var")),
            Some(m) => {
                let size: usize = pow2_usize(m);
                proof {
                    lemma_pow2_mono(0, m as int);
                }
                srs.trim(size)
            },
        }
    }

    /// Commits to a polynomial.
    pub fn commit(pp: &MulcsProverParam, poly: &Mle) -> (r: Result<G1, PCSError>)
        requires
            pp.wf(),
            poly.wf(),
        ensures
            r is Ok <==> p2(poly.num_vars as int) - 1 <= pp.max_degree,
            r matches Err(e) ==> e is InvalidParameters,
            r matches Ok(c) ==> c@ == dot(pp.key(), poly.table(), poly.evaluations@.len() as int),
    {
        MulcsPCS::commit(pp, poly)
    }

    /// Opens a polynomial at a point. The key has to be long enough.
    pub fn open(pp: &MulcsProverParam, poly: &Mle, point: &[Scalar]) -> (res: Result<
        (MulcsSymmetricProof, Scalar),
        PCSError,
    >)
        requires
            poly.wf(),
            poly.num_vars + 1 < usize::BITS,
            key_fits(pp, poly),
        ensures
            point@.len() != poly.num_vars ==> (res matches Err(e) && e is InvalidParameters),
            point@.len() == poly.num_vars ==> is_opening(
                fresh_log(point@.len() as int),
                pp,
                poly,
                point@,
                res,
            ),
    {
        let mut t: IOPTranscript = IOPTranscript::new("mulcs-sym-open");
        t.append_field_element("mu", &Scalar::from_u64(poly.num_vars as u64));
        assert(t@ =~= fresh_log(poly.num_vars as int));
        let res = symmetric_open_with_transcript(pp, poly, point, &mut t);
        proof {
            use_type_invariant(&t);
            t.lemma_course();
        }
        res
    }

    /// Verifies a proof.
    pub fn verify(
        vp: &MulcsVerifierParam,
        com: &G1,
        point: &[Scalar],
        val: &Scalar,
        proof: &MulcsSymmetricProof,
    ) -> (res: Result<bool, PCSError>)
        ensures
            !proof_ok(vp, point@, proof) ==> (res matches Err(e) && e is InvalidProof),
            proof_ok(vp, point@, proof) ==> is_verification(
                fresh_log(point@.len() as int),
                vp,
                com@,
                point@,
                val@,
                proof,
                res,
            ),
    {
        let mut t: IOPTranscript = IOPTranscript::new("mulcs-sym-open");
        t.append_field_element("mu", &Scalar::from_u64(proof.mu as u64));
        assert(t@ =~= fresh_log(proof.mu as int));
        let res = symmetric_verify_with_transcript(vp, com, point, val, proof, &mut t);
        proof {
            use_type_invariant(&t);
            t.lemma_course();
        }
        res
    }

    /// The first stage of a batched opening: what the sumcheck has to prove.
    pub fn multi_open_begin(
        polys: &[Mle],
        points: &[Vec<Scalar>],
        evals: &[Scalar],
        transcript: &mut IOPTranscript,
    ) -> (r: Result<BatchPlan, PCSError>)
        requires
            polys@.len() <= p2(usize::BITS - 1),
            forall|i: int| 0 <= i < polys@.len() ==> (#[trigger] polys@[i]).wf(),
        ensures
            r is Ok <==> batch_ok(polys@, points@, evals@),
            r matches Err(e) ==> e is InvalidParameters && final(transcript)@ == old(transcript)@,
            r matches Ok(plan) ==> {
                &&& plan.wf()
                &&& is_plan(
                    &plan,
                    tables(polys@),
                    poly_views(points@),
                    polys@[0].num_vars as int,
                )
                &&& batched(
                    old(transcript)@,
                    final(transcript)@,
                    poly_views(points@),
                    vals(evals@),
                    vals(plan.weights@),
                )
            },
    {
        plan_batch(polys, points, evals, transcript)
    }

    /// The second stage of a batched opening, with the final point of the
    /// sumcheck, or with none where the sumcheck failed. The key has to be long
    /// enough.
    pub fn multi_open_finish(
        pp: &MulcsProverParam,
        plan: &BatchPlan,
        a2: Option<&[Scalar]>,
    ) -> (res: Result<(MulcsSymmetricProof, Scalar), PCSError>)
        requires
            plan.wf(),
            plan.num_var + 1 < usize::BITS,
            p2(plan.num_var as int) - 1 <= pp.g1_powers@.len(),
            a2 matches Some(a) ==> a@.len() == plan.num_var,
        ensures
            a2 is None ==> (res matches Err(e) && e is InvalidProver),
            a2 matches Some(a) ==> exists|g: Mle| #[trigger]
                aggregate_opened(pp, plan, a@, res, g),
    {
        match a2 {
            None => Err(invalid_prover("Sumcheck failed")),
            Some(a) => {
                let aggregated_poly = aggregate(plan, a);
                let g = aggregated_poly?;
                let mut t: IOPTranscript = aggregate_transcript(a);
                let res = symmetric_open_with_transcript(pp, &g, a, &mut t);
                proof {
                    use_type_invariant(&t);
                    t.lemma_course();
                }
                assert(opened(aggregate_log(vals(a@)), t@, pp, &g, vals(a@), res));
                assert(aggregate_opened(pp, plan, a@, res, g));
                res
            },
        }
    }

    /// The first stage of a batched verification: the sum that the sumcheck
    /// has to prove. `num_var` is the dimension of its final point.
    pub fn batch_verify_begin(
        coms: &[G1],
        points: &[Vec<Scalar>],
        evals: &[Scalar],
        num_var: usize,
        transcript: &mut IOPTranscript,
    ) -> (r: Result<BatchClaim, PCSError>)
        requires
            points_fit(points@),
            coms@.len() <= p2(usize::BITS - 1),
        ensures
            r is Ok <==> claims_ok(coms@, points@, evals@, num_var as int),
            r matches Err(e) ==> e is InvalidProof && final(transcript)@ == if counts_ok(
                coms@,
                points@,
                evals@,
            ) {
                with_claims(old(transcript)@, poly_views(points@), vals(evals@))
            } else {
                old(transcript)@
            },
            r matches Ok(c) ==> {
                &&& c.weights@.len() >= coms@.len()
                &&& c.sum@ == weighted_sum(vals(c.weights@), vals(evals@), evals@.len() as int)
                &&& batched(
                    old(transcript)@,
                    final(transcript)@,
                    poly_views(points@),
                    vals(evals@),
                    vals(c.weights@),
                )
            },
    {
        append_and_claim_batch(coms, points, evals, num_var, transcript)
    }

    /// The second stage of a batched verification, with the final point of the
    /// sumcheck and the value that it expects there, or with none where the
    /// sumcheck failed.
    pub fn batch_verify_finish(
        vp: &MulcsVerifierParam,
        coms: &[G1],
        points: &[Vec<Scalar>],
        claim: &BatchClaim,
        a2: &[Scalar],
        expected: Option<Scalar>,
        proof: &MulcsSymmetricProof,
    ) -> (res: Result<bool, PCSError>)
        requires
            vector_fits(a2@.len() as int),
            coms@.len() == points@.len(),
            points@.len() <= claim.weights@.len(),
            forall|i: int| 0 <= i < points@.len() ==> (#[trigger] points@[i])@.len() == a2@.len(),
        ensures
            expected is None ==> (res matches Err(e) && e is InvalidProver),
            expected matches Some(y) ==> {
                &&& !proof_ok(vp, a2@, proof) ==> (res matches Err(e) && e is InvalidProof)
                &&& proof_ok(vp, a2@, proof) ==> is_verification(
                    aggregate_log(vals(a2@)),
                    vp,
                    dot(
                        logs(coms@),
                        aggregate_scalars(
                            vals(claim.weights@),
                            vals(a2@),
                            poly_views(points@),
                        ),
                        coms@.len() as int,
                    ),
                    a2@,
                    y@,
                    proof,
                    res,
                )
            },
    {
        match expected {
            None => Err(invalid_prover("Sumcheck verify failed")),
            Some(y) => {
                let g_prime_commit = aggregate_commitments(
                    coms,
                    points,
                    claim.weights.as_slice(),
                    a2,
                )?;
                let mut t: IOPTranscript = aggregate_transcript(a2);
                let res = symmetric_verify_with_transcript(
                    vp,
                    &g_prime_commit,
                    a2,
                    &y,
                    proof,
                    &mut t,
                );
                proof {
                    use_type_invariant(&t);
                    t.lemma_course();
                }
                assert(proof_ok(vp, a2@, proof) ==> verified(
                    aggregate_log(vals(a2@)),
                    t@,
                    vp,
                    g_prime_commit@,
                    vals(a2@),
                    y@,
                    proof,
                    res,
                ));
                res
            },
        }
    }
}

/// A fresh transcript for the aggregated polynomial of a batch.
fn aggregate_transcript(a: &[Scalar]) -> (t: IOPTranscript)
    requires
        vector_fits(a@.len() as int),
    ensures
        t@ == aggregate_log(vals(a@)),
{
    let mut t: IOPTranscript = IOPTranscript::new("mulcs-sym-gprime-open");
    t.append_field_elements("point_a2", a);
    t.append_field_element("mu", &Scalar::from_u64(a.len() as u64));
    assert(t@ =~= aggregate_log(vals(a@)));
    t
}

/// Whether an opening is that of the aggregated polynomial `g` of a batch.
pub open spec fn aggregate_opened(
    pp: &MulcsProverParam,
    plan: &BatchPlan,
    a: Seq<Scalar>,
    res: Result<(MulcsSymmetricProof, Scalar), PCSError>,
    g: Mle,
) -> bool {
    &&& is_aggregate(plan, a, &g)
    &&& is_opening(aggregate_log(vals(a)), pp, &g, a, res)
}

} // verus!
