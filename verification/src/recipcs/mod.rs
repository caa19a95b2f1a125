//! ReciPCS: a multilinear commitment scheme over a univariate KZG key whose
//! openings take place at a point and its inverse.
//!
//! A proof has two points of G1 and four scalars.

pub mod batch;
pub mod roundtrip;
pub mod serving;
pub mod soundness;
pub mod srs;

use crate::dims::{lemma_pow2_fits, lemma_pow2_mono, pow2_usize};
use crate::errors::{invalid_parameters, invalid_proof, PCSError};
use crate::field::{fmul, vals, Scalar};
use crate::group::{G1, G2};
use crate::kzg::is_power_key;
use crate::laurent::{
    laurent, laurent_offset, law_constant_coefficient, mul_by_reciprocal_tensor, witness_of,
};
use crate::poly::dot;
use crate::recipcs::srs::{ReciProverParam, ReciUniversalParams, ReciVerifierParam};
use crate::reciprocal::{
    after_z, honest_proof, is_honest_run, opening_result, reciprocal_open, reciprocal_verify,
    verification_result, ReciChallenges, ReciLabels, ReciModel, ReciParts,
};
use crate::tensor::{lemma_p2_step, mle_eval, p2, Mle};
use crate::transcript::{is_course, reciprocal, vector_fits, Entry, IOPTranscript};
use vstd::prelude::*;

verus! {

/// A proof of an opening.
#[derive(Clone, Debug)]
pub struct ReciProof {
    /// Commitment to the reciprocal witness.
    pub cm_hbar: G1,
    /// Proof of the batched KZG opening at `z` and its inverse.
    pub pi: G1,
    pub f_z: Scalar,
    pub f_z_inv: Scalar,
    pub hbar_z: Scalar,
    pub hbar_z_inv: Scalar,
    /// Number of variables.
    pub mu: usize,
}

impl ReciProof {
    /// The values that the proof holds.
    pub open spec fn model(&self) -> ReciModel {
        ReciModel {
            cm_hbar: self.cm_hbar@,
            pi: self.pi@,
            f_z: self.f_z@,
            f_z_inv: self.f_z_inv@,
            hbar_z: self.hbar_z@,
            hbar_z_inv: self.hbar_z_inv@,
        }
    }
}

/// The labels of the scheme.
pub open spec fn labels() -> ReciLabels {
    ReciLabels {
        cm_hbar: "recipcs::cm_hbar",
        z: "recipcs::z",
        f_z: "recipcs::f_z",
        f_z_inv: "recipcs::f_z_inv",
        hbar_z: "recipcs::hbar_z",
        hbar_z_inv: "recipcs::hbar_z_inv",
        alpha: "recipcs::alpha",
    }
}

fn scheme_labels() -> (l: ReciLabels)
    ensures
        l == labels(),
{
    ReciLabels {
        cm_hbar: "recipcs::cm_hbar",
        z: "recipcs::z",
        f_z: "recipcs::f_z",
        f_z_inv: "recipcs::f_z_inv",
        hbar_z: "recipcs::hbar_z",
        hbar_z_inv: "recipcs::hbar_z_inv",
        alpha: "recipcs::alpha",
    }
}

/// The history of a fresh transcript with the statement that `com` opens at `u`
/// to `y`.
pub open spec fn stated(mu: int, com: int, u: Seq<int>, y: int) -> Seq<Entry> {
    seq![
        Entry::Domain("recipcs-v1"@),
        Entry::Field("recipcs::mu"@, mu),
        Entry::Point("recipcs::cm_f"@, com),
        Entry::Fields("recipcs::point"@, u),
        Entry::Field("recipcs::value"@, y),
    ]
}

/// A fresh transcript with the statement.
fn new_transcript(mu: usize, cm_f: &G1, point: &[Scalar], value: &Scalar) -> (t:
    IOPTranscript)
    requires
        vector_fits(point@.len() as int),
    ensures
        t@ == stated(mu as int, cm_f@, vals(point@), value@),
{
    let mut t: IOPTranscript = IOPTranscript::new("recipcs-v1");
    t.append_field_element("recipcs::mu", &Scalar::from_u64(mu as u64));
    t.append_point("recipcs::cm_f", cm_f);
    t.append_field_elements("recipcs::point", point);
    t.append_field_element("recipcs::value", value);
    assert(t@ =~= stated(mu as int, cm_f@, vals(point@), value@));
    t
}

/// The Laurent buffer of `f(X) T(1/X)`: entry `N - 1 + i` holds the coefficient
/// of `X^i`.
pub fn compute_laurent_h(coeffs: &[Scalar], mu: usize, r: &[Scalar]) -> (buf: Vec<Scalar>)
    requires
        mu < usize::BITS,
        2 * p2(mu as int) <= usize::MAX,
        coeffs@.len() == p2(mu as int),
        r@.len() == mu,
    ensures
        vals(buf@) == laurent(vals(coeffs@), vals(r@), mu as int, mu as int),
        buf@.len() == 2 * p2(mu as int) - 1,
{
    let buf = mul_by_reciprocal_tensor(coeffs, mu, r);
    proof {
        assert(vals(coeffs@).take(p2(mu as int)) =~= vals(coeffs@));
        assert(vals(buf@).len() == buf@.len());
    }
    buf
}

/// The sums of the coefficients of `X^{i + 1}` and `X^{-(i + 1)}`.
pub fn compute_hbar(laurent_h: &[Scalar], offset: usize) -> (hbar: Vec<Scalar>)
    requires
        laurent_h@.len() == 2 * offset + 1,
    ensures
        vals(hbar@) == witness_of(vals(laurent_h@), offset as int),
        hbar@.len() == offset,
{
    let ghost want = witness_of(vals(laurent_h@), offset as int);
    let total: usize = laurent_h.len();
    let mut hbar: Vec<Scalar> = Vec::new();
    let mut i: usize = 0;
    while i < offset
        invariant
            i <= offset,
            total == laurent_h@.len(),
            total == 2 * offset + 1,
            want == witness_of(vals(laurent_h@), offset as int),
            hbar@.len() == i,
            forall|k: int| 0 <= k < i ==> (#[trigger] hbar@[k])@ == want[k],
        decreases offset - i,
    {
        hbar.push(laurent_h[offset + (i + 1)].add(laurent_h[offset - (i + 1)]));
        i = i + 1;
    }
    assert(vals(hbar@) =~= want);
    hbar
}

/// What comes of an opening, after the statement, for some challenges.
pub open spec fn core_opened(
    start: Seq<Entry>,
    end: Seq<Entry>,
    key: Seq<int>,
    f: Seq<int>,
    u: Seq<int>,
    res: Result<(ReciProof, Scalar), PCSError>,
    c: ReciChallenges,
) -> bool {
    match res {
        Ok((proof, value)) => {
            &&& is_honest_run(start, end, labels(), key, f, u, proof.model(), c)
            &&& proof.mu == u.len()
            &&& value@ == mle_eval(f, u)
        },
        Err(e) => {
            &&& e is InvalidProof
            &&& !reciprocal()(c.z)
            &&& end == after_z(start, labels(), honest_proof(key, f, u, c).cm_hbar, c.z)
        },
    }
}

/// Whether a table can be opened at a point to a value with a key.
pub open spec fn opening_ok(
    pp: &ReciProverParam,
    poly: &Mle,
    point: Seq<Scalar>,
    value: int,
) -> bool {
    &&& poly.num_vars >= 1
    &&& point.len() == poly.num_vars
    &&& value == mle_eval(poly.table(), vals(point))
    &&& poly.evaluations@.len() - 1 <= pp.g1_powers@.len()
}

/// Opens a polynomial, after the statement was appended to the transcript.
pub fn recipcs_open(
    pp: &ReciProverParam,
    poly: &Mle,
    point: &[Scalar],
    value: &Scalar,
    transcript: &mut IOPTranscript,
) -> (res: Result<(ReciProof, Scalar), PCSError>)
    requires
        poly.wf(),
        2 * p2(poly.num_vars as int) <= usize::MAX,
    ensures
        !opening_ok(pp, poly, point@, value@) ==> (res matches Err(e) && e is InvalidParameters)
            && final(transcript)@ == old(transcript)@,
        opening_ok(pp, poly, point@, value@) ==> exists|c: ReciChallenges| #[trigger]
            core_opened(
                old(transcript)@,
                final(transcript)@,
                pp.key(),
                poly.table(),
                vals(point@),
                res,
                c,
            ),
{
    let mu: usize = poly.num_vars;
    if mu == 0 {
        return Err(invalid_parameters("mu = 0 unsupported"));
    }
    if point.len() != mu {
        return Err(invalid_parameters("point length differs from mu"));
    }
    let ghost start = transcript@;
    let ghost f = poly.table();
    let ghost u = vals(point@);
    let coeffs = poly.evaluations.as_slice();
    let laurent_h = compute_laurent_h(coeffs, mu, point);
    let offset: usize = laurent_offset(mu);
    proof {
        law_constant_coefficient(f, u);
        assert(vals(laurent_h@)[offset as int] == laurent_h@[offset as int]@);
    }
    let y = laurent_h[offset];
    if !y.equals(value) {
        return Err(invalid_parameters("claimed value inconsistent with committed polynomial"));
    }
    let hbar = compute_hbar(laurent_h.as_slice(), offset);
    if hbar.len() > pp.g1_powers.len() {
        return Err(invalid_parameters("polynomial degree exceeds SRS max degree"));
    }
    let labels = scheme_labels();
    let opening = reciprocal_open(
        pp.g1_powers.as_slice(),
        coeffs,
        hbar.as_slice(),
        Ghost(u),
        &labels,
        transcript,
    );
    let ghost c = choose|c: ReciChallenges|
        opening_result(start, transcript@, labels, pp.key(), f, u, opening, c);
    match opening {
        Ok(parts) => {
            let proof = ReciProof {
                cm_hbar: parts.cm_hbar,
                pi: parts.pi,
                f_z: parts.f_z,
                f_z_inv: parts.f_z_inv,
                hbar_z: parts.hbar_z,
                hbar_z_inv: parts.hbar_z_inv,
                mu,
            };
            let res: Result<(ReciProof, Scalar), PCSError> = Ok((proof, y));
            assert(core_opened(start, transcript@, pp.key(), f, u, res, c));
            res
        },
        Err(e) => {
            let res: Result<(ReciProof, Scalar), PCSError> = Err(e);
            assert(core_opened(start, transcript@, pp.key(), f, u, res, c));
            res
        },
    }
}

/// Whether a proof has the form that the key and the point ask for.
pub open spec fn proof_ok(vp: &ReciVerifierParam, point: Seq<Scalar>, proof: &ReciProof) -> bool {
    &&& 1 <= proof.mu < usize::BITS
    &&& point.len() == proof.mu
    &&& vp.max_degree >= p2(proof.mu as int) - 1
}

/// What comes of the verification of a proof of the right form, for some
/// challenges.
pub open spec fn verified(
    start: Seq<Entry>,
    end: Seq<Entry>,
    vp: &ReciVerifierParam,
    com: int,
    u: Seq<int>,
    y: int,
    proof: &ReciProof,
    res: Result<bool, PCSError>,
) -> bool {
    exists|c: ReciChallenges| #[trigger]
        verification_result(
            start,
            end,
            labels(),
            vp.model(),
            com,
            u,
            y,
            proof.model(),
            None,
            res,
            c,
        )
}

/// Verifies a proof, after the statement was appended to the transcript.
pub fn recipcs_verify(
    vp: &ReciVerifierParam,
    com: &G1,
    point: &[Scalar],
    value: &Scalar,
    proof: &ReciProof,
    transcript: &mut IOPTranscript,
) -> (res: Result<bool, PCSError>)
    ensures
        !proof_ok(vp, point@, proof) ==> (res matches Err(e) && e is InvalidProof)
            && final(transcript)@ == old(transcript)@,
        proof_ok(vp, point@, proof) ==> verified(
            old(transcript)@,
            final(transcript)@,
            vp,
            com@,
            vals(point@),
            value@,
            proof,
            res,
        ),
{
    let mu: usize = proof.mu;
    if mu == 0 {
        return Err(invalid_proof("mu is zero"));
    }
    if mu >= usize::BITS as usize {
        return Err(invalid_proof("mu exceeds platform word size"));
    }
    let n: usize = pow2_usize(mu);
    if point.len() != mu {
        return Err(invalid_proof("point length differs from proof.mu"));
    }
    proof {
        lemma_pow2_mono(0, mu as int);
    }
    if vp.max_degree < n - 1 {
        return Err(invalid_proof("verifier max_degree insufficient"));
    }
    let parts = ReciParts {
        cm_hbar: proof.cm_hbar,
        pi: proof.pi,
        f_z: proof.f_z,
        f_z_inv: proof.f_z_inv,
        hbar_z: proof.hbar_z,
        hbar_z_inv: proof.hbar_z_inv,
        z: Scalar::zero(),
    };
    let labels = scheme_labels();
    assert(parts.model() == proof.model());
    reciprocal_verify(
        &vp.points(),
        com,
        point,
        value,
        &parts,
        None,
        &labels,
        transcript,
    )
}

/// Whether a table can be opened at a point with a key.
pub open spec fn request_ok(pp: &ReciProverParam, poly: &Mle, point: Seq<Scalar>) -> bool {
    &&& 1 <= poly.num_vars
    &&& poly.num_vars + 1 < usize::BITS
    &&& point.len() == poly.num_vars
    &&& p2(poly.num_vars as int) - 1 <= pp.max_degree
}

/// What comes of an opening, with its statement, for some challenges.
pub open spec fn opened(
    end: Seq<Entry>,
    pp: &ReciProverParam,
    poly: &Mle,
    u: Seq<int>,
    res: Result<(ReciProof, Scalar), PCSError>,
) -> bool {
    exists|c: ReciChallenges| #[trigger]
        core_opened(
            stated(
                u.len() as int,
                dot(pp.key(), poly.table(), poly.evaluations@.len() as int),
                u,
                mle_eval(poly.table(), u),
            ),
            end,
            pp.key(),
            poly.table(),
            u,
            res,
            c,
        )
}

/// Whether a result is that of an opening: its course is determined by the
/// statement and what the prover sends.
pub open spec fn is_opening(
    pp: &ReciProverParam,
    poly: &Mle,
    point: Seq<Scalar>,
    res: Result<(ReciProof, Scalar), PCSError>,
) -> bool {
    exists|end: Seq<Entry>| is_course(end) && #[trigger] opened(end, pp, poly, vals(point), res)
}

/// Whether a result is that of a verification: its course is determined by the
/// statement and the proof.
pub open spec fn is_verification(
    vp: &ReciVerifierParam,
    com: int,
    point: Seq<Scalar>,
    value: int,
    proof: &ReciProof,
    res: Result<bool, PCSError>,
) -> bool {
    let u = vals(point);
    exists|end: Seq<Entry>|
        is_course(end) && #[trigger] verified(
            stated(u.len() as int, com, u, value),
            end,
            vp,
            com,
            u,
            value,
            proof,
            res,
        )
}

/// The commitment scheme.
pub struct ReciPCS {}

impl ReciPCS {
    /// Parameters for up to `nv` variables from a trapdoor and a point of each
    /// group. For testing only.
    pub fn gen_srs_for_testing(tau: Scalar, g1: G1, g2: G2, nv: usize) -> (r: Result<
        ReciUniversalParams,
        PCSError,
    >)
        ensures
            r is Ok <==> 1 <= nv < usize::BITS,
            r matches Err(e) ==> e is InvalidParameters,
            r matches Ok(srs) ==> {
                &&& srs.wf()
                &&& srs.prover_param.max_degree == p2(nv as int) - 1
                &&& is_power_key(srs.prover_param.key(), g1@, tau@)
                &&& srs.verifier_param.g1_one@ == srs.prover_param.key()[0]
                &&& srs.verifier_param.g1_tau@ == srs.prover_param.key()[1]
                &&& srs.verifier_param.g2_one@ == g2@
                &&& srs.verifier_param.g2_tau@ == fmul(g2@, tau@)
                &&& srs.verifier_param.g2_tau2@ == fmul(fmul(g2@, tau@), tau@)
                &&& srs.verifier_param.max_degree == srs.prover_param.max_degree
            },
    {
        ReciUniversalParams::gen_srs_for_testing(tau, g1, g2, nv)
    }

    /// Prover and verifier parameters for a number of variables, which has to
    /// be given.
    pub fn trim(srs: &ReciUniversalParams, supported_num_vars: Option<usize>) -> (r: Result<
        (ReciProverParam, ReciVerifierParam),
        PCSError,
    >)
        requires
            srs.wf(),
            supported_num_vars matches Some(nv) ==> nv < usize::BITS,
        ensures
            r is Ok <==> (supported_num_vars matches Some(nv) && p2(nv as int) - 1
                <= srs.prover_param.max_degree),
            r matches Err(e) ==> e is InvalidParameters,
            r matches Ok((ck, vk)) ==> (supported_num_vars matches Some(nv) && {
                &&& ck.wf()
                &&& ck.max_degree == p2(nv as int) - 1
                &&& ck.g1_powers@ == srs.prover_param.g1_powers@.take(ck.max_degree + 1)
                &&& vk.model() == srs.verifier_param.model()
                &&& vk.max_degree == ck.max_degree
            }),
    {
        match supported_num_vars {
            None => Err(invalid_parameters("need num_var")),
            Some(nv) => {
                let n: usize = pow2_usize(nv);
                proof {
                    lemma_pow2_mono(0, nv as int);
                }
                srs.trim(n - 1)
            },
        }
    }

    /// Commits to a polynomial.
    pub fn commit(pp: &ReciProverParam, poly: &Mle) -> (r: Result<G1, PCSError>)
        requires
            pp.wf(),
            poly.wf(),
        ensures
            r is Ok <==> poly.num_vars + 1 < usize::BITS && p2(poly.num_vars as int) - 1
                <= pp.max_degree,
            r matches Err(e) ==> e is InvalidParameters,
            r matches Ok(c) ==> c@ == dot(pp.key(), poly.table(), poly.evaluations@.len() as int),
    {
        let nv: usize = poly.num_vars;
        if nv >= usize::BITS as usize - 1 {
            return Err(invalid_parameters("num_vars too large for platform word size"));
        }
        let n: usize = pow2_usize(nv);
        proof {
            lemma_pow2_mono(0, nv as int);
        }
        if pp.max_degree < n - 1 {
            return Err(invalid_parameters("SRS max degree insufficient"));
        }
        pp.commit(poly.evaluations.as_slice())
    }

    /// Commits to a polynomial and opens it at a point.
    pub fn open(pp: &ReciProverParam, poly: &Mle, point: &[Scalar]) -> (res: Result<
        (ReciProof, Scalar),
        PCSError,
    >)
        requires
            pp.wf(),
            poly.wf(),
        ensures
            !request_ok(pp, poly, point@) ==> (res matches Err(e) && e is InvalidParameters),
            request_ok(pp, poly, point@) ==> is_opening(pp, poly, point@, res),
            1 <= poly.num_vars && poly.num_vars + 1 < usize::BITS && point@.len() == poly.num_vars
                && p2(poly.num_vars as int) - 1 <= pp.max_degree ==> (res matches Err(e) ==> e
                is InvalidProof),
    {
        if point.len() != poly.num_vars {
            return Err(invalid_parameters("point length differs from mu"));
        }
        let value = match poly.evaluate(point) {
            Some(v) => v,
            None => {
                return Err(invalid_parameters("evaluation failed"));
            },
        };
        let cm_f = Self::commit(pp, poly)?;
        let mut t: IOPTranscript = new_transcript(poly.num_vars, &cm_f, point, &value);
        proof {
            lemma_p2_step(poly.num_vars + 1);
            lemma_pow2_fits(poly.num_vars + 1);
        }
        let res = recipcs_open(pp, poly, point, &value, &mut t);
        proof {
            use_type_invariant(&t);
            t.lemma_course();
        }
        assert(request_ok(pp, poly, point@) ==> opened(t@, pp, poly, vals(point@), res));
        res
    }

    /// Verifies a proof.
    pub fn verify(
        vp: &ReciVerifierParam,
        com: &G1,
        point: &[Scalar],
        value: &Scalar,
        proof: &ReciProof,
    ) -> (res: Result<bool, PCSError>)
        requires
            vector_fits(point@.len() as int),
        ensures
            !proof_ok(vp, point@, proof) ==> (res matches Err(e) && e is InvalidProof),
            proof_ok(vp, point@, proof) ==> is_verification(
                vp,
                com@,
                point@,
                value@,
                proof,
                res,
            ),
    {
        let mut t: IOPTranscript = new_transcript(proof.mu, com, point, value);
        let res = recipcs_verify(vp, com, point, value, proof, &mut t);
        proof {
            use_type_invariant(&t);
            t.lemma_course();
        }
        assert(proof_ok(vp, point@, proof) ==> verified(
            stated(vals(point@).len() as int, com@, vals(point@), value@),
            t@,
            vp,
            com@,
            vals(point@),
            value@,
            proof,
            res,
        ));
        res
    }
}

} // verus!
