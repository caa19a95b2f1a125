//! Mulcs: a multilinear commitment scheme over a univariate KZG key that rests
//! on the Claymore identity.
//!
//! For the table of a polynomial, read as the coefficients of its univariate
//! twin `f`, the product of `f` with structured factors has the value at a
//! point as its middle coefficient. The helper polynomial `hbar` divides out
//! the powers of `gamma`; an opening proves the values of `f` and `hbar` at `z`
//! and `gamma z` in one batch.

pub mod claymore;
pub mod division;
pub mod laws;
pub mod model;
pub mod profile;
pub mod roundtrip;
pub mod serving;
pub mod soundness;
pub mod srs;
pub mod symmetric;
pub mod util;

use crate::batching::{
    aggregate, aggregate_commitments, aggregate_scalars, append_and_claim_batch, batch_ok, batched,
    claims_ok, counts_ok, is_aggregate, is_plan, plan_batch, points_fit, tables, weighted_sum,
    with_claims, BatchClaim, BatchPlan,
};
use crate::bdfg::{add_scaled, lagrange_interpolate, poly_views, vanishing_poly};
use crate::dims::{copy_scalars, lemma_pow2_mono, pow2_usize};
use crate::errors::{invalid_parameters, invalid_proof, invalid_prover, PCSError};
use crate::field::{
    fadd, fmul, fneg, fsub, group_reduced, group_shadow, lemma_modulus, lemma_refl, lemma_shadow_eq,
    vals, Scalar,
};
use crate::group::{logs, logs2, pairing_check, G1, G2};
use crate::kzg::is_power_key;
use crate::mulcs::claymore::{claymore_holds, law_h_middle};
use crate::mulcs::division::{lemma_div_len, poly_sub_div};
use crate::mulcs::model::{
    aggregate_log, combined_quotient, fresh_log, honest_h_bar, honest_proof, is_honest_run,
    is_verdict, pairing_holds, run_end, two_point_interp, two_point_quotient, MulcsChallenges,
    MulcsKey, MulcsModel,
};
use crate::mulcs::srs::{MulcsProverParam, MulcsUniversalParams, MulcsVerifierParam};
use crate::mulcs::util::UnivarPoly;
use crate::poly::{
    distinct, dot, feval, interp, invertible, lemma_vals_reduced, nodes_ok, p_mul_linear, p_sub,
    p_vanishing,
};
use crate::quadratic::two_point_remainder;
use crate::tensor::{eval_tensor, lemma_p2_step, lemma_p2_zero, mle_eval, p2, Mle};
use crate::transcript::{is_course, vector_fits, Entry, IOPTranscript};
use vstd::prelude::*;

verus! {

/// A proof of an opening.
#[derive(Clone, Debug)]
pub struct MulcsProof {
    pub cm_hbar: G1,
    pub y_f: Scalar,
    pub y_f_prime: Scalar,
    pub y_hbar: Scalar,
    pub y_hbar_prime: Scalar,
    pub z: Scalar,
    pub pi: G1,
    pub rf: Vec<Scalar>,
    pub rh: Vec<Scalar>,
    /// Number of variables.
    pub mu: usize,
}

impl MulcsProof {
    /// The values that the proof holds.
    pub open spec fn model(&self) -> MulcsModel {
        MulcsModel {
            cm_hbar: self.cm_hbar@,
            y_f: self.y_f@,
            y_f_prime: self.y_f_prime@,
            y_hbar: self.y_hbar@,
            y_hbar_prime: self.y_hbar_prime@,
            z: self.z@,
            pi: self.pi@,
            rf: vals(self.rf@),
            rh: vals(self.rh@),
        }
    }
}

/// Whether a number of variables is supported.
pub open spec fn mu_ok(mu: int) -> bool {
    1 <= mu < usize::BITS
}

/// Number of entries of a table in `mu` variables.
pub fn checked_domain_size_from_mu(mu: usize) -> (r: Result<usize, PCSError>)
    ensures
        r is Ok <==> mu_ok(mu as int),
        r matches Ok(n) ==> n == p2(mu as int),
        r matches Err(e) ==> e is InvalidProof,
{
    if mu == 0 {
        return Err(invalid_proof("mu is zero"));
    }
    if mu >= usize::BITS as usize {
        return Err(invalid_proof("mu exceeds platform word size"));
    }
    Ok(pow2_usize(mu))
}

/// The interpolant of points with their values, and the vanishing polynomial of
/// the points; an error where a point occurs twice.
pub fn build_multi_point_polys(xs: &[Scalar], ys: &[Scalar]) -> (r: Result<
    (Vec<Scalar>, Vec<Scalar>),
    PCSError,
>)
    requires
        xs@.len() < usize::MAX - 1,
    ensures
        r is Ok <==> xs@.len() == ys@.len() && 0 < xs@.len() && distinct(vals(xs@)),
        r matches Err(e) ==> e is InvalidProof,
        r matches Ok((rc, zc)) ==> {
            &&& vals(rc@) == interp(vals(xs@), vals(ys@))
            &&& vals(zc@) == p_vanishing(vals(xs@), xs@.len() as int)
            &&& nodes_ok(vals(xs@))
        },
{
    let rc = lagrange_interpolate(xs, ys)?;
    let zc = vanishing_poly(xs);
    Ok((rc, zc))
}

/// The vanishing polynomial of two points.
pub proof fn lemma_vanishing_two(a: int, b: int)
    ensures
        p_vanishing(seq![a, b], 2).len() == 3,
        p_vanishing(seq![a, b], 2)[2] == 1,
        p_vanishing(seq![a, b], 2)[0] == fmul(a, b),
        p_vanishing(seq![a, b], 2)[1] == fneg(fadd(a, b)),
{
    broadcast use group_reduced;

    let xs = seq![a, b];
    lemma_modulus();
    reveal_with_fuel(p_vanishing, 3);
    let p1 = p_vanishing(xs, 1);
    let p2v = p_vanishing(xs, 2);
    assert(p1 =~= p_mul_linear(seq![1int], a));
    lemma_refl(a);
    lemma_refl(b);
    lemma_refl(0);
    lemma_refl(1);
    broadcast use group_shadow;

    let c0 = fsub(0, fmul(a, 1));
    let c1 = fsub(1, fmul(a, 0));
    assert(p1[0] == c0 && p1[1] == c1 && p1.len() == 2);
    assert(a * 0 == 0 && b * 0 == 0) by (nonlinear_arith);
    lemma_shadow_eq(c1, 1 - a * 0, 1, 1);
    assert(p2v[2] == fsub(c1, fmul(b, 0)));
    lemma_shadow_eq(p2v[2], 1 - b * 0, 1, 1);
    assert(p2v[0] == fsub(0, fmul(b, c0)));
    assert(0 - b * (0 - a * 1) == a * b) by (nonlinear_arith);
    lemma_shadow_eq(p2v[0], 0 - b * (0 - a * 1), fmul(a, b), a * b);
    assert(p2v[1] == fsub(c0, fmul(b, c1)));
    assert((0 - a * 1) - b * (1 - a * 0) == -(a + b)) by (nonlinear_arith);
    lemma_shadow_eq(
        p2v[1],
        (0 - a * 1) - b * (1 - a * 0),
        fneg(fadd(a, b)),
        -(a + b),
    );
}

/// The combined quotient of the table and its helper polynomial at `z` and
/// `gamma z`, with the two interpolants; an error where the points coincide.
fn mulcs_batch_kzg_open(f_v: &UnivarPoly, h_bar: &UnivarPoly, z: Scalar, gz: Scalar) -> (r: Result<
    (Vec<Scalar>, Vec<Scalar>, Vec<Scalar>),
    PCSError,
>)
    requires
        f_v.coeffs@.len() >= 2,
        h_bar.coeffs@.len() >= 2,
    ensures
        r is Ok <==> z@ != gz@,
        r matches Err(e) ==> e is InvalidProof,
        r matches Ok((q, rf, rh)) ==> {
            &&& vals(q@) == combined_quotient(f_v@, h_bar@, z@, gz@)
            &&& vals(rf@) == two_point_interp(f_v@, z@, gz@)
            &&& vals(rh@) == two_point_interp(h_bar@, z@, gz@)
            &&& nodes_ok(seq![z@, gz@])
        },
{
    let xs = [z, gz];
    let f_ys = [f_v.evaluate(z), f_v.evaluate(gz)];
    let h_ys = [h_bar.evaluate(z), h_bar.evaluate(gz)];
    let ghost xv = seq![z@, gz@];
    assert(vals(xs@) =~= xv);
    assert(vals(f_ys@) =~= seq![feval(f_v@, z@), feval(f_v@, gz@)]);
    assert(vals(h_ys@) =~= seq![feval(h_bar@, z@), feval(h_bar@, gz@)]);
    assert(distinct(xv) <==> z@ != gz@) by {
        if z@ != gz@ {
            assert forall|i: int, j: int| 0 <= i < j < xv.len() implies #[trigger] xv[i]
                != #[trigger] xv[j] by {}
        } else {
            assert(xv[0] == xv[1]);
        }
    }
    let (rf, z_coeffs) = build_multi_point_polys(xs.as_slice(), f_ys.as_slice())?;
    let (rh, same) = build_multi_point_polys(xs.as_slice(), h_ys.as_slice())?;
    proof {
        lemma_vanishing_two(z@, gz@);
        assert(vals(z_coeffs@).len() == z_coeffs@.len());
        assert(z_coeffs@[2]@ == vals(z_coeffs@)[2]);
        assert(vals(rf@).len() == rf@.len());
        assert(vals(rh@).len() == rh@.len());
    }
    let mut q = poly_sub_div(f_v.coeffs.as_slice(), rf.as_slice(), z_coeffs.as_slice());
    let qh = poly_sub_div(h_bar.coeffs.as_slice(), rh.as_slice(), z_coeffs.as_slice());
    add_scaled(&mut q, qh.as_slice(), Scalar::one());
    Ok((q, rf, rh))
}

/// What comes of an opening of the table `f` at `u` for the challenges that
/// were drawn: the honest proof, or an error where `z` and `gamma z` coincide.
pub open spec fn opening_result(
    start: Seq<Entry>,
    end: Seq<Entry>,
    key: Seq<int>,
    gamma: int,
    f: Seq<int>,
    u: Seq<int>,
    res: Result<(MulcsProof, Scalar), PCSError>,
    c: MulcsChallenges,
) -> bool {
    match res {
        Ok((proof, value)) => {
            &&& is_honest_run(start, end, key, gamma, f, u, proof.model(), c)
            &&& proof.mu == u.len()
            &&& value@ == mle_eval(f, u)
        },
        Err(e) => {
            &&& e is InvalidProof
            &&& c.z == fmul(gamma, c.z)
            &&& end == run_end(start, honest_proof(key, gamma, f, u, c).cm_hbar, c)
        },
    }
}

/// What comes of an opening, for some challenges.
pub open spec fn opened(
    start: Seq<Entry>,
    end: Seq<Entry>,
    pp: &MulcsProverParam,
    poly: &Mle,
    u: Seq<int>,
    res: Result<(MulcsProof, Scalar), PCSError>,
) -> bool {
    exists|c: MulcsChallenges| #[trigger]
        opening_result(start, end, pp.key(), pp.gamma@, poly.table(), u, res, c)
}

/// Whether a key is long enough for the helper polynomial of a table.
pub open spec fn key_fits(pp: &MulcsProverParam, poly: &Mle) -> bool {
    2 * poly.evaluations@.len() - 1 <= pp.g1_powers@.len()
}

/// Opens a polynomial at a point. The key has to be long enough.
#[verifier::rlimit(30)]
pub fn open_with_transcript(
    pp: &MulcsProverParam,
    polynomial: &Mle,
    point: &[Scalar],
    transcript: &mut IOPTranscript,
) -> (res: Result<(MulcsProof, Scalar), PCSError>)
    requires
        polynomial.wf(),
        polynomial.num_vars >= 1,
        key_fits(pp, polynomial),
    ensures
        point@.len() != polynomial.num_vars ==> (res matches Err(e) && e is InvalidParameters)
            && final(transcript)@ == old(transcript)@,
        point@.len() == polynomial.num_vars ==> opened(
            old(transcript)@,
            final(transcript)@,
            pp,
            polynomial,
            vals(point@),
            res,
        ),
{
    let mu: usize = polynomial.num_vars;
    let n: usize = pow2_usize(mu);
    let gamma = pp.gamma;
    let total: usize = pp.g1_powers.len();
    let ghost start = transcript@;
    let ghost key = pp.key();
    let ghost f = polynomial.table();
    let ghost u = vals(point@);
    let y = match polynomial.evaluate(point) {
        Some(v) => v,
        None => {
            return Err(invalid_parameters("evaluation failed"));
        },
    };
    proof {
        lemma_vals_reduced(polynomial.evaluations@);
        lemma_pow2_mono(1, mu as int);
        lemma_p2_zero();
        lemma_p2_step(1);
        y.lemma_view_reduced();
        law_h_middle(f, u, y@);
        assert(f.len() == polynomial.evaluations@.len());
    }
    let f_v = UnivarPoly::new(copy_scalars(polynomial.evaluations.as_slice()));
    assert(f_v@ =~= f);
    let h = UnivarPoly::compute_h(polynomial.evaluations.as_slice(), mu, point, y);
    let delta = transcript.get_and_append_challenge("mulcs_delta");
    let h_bar = UnivarPoly::compute_h_bar(&h, gamma, n, delta);
    let ghost hb = h_bar@;
    proof {
        assert(hb == honest_h_bar(f, u, gamma@, delta@));
        assert(h@.len() == h.coeffs@.len());
        assert(hb.len() == h_bar.coeffs@.len());
    }
    let cm_hbar = pp.commit(h_bar.coeffs.as_slice());
    transcript.append_point("cm_hbar", &cm_hbar);
    let z = transcript.get_and_append_challenge("mulcs_z");
    let gz = gamma.mul(z);
    let ghost c = MulcsChallenges { delta: delta@, z: z@ };
    let y_f = f_v.evaluate(z);
    let y_f_prime = f_v.evaluate(gz);
    let y_hbar = h_bar.evaluate(z);
    let y_hbar_prime = h_bar.evaluate(gz);
    assert(f_v.coeffs@.len() == f.len()) by {
        assert(f_v@.len() == f_v.coeffs@.len());
    }
    let (q, rf, rh) = match mulcs_batch_kzg_open(&f_v, &h_bar, z, gz) {
        Ok(parts) => parts,
        Err(e) => {
            let res: Result<(MulcsProof, Scalar), PCSError> = Err(e);
            assert(opening_result(start, transcript@, key, gamma@, f, u, res, c));
            return res;
        },
    };
    proof {
        lemma_quotient_len(f, z@, gz@);
        lemma_quotient_len(hb, z@, gz@);
        assert(vals(q@).len() == q@.len());
    }
    let pi = pp.commit(q.as_slice());
    let proof = MulcsProof {
        cm_hbar,
        y_f,
        y_f_prime,
        y_hbar,
        y_hbar_prime,
        z,
        pi,
        rf,
        rh,
        mu,
    };
    let res: Result<(MulcsProof, Scalar), PCSError> = Ok((proof, y));
    assert(proof.model() == honest_proof(key, gamma@, f, u, c));
    proof {
        delta.lemma_view_reduced();
    }
    assert(opening_result(start, transcript@, key, gamma@, f, u, res, c));
    res
}

/// A two-point quotient is shorter than its polynomial.
pub proof fn lemma_quotient_len(p: Seq<int>, a: int, b: int)
    requires
        p.len() >= 2,
    ensures
        two_point_quotient(p, a, b).len() <= p.len(),
{
    lemma_vanishing_two(a, b);
    let r = two_point_interp(p, a, b);
    assert(r.len() == 2);
    lemma_div_len(p_sub(p, r), p_vanishing(seq![a, b], 2));
}

/// Whether the Claymore identity holds of values at `z` and `gamma z`; an error
/// where `z` is zero.
pub fn check_claymore_identity(
    gamma: Scalar,
    n: usize,
    z: Scalar,
    y_f: Scalar,
    y_hbar: Scalar,
    y_hbar_prime: Scalar,
    point: &[Scalar],
    claimed_value: Scalar,
) -> (r: Result<bool, PCSError>)
    requires
        n >= 1,
    ensures
        r is Ok <==> z@ != 0,
        r matches Err(e) ==> e is InvalidParameters,
        r matches Ok(ok) ==> ok == claymore_holds(
            gamma@,
            n as int,
            z@,
            y_f@,
            y_hbar@,
            y_hbar_prime@,
            vals(point@),
            claimed_value@,
        ),
{
    let z_inv = match z.inverse() {
        Some(v) => v,
        None => {
            return Err(invalid_parameters("z is zero"));
        },
    };
    let y_r = eval_tensor(point, z_inv);
    let gamma_n1 = gamma.pow((n - 1) as u64);
    let z_n1 = z.pow((n - 1) as u64);
    let lhs = gamma_n1.mul(y_hbar).sub(y_hbar_prime);
    let rhs = z_n1.mul(y_f.mul(y_r).sub(claimed_value));
    Ok(lhs.equals(&rhs))
}

/// The verifier's key.
pub open spec fn key_model(vp: &MulcsVerifierParam) -> MulcsKey {
    MulcsKey {
        g1_one: vp.g1_one@,
        g1_x: vp.g1_x@,
        g2_one: vp.g2_one@,
        g2_x: vp.g2_x@,
        g2_x2: vp.g2_x2@,
        gamma: vp.gamma@,
    }
}

/// Whether a proof has the form that the key and the point ask for.
pub open spec fn proof_ok(vp: &MulcsVerifierParam, point: Seq<Scalar>, proof: &MulcsProof) -> bool {
    &&& mu_ok(proof.mu as int)
    &&& point.len() == proof.mu
    &&& vp.max_degree >= p2(proof.mu as int) - 1
}

/// What comes of the verification of a proof of the right form: the verdict for
/// the challenges that were drawn, or an error where `z` and `gamma z`
/// coincide.
pub open spec fn verification_result(
    start: Seq<Entry>,
    end: Seq<Entry>,
    vp: &MulcsVerifierParam,
    com: int,
    u: Seq<int>,
    y: int,
    proof: &MulcsProof,
    res: Result<bool, PCSError>,
    c: MulcsChallenges,
) -> bool {
    let p = proof.model();
    match res {
        Ok(ok) => is_verdict(start, end, key_model(vp), com, u, y, p, ok, c),
        Err(e) => {
            &&& e is InvalidProof
            &&& c.z == p.z
            &&& c.z == fmul(vp.gamma@, c.z)
            &&& end == run_end(start, p.cm_hbar, c)
        },
    }
}

/// What comes of a verification, for some challenges.
pub open spec fn verified(
    start: Seq<Entry>,
    end: Seq<Entry>,
    vp: &MulcsVerifierParam,
    com: int,
    u: Seq<int>,
    y: int,
    proof: &MulcsProof,
    res: Result<bool, PCSError>,
) -> bool {
    exists|c: MulcsChallenges| #[trigger]
        verification_result(start, end, vp, com, u, y, proof, res, c)
}

/// Whether the equation of the batched KZG opening holds; an error where the
/// points coincide.
fn check_pairing(vp: &MulcsVerifierParam, commitment: &G1, proof: &MulcsProof, z: Scalar) -> (r:
    Result<bool, PCSError>)
    ensures
        r is Ok <==> z@ != fmul(vp.gamma@, z@),
        r matches Err(e) ==> e is InvalidProof,
        r matches Ok(ok) ==> ok == pairing_holds(key_model(vp), commitment@, proof.model(), z@)
            && invertible(fsub(fmul(vp.gamma@, z@), z@)),
{
    let gz = vp.gamma.mul(z);
    let rf = two_point_remainder(z, proof.y_f, gz, proof.y_f_prime)?;
    let rh = two_point_remainder(z, proof.y_hbar, gz, proof.y_hbar_prime)?;
    let r0 = rf[0].add(rh[0]);
    let r1 = rf[1].add(rh[1]);
    let cm_r = vp.g1_one.mul(&r0).add(&vp.g1_x.mul(&r1));
    let cm_comb = commitment.add(&proof.cm_hbar).add(&cm_r.neg());
    let s = z.add(gz);
    let p = z.mul(gz);
    let zx_g2 = vp.g2_x2.add(&vp.g2_x.mul(&s.neg())).add(&vp.g2_one.mul(&p));
    let a = [cm_comb, proof.pi.neg()];
    let b = [vp.g2_one, zx_g2];
    let ok = pairing_check(a.as_slice(), b.as_slice());
    assert(logs(a@) =~= seq![cm_comb@, fneg(proof.pi@)]);
    assert(logs2(b@) =~= seq![vp.g2_one@, zx_g2@]);
    Ok(ok)
}

/// Verifies a proof.
pub fn verify_with_transcript(
    vp: &MulcsVerifierParam,
    commitment: &G1,
    point: &[Scalar],
    value: &Scalar,
    proof: &MulcsProof,
    transcript: &mut IOPTranscript,
) -> (res: Result<bool, PCSError>)
    ensures
        !proof_ok(vp, point@, proof) ==> (res matches Err(e) && e is InvalidProof)
            && final(transcript)@ == old(transcript)@,
        proof_ok(vp, point@, proof) ==> verified(
            old(transcript)@,
            final(transcript)@,
            vp,
            commitment@,
            vals(point@),
            value@,
            proof,
            res,
        ),
{
    let mu: usize = proof.mu;
    let n: usize = checked_domain_size_from_mu(mu)?;
    if point.len() != mu {
        return Err(invalid_proof("verify: point length differs from proof.mu"));
    }
    proof {
        lemma_pow2_mono(0, mu as int);
    }
    if vp.max_degree < n - 1 {
        return Err(invalid_proof("verifier param max_degree insufficient"));
    }
    let ghost start = transcript@;
    let ghost u = vals(point@);
    let ghost y = value@;
    let ghost com = commitment@;
    let delta = transcript.get_and_append_challenge("mulcs_delta");
    transcript.append_point("cm_hbar", &proof.cm_hbar);
    let z = transcript.get_and_append_challenge("mulcs_z");
    let ghost c = MulcsChallenges { delta: delta@, z: z@ };
    if !z.equals(&proof.z) {
        let res: Result<bool, PCSError> = Ok(false);
        assert(verification_result(start, transcript@, vp, com, u, y, proof, res, c));
        return res;
    }
    let ok = match check_pairing(vp, commitment, proof, z) {
        Ok(ok) => ok,
        Err(e) => {
            let res: Result<bool, PCSError> = Err(e);
            assert(verification_result(start, transcript@, vp, com, u, y, proof, res, c));
            return res;
        },
    };
    if !ok {
        let res: Result<bool, PCSError> = Ok(false);
        assert(verification_result(start, transcript@, vp, com, u, y, proof, res, c));
        return res;
    }
    proof {
        lemma_zero_coincides(vp.gamma@, z@);
    }
    let res = check_claymore_identity(
        vp.gamma,
        n,
        z,
        proof.y_f,
        proof.y_hbar,
        proof.y_hbar_prime,
        point,
        *value,
    );
    assert(verification_result(start, transcript@, vp, com, u, y, proof, res, c));
    res
}

proof fn lemma_zero_coincides(gamma: int, z: int)
    ensures
        z == 0 ==> z == fmul(gamma, z),
{
    broadcast use group_reduced;

    lemma_modulus();
    lemma_refl(gamma);
    lemma_refl(0);
    broadcast use group_shadow;

    assert(gamma * 0 == 0) by (nonlinear_arith);
    lemma_shadow_eq(fmul(gamma, 0), gamma * 0, 0, 0);
}

/// Whether a result is that of an opening in a transcript with the history
/// `start`: its course is determined by that and what the prover sends.
pub open spec fn is_opening(
    start: Seq<Entry>,
    pp: &MulcsProverParam,
    poly: &Mle,
    point: Seq<Scalar>,
    res: Result<(MulcsProof, Scalar), PCSError>,
) -> bool {
    exists|end: Seq<Entry>|
        is_course(end) && #[trigger] opened(start, end, pp, poly, vals(point), res)
}

/// Whether a result is that of a verification in a transcript with the history
/// `start`: its course is determined by that and the proof.
pub open spec fn is_verification(
    start: Seq<Entry>,
    vp: &MulcsVerifierParam,
    com: int,
    point: Seq<Scalar>,
    value: int,
    proof: &MulcsProof,
    res: Result<bool, PCSError>,
) -> bool {
    exists|end: Seq<Entry>|
        is_course(end) && #[trigger] verified(
            start,
            end,
            vp,
            com,
            vals(point),
            value,
            proof,
            res,
        )
}

/// The commitment scheme.
pub struct MulcsPCS {}

impl MulcsPCS {
    /// Parameters for up to `s` variables from a trapdoor, a point of each
    /// group and `gamma`. For testing only.
    pub fn gen_srs_for_testing(x: Scalar, g1: G1, g2: G2, gamma: Scalar, s: usize) -> (r: Result<
        MulcsUniversalParams,
        PCSError,
    >)
        requires
            s + 1 < usize::BITS,
        ensures
            r is Ok <==> s > 0,
            r matches Err(e) ==> e is InvalidParameters,
            r matches Ok(srs) ==> {
                &&& srs.wf()
                &&& srs.prover_param.max_degree == 2 * p2(s as int)
                &&& is_power_key(srs.prover_param.key(), g1@, x@)
                &&& srs.prover_param.g2_one@ == g2@
                &&& srs.prover_param.g2_x@ == fmul(g2@, x@)
                &&& srs.prover_param.g2_x2@ == fmul(fmul(g2@, x@), x@)
                &&& srs.prover_param.gamma == gamma
                &&& srs.verifier_param.g1_one@ == srs.prover_param.key()[0]
                &&& srs.verifier_param.g1_x@ == srs.prover_param.key()[1]
                &&& srs.verifier_param.g2_one@ == g2@
                &&& srs.verifier_param.g2_x@ == fmul(g2@, x@)
                &&& srs.verifier_param.g2_x2@ == fmul(fmul(g2@, x@), x@)
                &&& srs.verifier_param.gamma == gamma
                &&& srs.verifier_param.max_degree == srs.prover_param.max_degree
            },
    {
        MulcsUniversalParams::gen_srs_for_testing(x, g1, g2, gamma, s)
    }

    /// Prover and verifier parameters for a number of variables, which has to
    /// be given.
    pub fn trim(srs: &MulcsUniversalParams, nv: Option<usize>) -> (r: Result<
        (MulcsProverParam, MulcsVerifierParam),
        PCSError,
    >)
        requires
            srs.wf(),
            nv matches Some(m) ==> m + 1 < usize::BITS,
        ensures
            r is Ok <==> (nv matches Some(m) && 2 * p2(m as int) <= srs.prover_param.max_degree),
            r matches Err(e) ==> e is InvalidParameters,
            r matches Ok((ck, vk)) ==> (nv matches Some(m) && {
                &&& ck.wf()
                &&& ck.max_degree == 2 * p2(m as int)
                &&& ck.g1_powers@ == srs.prover_param.g1_powers@.take(ck.max_degree + 1)
                &&& ck.g2_one == srs.prover_param.g2_one
                &&& ck.g2_x == srs.prover_param.g2_x
                &&& ck.g2_x2 == srs.prover_param.g2_x2
                &&& ck.gamma == srs.prover_param.gamma
                &&& vk.g1_one == srs.verifier_param.g1_one
                &&& vk.g1_x == srs.prover_param.g1_powers@[1]
                &&& vk.g2_one == srs.verifier_param.g2_one
                &&& vk.g2_x == srs.verifier_param.g2_x
                &&& vk.g2_x2 == srs.verifier_param.g2_x2
                &&& vk.gamma == srs.verifier_param.gamma
                &&& vk.max_degree == ck.max_degree
            }),
    {
        match nv {
            None => Err(invalid_parameters("need num_var")),
            Some(m) => {
                let size: usize = pow2_usize(m + 1);
                proof {
                    lemma_p2_step(m + 1);
                }
                srs.trim(size)
            },
        }
    }

    /// Commits to a polynomial.
    pub fn commit(pp: &MulcsProverParam, poly: &Mle) -> (r: Result<G1, PCSError>)
        requires
            pp.wf(),
            poly.wf(),
        ensures
            r is Ok <==> p2(poly.num_vars as int) - 1 <= pp.max_degree,
            r matches Err(e) ==> e is InvalidParameters,
            r matches Ok(c) ==> c@ == dot(pp.key(), poly.table(), poly.evaluations@.len() as int),
    {
        let n: usize = pow2_usize(poly.num_vars);
        proof {
            lemma_pow2_mono(0, poly.num_vars as int);
        }
        if pp.max_degree < n - 1 {
            return Err(invalid_parameters("degree exceeds the maximum"));
        }
        Ok(pp.commit(poly.evaluations.as_slice()))
    }

    /// Opens a polynomial at a point. The key has to be long enough.
    pub fn open(pp: &MulcsProverParam, poly: &Mle, point: &[Scalar]) -> (res: Result<
        (MulcsProof, Scalar),
        PCSError,
    >)
        requires
            poly.wf(),
            poly.num_vars >= 1,
            key_fits(pp, poly),
        ensures
            point@.len() != poly.num_vars ==> (res matches Err(e) && e is InvalidParameters),
            point@.len() == poly.num_vars ==> is_opening(
                fresh_log(point@.len() as int),
                pp,
                poly,
                point@,
                res,
            ),
    {
        let mut t: IOPTranscript = IOPTranscript::new("mulcs-open");
        t.append_field_element("mu", &Scalar::from_u64(poly.num_vars as u64));
        assert(t@ =~= fresh_log(poly.num_vars as int));
        let res = open_with_transcript(pp, poly, point, &mut t);
        proof {
            use_type_invariant(&t);
            t.lemma_course();
        }
        res
    }

    /// Verifies a proof.
    pub fn verify(
        vp: &MulcsVerifierParam,
        com: &G1,
        point: &[Scalar],
        val: &Scalar,
        proof: &MulcsProof,
    ) -> (res: Result<bool, PCSError>)
        ensures
            !proof_ok(vp, point@, proof) ==> (res matches Err(e) && e is InvalidProof),
            proof_ok(vp, point@, proof) ==> is_verification(
                fresh_log(point@.len() as int),
                vp,
                com@,
                point@,
                val@,
                proof,
                res,
            ),
    {
        let mut t: IOPTranscript = IOPTranscript::new("mulcs-open");
        t.append_field_element("mu", &Scalar::from_u64(proof.mu as u64));
        assert(t@ =~= fresh_log(proof.mu as int));
        let res = verify_with_transcript(vp, com, point, val, proof, &mut t);
        proof {
            use_type_invariant(&t);
            t.lemma_course();
        }
        res
    }

    /// The first stage of a batched opening: what the sumcheck has to prove.
    pub fn multi_open_begin(
        polys: &[Mle],
        points: &[Vec<Scalar>],
        evals: &[Scalar],
        transcript: &mut IOPTranscript,
    ) -> (r: Result<BatchPlan, PCSError>)
        requires
            polys@.len() <= p2(usize::BITS - 1),
            forall|i: int| 0 <= i < polys@.len() ==> (#[trigger] polys@[i]).wf(),
        ensures
            r is Ok <==> batch_ok(polys@, points@, evals@),
            r matches Err(e) ==> e is InvalidParameters && final(transcript)@ == old(transcript)@,
            r matches Ok(plan) ==> {
                &&& plan.wf()
                &&& is_plan(
                    &plan,
                    tables(polys@),
                    poly_views(points@),
                    polys@[0].num_vars as int,
                )
                &&& batched(
                    old(transcript)@,
                    final(transcript)@,
                    poly_views(points@),
                    vals(evals@),
                    vals(plan.weights@),
                )
            },
    {
        plan_batch(polys, points, evals, transcript)
    }

    /// The second stage of a batched opening, with the final point of the
    /// sumcheck, or with none where the sumcheck failed. The key has to be long
    /// enough.
    pub fn multi_open_finish(
        pp: &MulcsProverParam,
        plan: &BatchPlan,
        a2: Option<&[Scalar]>,
    ) -> (res: Result<(MulcsProof, Scalar), PCSError>)
        requires
            plan.wf(),
            plan.num_var >= 1,
            2 * p2(plan.num_var as int) - 1 <= pp.g1_powers@.len(),
            a2 matches Some(a) ==> a@.len() == plan.num_var,
        ensures
            a2 is None ==> (res matches Err(e) && e is InvalidProver),
            a2 matches Some(a) ==> exists|g: Mle| #[trigger]
                aggregate_opened(pp, plan, a@, res, g),
    {
        match a2 {
            None => Err(invalid_prover("Sumcheck failed")),
            Some(a) => {
                let aggregated_poly = aggregate(plan, a);
                let g = aggregated_poly?;
                let mut t: IOPTranscript = aggregate_transcript(a);
                let res = open_with_transcript(pp, &g, a, &mut t);
                proof {
                    use_type_invariant(&t);
                    t.lemma_course();
                }
                assert(opened(aggregate_log(vals(a@)), t@, pp, &g, vals(a@), res));
                assert(aggregate_opened(pp, plan, a@, res, g));
                res
            },
        }
    }

    /// The first stage of a batched verification: the sum that the sumcheck
    /// has to prove. `num_var` is the dimension of its final point.
    pub fn batch_verify_begin(
        coms: &[G1],
        points: &[Vec<Scalar>],
        evals: &[Scalar],
        num_var: usize,
        transcript: &mut IOPTranscript,
    ) -> (r: Result<BatchClaim, PCSError>)
        requires
            points_fit(points@),
            coms@.len() <= p2(usize::BITS - 1),
        ensures
            r is Ok <==> claims_ok(coms@, points@, evals@, num_var as int) && mu_ok(
                num_var as int,
            ),
            r matches Err(e) ==> e is InvalidProof && final(transcript)@ == if counts_ok(
                coms@,
                points@,
                evals@,
            ) && mu_ok(num_var as int) {
                with_claims(old(transcript)@, poly_views(points@), vals(evals@))
            } else {
                old(transcript)@
            },
            r matches Ok(c) ==> {
                &&& c.weights@.len() >= coms@.len()
                &&& c.sum@ == weighted_sum(vals(c.weights@), vals(evals@), evals@.len() as int)
                &&& batched(
                    old(transcript)@,
                    final(transcript)@,
                    poly_views(points@),
                    vals(evals@),
                    vals(c.weights@),
                )
            },
    {
        let n: usize = checked_domain_size_from_mu(num_var)?;
        append_and_claim_batch(coms, points, evals, num_var, transcript)
    }

    /// The second stage of a batched verification, with the final point of the
    /// sumcheck and the value that it expects there, or with none where the
    /// sumcheck failed.
    pub fn batch_verify_finish(
        vp: &MulcsVerifierParam,
        coms: &[G1],
        points: &[Vec<Scalar>],
        claim: &BatchClaim,
        a2: &[Scalar],
        expected: Option<Scalar>,
        proof: &MulcsProof,
    ) -> (res: Result<bool, PCSError>)
        requires
            vector_fits(a2@.len() as int),
            coms@.len() == points@.len(),
            points@.len() <= claim.weights@.len(),
            forall|i: int| 0 <= i < points@.len() ==> (#[trigger] points@[i])@.len() == a2@.len(),
        ensures
            expected is None ==> (res matches Err(e) && e is InvalidProver),
            expected matches Some(y) ==> {
                &&& !proof_ok(vp, a2@, proof) ==> (res matches Err(e) && e is InvalidProof)
                &&& proof_ok(vp, a2@, proof) ==> is_verification(
                    aggregate_log(vals(a2@)),
                    vp,
                    dot(
                        logs(coms@),
                        aggregate_scalars(
                            vals(claim.weights@),
                            vals(a2@),
                            poly_views(points@),
                        ),
                        coms@.len() as int,
                    ),
                    a2@,
                    y@,
                    proof,
                    res,
                )
            },
    {
        match expected {
            None => Err(invalid_prover("Sumcheck verify failed")),
            Some(y) => {
                let g_prime_commit = aggregate_commitments(
                    coms,
                    points,
                    claim.weights.as_slice(),
                    a2,
                )?;
                let mut t: IOPTranscript = aggregate_transcript(a2);
                let res = verify_with_transcript(vp, &g_prime_commit, a2, &y, proof, &mut t);
                proof {
                    use_type_invariant(&t);
                    t.lemma_course();
                }
                assert(proof_ok(vp, a2@, proof) ==> verified(
                    aggregate_log(vals(a2@)),
                    t@,
                    vp,
                    g_prime_commit@,
                    vals(a2@),
                    y@,
                    proof,
                    res,
                ));
                res
            },
        }
    }
}

/// A fresh transcript for the aggregated polynomial of a batch.
fn aggregate_transcript(a: &[Scalar]) -> (t: IOPTranscript)
    requires
        vector_fits(a@.len() as int),
    ensures
        t@ == aggregate_log(vals(a@)),
{
    let mut t: IOPTranscript = IOPTranscript::new("mulcs-gprime-open");
    t.append_field_elements("point_a2", a);
    t.append_field_element("mu", &Scalar::from_u64(a.len() as u64));
    assert(t@ =~= aggregate_log(vals(a@)));
    t
}

/// Whether an opening is that of the aggregated polynomial `g` of a batch.
pub open spec fn aggregate_opened(
    pp: &MulcsProverParam,
    plan: &BatchPlan,
    a: Seq<Scalar>,
    res: Result<(MulcsProof, Scalar), PCSError>,
    g: Mle,
) -> bool {
    &&& is_aggregate(plan, a, &g)
    &&& is_opening(aggregate_log(vals(a)), pp, &g, a, res)
}

} // verus!
