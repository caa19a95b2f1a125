//! Gemini: a multilinear commitment scheme over a univariate KZG key.
//!
//! The table of a polynomial, read as coefficients, is committed with a KZG
//! key. An opening folds the table by one variable after the other, sends a
//! commitment to every fold but the last, which has two coefficients, and
//! proves the values of the tables at `r^{2^i}` and `-r^{2^i}`. All claims are
//! batched into one KZG opening.

pub mod fold;
pub mod laws;
pub mod model;
pub mod roundtrip;
pub mod serving;
pub mod shplonk;
pub mod shplonk_laws;
pub mod soundness;
pub mod srs;

use crate::batching::{
    aggregate, aggregate_commitments, aggregate_scalars, batch_ok, batched, claim_batch, claims_ok,
    is_aggregate, is_plan, plan_batch, tables, weighted_sum, BatchClaim, BatchPlan,
};
use crate::bdfg::{poly_eval, poly_views};
use crate::dims::{copy_points, lemma_pow2_mono, padded, pow2_usize};
use crate::errors::{invalid_parameters, invalid_proof, invalid_prover, PCSError};
use crate::field::{fadd, fmul, fneg, vals, Scalar};
use crate::gemini::fold::{fold_all, fold_list, fold_relation, law_last_fold};
use crate::gemini::laws::{
    law_honest_claims_hold, law_honest_remainder_vanishes, lemma_fold_list_lens,
    lemma_honest_lengths,
};
use crate::gemini::model::{
    after_nu, after_r, claims_of, fold_commitments, fold_values, folds_hold, fresh_log,
    gemini_claims, honest_claims, honest_proof, honest_quotient, honest_remainder, is_honest_run,
    is_verdict, kzg_accepts, next_value, num_folds, squared, stated, stopped, values_fit,
    with_claims, with_folds, z_apart, z_ok, GeminiChallenges, GeminiKey, GeminiModel,
};
use crate::gemini::shplonk::{
    all_commitments, claim_commit, compute_shplonk_batched_quotient, compute_shplonk_g_coeffs,
    compute_shplonk_g_commit, kzg_quotient, openings, rounds_within, GeminiClaim,
};
use crate::gemini::srs::{log_floor, GeminiProverParam, GeminiUniversalParams, GeminiVerifierParam};
use crate::group::{logs, logs2, pairing_check, G1, G2};
use crate::kzg::is_power_key;
use crate::poly::{dot, lemma_vals_reduced};
use crate::tensor::{mle_eval, p2, Mle};
use crate::transcript::{is_course, vector_fits, Entry, IOPTranscript};
use vstd::prelude::*;

verus! {

/// A proof of an opening.
#[derive(Debug)]
pub struct GeminiProof {
    /// Commitments to the folds.
    pub fold_comms: Vec<G1>,
    /// Values of the tables at `r^{2^i}` and at `-r^{2^i}`.
    pub fold_evals: Vec<(Scalar, Scalar)>,
    /// The coefficients of the last fold.
    pub final_coeffs: (Scalar, Scalar),
    pub shplonk_q_commit: G1,
    pub kzg_witness: G1,
    /// Number of variables.
    pub mu: usize,
}

/// Pairs of scalars by their values.
pub open spec fn pair_vals(s: Seq<(Scalar, Scalar)>) -> Seq<(int, int)> {
    Seq::new(s.len(), |i: int| (s[i].0@, s[i].1@))
}

impl GeminiProof {
    /// The values that the proof holds.
    pub open spec fn model(&self) -> GeminiModel {
        GeminiModel {
            fold_comms: logs(self.fold_comms@),
            fold_evals: pair_vals(self.fold_evals@),
            c0: self.final_coeffs.0@,
            c1: self.final_coeffs.1@,
            q_commit: self.shplonk_q_commit@,
            witness: self.kzg_witness@,
        }
    }
}

impl Clone for GeminiProof {
    fn clone(&self) -> (r: Self)
        ensures
            r.model() == self.model(),
            r.mu == self.mu,
    {
        let mut fold_evals: Vec<(Scalar, Scalar)> = Vec::new();
        let mut i: usize = 0;
        while i < self.fold_evals.len()
            invariant
                i <= self.fold_evals@.len(),
                fold_evals@ =~= self.fold_evals@.take(i as int),
            decreases self.fold_evals@.len() - i,
        {
            fold_evals.push((self.fold_evals[i].0, self.fold_evals[i].1));
            i = i + 1;
        }
        assert(fold_evals@ =~= self.fold_evals@);
        GeminiProof {
            fold_comms: copy_points(self.fold_comms.as_slice()),
            fold_evals,
            final_coeffs: (self.final_coeffs.0, self.final_coeffs.1),
            shplonk_q_commit: self.shplonk_q_commit,
            kzg_witness: self.kzg_witness,
            mu: self.mu,
        }
    }
}

/// Whether a number of variables is supported.
pub open spec fn mu_ok(mu: int) -> bool {
    1 <= mu < usize::BITS
}

/// Number of entries of a table in `mu` variables.
pub fn checked_domain_size_from_mu(mu: usize) -> (r: Result<usize, PCSError>)
    ensures
        r is Ok <==> mu_ok(mu as int),
        r matches Ok(n) ==> n == p2(mu as int),
        r matches Err(e) ==> e is InvalidProof,
{
    if mu == 0 {
        return Err(invalid_proof("mu is zero"));
    }
    if mu >= usize::BITS as usize {
        return Err(invalid_proof("mu exceeds platform word size"));
    }
    Ok(pow2_usize(mu))
}

/// Number of entries of a table in `mu` variables, for callers that set up or
/// prove.
fn domain_size(mu: usize) -> (r: Result<usize, PCSError>)
    ensures
        r is Ok <==> mu_ok(mu as int),
        r matches Ok(n) ==> n == p2(mu as int),
        r matches Err(e) ==> e is InvalidParameters,
{
    match checked_domain_size_from_mu(mu) {
        Ok(n) => Ok(n),
        Err(e) => Err(invalid_parameters(e.message())),
    }
}

/// The claims of a proof in their order.
pub fn build_gemini_claims(
    mu: usize,
    r: Scalar,
    fold_evals: &[(Scalar, Scalar)],
    c0: Scalar,
    c1: Scalar,
) -> (claims: Vec<GeminiClaim>)
    requires
        fold_evals@.len() >= num_folds(mu as int),
    ensures
        openings(claims@) == gemini_claims(mu as int, r@, pair_vals(fold_evals@), c0@, c1@),
{
    let n: usize = if mu > 0 { mu - 1 } else { 0 };
    let ghost want = gemini_claims(mu as int, r@, pair_vals(fold_evals@), c0@, c1@);
    let mut claims: Vec<GeminiClaim> = Vec::new();
    let mut r_pow = r;
    let mut i: usize = 0;
    while i < n
        invariant
            i <= n,
            n == num_folds(mu as int),
            n <= fold_evals@.len(),
            want == gemini_claims(mu as int, r@, pair_vals(fold_evals@), c0@, c1@),
            r_pow@ == squared(r@, i as int),
            claims@.len() == 2 * i,
            forall|j: int| 0 <= j < 2 * i ==> openings(claims@)[j] == #[trigger] want[j],
        decreases n - i,
    {
        let ghost before = claims@;
        claims.push(GeminiClaim { round: i, point: r_pow, evaluation: fold_evals[i].0 });
        claims.push(GeminiClaim { round: i, point: r_pow.neg(), evaluation: fold_evals[i].1 });
        r_pow = r_pow.mul(r_pow);
        proof {
            assert forall|j: int| 0 <= j < 2 * i + 2 implies openings(claims@)[j]
                == #[trigger] want[j] by {
                if j < 2 * i {
                    assert(openings(claims@)[j] == openings(before)[j]);
                } else {
                    assert(j / 2 == i);
                }
            }
        }
        i = i + 1;
    }
    let ghost before = claims@;
    claims.push(GeminiClaim { round: n, point: Scalar::zero(), evaluation: c0 });
    claims.push(GeminiClaim { round: n, point: Scalar::one(), evaluation: c0.add(c1) });
    proof {
        assert forall|j: int| 0 <= j < 2 * n + 2 implies openings(claims@)[j]
            == #[trigger] want[j] by {
            if j < 2 * n {
                assert(openings(claims@)[j] == openings(before)[j]);
            }
        }
        assert(openings(claims@) =~= want);
    }
    claims
}

/// Appends claims, with the commitments that they are about, to a transcript.
pub fn append_gemini_claims_to_transcript(
    claims: &[GeminiClaim],
    original_commitment: &G1,
    fold_comms: &[G1],
    transcript: &mut IOPTranscript,
)
    requires
        rounds_within(openings(claims@), (fold_comms@.len() + 1) as int),
    ensures
        final(transcript)@ == with_claims(
            old(transcript)@,
            openings(claims@),
            all_commitments(original_commitment@, logs(fold_comms@)),
            claims@.len() as int,
        ),
{
    let ghost start = transcript@;
    let ghost os = openings(claims@);
    let ghost coms = all_commitments(original_commitment@, logs(fold_comms@));
    let mut i: usize = 0;
    while i < claims.len()
        invariant
            i <= claims@.len(),
            os == openings(claims@),
            coms == all_commitments(original_commitment@, logs(fold_comms@)),
            rounds_within(os, (fold_comms@.len() + 1) as int),
            transcript@ == with_claims(start, os, coms, i as int),
        decreases claims@.len() - i,
    {
        let claim = claims[i];
        assert(os[i as int].round == claim.round);
        let commit = claim_commit(claim.round, original_commitment, fold_comms);
        transcript.append_field_element("Shplonk:claim_idx", &Scalar::from_u64(i as u64));
        transcript.append_point("Shplonk:claim_cm", &commit);
        transcript.append_field_element("Shplonk:claim_pt", &claim.point);
        transcript.append_field_element("Shplonk:claim_ev", &claim.evaluation);
        i = i + 1;
    }
}

/// Rejects `r = 0`, for which the fold relations say nothing.
pub fn validate_shplonk_r(r: Scalar) -> (res: Result<(), PCSError>)
    ensures
        res is Ok <==> r@ != 0,
        res matches Err(e) ==> e is InvalidProof,
{
    if r.is_zero() {
        return Err(invalid_proof("Gemini: r=0 degenerates fold relations"));
    }
    Ok(())
}

/// Rejects `nu = 0`, for which one claim alone counts.
pub fn validate_shplonk_nu(nu: Scalar) -> (res: Result<(), PCSError>)
    ensures
        res is Ok <==> nu@ != 0,
        res matches Err(e) ==> e is InvalidProof,
{
    if nu.is_zero() {
        return Err(invalid_proof("Shplonk: nu=0 makes batching degenerate"));
    }
    Ok(())
}

/// Rejects `z = 0` and a `z` that is the point of a claim.
pub fn validate_shplonk_z_against_claims(z: Scalar, claims: &[GeminiClaim]) -> (res: Result<
    (),
    PCSError,
>)
    ensures
        res is Ok <==> z_ok(openings(claims@), z@),
        res matches Err(e) ==> e is InvalidProof,
{
    if z.is_zero() {
        return Err(invalid_proof("Shplonk: z is zero"));
    }
    let ghost os = openings(claims@);
    let mut i: usize = 0;
    while i < claims.len()
        invariant
            i <= claims@.len(),
            os == openings(claims@),
            z@ != 0,
            forall|j: int| 0 <= j < i ==> (#[trigger] os[j]).point != z@,
        decreases claims@.len() - i,
    {
        assert(os[i as int].point == claims@[i as int].point@);
        if z.equals(&claims[i].point) {
            return Err(invalid_proof("Shplonk: z collides with a claim point"));
        }
        i = i + 1;
    }
    Ok(())
}

/// The claims of a proof are about its tables.
proof fn lemma_rounds(mu: int, r: int, evals: Seq<(int, int)>, c0: int, c1: int)
    requires
        mu >= 1,
    ensures
        rounds_within(gemini_claims(mu, r, evals, c0, c1), mu),
{
}

/// Values of the tables at `r^{2^i}` and `-r^{2^i}`.
fn fold_evaluations(a_polys: &[Vec<Scalar>], r: Scalar, n: usize) -> (res: Vec<(Scalar, Scalar)>)
    requires
        n <= a_polys@.len(),
    ensures
        pair_vals(res@) == fold_values(poly_views(a_polys@), r@, n as int),
{
    let ghost polys = poly_views(a_polys@);
    let mut res: Vec<(Scalar, Scalar)> = Vec::new();
    let mut r_pow = r;
    let mut i: usize = 0;
    while i < n
        invariant
            i <= n <= a_polys@.len(),
            polys == poly_views(a_polys@),
            r_pow@ == squared(r@, i as int),
            res@.len() == i,
            forall|k: int|
                0 <= k < i ==> ((#[trigger] res@[k]).0@, res@[k].1@) == fold_values(
                    polys,
                    r@,
                    n as int,
                )[k],
        decreases n - i,
    {
        let pos = poly_eval(a_polys[i].as_slice(), r_pow);
        let neg = poly_eval(a_polys[i].as_slice(), r_pow.neg());
        res.push((pos, neg));
        r_pow = r_pow.mul(r_pow);
        i = i + 1;
    }
    assert(pair_vals(res@) =~= fold_values(polys, r@, n as int));
    res
}

/// Commits to every table of a list but the first.
fn commit_folds(pp: &GeminiProverParam, a_polys: &[Vec<Scalar>]) -> (r: Result<Vec<G1>, PCSError>)
    requires
        a_polys@.len() >= 1,
    ensures
        r is Ok <==> (forall|k: int|
            1 <= k < a_polys@.len() ==> (#[trigger] a_polys@[k])@.len() <= pp.powers@.len()),
        r matches Ok(coms) ==> logs(coms@) == fold_commitments(pp.key(), poly_views(a_polys@)),
        r matches Err(e) ==> e is InvalidParameters,
{
    let ghost want = fold_commitments(pp.key(), poly_views(a_polys@));
    let mut coms: Vec<G1> = Vec::new();
    let mut i: usize = 1;
    while i < a_polys.len()
        invariant
            1 <= i <= a_polys@.len(),
            want == fold_commitments(pp.key(), poly_views(a_polys@)),
            coms@.len() == i - 1,
            forall|k: int| 1 <= k < i ==> (#[trigger] a_polys@[k])@.len() <= pp.powers@.len(),
            forall|k: int| 0 <= k < i - 1 ==> (#[trigger] coms@[k])@ == want[k],
        decreases a_polys@.len() - i,
    {
        let com = pp.try_commit(a_polys[i].as_slice())?;
        coms.push(com);
        i = i + 1;
    }
    assert(logs(coms@) =~= want);
    Ok(coms)
}

/// Appends commitments to folds to a transcript.
fn append_folds(fold_comms: &[G1], transcript: &mut IOPTranscript)
    ensures
        final(transcript)@ == with_folds(
            old(transcript)@,
            logs(fold_comms@),
            fold_comms@.len() as int,
        ),
{
    let ghost start = transcript@;
    let mut i: usize = 0;
    while i < fold_comms.len()
        invariant
            i <= fold_comms@.len(),
            transcript@ == with_folds(start, logs(fold_comms@), i as int),
        decreases fold_comms@.len() - i,
    {
        transcript.append_point("fold_comm", &fold_comms[i]);
        i = i + 1;
    }
}

/// Appends the statement to a transcript.
fn append_statement(
    commitment: &G1,
    point: &[Scalar],
    value: &Scalar,
    transcript: &mut IOPTranscript,
)
    requires
        vector_fits(point@.len() as int),
    ensures
        final(transcript)@ == stated(old(transcript)@, commitment@, vals(point@), value@),
{
    transcript.append_point("commitment", commitment);
    transcript.append_field_elements("point", point);
    transcript.append_field_element("eval", value);
}

/// Whether the equation of a KZG opening holds.
pub fn kzg_verify_pairing(
    vp: &GeminiVerifierParam,
    com: &G1,
    point: Scalar,
    eval: Scalar,
    proof: &G1,
) -> (r: bool)
    ensures
        r == kzg_accepts(key_model(vp), com@, point@, eval@, proof@),
{
    let cm_minus_vg = com.add(&vp.g.neg().mul(&eval));
    let sx = vp.h_x.add(&vp.h.mul(&point.neg()));
    let a = [cm_minus_vg, proof.neg()];
    let b = [vp.h, sx];
    let r = pairing_check(a.as_slice(), b.as_slice());
    assert(logs(a@) =~= seq![
        fadd(com@, fmul(fneg(vp.g@), eval@)),
        fneg(proof@),
    ]);
    assert(logs2(b@) =~= seq![vp.h@, fadd(vp.h_x@, fmul(vp.h@, fneg(point@)))]);
    r
}

/// The verifier's key.
pub open spec fn key_model(vp: &GeminiVerifierParam) -> GeminiKey {
    GeminiKey { g: vp.g@, h: vp.h@, h_x: vp.h_x@ }
}

/// What comes of an opening of the table `f` at `u`, after the statement, with
/// a key that is long enough: the honest proof for the challenges that were
/// drawn, or an error where one of them cannot be used or where `y` is not the
/// value at the point.
pub open spec fn opening_result(
    start: Seq<Entry>,
    end: Seq<Entry>,
    key: Seq<int>,
    f: Seq<int>,
    u: Seq<int>,
    com: int,
    y: int,
    r: Result<(GeminiProof, Scalar), PCSError>,
    c: GeminiChallenges,
) -> bool {
    let p = honest_proof(key, f, u, c);
    match r {
        Ok((proof, value)) => {
            &&& is_honest_run(start, end, key, f, u, com, proof.model(), c)
            &&& proof.mu == u.len()
            &&& value@ == y
            &&& y == mle_eval(f, u)
        },
        Err(e) => {
            &&& e is InvalidProver
            &&& if c.r != 0 && y != mle_eval(f, u) {
                end == after_r(start, p.fold_comms, c.r)
            } else {
                stopped(start, end, honest_claims(f, u, c.r), com, p.fold_comms, p.q_commit, c)
            }
        },
    }
}

/// What comes of an opening of the table `f` at `u`, after the statement, with
/// a key that is shorter than the table. Where it is too short for the first
/// fold, nothing is drawn; else the run goes on to the commitment to the
/// quotient, or ends before it on a challenge that cannot be used or on a value
/// that is not the one at the point.
pub open spec fn short_key_result(
    start: Seq<Entry>,
    end: Seq<Entry>,
    key: Seq<int>,
    f: Seq<int>,
    u: Seq<int>,
    com: int,
    y: int,
    r: Result<(GeminiProof, Scalar), PCSError>,
    c: GeminiChallenges,
) -> bool {
    let folds = honest_proof(key, f, u, c).fold_comms;
    &&& r is Err
    &&& if u.len() >= 2 && p2(u.len() - 1) > key.len() {
        r->Err_0 is InvalidParameters && end == start
    } else if c.r == 0 || y != mle_eval(f, u) {
        r->Err_0 is InvalidProver && end == after_r(start, folds, c.r)
    } else {
        &&& end == after_nu(start, honest_claims(f, u, c.r), com, folds, c.r, c.nu)
        &&& if c.nu == 0 {
            r->Err_0 is InvalidProver
        } else {
            r->Err_0 is InvalidParameters
        }
    }
}

/// Opens a table, after the statement was appended to the transcript.
/// `a0_commit` is the commitment to the table.
#[verifier::rlimit(40)]
pub fn gemini_core_open_prebound(
    pp: &GeminiProverParam,
    f_hat: &[Scalar],
    point: &[Scalar],
    eval: Scalar,
    transcript: &mut IOPTranscript,
    a0_commit: &G1,
) -> (res: Result<(GeminiProof, Scalar), PCSError>)
    requires
        mu_ok(point@.len() as int),
        f_hat@.len() == p2(point@.len() as int),
    ensures
        f_hat@.len() <= pp.powers@.len() ==> exists|c: GeminiChallenges| #[trigger]
            opening_result(
                old(transcript)@,
                final(transcript)@,
                pp.key(),
                vals(f_hat@),
                vals(point@),
                a0_commit@,
                eval@,
                res,
                c,
            ),
        f_hat@.len() > pp.powers@.len() ==> exists|c: GeminiChallenges| #[trigger]
            short_key_result(
                old(transcript)@,
                final(transcript)@,
                pp.key(),
                vals(f_hat@),
                vals(point@),
                a0_commit@,
                eval@,
                res,
                c,
            ),
{
    let mu: usize = point.len();
    let n: usize = f_hat.len();
    let ghost start = transcript@;
    let ghost key = pp.key();
    let ghost f = vals(f_hat@);
    let ghost u = vals(point@);
    let ghost polys = fold_list(f, u, u.len());
    let ghost com = a0_commit@;
    let ghost none = GeminiChallenges { r: 0, nu: 0, z: 0 };

    let a_polys = fold_all(f_hat, point);
    proof {
        assert(poly_views(a_polys@).len() == a_polys@.len());
        lemma_vals_reduced(f_hat@);
        lemma_fold_list_lens(f, u);
        law_last_fold(f, u);
        assert forall|k: int| 0 <= k < mu implies (#[trigger] a_polys@[k])@.len() == p2(mu - k)
            && p2(mu - k) <= n by {
            assert(poly_views(a_polys@)[k].len() == a_polys@[k]@.len());
        }
        assert(poly_views(a_polys@)[mu - 1].len() == a_polys@[mu - 1]@.len());
    }
    let ghost short = key.len() < f.len();
    let folds = commit_folds(pp, a_polys.as_slice());
    proof {
        if mu >= 2 {
            assert(a_polys@[1]@.len() == p2(mu - 1));
            assert forall|k: int| 1 <= k < mu implies (#[trigger] a_polys@[k])@.len() <= p2(
                mu - 1,
            ) by {
                lemma_pow2_mono(mu - k, mu - 1);
            }
        }
    }
    let fold_comms = match folds {
        Ok(c) => c,
        Err(e) => {
            let res: Result<(GeminiProof, Scalar), PCSError> = Err(e);
            assert(short ==> short_key_result(
                start,
                transcript@,
                key,
                f,
                u,
                com,
                eval@,
                res,
                none,
            ));
            return res;
        },
    };
    append_folds(fold_comms.as_slice(), transcript);

    let r = transcript.get_and_append_challenge("r");
    let ghost cr = GeminiChallenges { r: r@, ..none };
    assert(logs(fold_comms@) == honest_proof(key, f, u, cr).fold_comms);
    if validate_shplonk_r(r).is_err() {
        let res: Result<(GeminiProof, Scalar), PCSError> = Err(
            invalid_prover("Gemini: r=0 degenerates fold relations"),
        );
        assert(opening_result(start, transcript@, key, f, u, com, eval@, res, cr));
        assert(short ==> short_key_result(
            start,
            transcript@,
            key,
            f,
            u,
            com,
            eval@,
            res,
            cr,
        ));
        return res;
    }
    let fold_evals = fold_evaluations(a_polys.as_slice(), r, mu - 1);
    let c0 = a_polys[mu - 1][0];
    let c1 = a_polys[mu - 1][1];
    proof {
        assert(poly_views(a_polys@)[mu - 1] == vals(a_polys@[mu - 1]@));
        assert(c0@ == polys[mu - 1][0]);
        assert(c1@ == polys[mu - 1][1]);
    }
    let last = point[mu - 1];
    let computed_eval = Scalar::one().sub(last).mul(c0).add(last.mul(c1));
    assert(computed_eval@ == mle_eval(f, u));
    if !computed_eval.equals(&eval) {
        let res: Result<(GeminiProof, Scalar), PCSError> = Err(
            invalid_prover("fold check failed: eval mismatch"),
        );
        assert(opening_result(start, transcript@, key, f, u, com, eval@, res, cr));
        assert(short ==> short_key_result(
            start,
            transcript@,
            key,
            f,
            u,
            com,
            eval@,
            res,
            cr,
        ));
        return res;
    }
    assert(pair_vals(fold_evals@).len() == fold_evals@.len());
    let claims = build_gemini_claims(mu, r, fold_evals.as_slice(), c0, c1);
    let ghost os = openings(claims@);
    assert(os == honest_claims(f, u, r@));
    proof {
        law_honest_claims_hold(f, u, r@);
    }
    append_gemini_claims_to_transcript(
        claims.as_slice(),
        a0_commit,
        fold_comms.as_slice(),
        transcript,
    );

    let nu = transcript.get_and_append_challenge("Shplonk:nu");
    let ghost cn = GeminiChallenges { r: r@, nu: nu@, z: 0 };
    if validate_shplonk_nu(nu).is_err() {
        let res: Result<(GeminiProof, Scalar), PCSError> = Err(
            invalid_prover("Shplonk: nu=0 makes batching degenerate"),
        );
        assert(honest_proof(key, f, u, cn).fold_comms == logs(fold_comms@));
        assert(opening_result(start, transcript@, key, f, u, com, eval@, res, cn));
        assert(short ==> short_key_result(
            start,
            transcript@,
            key,
            f,
            u,
            com,
            eval@,
            res,
            cn,
        ));
        return res;
    }
    let batched_q = compute_shplonk_batched_quotient(claims.as_slice(), a_polys.as_slice(), nu, n);
    assert(vals(batched_q@) == honest_quotient(f, u, r@, nu@));
    proof {
        lemma_honest_lengths(f, u, cn);
        assert(vals(batched_q@).len() == batched_q@.len());
    }
    let shplonk_q_commit = match pp.try_commit(batched_q.as_slice()) {
        Ok(q) => q,
        Err(e) => {
            let res: Result<(GeminiProof, Scalar), PCSError> = Err(e);
            assert(honest_proof(key, f, u, cn).fold_comms == logs(fold_comms@));
            assert(short_key_result(start, transcript@, key, f, u, com, eval@, res, cn));
            return res;
        },
    };
    transcript.append_point("Shplonk:Q", &shplonk_q_commit);

    let z = transcript.get_and_append_challenge("Shplonk:z");
    let ghost c = GeminiChallenges { r: r@, nu: nu@, z: z@ };
    let ghost p = honest_proof(key, f, u, c);
    assert(p.fold_comms == logs(fold_comms@));
    assert(p.q_commit == shplonk_q_commit@);
    if validate_shplonk_z_against_claims(z, claims.as_slice()).is_err() {
        let res: Result<(GeminiProof, Scalar), PCSError> = Err(
            invalid_prover("Shplonk: z invalid"),
        );
        assert(opening_result(start, transcript@, key, f, u, com, eval@, res, c));
        return res;
    }
    let g_coeffs = compute_shplonk_g_coeffs(
        claims.as_slice(),
        a_polys.as_slice(),
        batched_q.as_slice(),
        nu,
        z,
        n,
    )?;
    proof {
        assert(padded(vals(batched_q@), n as nat) =~= vals(batched_q@));
        assert(vals(g_coeffs@) == honest_remainder(f, u, c));
        lemma_honest_lengths(f, u, c);
        law_honest_remainder_vanishes(f, u, c);
        assert(vals(g_coeffs@).len() == g_coeffs@.len());
    }
    let g_z = poly_eval(g_coeffs.as_slice(), z);
    if !g_z.is_zero() {
        return Err(invalid_prover("Shplonk: G(z) != 0"));
    }
    let witness_coeffs = kzg_quotient(g_coeffs.as_slice(), z, Scalar::zero());
    assert(vals(witness_coeffs@).len() == witness_coeffs@.len());
    let kzg_witness = pp.try_commit(witness_coeffs.as_slice())?;
    let proof = GeminiProof {
        fold_comms,
        fold_evals,
        final_coeffs: (c0, c1),
        shplonk_q_commit,
        kzg_witness,
        mu,
    };
    let res: Result<(GeminiProof, Scalar), PCSError> = Ok((proof, eval));
    assert(proof.model() == p);
    assert(opening_result(start, transcript@, key, f, u, com, eval@, res, c));
    res
}

/// Whether a table can be opened at a point with a key.
pub open spec fn request_ok(pp: &GeminiProverParam, poly: &Mle, point: Seq<Scalar>) -> bool {
    &&& mu_ok(poly.num_vars as int)
    &&& point.len() == poly.num_vars
    &&& poly.evaluations@.len() <= pp.powers@.len()
}

/// Commits to a table and opens it at a point.
pub fn gemini_open_with_transcript(
    pp: &GeminiProverParam,
    poly: &Mle,
    point: &[Scalar],
    transcript: &mut IOPTranscript,
) -> (res: Result<(GeminiProof, Scalar), PCSError>)
    requires
        poly.wf(),
    ensures
        !request_ok(pp, poly, point@) ==> (res matches Err(e) && e is InvalidParameters)
            && final(transcript)@ == old(transcript)@,
        request_ok(pp, poly, point@) ==> opened(
            old(transcript)@,
            final(transcript)@,
            pp,
            poly,
            vals(point@),
            table_commitment(pp, poly),
            res,
        ),
{
    let n: usize = domain_size(poly.num_vars)?;
    if point.len() != poly.num_vars {
        return Err(invalid_parameters("point length mismatch"));
    }
    let eval = match poly.evaluate(point) {
        Some(v) => v,
        None => {
            return Err(invalid_parameters("evaluation failed"));
        },
    };
    let a0_commit = pp.try_commit(poly.evaluations.as_slice())?;
    append_statement(&a0_commit, point, &eval, transcript);
    gemini_core_open_prebound(
        pp,
        poly.evaluations.as_slice(),
        point,
        eval,
        transcript,
        &a0_commit,
    )
}

/// The commitment to a table.
pub open spec fn table_commitment(pp: &GeminiProverParam, poly: &Mle) -> int {
    dot(pp.key(), poly.table(), poly.evaluations@.len() as int)
}

/// What comes of an opening, with its statement, for some challenges.
pub open spec fn opened(
    start: Seq<Entry>,
    end: Seq<Entry>,
    pp: &GeminiProverParam,
    poly: &Mle,
    u: Seq<int>,
    com: int,
    res: Result<(GeminiProof, Scalar), PCSError>,
) -> bool {
    let y = mle_eval(poly.table(), u);
    exists|c: GeminiChallenges| #[trigger]
        opening_result(stated(start, com, u, y), end, pp.key(), poly.table(), u, com, y, res, c)
}

/// Whether a result is that of an opening from the history `log`: its course is
/// determined by the statement and what the prover sends.
pub open spec fn is_opening(
    log: Seq<Entry>,
    pp: &GeminiProverParam,
    poly: &Mle,
    point: Seq<Scalar>,
    com: int,
    res: Result<(GeminiProof, Scalar), PCSError>,
) -> bool {
    exists|end: Seq<Entry>|
        is_course(end) && #[trigger] opened(log, end, pp, poly, vals(point), com, res)
}

/// What comes of an opening, with its statement, for some challenges, with a key
/// that is shorter than the table.
pub open spec fn short_key_opened(
    start: Seq<Entry>,
    end: Seq<Entry>,
    pp: &GeminiProverParam,
    poly: &Mle,
    u: Seq<int>,
    com: int,
    res: Result<(GeminiProof, Scalar), PCSError>,
) -> bool {
    let y = mle_eval(poly.table(), u);
    exists|c: GeminiChallenges| #[trigger]
        short_key_result(stated(start, com, u, y), end, pp.key(), poly.table(), u, com, y, res, c)
}

/// Whether a result is that of an opening from the history `log` with a key that
/// is shorter than the table: its course is determined by the statement and what
/// the prover sends.
pub open spec fn is_short_key_opening(
    log: Seq<Entry>,
    pp: &GeminiProverParam,
    poly: &Mle,
    point: Seq<Scalar>,
    com: int,
    res: Result<(GeminiProof, Scalar), PCSError>,
) -> bool {
    exists|end: Seq<Entry>|
        is_course(end) && #[trigger] short_key_opened(log, end, pp, poly, vals(point), com, res)
}

/// Whether a proof has the form that the key and the point ask for.
pub open spec fn proof_ok(vp: &GeminiVerifierParam, point: Seq<Scalar>, proof: &GeminiProof) -> bool {
    &&& mu_ok(proof.mu as int)
    &&& proof.mu <= vp.max_num_vars
    &&& p2(proof.mu as int) <= vp.max_degree
    &&& point.len() == proof.mu
    &&& proof.fold_comms@.len() == proof.mu - 1
    &&& proof.fold_evals@.len() == proof.mu - 1
}

/// What comes of the verification of a proof of the right form: the verdict for
/// the challenges that were drawn, or an error where one of them cannot be
/// used.
pub open spec fn verification_result(
    start: Seq<Entry>,
    end: Seq<Entry>,
    vp: &GeminiVerifierParam,
    com: int,
    u: Seq<int>,
    y: int,
    proof: &GeminiProof,
    res: Result<bool, PCSError>,
    c: GeminiChallenges,
) -> bool {
    let p = proof.model();
    match res {
        Ok(ok) => is_verdict(start, end, key_model(vp), com, u, y, p, ok, c),
        Err(e) => {
            &&& e is InvalidProof
            &&& c.r != 0 ==> values_fit(p, u, c.r, y)
            &&& stopped(
                start,
                end,
                claims_of(p, u.len() as int, c.r),
                com,
                p.fold_comms,
                p.q_commit,
                c,
            )
        },
    }
}

/// What comes of a verification, with its statement, for some challenges.
pub open spec fn verified(
    start: Seq<Entry>,
    end: Seq<Entry>,
    vp: &GeminiVerifierParam,
    com: int,
    u: Seq<int>,
    y: int,
    proof: &GeminiProof,
    res: Result<bool, PCSError>,
) -> bool {
    exists|c: GeminiChallenges| #[trigger]
        verification_result(stated(start, com, u, y), end, vp, com, u, y, proof, res, c)
}

/// Whether a result is that of a verification from the history `log`: its course
/// is determined by the statement and the proof.
pub open spec fn is_verification(
    log: Seq<Entry>,
    vp: &GeminiVerifierParam,
    com: int,
    point: Seq<Scalar>,
    y: int,
    proof: &GeminiProof,
    res: Result<bool, PCSError>,
) -> bool {
    exists|end: Seq<Entry>|
        is_course(end) && #[trigger] verified(log, end, vp, com, vals(point), y, proof, res)
}

/// Whether the values of a proof are those of folds that lead to the value.
fn check_values(proof: &GeminiProof, point: &[Scalar], r: Scalar, value: &Scalar) -> (ok: bool)
    requires
        point@.len() >= 1,
        proof.fold_evals@.len() == point@.len() - 1,
    ensures
        ok == values_fit(proof.model(), vals(point@), r@, value@),
{
    let ghost p = proof.model();
    let ghost u = vals(point@);
    let mu: usize = point.len();
    let n: usize = mu - 1;
    let (c0, c1) = proof.final_coeffs;
    let one = Scalar::one();
    let two = Scalar::from_u64(2);
    let mut r_pow = r;
    let mut i: usize = 0;
    while i < n
        invariant
            i <= n,
            n == mu - 1,
            mu == point@.len(),
            n == proof.fold_evals@.len(),
            p == proof.model(),
            u == vals(point@),
            one@ == 1,
            two@ == 2,
            (c0@, c1@) == (p.c0, p.c1),
            r_pow@ == squared(r@, i as int),
            folds_hold(p, u, r@, i as int),
        decreases n - i,
    {
        let pos = proof.fold_evals[i].0;
        let neg = proof.fold_evals[i].1;
        let r_sq = r_pow.mul(r_pow);
        let next = if i + 1 < n {
            proof.fold_evals[i + 1].0
        } else {
            c0.add(c1.mul(r_sq))
        };
        assert(p.fold_evals[i as int] == (pos@, neg@));
        assert(next@ == next_value(p, u.len() as int, r@, i as int));
        let lhs = two.mul(r_pow).mul(next);
        let rhs = one.sub(point[i]).mul(r_pow).mul(pos.add(neg)).add(point[i].mul(pos.sub(neg)));
        if !lhs.equals(&rhs) {
            assert(!fold_relation(
                squared(r@, i as int),
                u[i as int],
                p.fold_evals[i as int].0,
                p.fold_evals[i as int].1,
                next_value(p, u.len() as int, r@, i as int),
            ));
            return false;
        }
        r_pow = r_sq;
        i = i + 1;
    }
    let last = point[mu - 1];
    let expected = one.sub(last).mul(c0).add(last.mul(c1));
    expected.equals(value)
}

/// Verifies a proof.
#[verifier::rlimit(40)]
pub fn gemini_verify_with_transcript(
    vp: &GeminiVerifierParam,
    commitment: &G1,
    point: &[Scalar],
    value: &Scalar,
    proof: &GeminiProof,
    transcript: &mut IOPTranscript,
) -> (res: Result<bool, PCSError>)
    ensures
        !proof_ok(vp, point@, proof) ==> (res matches Err(e) && e is InvalidProof)
            && final(transcript)@ == old(transcript)@,
        proof_ok(vp, point@, proof) ==> verified(
            old(transcript)@,
            final(transcript)@,
            vp,
            commitment@,
            vals(point@),
            value@,
            proof,
            res,
        ),
{
    let mu: usize = proof.mu;
    if mu > vp.max_num_vars {
        return Err(invalid_proof("verify: proof.mu exceeds vp.max_num_vars"));
    }
    let n: usize = checked_domain_size_from_mu(mu)?;
    if n > vp.max_degree {
        return Err(invalid_proof("verify: n exceeds vp.max_degree"));
    }
    if point.len() != mu {
        return Err(invalid_proof("verify: point length differs from proof.mu"));
    }
    if proof.fold_comms.len() != mu - 1 {
        return Err(invalid_proof("verify: unexpected fold_comms length"));
    }
    if proof.fold_evals.len() != mu - 1 {
        return Err(invalid_proof("verify: unexpected fold_evals length"));
    }
    let ghost u = vals(point@);
    let ghost y = value@;
    let ghost p = proof.model();
    let ghost com = commitment@;
    let ghost log0 = transcript@;
    append_statement(commitment, point, value, transcript);
    let ghost start = transcript@;
    assert(start == stated(log0, com, u, y));
    append_folds(proof.fold_comms.as_slice(), transcript);

    let r = transcript.get_and_append_challenge("r");
    let ghost cr = GeminiChallenges { r: r@, nu: 0, z: 0 };
    if let Err(e) = validate_shplonk_r(r) {
        let res: Result<bool, PCSError> = Err(e);
        assert(verification_result(start, transcript@, vp, com, u, y, proof, res, cr));
        return res;
    }
    if !check_values(proof, point, r, value) {
        let res: Result<bool, PCSError> = Ok(false);
        assert(verification_result(start, transcript@, vp, com, u, y, proof, res, cr));
        return res;
    }
    let (c0, c1) = proof.final_coeffs;
    let claims = build_gemini_claims(mu, r, proof.fold_evals.as_slice(), c0, c1);
    let ghost os = openings(claims@);
    assert(os == claims_of(p, mu as int, r@));
    proof {
        lemma_rounds(mu as int, r@, p.fold_evals, p.c0, p.c1);
    }
    append_gemini_claims_to_transcript(
        claims.as_slice(),
        commitment,
        proof.fold_comms.as_slice(),
        transcript,
    );

    let nu = transcript.get_and_append_challenge("Shplonk:nu");
    let ghost cn = GeminiChallenges { r: r@, nu: nu@, z: 0 };
    if let Err(e) = validate_shplonk_nu(nu) {
        let res: Result<bool, PCSError> = Err(e);
        assert(verification_result(start, transcript@, vp, com, u, y, proof, res, cn));
        return res;
    }
    transcript.append_point("Shplonk:Q", &proof.shplonk_q_commit);
    let z = transcript.get_and_append_challenge("Shplonk:z");
    let ghost c = GeminiChallenges { r: r@, nu: nu@, z: z@ };
    if let Err(e) = validate_shplonk_z_against_claims(z, claims.as_slice()) {
        let res: Result<bool, PCSError> = Err(e);
        assert(verification_result(start, transcript@, vp, com, u, y, proof, res, c));
        return res;
    }
    let g_commit = compute_shplonk_g_commit(
        claims.as_slice(),
        &proof.shplonk_q_commit,
        commitment,
        proof.fold_comms.as_slice(),
        nu,
        z,
        &vp.g,
    )?;
    assert(z_apart(os, z@));
    let valid = kzg_verify_pairing(vp, &g_commit, z, Scalar::zero(), &proof.kzg_witness);
    let res: Result<bool, PCSError> = Ok(valid);
    assert(verification_result(start, transcript@, vp, com, u, y, proof, res, c));
    res
}

/// A fresh transcript for a number of variables.
fn fresh_transcript(domain: &'static str, mu: usize) -> (t: IOPTranscript)
    ensures
        t@ == fresh_log(domain@, mu as int),
{
    let mut t: IOPTranscript = IOPTranscript::new(domain);
    t.append_field_element("mu", &Scalar::from_u64(mu as u64));
    assert(t@ =~= fresh_log(domain@, mu as int));
    t
}

/// The commitment scheme.
pub struct GeminiPCS {}

impl GeminiPCS {
    /// Parameters for up to `s` variables from a trapdoor and a point of each
    /// group. For testing only.
    pub fn gen_srs_for_testing(tau: Scalar, g1: G1, g2: G2, s: usize) -> (r: Result<
        GeminiUniversalParams,
        PCSError,
    >)
        ensures
            r is Ok <==> mu_ok(s as int),
            r matches Err(e) ==> e is InvalidParameters,
            r matches Ok(srs) ==> {
                &&& srs.wf()
                &&& srs.prover_param.max_degree == p2(s as int)
                &&& is_power_key(srs.prover_param.key(), g1@, tau@)
                &&& srs.verifier_param.g@ == srs.prover_param.key()[0]
                &&& srs.verifier_param.h@ == g2@
                &&& srs.verifier_param.h_x@ == fmul(g2@, tau@)
                &&& srs.verifier_param.max_num_vars == s
                &&& srs.verifier_param.max_degree == srs.prover_param.max_degree
            },
    {
        GeminiUniversalParams::gen_srs_for_testing(tau, g1, g2, s)
    }

    /// Prover and verifier parameters for a number of variables, which has to
    /// be given.
    pub fn trim(srs: &GeminiUniversalParams, nv: Option<usize>) -> (r: Result<
        (GeminiProverParam, GeminiVerifierParam),
        PCSError,
    >)
        requires
            srs.wf(),
        ensures
            r is Ok <==> (nv matches Some(m) && mu_ok(m as int) && p2(m as int)
                <= srs.prover_param.max_degree),
            r matches Err(e) ==> e is InvalidParameters,
            r matches Ok((ck, vk)) ==> (nv matches Some(m) && {
                &&& ck.wf()
                &&& ck.max_degree == p2(m as int)
                &&& ck.powers@ == srs.prover_param.powers@.take(ck.max_degree + 1)
                &&& vk.g == srs.verifier_param.g
                &&& vk.h == srs.verifier_param.h
                &&& vk.h_x == srs.verifier_param.h_x
                &&& vk.max_degree == ck.max_degree
                &&& log_floor(ck.max_degree as int, vk.max_num_vars as int)
            }),
    {
        match nv {
            None => Err(invalid_parameters("need num_var")),
            Some(m) => {
                let n: usize = domain_size(m)?;
                srs.trim(n)
            },
        }
    }

    /// Commits to a polynomial.
    pub fn commit(pp: &GeminiProverParam, poly: &Mle) -> (r: Result<G1, PCSError>)
        requires
            pp.wf(),
            poly.wf(),
        ensures
            r is Ok <==> mu_ok(poly.num_vars as int) && p2(poly.num_vars as int) <= pp.max_degree,
            r matches Err(e) ==> e is InvalidParameters,
            r matches Ok(c) ==> c@ == table_commitment(pp, poly),
    {
        let n: usize = domain_size(poly.num_vars)?;
        if pp.max_degree < n {
            return Err(invalid_parameters("degree exceeds the maximum"));
        }
        pp.try_commit(poly.evaluations.as_slice())
    }

    /// Commits to a polynomial and opens it at a point.
    pub fn open(pp: &GeminiProverParam, poly: &Mle, point: &[Scalar]) -> (res: Result<
        (GeminiProof, Scalar),
        PCSError,
    >)
        requires
            poly.wf(),
        ensures
            !request_ok(pp, poly, point@) ==> (res matches Err(e) && e is InvalidParameters),
            request_ok(pp, poly, point@) ==> is_opening(
                fresh_log("gemini-open"@, point@.len() as int),
                pp,
                poly,
                point@,
                table_commitment(pp, poly),
                res,
            ),
            1 <= poly.num_vars && point@.len() == poly.num_vars && p2(poly.num_vars as int)
                <= pp.powers@.len() ==> (res matches Err(e) ==> e is InvalidProver),
    {
        let mut t: IOPTranscript = fresh_transcript("gemini-open", poly.num_vars);
        let res = gemini_open_with_transcript(pp, poly, point, &mut t);
        proof {
            use_type_invariant(&t);
            t.lemma_course();
        }
        res
    }

    /// Opens a polynomial at a point with a commitment that was made before.
    pub fn open_with_commitment(
        pp: &GeminiProverParam,
        poly: &Mle,
        point: &[Scalar],
        commitment: &G1,
    ) -> (res: Result<(GeminiProof, Scalar), PCSError>)
        requires
            poly.wf(),
        ensures
            !(mu_ok(poly.num_vars as int) && point@.len() == poly.num_vars) ==> (res matches Err(e)
                && e is InvalidParameters),
            mu_ok(poly.num_vars as int) && point@.len() == poly.num_vars && !request_ok(
                pp,
                poly,
                point@,
            ) ==> is_short_key_opening(
                fresh_log("gemini-open"@, point@.len() as int),
                pp,
                poly,
                point@,
                commitment@,
                res,
            ),
            request_ok(pp, poly, point@) ==> is_opening(
                fresh_log("gemini-open"@, point@.len() as int),
                pp,
                poly,
                point@,
                commitment@,
                res,
            ),
    {
        let n: usize = domain_size(poly.num_vars)?;
        if point.len() != poly.num_vars {
            return Err(invalid_parameters("point length mismatch"));
        }
        let mut t: IOPTranscript = fresh_transcript("gemini-open", poly.num_vars);
        let eval = match poly.evaluate(point) {
            Some(v) => v,
            None => {
                return Err(invalid_parameters("evaluation failed"));
            },
        };
        append_statement(commitment, point, &eval, &mut t);
        let res = gemini_core_open_prebound(
            pp,
            poly.evaluations.as_slice(),
            point,
            eval,
            &mut t,
            commitment,
        );
        proof {
            use_type_invariant(&t);
            t.lemma_course();
            let log = fresh_log("gemini-open"@, point@.len() as int);
            let u = vals(point@);
            if request_ok(pp, poly, point@) {
                assert(opened(log, t@, pp, poly, u, commitment@, res));
            } else {
                assert(short_key_opened(log, t@, pp, poly, u, commitment@, res));
            }
        }
        res
    }

    /// Verifies a proof.
    pub fn verify(
        vp: &GeminiVerifierParam,
        com: &G1,
        point: &[Scalar],
        val: &Scalar,
        proof: &GeminiProof,
    ) -> (res: Result<bool, PCSError>)
        ensures
            !proof_ok(vp, point@, proof) ==> (res matches Err(e) && e is InvalidProof),
            proof_ok(vp, point@, proof) ==> is_verification(
                fresh_log("gemini-open"@, point@.len() as int),
                vp,
                com@,
                point@,
                val@,
                proof,
                res,
            ),
    {
        let mut t: IOPTranscript = fresh_transcript("gemini-open", proof.mu);
        let res = gemini_verify_with_transcript(vp, com, point, val, proof, &mut t);
        proof {
            use_type_invariant(&t);
            t.lemma_course();
        }
        res
    }

    /// The first stage of a batched opening: what the sumcheck has to prove.
    pub fn multi_open_begin(
        polys: &[Mle],
        points: &[Vec<Scalar>],
        evals: &[Scalar],
        transcript: &mut IOPTranscript,
    ) -> (r: Result<BatchPlan, PCSError>)
        requires
            polys@.len() <= p2(usize::BITS - 1),
            forall|i: int| 0 <= i < polys@.len() ==> (#[trigger] polys@[i]).wf(),
        ensures
            r is Ok <==> batch_ok(polys@, points@, evals@) && mu_ok(polys@[0].num_vars as int),
            r matches Err(e) ==> e is InvalidParameters && final(transcript)@ == old(transcript)@,
            r matches Ok(plan) ==> {
                &&& plan.wf()
                &&& is_plan(
                    &plan,
                    tables(polys@),
                    poly_views(points@),
                    polys@[0].num_vars as int,
                )
                &&& batched(
                    old(transcript)@,
                    final(transcript)@,
                    poly_views(points@),
                    vals(evals@),
                    vals(plan.weights@),
                )
            },
    {
        if polys.len() > 0 {
            let n: usize = domain_size(polys[0].num_vars)?;
        }
        plan_batch(polys, points, evals, transcript)
    }

    /// The second stage of a batched opening, with the final point of the
    /// sumcheck, or with none where the sumcheck failed.
    pub fn multi_open_finish(
        pp: &GeminiProverParam,
        plan: &BatchPlan,
        a2: Option<&[Scalar]>,
    ) -> (res: Result<(GeminiProof, Scalar), PCSError>)
        requires
            plan.wf(),
            a2 matches Some(a) ==> a@.len() == plan.num_var,
        ensures
            a2 is None ==> (res matches Err(e) && e is InvalidProver),
            a2 matches Some(a) ==> exists|g: Mle| #[trigger]
                aggregate_opened(pp, plan, a@, res, g),
    {
        match a2 {
            None => Err(invalid_prover("Sumcheck failed")),
            Some(a) => {
                let aggregated_poly = aggregate(plan, a);
                let g = aggregated_poly?;
                let mut t: IOPTranscript = fresh_transcript("gemini-gprime-open", plan.num_var);
                let res = gemini_open_with_transcript(pp, &g, a, &mut t);
                proof {
                    use_type_invariant(&t);
                    t.lemma_course();
                }
                assert(aggregate_opened(pp, plan, a@, res, g));
                res
            },
        }
    }

    /// The first stage of a batched verification: the sum that the sumcheck
    /// has to prove. `num_var` is the dimension of its final point.
    pub fn batch_verify_begin(
        vp: &GeminiVerifierParam,
        coms: &[G1],
        points: &[Vec<Scalar>],
        evals: &[Scalar],
        num_var: usize,
        transcript: &mut IOPTranscript,
    ) -> (r: Result<BatchClaim, PCSError>)
        requires
            coms@.len() <= p2(usize::BITS - 1),
        ensures
            r is Ok <==> {
                &&& claims_ok(coms@, points@, evals@, num_var as int)
                &&& mu_ok(num_var as int)
                &&& num_var <= vp.max_num_vars
                &&& p2(num_var as int) <= vp.max_degree
            },
            r matches Err(e) ==> e is InvalidProof && final(transcript)@ == old(transcript)@,
            r matches Ok(c) ==> {
                &&& c.weights@.len() >= coms@.len()
                &&& c.sum@ == weighted_sum(vals(c.weights@), vals(evals@), evals@.len() as int)
                &&& batched(
                    old(transcript)@,
                    final(transcript)@,
                    poly_views(points@),
                    vals(evals@),
                    vals(c.weights@),
                )
            },
    {
        if num_var > vp.max_num_vars {
            return Err(invalid_proof("batch_verify: num_var exceeds vp.max_num_vars"));
        }
        let n: usize = checked_domain_size_from_mu(num_var)?;
        if n > vp.max_degree {
            return Err(invalid_proof("batch_verify: n exceeds vp.max_degree"));
        }
        claim_batch(coms, points, evals, num_var, transcript)
    }

    /// The second stage of a batched verification, with the final point of the
    /// sumcheck and the value that it expects there, or with none where the
    /// sumcheck failed.
    pub fn batch_verify_finish(
        vp: &GeminiVerifierParam,
        coms: &[G1],
        points: &[Vec<Scalar>],
        claim: &BatchClaim,
        a2: &[Scalar],
        expected: Option<Scalar>,
        proof: &GeminiProof,
    ) -> (res: Result<bool, PCSError>)
        requires
            coms@.len() == points@.len(),
            points@.len() <= claim.weights@.len(),
            forall|i: int| 0 <= i < points@.len() ==> (#[trigger] points@[i])@.len() == a2@.len(),
        ensures
            expected is None ==> res == Ok::<bool, PCSError>(false),
            expected matches Some(y) ==> {
                &&& !proof_ok(vp, a2@, proof) ==> (res matches Err(e) && e is InvalidProof)
                &&& proof_ok(vp, a2@, proof) ==> is_verification(
                    fresh_log("gemini-gprime-open"@, a2@.len() as int),
                    vp,
                    dot(
                        logs(coms@),
                        aggregate_scalars(
                            vals(claim.weights@),
                            vals(a2@),
                            poly_views(points@),
                        ),
                        coms@.len() as int,
                    ),
                    a2@,
                    y@,
                    proof,
                    res,
                )
            },
    {
        match expected {
            None => Ok(false),
            Some(y) => {
                let g_prime_commit = aggregate_commitments(
                    coms,
                    points,
                    claim.weights.as_slice(),
                    a2,
                )?;
                let mut t: IOPTranscript = fresh_transcript("gemini-gprime-open", a2.len());
                let res = gemini_verify_with_transcript(
                    vp,
                    &g_prime_commit,
                    a2,
                    &y,
                    proof,
                    &mut t,
                );
                proof {
                    use_type_invariant(&t);
                    t.lemma_course();
                }
                res
            },
        }
    }
}

/// Whether an opening is that of the aggregated polynomial `g` of a batch.
pub open spec fn aggregate_opened(
    pp: &GeminiProverParam,
    plan: &BatchPlan,
    a: Seq<Scalar>,
    res: Result<(GeminiProof, Scalar), PCSError>,
    g: Mle,
) -> bool {
    &&& is_aggregate(plan, a, &g)
    &&& !request_ok(pp, &g, a) ==> (res matches Err(e) && e is InvalidParameters)
    &&& request_ok(pp, &g, a) ==> is_opening(
        fresh_log("gemini-gprime-open"@, plan.num_var as int),
        pp,
        &g,
        a,
        table_commitment(pp, &g),
        res,
    )
}

} // verus!
