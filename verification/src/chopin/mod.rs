//! Chopin: a multilinear commitment scheme from bivariate KZG.
//!
//! The table of a polynomial is a matrix `F[i, j]`; the commitment is to the
//! bivariate twin `f(X, Y) = sum F[i, j] X^i Y^j`. An opening reduces the value
//! at a point to two inner products, proves both with one symmetric witness,
//! and opens the univariate polynomials that occur in one batch. A proof has
//! seven points of G1, seven scalars and the number of variables of the key.

pub mod batch;
pub mod laws;
pub mod model;
pub mod roundtrip;
pub mod serving;
pub mod soundness;
pub mod srs;

use crate::bdfg::{
    add_scaled, bdfg_first_round, bdfg_second_round, bdfg_verifier_combination, claim_sets,
    claim_views, commit_scalar, const_term, divide_by_linear, poly_eval, poly_views, set_views,
    union_of, BdfgClaim, BdfgVerifierCombination,
};
use crate::bdfg_laws::{batch_opening, batch_quotient, claim_values, interpolants_of};
use crate::chopin::laws::{law_batch_lengths, lemma_claims_divide, lemma_union, points_ok, w_length};
use crate::chopin::model::{
    alpha_restriction, batch_holds, bivariate_holds, claims_of, honest_opening, honest_proof,
    honest_values, identity_holds, is_batch_run, is_honest_run, is_honest_stop, is_opening_run,
    is_stopped_run, is_verdict, left_part, opening_holds, points_apart, quotient_1, right_part,
    right_restriction, s_poly, stated, usable_beta, usable_z, verdict, with_values,
    ChopinChallenges, ChopinKey, ChopinModel, ChopinRun,
};
use crate::chopin::srs::{
    is_grid_key, layout, lemma_grid_dims, split_exponents, tau_bases, ChopinProverParam,
    ChopinUniversalParams, ChopinVerifierParam,
};
use crate::dims::{
    lemma_column, lemma_pow2_mono, lemma_row_major, lemma_split, pad_scalars, padded, pow2_usize,
    split,
};
use crate::errors::{invalid_parameters, invalid_proof, invalid_prover, PCSError};
use crate::field::{finv, fmul, fneg, is_inverse, vals, Scalar};
use crate::grid::{block, block_values, fold_rows, fold_table};
use crate::group::{logs, logs2, pairing_check, G1, G2};
use crate::laurent::{sym_witness, symmetric_witness};
use crate::poly::{dot, feval, interp, linear_quotient, nodes_ok, p_vanishing, tail};
use crate::tensor::{build_eq_vec, eq_vec, eval_tensor, mle_eval, p2, Mle};
use crate::transcript::{
    draw_nonzero, drawn, is_course, nonzero, vector_fits, Entry, IOPTranscript, MAX_CHALLENGE_RETRY,
};
use vstd::arithmetic::power2::pow2;
use vstd::prelude::*;

verus! {

/// Whether a number of variables is supported.
pub open spec fn mu_ok(mu: int) -> bool {
    2 <= mu < usize::BITS
}

/// Rejects a number of variables that is not supported.
pub fn check_mu(mu: usize) -> (r: Result<(), PCSError>)
    ensures
        r is Ok <==> mu_ok(mu as int),
        r matches Err(e) ==> e is InvalidParameters,
{
    if mu < 2 {
        return Err(invalid_parameters("chopin requires mu >= 2"));
    }
    if mu >= usize::BITS as usize {
        return Err(invalid_parameters("mu exceeds platform word size"));
    }
    Ok(())
}

/// Rejects the number of variables of a proof that is not supported.
pub fn check_mu_verify(mu: usize) -> (r: Result<(), PCSError>)
    ensures
        r is Ok <==> mu_ok(mu as int),
        r matches Err(e) ==> e is InvalidProof,
{
    match check_mu(mu) {
        Ok(()) => Ok(()),
        Err(e) => Err(invalid_proof(e.message())),
    }
}

/// `f_zR[i] = sum_j F[i, j] psi_R[j]`.
pub fn compute_restriction(
    evals: &[Scalar],
    psi_r: &[Scalar],
    big_ml: usize,
    big_mr: usize,
) -> (g: Vec<Scalar>)
    requires
        evals@.len() == big_ml * big_mr,
        psi_r@.len() == big_mr,
    ensures
        vals(g@) == fold_rows(vals(evals@), vals(psi_r@), big_ml as int, big_mr as int),
        g@.len() == big_ml,
{
    fold_table(evals, psi_r, big_ml, big_mr)
}

/// Divides every column of the table by `X - alpha`: the quotients, column
/// after column, and the values of the columns at `alpha`.
pub fn divide_x_at_alpha(evals: &[Scalar], big_ml: usize, big_mr: usize, alpha: Scalar) -> (r: (
    Vec<Scalar>,
    Vec<Scalar>,
))
    requires
        2 <= big_ml,
        evals@.len() == big_ml * big_mr,
    ensures
        vals(r.0@) == quotient_1(vals(evals@), big_ml as int, big_mr as int, alpha@),
        vals(r.1@) == block_values(vals(evals@), big_ml as int, big_mr as int, alpha@),
        r.0@.len() == (big_ml - 1) * big_mr,
        r.1@.len() == big_mr,
{
    let total: usize = evals.len();
    let ghost f = vals(evals@);
    let ghost ml = big_ml as int;
    let ghost mr = big_mr as int;
    let ghost w = ml - 1;
    let mut q1: Vec<Scalar> = Vec::new();
    let mut f_alpha: Vec<Scalar> = Vec::new();
    let mut j: usize = 0;
    while j < big_mr
        invariant
            j <= big_mr,
            2 <= big_ml,
            evals@.len() == total == big_ml * big_mr,
            f == vals(evals@),
            ml == big_ml,
            mr == big_mr,
            w == ml - 1,
            q1@.len() == w * j,
            f_alpha@.len() == j,
            forall|k: int|
                0 <= k < w * j ==> (#[trigger] q1@[k])@ == tail(
                    block(f, ml, k / w),
                    alpha@,
                    k % w + 1,
                ),
            forall|k: int|
                0 <= k < j ==> (#[trigger] f_alpha@[k])@ == feval(block(f, ml, k), alpha@),
        decreases big_mr - j,
    {
        proof {
            lemma_column(ml, mr, j as int);
        }
        let col = vstd::slice::slice_subrange(evals, big_ml * j, big_ml * j + big_ml);
        assert(vals(col@) =~= block(f, ml, j as int));
        let (q, v) = divide_by_linear(col, alpha);
        assert(vals(q@).len() == q@.len());
        let ghost before = q1@;
        let mut i: usize = 0;
        while i < q.len()
            invariant
                i <= q@.len(),
                q@.len() == w,
                before.len() == w * j,
                q1@ =~= before + q@.take(i as int),
            decreases q@.len() - i,
        {
            q1.push(q[i]);
            i = i + 1;
        }
        proof {
            assert(q@.take(w) =~= q@);
            assert(w * (j + 1) == w * j + w) by (nonlinear_arith);
            assert forall|k: int| 0 <= k < w * (j + 1) implies (#[trigger] q1@[k])@ == tail(
                block(f, ml, k / w),
                alpha@,
                k % w + 1,
            ) by {
                if k < w * j {
                    assert(q1@[k] == before[k]);
                } else {
                    lemma_row_major(w, mr, k - w * j, j as int);
                    assert(w * j == j * w) by (nonlinear_arith);
                    assert(q1@[k] == q@[k - w * j]);
                    assert(vals(q@)[k - w * j] == q@[k - w * j]@);
                }
            }
        }
        f_alpha.push(v);
        j = j + 1;
    }
    assert(vals(q1@) =~= quotient_1(f, ml, mr, alpha@));
    assert(vals(f_alpha@) =~= block_values(f, ml, mr, alpha@));
    (q1, f_alpha)
}

/// Divides `f_alpha` by `Y - beta`: the quotient and the value at `beta`.
pub fn divide_y_at_beta(f_alpha: &[Scalar], beta: Scalar) -> (r: Result<
    (Vec<Scalar>, Scalar),
    PCSError,
>)
    ensures
        r is Ok <==> f_alpha@.len() > 0,
        r matches Err(e) ==> e is InvalidProver,
        r matches Ok(q) ==> {
            &&& vals(q.0@) == linear_quotient(vals(f_alpha@), beta@)
            &&& q.0@.len() == f_alpha@.len() - 1
            &&& q.1@ == feval(vals(f_alpha@), beta@)
        },
{
    if f_alpha.len() == 0 {
        return Err(invalid_prover("empty f_alpha"));
    }
    let q = divide_by_linear(f_alpha, beta);
    assert(vals(q.0@).len() == q.0@.len());
    Ok(q)
}

/// The symmetric witness of the inner product of `coeffs` with the eq vector
/// of `u`.
pub fn symmetric_lagrange_witness(coeffs: &[Scalar], u: &[Scalar], m: usize) -> (s: Vec<Scalar>)
    requires
        m < usize::BITS,
        2 * p2(m as int) <= usize::MAX,
        coeffs@.len() == p2(m as int),
        m <= u@.len(),
    ensures
        vals(s@) == sym_witness(vals(coeffs@), vals(u@), m as int),
        s@.len() == p2(m as int) - 1,
{
    symmetric_witness(coeffs, u, m)
}

/// Value of the bivariate twin of a table.
pub fn evaluate_bivariate(
    evals: &[Scalar],
    big_ml: usize,
    big_mr: usize,
    alpha: Scalar,
    beta: Scalar,
) -> (r: Scalar)
    requires
        2 <= big_ml,
        evals@.len() == big_ml * big_mr,
    ensures
        r@ == feval(block_values(vals(evals@), big_ml as int, big_mr as int, alpha@), beta@),
{
    let (q1, f_alpha) = divide_x_at_alpha(evals, big_ml, big_mr, alpha);
    poly_eval(f_alpha.as_slice(), beta)
}

/// Draws a `beta` for the given `alpha`, and returns it with its inverse.
pub fn draw_beta(t: &mut IOPTranscript, label: &'static str, alpha: Scalar) -> (r: Result<
    (Scalar, Scalar),
    PCSError,
>)
    ensures
        drawn(
            old(t)@,
            final(t)@,
            label@,
            usable_beta(alpha@),
            match r {
                Ok(c) => Some(c.0@),
                Err(_) => None,
            },
        ),
        r matches Ok(c) ==> usable_beta(alpha@)(c.0@) && c.1@ == finv(c.0@) && is_inverse(
            c.0@,
            c.1@,
        ),
        r matches Err(e) ==> e is InvalidParameters,
{
    let ghost l0 = t@;
    let one = Scalar::one();
    let mut i: usize = 0;
    while i < MAX_CHALLENGE_RETRY
        invariant
            i <= MAX_CHALLENGE_RETRY,
            one@ == 1,
            l0 == old(t)@,
            t@.len() == l0.len() + i,
            t@.take(l0.len() as int) == l0,
            forall|k: int|
                l0.len() <= k < t@.len() ==> (#[trigger] t@[k] matches Entry::Challenge(l, c) && l
                    == label@ && !usable_beta(alpha@)(c)),
        decreases MAX_CHALLENGE_RETRY - i,
    {
        let ghost before = t@;
        let c = t.get_and_append_challenge(label);
        assert(t@.take(l0.len() as int) =~= before.take(l0.len() as int));
        assert forall|k: int| l0.len() <= k < before.len() implies t@[k] == before[k] by {}
        let sq = c.square();
        if !c.is_zero() && !sq.equals(&one) && !c.equals(&alpha) {
            let c_inv = c.inverse().unwrap();
            if !c_inv.equals(&alpha) {
                assert(usable_beta(alpha@)(c@));
                return Ok((c, c_inv));
            }
        }
        assert(!usable_beta(alpha@)(c@));
        i = i + 1;
    }
    Err(invalid_parameters("exhausted retries drawing beta"))
}

/// Draws a challenge that is not among the evaluation points.
pub fn draw_z(
    t: &mut IOPTranscript,
    label: &'static str,
    alpha: Scalar,
    beta: Scalar,
    beta_inv: Scalar,
) -> (r: Result<Scalar, PCSError>)
    requires
        beta_inv@ == finv(beta@),
    ensures
        drawn(
            old(t)@,
            final(t)@,
            label@,
            usable_z(alpha@, beta@),
            match r {
                Ok(c) => Some(c@),
                Err(_) => None,
            },
        ),
        r matches Err(e) ==> e is InvalidParameters,
{
    let ghost l0 = t@;
    let mut i: usize = 0;
    while i < MAX_CHALLENGE_RETRY
        invariant
            i <= MAX_CHALLENGE_RETRY,
            beta_inv@ == finv(beta@),
            l0 == old(t)@,
            t@.len() == l0.len() + i,
            t@.take(l0.len() as int) == l0,
            forall|k: int|
                l0.len() <= k < t@.len() ==> (#[trigger] t@[k] matches Entry::Challenge(l, c) && l
                    == label@ && !usable_z(alpha@, beta@)(c)),
        decreases MAX_CHALLENGE_RETRY - i,
    {
        let ghost before = t@;
        let c = t.get_and_append_challenge(label);
        assert(t@.take(l0.len() as int) =~= before.take(l0.len() as int));
        assert forall|k: int| l0.len() <= k < before.len() implies t@[k] == before[k] by {}
        if !c.equals(&alpha) && !c.equals(&beta) && !c.equals(&beta_inv) {
            assert(usable_z(alpha@, beta@)(c@));
            return Ok(c);
        }
        assert(!usable_z(alpha@, beta@)(c@));
        i = i + 1;
    }
    Err(invalid_parameters("exhausted retries drawing BDFG20 z"))
}

/// Lengths of the multi-scalar multiplications of a prover.
#[derive(Clone, Copy, Debug, PartialEq, Eq)]
pub struct ChopinMsmLengths {
    /// Commitment to the polynomial.
    pub commit_len: usize,
    /// Commitment to `f_zR`.
    pub f_zr_len: usize,
    /// Commitment to `f_alpha`.
    pub f_alpha_len: usize,
    /// Commitment to the witness `S`.
    pub s_len: usize,
    /// Commitment to the quotient in `X`.
    pub q1_len: usize,
    /// Commitment to the quotient in `Y`.
    pub q2_len: usize,
    /// Commitment to `W` of the batch opening.
    pub w_len: usize,
    /// Commitment to `W'` of the batch opening.
    pub wp_len: usize,
}

impl ChopinMsmLengths {
    /// The lengths for a number of variables.
    pub fn for_num_vars(mu: usize) -> (r: Result<ChopinMsmLengths, PCSError>)
        ensures
            r is Ok <==> mu_ok(mu as int),
            r matches Err(e) ==> e is InvalidParameters,
            r matches Ok(m) ==> {
                let ml = p2(split(mu as int).0);
                let mr = p2(split(mu as int).1);
                &&& m.commit_len == p2(mu as int)
                &&& m.f_zr_len == ml
                &&& m.f_alpha_len == mr
                &&& m.s_len == ml - 1
                &&& m.q1_len == (ml - 1) * mr
                &&& m.q2_len == mr - 1
                &&& m.w_len == w_length(ml, mr)
                &&& m.wp_len == ml - 1
            },
    {
        check_mu(mu)?;
        let (m_left, m_right) = split_exponents(mu);
        proof {
            lemma_grid_dims(mu as int);
            lemma_split(mu as int);
        }
        let ml: usize = pow2_usize(m_left);
        let mr: usize = pow2_usize(m_right);
        proof {
            assert(2 * mr <= ml * mr) by (nonlinear_arith)
                requires
                    2 <= ml,
                    0 <= mr,
            ;
        }
        let top: usize = if ml >= 3 { ml } else { 3 };
        let m_len: usize = if mr + 1 >= top { mr + 1 } else { top };
        Ok(
            ChopinMsmLengths {
                commit_len: ml * mr,
                f_zr_len: ml,
                f_alpha_len: mr,
                s_len: ml - 1,
                q1_len: (ml - 1) * mr,
                q2_len: mr - 1,
                w_len: m_len - 3,
                wp_len: ml - 1,
            },
        )
    }
}

/// A proof of an opening.
#[derive(Clone, Copy, Debug, PartialEq)]
pub struct ChopinProof {
    pub comm_f_zr: G1,
    pub comm_f_alpha: G1,
    pub comm_s: G1,
    pub pi_biv_x: G1,
    pub pi_biv_y: G1,
    pub batch_w: G1,
    pub batch_w_prime: G1,
    pub a: Scalar,
    pub a1: Scalar,
    pub a2: Scalar,
    pub b1: Scalar,
    pub b2: Scalar,
    pub s1: Scalar,
    pub s2: Scalar,
    pub mu: u32,
}

impl ChopinProof {
    /// The views of the commitments and values.
    pub open spec fn model(&self) -> ChopinModel {
        ChopinModel {
            comm_f_zr: self.comm_f_zr@,
            comm_f_alpha: self.comm_f_alpha@,
            comm_s: self.comm_s@,
            pi_biv_x: self.pi_biv_x@,
            pi_biv_y: self.pi_biv_y@,
            batch_w: self.batch_w@,
            batch_w_prime: self.batch_w_prime@,
            a: self.a@,
            a1: self.a1@,
            a2: self.a2@,
            b1: self.b1@,
            b2: self.b2@,
            s1: self.s1@,
            s2: self.s2@,
        }
    }

    /// Size in bytes of the commitments and values: seven points of G1 and
    /// seven scalars.
    pub fn cryptographic_payload_bytes(&self) -> (r: usize)
        ensures
            r == 7 * 48 + 7 * 32,
    {
        7 * self.comm_f_zr.compressed_size() + 7 * self.a.compressed_size()
    }
}

/// The values that the polynomials of an opening are claimed to take.
#[derive(Clone, Copy, Debug)]
pub struct ChopinValues {
    pub a: Scalar,
    pub a1: Scalar,
    pub a2: Scalar,
    pub b1: Scalar,
    pub b2: Scalar,
    pub s1: Scalar,
    pub s2: Scalar,
}

impl ChopinValues {
    /// The views of the values, beside no commitments.
    pub open spec fn model(&self) -> ChopinModel {
        ChopinModel {
            comm_f_zr: 0,
            comm_f_alpha: 0,
            comm_s: 0,
            pi_biv_x: 0,
            pi_biv_y: 0,
            batch_w: 0,
            batch_w_prime: 0,
            a: self.a@,
            a1: self.a1@,
            a2: self.a2@,
            b1: self.b1@,
            b2: self.b2@,
            s1: self.s1@,
            s2: self.s2@,
        }
    }
}

/// A batch opening with its challenges.
pub struct ChopinBatch {
    pub w: G1,
    pub w_prime: G1,
    pub rho: Scalar,
    pub z: Scalar,
}

/// Whether the histories are those of a batch opening that leads from `log` to
/// `end`.
pub open spec fn is_batch(
    log: Seq<Entry>,
    end: Seq<Entry>,
    alpha: int,
    beta: int,
    b: ChopinBatch,
    after_rho: Seq<Entry>,
    after_z: Seq<Entry>,
) -> bool {
    &&& drawn(log, after_rho, "rho"@, nonzero(), Some(b.rho@))
    &&& drawn(
        after_rho.push(Entry::Point("w"@, b.w@)),
        after_z,
        "z"@,
        usable_z(alpha, beta),
        Some(b.z@),
    )
    &&& end == after_z.push(Entry::Point("wp"@, b.w_prime@))
}

/// Whether a batch opening from `log` ends in `end` because the draws of its last
/// challenge were exhausted.
pub open spec fn is_batch_stop(
    log: Seq<Entry>,
    end: Seq<Entry>,
    alpha: int,
    beta: int,
    after_rho: Seq<Entry>,
    rho: int,
    w: int,
) -> bool {
    &&& drawn(log, after_rho, "rho"@, nonzero(), Some(rho))
    &&& drawn(
        after_rho.push(Entry::Point("w"@, w)),
        end,
        "z"@,
        usable_z(alpha, beta),
        None,
    )
}

/// The first commitment of an honest batch opening.
pub open spec fn honest_w(
    pp: &ChopinProverParam,
    fz: Seq<int>,
    fa: Seq<int>,
    s: Seq<int>,
    v: &ChopinValues,
    alpha: int,
    beta: int,
    rho: int,
) -> int {
    let cs = claims_of(fz, fa, s, v.model(), batch_challenges(alpha, 0, beta, rho, 0));
    let w = batch_quotient(cs, rho);
    dot(tau_bases(pp.key(), pp.ml(), pp.mr()), w, w.len() as int)
}

/// The challenges of a batch opening, beside the points.
pub open spec fn batch_challenges(
    alpha: int,
    gamma: int,
    beta: int,
    rho: int,
    z: int,
) -> ChopinChallenges {
    ChopinChallenges { alpha, gamma, beta, rho, z }
}

/// Opens `f_zR`, `f_alpha` and `S` at their points in one batch.
#[verifier::rlimit(40)]
pub fn bdfg_prove_chopin(
    pp: &ChopinProverParam,
    t: &mut IOPTranscript,
    f_zr: &[Scalar],
    f_alpha: &[Scalar],
    s: &[Scalar],
    alpha: Scalar,
    beta: Scalar,
    beta_inv: Scalar,
    v: &ChopinValues,
) -> (r: Result<ChopinBatch, PCSError>)
    requires
        pp.sufficient(),
        f_zr@.len() == pp.ml(),
        f_alpha@.len() == pp.mr(),
        s@.len() == pp.ml() - 1,
        usable_beta(alpha@)(beta@),
        beta_inv@ == finv(beta@),
        is_inverse(beta@, beta_inv@),
        v.a@ == feval(vals(f_zr@), alpha@),
        v.a1@ == feval(vals(f_zr@), beta@),
        v.a2@ == feval(vals(f_zr@), beta_inv@),
        v.b1@ == feval(vals(f_alpha@), beta@),
        v.b2@ == feval(vals(f_alpha@), beta_inv@),
        v.s1@ == feval(vals(s@), beta@),
        v.s2@ == feval(vals(s@), beta_inv@),
    ensures
        match r {
            Ok(b) => {
                let c = batch_challenges(alpha@, 0, beta@, b.rho@, b.z@);
                let cs = claims_of(vals(f_zr@), vals(f_alpha@), vals(s@), v.model(), c);
                let tb = tau_bases(pp.key(), pp.ml(), pp.mr());
                let w = batch_quotient(cs, b.rho@);
                let wp = batch_opening(cs, b.rho@, b.z@);
                &&& points_ok(c)
                &&& b.w@ == dot(tb, w, w.len() as int)
                &&& b.w_prime@ == dot(tb, wp, wp.len() as int)
                &&& exists|after_rho: Seq<Entry>, after_z: Seq<Entry>| #[trigger]
                    is_batch(old(t)@, final(t)@, alpha@, beta@, b, after_rho, after_z)
            },
            Err(e) => e is InvalidParameters && (drawn(
                old(t)@,
                final(t)@,
                "rho"@,
                nonzero(),
                None,
            ) || exists|after_rho: Seq<Entry>, rho: int| #[trigger]
                is_batch_stop(
                    old(t)@,
                    final(t)@,
                    alpha@,
                    beta@,
                    after_rho,
                    rho,
                    honest_w(pp, vals(f_zr@), vals(f_alpha@), vals(s@), v, alpha@, beta@, rho),
                )),
        },
{
    let ghost fz = vals(f_zr@);
    let ghost fa = vals(f_alpha@);
    let ghost sv = vals(s@);
    let ghost bi = beta_inv@;
    proof {
        lemma_grid_dims(pp.num_vars as int);
        lemma_split(pp.num_vars as int);
    }
    let rho = draw_nonzero(t, "rho")?;
    let ghost after_rho = t@;
    let points0 = [alpha, beta, beta_inv];
    let points1 = [beta, beta_inv];
    let values0 = [v.a, v.a1, v.a2];
    let values1 = [v.b1, v.b2];
    let values2 = [v.s1, v.s2];
    let claims = [
        BdfgClaim { poly: f_zr, points: points0.as_slice(), values: values0.as_slice() },
        BdfgClaim { poly: f_alpha, points: points1.as_slice(), values: values1.as_slice() },
        BdfgClaim { poly: s, points: points1.as_slice(), values: values2.as_slice() },
    ];
    let ghost c0 = batch_challenges(alpha@, 0, beta@, rho@, 0);
    let ghost cs = claims_of(fz, fa, sv, v.model(), c0);
    proof {
        assert(vals(points0@) =~= seq![alpha@, beta@, bi]);
        assert(vals(points1@) =~= seq![beta@, bi]);
        assert(vals(values0@) =~= seq![v.a@, v.a1@, v.a2@]);
        assert(vals(values1@) =~= seq![v.b1@, v.b2@]);
        assert(vals(values2@) =~= seq![v.s1@, v.s2@]);
        assert(claim_views(claims@) =~= cs);
        assert(beta@ != bi);
        lemma_union(fz, fa, sv, v.model(), c0);
        lemma_lengths_fit(pp.ml(), pp.mr());
        assert forall|q: int| 0 <= q < cs.len() implies union_of(claim_sets(cs), 3).len() + (
        #[trigger] cs[q]).poly.len() + cs[q].points.len() + 4 <= usize::MAX by {
            assert(q == 0 || q == 1 || q == 2);
        }
    }
    let first = bdfg_first_round(claims.as_slice(), rho);
    proof {
        assert(cs[0].points == seq![alpha@, beta@, bi]);
        assert(cs[1].points == seq![beta@, bi]);
        assert(nodes_ok(cs[0].points) && nodes_ok(cs[1].points));
        rho.lemma_view_reduced();
        lemma_claims_divide(fz, fa, sv, v.model(), c0);
        law_batch_lengths(fz, fa, sv, v.model(), c0);
    }
    let first = first?;
    assert(vals(first.quot_m@) == batch_quotient(cs, rho@));
    assert(vals(first.quot_m@).len() == first.quot_m@.len());
    let batch_w = pp.msm_tau_slice(first.quot_m.as_slice())?;
    t.append_point("w", &batch_w);
    let drawn_z = draw_z(t, "z", alpha, beta, beta_inv);
    proof {
        if drawn_z is Err {
            let w = honest_w(pp, fz, fa, sv, v, alpha@, beta@, rho@);
            assert(batch_w@ == w);
            assert(is_batch_stop(old(t)@, t@, alpha@, beta@, after_rho, rho@, w));
        }
    }
    let z = drawn_z?;
    let ghost after_z = t@;
    let ghost c = batch_challenges(alpha@, 0, beta@, rho@, z@);
    proof {
        assert(cs == claims_of(fz, fa, sv, v.model(), c));
        lemma_claims_divide(fz, fa, sv, v.model(), c);
        law_batch_lengths(fz, fa, sv, v.model(), c);
        assert(vals(first.union@).len() == first.union@.len());
        assert(poly_views(first.interpolants@) =~= interpolants_of(cs)) by {
            assert forall|q: int| 0 <= q < cs.len() implies poly_views(first.interpolants@)[q]
                == interpolants_of(cs)[q] by {
                assert(vals(first.interpolants@[q]@) == interp(cs[q].points, cs[q].values));
            }
        }
    }
    let second = bdfg_second_round(claims.as_slice(), &first, rho, z)?;
    assert(vals(second.quot_l@) == batch_opening(cs, rho@, z@));
    assert(vals(second.quot_l@).len() == second.quot_l@.len());
    let batch_w_prime = pp.msm_tau_slice(second.quot_l.as_slice())?;
    t.append_point("wp", &batch_w_prime);
    let b = ChopinBatch { w: batch_w, w_prime: batch_w_prime, rho, z };
    assert(is_batch(old(t)@, t@, alpha@, beta@, b, after_rho, after_z));
    Ok(b)
}

proof fn lemma_lengths_fit(ml: int, mr: int)
    requires
        2 <= ml,
        2 <= mr,
        ml * mr <= usize::MAX,
    ensures
        ml + 20 <= usize::MAX,
        mr + 20 <= usize::MAX,
        2 * ml <= usize::MAX,
        2 * mr <= usize::MAX,
{
    assert(2 * ml <= ml * mr && 2 * mr <= ml * mr) by (nonlinear_arith)
        requires
            2 <= ml,
            2 <= mr,
    ;
}

/// Appends the statement to a transcript.
pub fn append_statement(
    t: &mut IOPTranscript,
    mu: usize,
    m_left: usize,
    m_right: usize,
    cm_f: &G1,
    point: &[Scalar],
    value: &Scalar,
)
    requires
        point@.len() == mu,
        vector_fits(point@.len() as int),
        (m_left as int, m_right as int) == split(mu as int),
    ensures
        final(t)@ == stated(old(t)@, cm_f@, vals(point@), value@),
{
    t.append_field_element("ver", &Scalar::from_u64(1));
    t.append_field_element("mu", &Scalar::from_u64(mu as u64));
    t.append_field_element("ml", &Scalar::from_u64(m_left as u64));
    t.append_field_element("mr", &Scalar::from_u64(m_right as u64));
    t.append_point("cf", cm_f);
    t.append_field_elements("pt", point);
    t.append_field_element("eta", value);
}

/// Whether the prover's parameters, the polynomial and the point fit together.
pub open spec fn opening_ok(pp: &ChopinProverParam, poly: &Mle, point: Seq<Scalar>) -> bool {
    &&& mu_ok(poly.num_vars as int)
    &&& poly.num_vars <= pp.num_vars
    &&& point.len() == poly.num_vars
    &&& pp.g1_powers@.len() >= pow2(pp.num_vars as nat)
}

/// The table of a polynomial in the dimensions of a key.
pub open spec fn key_table(pp: &ChopinProverParam, poly: &Mle) -> Seq<int> {
    padded(poly.table(), pow2(pp.num_vars as nat))
}

/// A point in the dimensions of a key.
pub open spec fn key_point(pp: &ChopinProverParam, point: Seq<Scalar>) -> Seq<int> {
    padded(vals(point), pp.num_vars as nat)
}

/// Opens a table of the dimensions of the key, after the statement was
/// appended to the transcript. The challenges come from the transcript; what
/// the proof holds for them is what an honest prover sends.
#[verifier::rlimit(60)]
pub fn chopin_core_open(
    pp: &ChopinProverParam,
    evals: &[Scalar],
    point: &[Scalar],
    t: &mut IOPTranscript,
) -> (r: Result<ChopinProof, PCSError>)
    requires
        pp.dims(),
        point@.len() == pp.num_vars,
    ensures
        !(evals@.len() == pow2(pp.num_vars as nat) && pp.sufficient()) ==> final(t)@ == old(t)@
            && (r matches Err(e) && e is InvalidParameters),
        evals@.len() == pow2(pp.num_vars as nat) && pp.sufficient() ==> match r {
            Ok(proof) => proof.mu == pp.num_vars && honest_opening(
                old(t)@,
                final(t)@,
                pp.key(),
                vals(evals@),
                vals(point@),
                proof.model(),
            ),
            Err(e) => e is InvalidParameters && exists|c: ChopinChallenges, h: ChopinRun| #[trigger]
                is_honest_stop(
                    old(t)@,
                    final(t)@,
                    pp.key(),
                    vals(evals@),
                    vals(point@),
                    c,
                    h,
                ),
        },
{
    let mu: usize = pp.num_vars;
    let (m_left, m_right) = split_exponents(mu);
    proof {
        lemma_grid_dims(mu as int);
        lemma_split(mu as int);
        lemma_lengths_fit(pp.ml(), pp.mr());
    }
    let big_ml: usize = pp.big_ml();
    let big_mr: usize = pp.big_mr();
    let n: usize = big_ml * big_mr;
    if evals.len() != n {
        return Err(invalid_parameters("wrong number of evaluations"));
    }
    if pp.g1_powers.len() < n {
        return Err(invalid_parameters("SRS G1 length insufficient"));
    }
    let z_l = vstd::slice::slice_subrange(point, 0, m_left);
    let z_r = vstd::slice::slice_subrange(point, m_left, mu);
    let ghost u = vals(point@);
    let ghost ul = vals(z_l@);
    let ghost ur = vals(z_r@);
    let ghost f = vals(evals@);
    let ghost key = pp.key();
    let ghost ml = big_ml as int;
    let ghost mr = big_mr as int;
    let ghost start = t@;
    assert(ul =~= left_part(u));
    assert(ur =~= right_part(u));
    let psi_r = build_eq_vec(z_r, big_mr);
    assert(vals(psi_r@) =~= eq_vec(ur, m_right as int));
    let f_zr = compute_restriction(evals, psi_r.as_slice(), big_ml, big_mr);
    let ghost fz = vals(f_zr@);
    assert(fz == right_restriction(f, ul, ur));
    let comm_f_zr = pp.msm_tau_slice(f_zr.as_slice())?;
    t.append_point("c0", &comm_f_zr);
    let alpha = t.get_and_append_challenge("alpha");
    let (q1, f_alpha) = divide_x_at_alpha(evals, big_ml, big_mr, alpha);
    let ghost fa = vals(f_alpha@);
    assert(fa == alpha_restriction(f, ul, ur, alpha@));
    let pi_biv_x = pp.msm_q1_prefix(q1.as_slice())?;
    let comm_f_alpha = pp.msm_tau_slice(f_alpha.as_slice())?;
    let a = poly_eval(f_zr.as_slice(), alpha);
    t.append_point("c1", &comm_f_alpha);
    t.append_field_element("a", &a);
    let drawn_gamma = draw_nonzero(t, "gamma");
    proof {
        if drawn_gamma is Err {
            let c = batch_challenges(alpha@, 0, 0, 0, 0);
            let h = ChopinRun { after_gamma: t@, after_beta: t@, after_rho: t@, after_z: t@ };
            assert(is_honest_stop(start, t@, key, f, u, c, h));
        }
    }
    let gamma = drawn_gamma?;
    let ghost after_gamma = t@;
    let mut s_coeffs = symmetric_lagrange_witness(f_zr.as_slice(), z_l, m_left);
    let s1_coeffs = symmetric_lagrange_witness(f_alpha.as_slice(), z_r, m_right);
    add_scaled(&mut s_coeffs, s1_coeffs.as_slice(), gamma);
    let ghost sv = vals(s_coeffs@);
    assert(sv == s_poly(fz, fa, ul, ur, gamma@));
    assert(sv.len() == ml - 1);
    assert(s_coeffs@.len() == ml - 1);
    let comm_s = pp.msm_tau_slice(s_coeffs.as_slice())?;
    t.append_point("cs", &comm_s);
    let drawn_beta = draw_beta(t, "beta", alpha);
    proof {
        if drawn_beta is Err {
            let c = batch_challenges(alpha@, gamma@, 0, 0, 0);
            let h = ChopinRun { after_gamma, after_beta: t@, after_rho: t@, after_z: t@ };
            assert(is_honest_stop(start, t@, key, f, u, c, h));
        }
    }
    let (beta, beta_inv) = drawn_beta?;
    let ghost after_beta = t@;
    let a1 = poly_eval(f_zr.as_slice(), beta);
    let a2 = poly_eval(f_zr.as_slice(), beta_inv);
    let b1 = poly_eval(f_alpha.as_slice(), beta);
    let b2 = poly_eval(f_alpha.as_slice(), beta_inv);
    let s1 = poly_eval(s_coeffs.as_slice(), beta);
    let s2 = poly_eval(s_coeffs.as_slice(), beta_inv);
    let (q2, q2_rem) = divide_y_at_beta(f_alpha.as_slice(), beta)?;
    let pi_biv_y = pp.msm_sigma_slice(q2.as_slice())?;
    t.append_field_element("a1", &a1);
    t.append_field_element("a2", &a2);
    t.append_field_element("b1", &b1);
    t.append_field_element("b2", &b2);
    t.append_field_element("s1", &s1);
    t.append_field_element("s2", &s2);
    t.append_point("px", &pi_biv_x);
    t.append_point("py", &pi_biv_y);
    let ghost mid = t@;
    let values = ChopinValues { a, a1, a2, b1, b2, s1, s2 };
    let batch = bdfg_prove_chopin(
        pp,
        t,
        f_zr.as_slice(),
        f_alpha.as_slice(),
        s_coeffs.as_slice(),
        alpha,
        beta,
        beta_inv,
        &values,
    );
    proof {
        if batch is Err {
            let c0 = batch_challenges(alpha@, gamma@, beta@, 0, 0);
            let hv = honest_values(key, f, ul, ur, c0);
            if drawn(mid, t@, "rho"@, nonzero(), None) {
                let h = ChopinRun { after_gamma, after_beta, after_rho: t@, after_z: t@ };
                let p = honest_proof(key, f, ul, ur, c0);
                assert(mid == with_values(after_beta, p));
                assert(is_opening_run(start, p, c0, h));
                assert(is_honest_stop(start, t@, key, f, u, c0, h));
            } else {
                let (after_rho, rho) = choose|after_rho: Seq<Entry>, rho: int| #[trigger]
                    is_batch_stop(
                        mid,
                        t@,
                        alpha@,
                        beta@,
                        after_rho,
                        rho,
                        honest_w(pp, fz, fa, sv, &values, alpha@, beta@, rho),
                    );
                let w = honest_w(pp, fz, fa, sv, &values, alpha@, beta@, rho);
                assert(is_batch_stop(mid, t@, alpha@, beta@, after_rho, rho, w));
                let c = batch_challenges(alpha@, gamma@, beta@, rho, 0);
                let h = ChopinRun { after_gamma, after_beta, after_rho, after_z: t@ };
                let p = honest_proof(key, f, ul, ur, c);
                assert(claims_of(
                    fz,
                    fa,
                    sv,
                    values.model(),
                    batch_challenges(alpha@, 0, beta@, rho, 0),
                ) == claims_of(fz, fa, sv, honest_values(key, f, ul, ur, c), c));
                assert(p.batch_w == w);
                assert(mid == with_values(after_beta, p));
                assert(is_opening_run(start, p, c, h));
                assert(is_honest_stop(start, t@, key, f, u, c, h));
            }
        }
    }
    let batch = batch?;
    let proof = ChopinProof {
        comm_f_zr,
        comm_f_alpha,
        comm_s,
        pi_biv_x,
        pi_biv_y,
        batch_w: batch.w,
        batch_w_prime: batch.w_prime,
        a,
        a1,
        a2,
        b1,
        b2,
        s1,
        s2,
        mu: mu as u32,
    };
    proof {
        let (after_rho, after_z) = choose|after_rho: Seq<Entry>, after_z: Seq<Entry>| #[trigger]
            is_batch(mid, t@, alpha@, beta@, batch, after_rho, after_z);
        assert(is_batch(mid, t@, alpha@, beta@, batch, after_rho, after_z));
        let c = batch_challenges(alpha@, gamma@, beta@, batch.rho@, batch.z@);
        let c0 = batch_challenges(alpha@, 0, beta@, batch.rho@, batch.z@);
        let h = ChopinRun { after_gamma, after_beta, after_rho, after_z };
        let p = proof.model();
        let hv = honest_values(key, f, ul, ur, c);
        assert(claims_of(fz, fa, sv, values.model(), c0) == claims_of(fz, fa, sv, hv, c));
        assert(p == honest_proof(key, f, ul, ur, c));
        assert(mid == with_values(after_beta, p));
        assert(is_opening_run(start, p, c, h));
        assert(is_batch_run(p, c, h));
        batch.rho.lemma_view_reduced();
        assert(is_honest_run(start, key, f, u, p, c, h));
        assert(honest_opening(start, t@, key, f, u, p));
    }
    Ok(proof)
}

/// The views of a verifier's key.
pub open spec fn key_model(vp: &ChopinVerifierParam) -> ChopinKey {
    ChopinKey {
        g1_one: vp.g1_one@,
        g2_one: vp.g2_one@,
        g2_tau: vp.g2_tau@,
        g2_sigma: vp.g2_sigma@,
    }
}

/// Checks the field identity of the two inner products.
pub fn check_identity(
    z_l: &[Scalar],
    z_r: &[Scalar],
    value: &Scalar,
    proof: &ChopinProof,
    gamma: Scalar,
    beta: Scalar,
    beta_inv: Scalar,
) -> (r: bool)
    requires
        beta_inv@ == finv(beta@),
    ensures
        r == identity_holds(
            vals(z_l@),
            vals(z_r@),
            value@,
            proof.model(),
            batch_challenges(0, gamma@, beta@, 0, 0),
        ),
{
    let psi_l_beta = eval_tensor(z_l, beta);
    let psi_l_beta_inv = eval_tensor(z_l, beta_inv);
    let psi_r_beta = eval_tensor(z_r, beta);
    let psi_r_beta_inv = eval_tensor(z_r, beta_inv);
    let lhs = proof.a1.mul(psi_l_beta_inv).add(proof.a2.mul(psi_l_beta)).add(
        gamma.mul(proof.b1.mul(psi_r_beta_inv).add(proof.b2.mul(psi_r_beta))),
    );
    let rhs = value.add(gamma.mul(proof.a)).double().add(beta.mul(proof.s1)).add(
        beta_inv.mul(proof.s2),
    );
    lhs.equals(&rhs)
}

/// Checks the bivariate opening.
pub fn check_bivariate(
    vp: &ChopinVerifierParam,
    com: &G1,
    proof: &ChopinProof,
    alpha: Scalar,
    beta: Scalar,
) -> (r: bool)
    ensures
        r == bivariate_holds(key_model(vp), com@, proof.model(), alpha@, beta@),
{
    let tau_minus_alpha = vp.g2_tau.add(&vp.g2_one.mul(&alpha.neg()));
    let sigma_minus_beta = vp.g2_sigma.add(&vp.g2_one.mul(&beta.neg()));
    let cf_minus_b1 = com.add(&vp.g1_one.mul(&proof.b1.neg()));
    let left = [cf_minus_b1, proof.pi_biv_x.neg(), proof.pi_biv_y.neg()];
    let right = [vp.g2_one, tau_minus_alpha, sigma_minus_beta];
    proof {
        assert(logs(left@) =~= seq![
            cf_minus_b1@,
            fneg(proof.pi_biv_x@),
            fneg(proof.pi_biv_y@),
        ]);
        assert(logs2(right@) =~= seq![vp.g2_one@, tau_minus_alpha@, sigma_minus_beta@]);
    }
    pairing_check(left.as_slice(), right.as_slice())
}

/// The scalars of the batch check.
fn bdfg_chopin_verify_lhs(
    proof: &ChopinProof,
    alpha: Scalar,
    beta: Scalar,
    beta_inv: Scalar,
    rho: Scalar,
    z: Scalar,
) -> (r: Result<BdfgVerifierCombination, PCSError>)
    requires
        usable_beta(alpha@)(beta@),
        beta_inv@ == finv(beta@),
        is_inverse(beta@, beta_inv@),
    ensures
        ({
            let c = batch_challenges(alpha@, 0, beta@, rho@, z@);
            let e = Seq::<int>::empty();
            let claims = claims_of(e, e, e, proof.model(), c);
            let sets = claim_sets(claims);
            let u = union_of(sets, 3);
            r matches Ok(k) && {
                &&& k.commit_scalars@.len() == 3
                &&& k.commit_scalars@[0]@ == commit_scalar(sets, u, rho@, z@, 0)
                &&& k.commit_scalars@[1]@ == commit_scalar(sets, u, rho@, z@, 1)
                &&& k.commit_scalars@[2]@ == commit_scalar(sets, u, rho@, z@, 2)
                &&& k.const_scalar@ == const_term(
                    sets,
                    claim_values(claims),
                    u,
                    rho@,
                    z@,
                    3,
                )
                &&& k.z_t_z@ == feval(p_vanishing(u, u.len() as int), z@)
                &&& nodes_ok(seq![alpha@, beta@, beta_inv@])
                &&& nodes_ok(seq![beta@, beta_inv@])
            }
        }),
{
    let points0 = [alpha, beta, beta_inv];
    let points1 = [beta, beta_inv];
    let values0 = [proof.a, proof.a1, proof.a2];
    let values1 = [proof.b1, proof.b2];
    let values2 = [proof.s1, proof.s2];
    let point_sets = [points0.as_slice(), points1.as_slice(), points1.as_slice()];
    let value_sets = [values0.as_slice(), values1.as_slice(), values2.as_slice()];
    proof {
        let c = batch_challenges(alpha@, 0, beta@, rho@, z@);
        let e = Seq::<int>::empty();
        let claims = claims_of(e, e, e, proof.model(), c);
        let sets = claim_sets(claims);
        let bi = beta_inv@;
        assert(vals(points0@) =~= seq![alpha@, beta@, bi]);
        assert(vals(points1@) =~= seq![beta@, bi]);
        assert(vals(values0@) =~= seq![proof.a@, proof.a1@, proof.a2@]);
        assert(vals(values1@) =~= seq![proof.b1@, proof.b2@]);
        assert(vals(values2@) =~= seq![proof.s1@, proof.s2@]);
        assert(set_views(point_sets@) =~= sets);
        assert(set_views(value_sets@) =~= claim_values(claims));
        lemma_union(e, e, e, proof.model(), c);
        assert forall|q: int| 0 <= q < point_sets@.len() implies (#[trigger] point_sets@[q])@.len()
            < usize::MAX - 1 by {
            assert(q == 0 || q == 1 || q == 2);
        }
        assert forall|q: int| 0 <= q < sets.len() implies (#[trigger] sets[q]).len()
            == claim_values(claims)[q].len() && sets[q].len() > 0 by {
            assert(q == 0 || q == 1 || q == 2);
        }
    }
    let r = bdfg_verifier_combination(point_sets.as_slice(), value_sets.as_slice(), rho, z);
    proof {
        let sets = set_views(point_sets@);
        assert(nodes_ok(sets[0]) && nodes_ok(sets[1]));
        assert(sets[0] =~= seq![alpha@, beta@, beta_inv@]);
        assert(sets[1] =~= seq![beta@, beta_inv@]);
    }
    r
}

/// Checks the batch opening.
pub fn check_batch(
    vp: &ChopinVerifierParam,
    proof: &ChopinProof,
    alpha: Scalar,
    beta: Scalar,
    beta_inv: Scalar,
    rho: Scalar,
    z: Scalar,
) -> (r: Result<bool, PCSError>)
    requires
        usable_beta(alpha@)(beta@),
        beta_inv@ == finv(beta@),
        is_inverse(beta@, beta_inv@),
    ensures
        r == Ok::<bool, PCSError>(
            batch_holds(
                key_model(vp),
                proof.model(),
                batch_challenges(alpha@, 0, beta@, rho@, z@),
            ),
        ),
        nodes_ok(seq![alpha@, beta@, beta_inv@]),
        nodes_ok(seq![beta@, beta_inv@]),
{
    let comb = bdfg_chopin_verify_lhs(proof, alpha, beta, beta_inv, rho, z)?;
    let bases = [
        proof.comm_f_zr,
        proof.comm_f_alpha,
        proof.comm_s,
        vp.g1_one,
        proof.batch_w,
        proof.batch_w_prime,
    ];
    let scalars = [
        comb.commit_scalars[0],
        comb.commit_scalars[1],
        comb.commit_scalars[2],
        comb.const_scalar.neg(),
        comb.z_t_z.neg(),
        z,
    ];
    let combined = G1::msm(bases.as_slice(), scalars.as_slice());
    let left = [combined, proof.batch_w_prime.neg()];
    let right = [vp.g2_one, vp.g2_tau];
    proof {
        assert(logs(bases@) =~= seq![
            proof.comm_f_zr@,
            proof.comm_f_alpha@,
            proof.comm_s@,
            vp.g1_one@,
            proof.batch_w@,
            proof.batch_w_prime@,
        ]);
        assert(vals(scalars@) =~= seq![
            comb.commit_scalars@[0]@,
            comb.commit_scalars@[1]@,
            comb.commit_scalars@[2]@,
            fneg(comb.const_scalar@),
            fneg(comb.z_t_z@),
            z@,
        ]);
        assert(logs(left@) =~= seq![combined@, fneg(proof.batch_w_prime@)]);
        assert(logs2(right@) =~= seq![vp.g2_one@, vp.g2_tau@]);
    }
    Ok(pairing_check(left.as_slice(), right.as_slice()))
}

/// Whether a proof and a point are such that a verifier looks at them.
pub open spec fn verification_ok(
    vp: &ChopinVerifierParam,
    point: Seq<Scalar>,
    proof: &ChopinProof,
) -> bool {
    &&& mu_ok(proof.mu as int)
    &&& proof.mu <= vp.max_num_vars
    &&& point.len() <= proof.mu
}

/// Whether a verification from the history `start` ends in `end` because the
/// draws of one of its challenges were exhausted. The batch opening is looked at
/// only where the two checks before it hold.
pub open spec fn verifier_stopped(
    start: Seq<Entry>,
    end: Seq<Entry>,
    vp: &ChopinVerifierParam,
    com: int,
    u: Seq<int>,
    value: int,
    proof: &ChopinProof,
    c: ChopinChallenges,
    h: ChopinRun,
) -> bool {
    let p = proof.model();
    let looked = opening_holds(
        key_model(vp),
        com,
        left_part(u),
        right_part(u),
        value,
        p,
        c,
    );
    is_stopped_run(start, end, p, c, h, looked)
}

/// Whether `r` is the result of a verification that leads from the history
/// `log` to the history `end`: the verdict for the run's challenges, or an
/// error where the draws of a challenge were exhausted.
pub open spec fn verified(
    log: Seq<Entry>,
    end: Seq<Entry>,
    vp: &ChopinVerifierParam,
    com: int,
    point: Seq<Scalar>,
    value: int,
    proof: &ChopinProof,
    r: Result<bool, PCSError>,
) -> bool {
    let u = padded(vals(point), proof.mu as nat);
    match r {
        Ok(ok) => verdict(
            stated(log, com, u, value),
            end,
            key_model(vp),
            com,
            u,
            value,
            proof.model(),
            ok,
        ),
        Err(e) => e is InvalidParameters && exists|c: ChopinChallenges, h: ChopinRun| #[trigger]
            verifier_stopped(stated(log, com, u, value), end, vp, com, u, value, proof, c, h),
    }
}

/// Verifies a proof, in a transcript of its own that is fresh. A point with
/// fewer coordinates than the proof's number of variables stands for the one
/// with zeros at its end.
#[verifier::rlimit(60)]
pub fn chopin_core_verify(
    vp: &ChopinVerifierParam,
    com: &G1,
    point: &[Scalar],
    value: &Scalar,
    proof: &ChopinProof,
    t: &mut IOPTranscript,
) -> (r: Result<bool, PCSError>)
    ensures
        !verification_ok(vp, point@, proof) ==> final(t)@ == old(t)@ && (r matches Err(e) && e
            is InvalidProof),
        verification_ok(vp, point@, proof) ==> verified(
            old(t)@,
            final(t)@,
            vp,
            com@,
            point@,
            value@,
            proof,
            r,
        ),
{
    let mu: usize = proof.mu as usize;
    check_mu_verify(mu)?;
    if mu > vp.max_num_vars {
        return Err(invalid_proof("proof.mu exceeds verifier key capacity"));
    }
    let (m_left, m_right) = split_exponents(mu);
    if point.len() > mu {
        return Err(invalid_proof("point length exceeds proof.mu"));
    }
    proof {
        lemma_split(mu as int);
    }
    let full = pad_scalars(point, mu);
    let z_l = vstd::slice::slice_subrange(full.as_slice(), 0, m_left);
    let z_r = vstd::slice::slice_subrange(full.as_slice(), m_left, mu);
    let ghost u = vals(full@);
    let ghost ul = left_part(u);
    let ghost ur = right_part(u);
    let ghost p = proof.model();
    let ghost vk = key_model(vp);
    assert(vals(z_l@) =~= ul);
    assert(vals(z_r@) =~= ur);
    append_statement(t, mu, m_left, m_right, com, full.as_slice(), value);
    let ghost start = t@;
    t.append_point("c0", &proof.comm_f_zr);
    let alpha = t.get_and_append_challenge("alpha");
    t.append_point("c1", &proof.comm_f_alpha);
    t.append_field_element("a", &proof.a);
    let drawn_gamma = draw_nonzero(t, "gamma");
    proof {
        if drawn_gamma is Err {
            let c = batch_challenges(alpha@, 0, 0, 0, 0);
            let h = ChopinRun { after_gamma: t@, after_beta: t@, after_rho: t@, after_z: t@ };
            assert(verifier_stopped(start, t@, vp, com@, u, value@, proof, c, h));
        }
    }
    let gamma = drawn_gamma?;
    let ghost after_gamma = t@;
    t.append_point("cs", &proof.comm_s);
    let drawn_beta = draw_beta(t, "beta", alpha);
    proof {
        if drawn_beta is Err {
            let c = batch_challenges(alpha@, gamma@, 0, 0, 0);
            let h = ChopinRun { after_gamma, after_beta: t@, after_rho: t@, after_z: t@ };
            assert(verifier_stopped(start, t@, vp, com@, u, value@, proof, c, h));
        }
    }
    let (beta, beta_inv) = drawn_beta?;
    let ghost after_beta = t@;
    t.append_field_element("a1", &proof.a1);
    t.append_field_element("a2", &proof.a2);
    t.append_field_element("b1", &proof.b1);
    t.append_field_element("b2", &proof.b2);
    t.append_field_element("s1", &proof.s1);
    t.append_field_element("s2", &proof.s2);
    t.append_point("px", &proof.pi_biv_x);
    t.append_point("py", &proof.pi_biv_y);
    let ghost mid = t@;
    assert(mid == with_values(after_beta, p));
    let ok_identity = check_identity(z_l, z_r, value, proof, gamma, beta, beta_inv);
    let ghost c0 = batch_challenges(alpha@, gamma@, beta@, 0, 0);
    let ghost h0 = ChopinRun { after_gamma, after_beta, after_rho: mid, after_z: mid };
    assert(ok_identity == identity_holds(ul, ur, value@, p, c0));
    if !ok_identity {
        assert(is_verdict(start, t@, vk, com@, u, value@, p, false, c0, h0));
        return Ok(false);
    }
    let ok_biv = check_bivariate(vp, com, proof, alpha, beta);
    if !ok_biv {
        assert(is_verdict(start, t@, vk, com@, u, value@, p, false, c0, h0));
        return Ok(false);
    }
    assert(opening_holds(vk, com@, ul, ur, value@, p, c0));
    let drawn_rho = draw_nonzero(t, "rho");
    proof {
        if drawn_rho is Err {
            let h = ChopinRun { after_gamma, after_beta, after_rho: t@, after_z: t@ };
            assert(is_opening_run(start, p, c0, h));
            assert(verifier_stopped(start, t@, vp, com@, u, value@, proof, c0, h));
        }
    }
    let rho = drawn_rho?;
    let ghost after_rho = t@;
    t.append_point("w", &proof.batch_w);
    let drawn_z = draw_z(t, "z", alpha, beta, beta_inv);
    proof {
        if drawn_z is Err {
            let c = batch_challenges(alpha@, gamma@, beta@, rho@, 0);
            let h = ChopinRun { after_gamma, after_beta, after_rho, after_z: t@ };
            assert(opening_holds(vk, com@, ul, ur, value@, p, c));
            assert(is_opening_run(start, p, c, h));
            assert(verifier_stopped(start, t@, vp, com@, u, value@, proof, c, h));
        }
    }
    let z = drawn_z?;
    let ghost after_z = t@;
    t.append_point("wp", &proof.batch_w_prime);
    let ok = check_batch(vp, proof, alpha, beta, beta_inv, rho, z)?;
    proof {
        let c = batch_challenges(alpha@, gamma@, beta@, rho@, z@);
        let h = ChopinRun { after_gamma, after_beta, after_rho, after_z };
        assert(identity_holds(ul, ur, value@, p, c));
        assert(batch_holds(vk, p, batch_challenges(alpha@, 0, beta@, rho@, z@)) == batch_holds(
            vk,
            p,
            c,
        ));
        assert(beta@ != beta_inv@);
        assert(points_apart(c));
        assert(is_verdict(start, t@, vk, com@, u, value@, p, ok, c, h));
    }
    Ok(ok)
}

/// Whether `r` is the result of an opening that leads from the history `log` to
/// the history `end`: the value with the honest proof for the run's challenges,
/// or an error where the draws of a challenge were exhausted.
pub open spec fn opened(
    log: Seq<Entry>,
    end: Seq<Entry>,
    pp: &ChopinProverParam,
    poly: &Mle,
    point: Seq<Scalar>,
    com: int,
    r: Result<(ChopinProof, Scalar), PCSError>,
) -> bool {
    match r {
        Ok((proof, value)) => {
            &&& value@ == mle_eval(poly.table(), vals(point))
            &&& proof.mu == pp.num_vars
            &&& honest_opening(
                stated(log, com, key_point(pp, point), value@),
                end,
                pp.key(),
                key_table(pp, poly),
                key_point(pp, point),
                proof.model(),
            )
        },
        Err(e) => e is InvalidParameters && exists|c: ChopinChallenges, h: ChopinRun| #[trigger]
            is_honest_stop(
                stated(log, com, key_point(pp, point), mle_eval(poly.table(), vals(point))),
                end,
                pp.key(),
                key_table(pp, poly),
                key_point(pp, point),
                c,
                h,
            ),
    }
}

/// The history of a fresh transcript of the scheme.
pub open spec fn fresh_log() -> Seq<Entry> {
    seq![Entry::Domain("chopin-mlpcs-v1"@)]
}

/// The commitment to a polynomial: its table in the order of the key.
pub open spec fn table_commitment(pp: &ChopinProverParam, poly: &Mle) -> int {
    dot(
        pp.key(),
        layout(key_table(pp, poly), pp.ml(), pp.mr()),
        pow2(pp.num_vars as nat) as int,
    )
}

/// Whether a result is that of an opening in a fresh transcript: its course is
/// determined by the statement and what the prover sends.
pub open spec fn is_opening(
    pp: &ChopinProverParam,
    poly: &Mle,
    point: Seq<Scalar>,
    com: int,
    r: Result<(ChopinProof, Scalar), PCSError>,
) -> bool {
    exists|end: Seq<Entry>|
        is_course(end) && #[trigger] opened(fresh_log(), end, pp, poly, point, com, r)
}

/// Whether a result is that of a verification in a fresh transcript: its course
/// is determined by the statement and the proof.
pub open spec fn is_verification(
    vp: &ChopinVerifierParam,
    com: int,
    point: Seq<Scalar>,
    value: int,
    proof: &ChopinProof,
    r: Result<bool, PCSError>,
) -> bool {
    exists|end: Seq<Entry>|
        is_course(end) && #[trigger] verified(fresh_log(), end, vp, com, point, value, proof, r)
}

/// The commitment scheme.
pub struct ChopinPCS {}

impl ChopinPCS {
    /// Parameters for up to `nv` variables from two trapdoors, nonzero and
    /// distinct, and a point of each group. For testing only.
    pub fn gen_srs_for_testing(tau: Scalar, sigma: Scalar, g1: G1, g2: G2, nv: usize) -> (r: Result<
        ChopinUniversalParams,
        PCSError,
    >)
        requires
            tau@ != 0,
            sigma@ != 0,
            sigma@ != tau@,
        ensures
            r is Ok <==> mu_ok(nv as int),
            r matches Err(e) ==> e is InvalidParameters,
            r matches Ok(srs) ==> {
                &&& srs.wf()
                &&& srs.max_num_vars == nv
                &&& is_grid_key(
                    srs.key(),
                    pow2(srs.m_left as nat) as int,
                    pow2(srs.m_right as nat) as int,
                    g1@,
                    tau@,
                    sigma@,
                )
                &&& srs.g2_one@ == g2@
                &&& srs.g2_tau@ == fmul(g2@, tau@)
                &&& srs.g2_sigma@ == fmul(g2@, sigma@)
            },
    {
        ChopinUniversalParams::gen_srs_for_testing(tau, sigma, g1, g2, nv)
    }

    /// Prover and verifier parameters for a number of variables, which has to
    /// be given.
    pub fn trim(srs: &ChopinUniversalParams, supported_num_vars: Option<usize>) -> (r: Result<
        (ChopinProverParam, ChopinVerifierParam),
        PCSError,
    >)
        requires
            srs.wf(),
        ensures
            r is Ok <==> (supported_num_vars matches Some(nv) && 2 <= nv <= srs.max_num_vars),
            r matches Err(e) ==> e is InvalidParameters,
            r matches Ok((pp, vp)) ==> {
                &&& pp.wf()
                &&& supported_num_vars == Some(pp.num_vars)
                &&& pp.key() == srs.trimmed_key(pp.num_vars as int)
                &&& vp.g1_one@ == pp.key()[0]
                &&& vp.g2_one == srs.g2_one
                &&& vp.g2_tau == srs.g2_tau
                &&& vp.g2_sigma == srs.g2_sigma
                &&& vp.max_num_vars == pp.num_vars
                &&& vp.m_left == pp.m_left
                &&& vp.m_right == pp.m_right
            },
    {
        match supported_num_vars {
            None => Err(invalid_parameters("need num_var")),
            Some(nv) => srs.trim(nv),
        }
    }

    /// Commits to a polynomial, which may have fewer variables than the key.
    pub fn commit(pp: &ChopinProverParam, poly: &Mle) -> (r: Result<G1, PCSError>)
        requires
            pp.dims(),
            poly.wf(),
        ensures
            r is Ok <==> mu_ok(poly.num_vars as int) && poly.num_vars <= pp.num_vars
                && pp.sufficient(),
            r matches Err(e) ==> e is InvalidParameters,
            r matches Ok(c) ==> c@ == table_commitment(pp, poly),
    {
        check_mu(poly.num_vars)?;
        if pp.num_vars < poly.num_vars {
            return Err(invalid_parameters("prover param for fewer vars than poly"));
        }
        let n: usize = pp.n();
        proof {
            lemma_pow2_mono(poly.num_vars as int, pp.num_vars as int);
        }
        let evals = pad_scalars(poly.evaluations.as_slice(), n);
        pp.msm_full_reordered(evals.as_slice())
    }

    /// Opens a polynomial at a point with a commitment that was made before.
    #[verifier::rlimit(40)]
    pub fn open_with_commitment(
        pp: &ChopinProverParam,
        poly: &Mle,
        point: &[Scalar],
        commitment: &G1,
    ) -> (r: Result<(ChopinProof, Scalar), PCSError>)
        requires
            pp.dims(),
            poly.wf(),
        ensures
            !opening_ok(pp, poly, point@) ==> (r matches Err(e) && e is InvalidParameters),
            opening_ok(pp, poly, point@) ==> is_opening(pp, poly, point@, commitment@, r),
    {
        let mu: usize = poly.num_vars;
        check_mu(mu)?;
        let value = match poly.evaluate(point) {
            Some(v) => v,
            None => {
                return Err(invalid_parameters("evaluation failed"));
            },
        };
        if pp.num_vars < mu {
            return Err(invalid_parameters("prover param for fewer vars than poly"));
        }
        let n: usize = pp.n();
        if pp.g1_powers.len() < n {
            return Err(invalid_parameters("SRS G1 length insufficient"));
        }
        proof {
            lemma_pow2_mono(mu as int, pp.num_vars as int);
        }
        let evals = pad_scalars(poly.evaluations.as_slice(), n);
        let full = pad_scalars(point, pp.num_vars);
        let mut t: IOPTranscript = IOPTranscript::new("chopin-mlpcs-v1");
        append_statement(
            &mut t,
            pp.num_vars,
            pp.m_left,
            pp.m_right,
            commitment,
            full.as_slice(),
            &value,
        );
        let ghost start = t@;
        let ghost f = key_table(pp, poly);
        let ghost u = key_point(pp, point@);
        assert(vals(full@) =~= u);
        assert(vals(evals@) =~= f);
        assert(start == stated(fresh_log(), commitment@, u, value@));
        let opening = chopin_core_open(pp, evals.as_slice(), full.as_slice(), &mut t);
        let ghost end = t@;
        proof {
            use_type_invariant(&t);
            t.lemma_course();
        }
        match opening {
            Ok(proof) => {
                let r: Result<(ChopinProof, Scalar), PCSError> = Ok((proof, value));
                assert(opened(fresh_log(), end, pp, poly, point@, commitment@, r));
                r
            },
            Err(e) => {
                let r: Result<(ChopinProof, Scalar), PCSError> = Err(e);
                proof {
                    let (c, h) = choose|c: ChopinChallenges, h: ChopinRun| #[trigger]
                        is_honest_stop(start, end, pp.key(), f, u, c, h);
                    assert(is_honest_stop(start, end, pp.key(), f, u, c, h));
                }
                assert(opened(fresh_log(), end, pp, poly, point@, commitment@, r));
                r
            },
        }
    }

    /// Opens a polynomial at a point.
    pub fn open(pp: &ChopinProverParam, poly: &Mle, point: &[Scalar]) -> (r: Result<
        (ChopinProof, Scalar),
        PCSError,
    >)
        requires
            pp.dims(),
            poly.wf(),
        ensures
            !opening_ok(pp, poly, point@) ==> (r matches Err(e) && e is InvalidParameters),
            opening_ok(pp, poly, point@) ==> is_opening(
                pp,
                poly,
                point@,
                table_commitment(pp, poly),
                r,
            ),
    {
        check_mu(poly.num_vars)?;
        if point.len() != poly.num_vars {
            return Err(invalid_parameters("point length differs from mu"));
        }
        let commitment = Self::commit(pp, poly)?;
        Self::open_with_commitment(pp, poly, point, &commitment)
    }

    /// Verifies a proof.
    pub fn verify(
        vp: &ChopinVerifierParam,
        com: &G1,
        point: &[Scalar],
        value: &Scalar,
        proof: &ChopinProof,
    ) -> (r: Result<bool, PCSError>)
        ensures
            !verification_ok(vp, point@, proof) ==> (r matches Err(e) && e is InvalidProof),
            verification_ok(vp, point@, proof) ==> is_verification(
                vp,
                com@,
                point@,
                value@,
                proof,
                r,
            ),
    {
        let mut t: IOPTranscript = IOPTranscript::new("chopin-mlpcs-v1");
        let r = chopin_core_verify(vp, com, point, value, proof, &mut t);
        proof {
            use_type_invariant(&t);
            t.lemma_course();
        }
        assert(verification_ok(vp, point@, proof) ==> verified(
            fresh_log(),
            t@,
            vp,
            com@,
            point@,
            value@,
            proof,
            r,
        ));
        r
    }
}

} // verus!
