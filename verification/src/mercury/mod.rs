//! Mercury: a multilinear commitment scheme over a univariate KZG key with
//! proofs of constant size.
//!
//! The table of a polynomial, read as the coefficients of its univariate twin
//! `f`, is a matrix with `b = 2^ceil(mu / 2)` columns. An opening folds `f` by
//! `X^b - alpha` into `g`, restricts it by the first half of the point into
//! `h`, proves both inner products with one witness `S`, bounds the degree of
//! `g` by its reversal `D`, and opens `g`, `h`, `S` and `D` in one batch. A
//! proof has eight points of G1 and six scalars.

pub mod batch;
pub mod fold;
pub mod laws;
pub mod model;
pub mod roundtrip;
pub mod serving;
pub mod soundness;
pub mod srs;

use crate::bdfg::{
    add_scaled, bdfg_first_round, bdfg_second_round, bdfg_verifier_combination, claim_sets,
    claim_views, commit_scalar, divide_by_linear, poly_eval, poly_views, set_views, subtract_const,
    union_of, BdfgClaim,
};
use crate::bdfg_laws::{batch_opening, batch_quotient, claim_values, interpolants_of};
use crate::dims::{
    copy_scalars, lemma_column, lemma_pow2_mono, lemma_row_major, lemma_split, pad_scalars, padded,
    pow2_usize,
};
use crate::errors::{invalid_parameters, invalid_proof, invalid_prover, PCSError};
use crate::field::{fadd, finv, fmul, fneg, fsub, is_inverse, lemma_two_invertible, vals, Scalar};
use crate::grid::{block, combine, combine_scalars};
use crate::group::{logs, logs2, pairing_check, G1, G2};
use crate::kzg::{commit_prefix, is_power_key};
use crate::laurent::{sym_witness, symmetric_witness};
use crate::mercury::fold::{
    block_dots, fold_quotient, fold_remainder, fold_tail, law_restriction_value,
    lemma_fold_tail_len, reversed,
};
use crate::mercury::laws::{
    lemma_batch_lengths, lemma_claims_divide, lemma_folding_exact, lemma_union,
};
use crate::mercury::model::{
    accepts, batch_left, claims_of, cols, committed, folding_left, folding_numerator, honest_claims,
    honest_polys, honest_proof, is_honest_run, is_honest_stop, is_verdict, left_part,
    recovered_h_alpha, recovered_values, restriction, right_part, stated, verdict, verifier_stopped,
    zeta_ok, MercuryChallenges, MercuryKey, MercuryModel, MercuryPolys, MercuryValues,
};
use crate::mercury::srs::{MercuryProverParam, MercuryUniversalParams, MercuryVerifierParam};
use crate::poly::{dot, feval, interp, lemma_dot_ext, nodes_ok};
use crate::tensor::{build_eq_vec, eq_vec, eval_tensor, inner_product, mle_eval, p2, tensor, Mle};
use crate::transcript::{is_course, vector_fits, Entry, IOPTranscript};
use vstd::prelude::*;

verus! {

/// Whether a number of variables is supported.
pub open spec fn mu_ok(mu: int) -> bool {
    1 <= mu < usize::BITS
}

/// The dimensions `(t, b, b_row, N)` of a table in `mu` variables: `b = 2^t`
/// columns for the first `t = ceil(mu / 2)` variables, and `b_row` rows.
pub fn mercury_dims(mu: usize) -> (r: Result<(usize, usize, usize, usize), PCSError>)
    ensures
        r is Ok <==> mu_ok(mu as int),
        r matches Err(e) ==> e is InvalidParameters,
        r matches Ok((t, b, b_row, n)) ==> {
            &&& t == cols(mu as int)
            &&& b == p2(t as int)
            &&& b_row == p2(mu - t)
            &&& n == p2(mu as int)
            &&& n == b * b_row
            &&& 2 <= b <= n
            &&& 1 <= b_row <= b
            &&& 1 <= t <= mu
            &&& t < usize::BITS
        },
{
    if mu == 0 {
        return Err(invalid_parameters("mu = 0 unsupported (constant polynomial)"));
    }
    if mu >= usize::BITS as usize {
        return Err(invalid_parameters("mu exceeds platform word size"));
    }
    let t: usize = mu / 2 + mu % 2;
    proof {
        lemma_split(mu as int);
        lemma_pow2_mono(1, t as int);
        vstd::arithmetic::power2::lemma2_to64();
        assert(t == cols(mu as int));
    }
    Ok((t, pow2_usize(t), pow2_usize(mu - t), pow2_usize(mu)))
}

/// As [`mercury_dims`], with the error of a malformed proof.
pub fn mercury_dims_verify(mu: usize) -> (r: Result<(usize, usize, usize, usize), PCSError>)
    ensures
        r is Ok <==> mu_ok(mu as int),
        r matches Err(e) ==> e is InvalidProof,
        r matches Ok((t, b, b_row, n)) ==> {
            &&& t == cols(mu as int)
            &&& b == p2(t as int)
            &&& b_row == p2(mu - t)
            &&& n == p2(mu as int)
            &&& n == b * b_row
            &&& 2 <= b <= n
            &&& 1 <= b_row <= b
            &&& 1 <= t <= mu
            &&& t < usize::BITS
        },
{
    match mercury_dims(mu) {
        Ok(d) => Ok(d),
        Err(e) => Err(invalid_proof(e.message())),
    }
}

/// `P_u(x) = prod_k (u_k x^{2^k} + (1 - u_k))`.
pub fn pu_eval(u: &[Scalar], x: Scalar) -> (r: Scalar)
    ensures
        r@ == tensor(vals(u@), x@, u@.len() as int),
{
    eval_tensor(u, x)
}

/// The restriction `h_j = sum_i f[i + j b] eq_col[i]`, with zeros up to the
/// length `b`.
pub fn compute_h(coeffs: &[Scalar], eq_col: &[Scalar], b_row: usize, b: usize) -> (h: Vec<Scalar>)
    requires
        coeffs@.len() == b * b_row,
        eq_col@.len() == b,
        b_row <= b,
    ensures
        vals(h@) == padded(
            block_dots(vals(coeffs@), vals(eq_col@), b as int, b_row as int),
            b as nat,
        ),
        h@.len() == b,
{
    let total: usize = coeffs.len();
    let ghost f = vals(coeffs@);
    let ghost e = vals(eq_col@);
    let mut h: Vec<Scalar> = Vec::new();
    let mut j: usize = 0;
    while j < b_row
        invariant
            j <= b_row,
            coeffs@.len() == total == b * b_row,
            eq_col@.len() == b,
            f == vals(coeffs@),
            e == vals(eq_col@),
            h@.len() == j,
            forall|k: int|
                0 <= k < j ==> (#[trigger] h@[k])@ == dot(block(f, b as int, k), e, b as int),
        decreases b_row - j,
    {
        proof {
            lemma_column(b as int, b_row as int, j as int);
        }
        let row = vstd::slice::slice_subrange(coeffs, b * j, b * j + b);
        assert(vals(row@) =~= block(f, b as int, j as int));
        h.push(inner_product(row, eq_col));
        j = j + 1;
    }
    assert(vals(h@) =~= block_dots(f, e, b as int, b_row as int));
    pad_scalars(h.as_slice(), b)
}

/// Divides `f` by `X^b - alpha`: the remainder `g` and the quotient `q`.
pub fn divide_by_binomial(coeffs: &[Scalar], b: usize, b_row: usize, alpha: Scalar) -> (r: (
    Vec<Scalar>,
    Vec<Scalar>,
))
    requires
        1 <= b,
        1 <= b_row,
        coeffs@.len() == b * b_row,
    ensures
        vals(r.0@) == fold_remainder(vals(coeffs@), b as int, b_row as int, alpha@),
        vals(r.1@) == fold_quotient(vals(coeffs@), b as int, b_row as int, alpha@),
        r.0@.len() == b,
        r.1@.len() == b * (b_row - 1),
{
    let total: usize = coeffs.len();
    let ghost f = vals(coeffs@);
    let ghost bb = b as int;
    let ghost n = b_row as int;
    proof {
        lemma_column(bb, n, n - 1);
    }
    let q_len: usize = b * (b_row - 1);
    let mut q: Vec<Scalar> = pad_scalars(&[], q_len);
    let mut cur: Vec<Scalar> = pad_scalars(&[], b);
    let mut k: usize = b_row;
    proof {
        assert(vals(cur@) =~= fold_tail(f, bb, n, alpha@, n));
    }
    while k > 0
        invariant
            k <= b_row,
            1 <= b,
            coeffs@.len() == total == b * b_row,
            f == vals(coeffs@),
            bb == b,
            n == b_row,
            q_len == b * (b_row - 1),
            q@.len() == q_len,
            cur@.len() == b,
            vals(cur@) == fold_tail(f, bb, n, alpha@, k as int),
            forall|p: int|
                bb * k - bb <= p < q_len && 0 <= p ==> (#[trigger] q@[p])@ == fold_tail(
                    f,
                    bb,
                    n,
                    alpha@,
                    p / bb + 1,
                )[p % bb],
        decreases k,
    {
        proof {
            lemma_column(bb, n, k - 1);
            lemma_fold_tail_len(f, bb, n, alpha@, k - 1);
            assert(bb * k == bb * (k - 1) + bb) by (nonlinear_arith);
        }
        k = k - 1;
        let row = vstd::slice::slice_subrange(coeffs, b * k, b * k + b);
        assert(vals(row@) =~= block(f, bb, k as int));
        cur = combine_scalars(row, cur.as_slice(), alpha);
        if k > 0 {
            let ghost before = q@;
            let ghost off = bb * (k - 1);
            proof {
                assert(bb * (k - 1) == bb * k - bb) by (nonlinear_arith);
                lemma_column(bb, n - 1, k - 1);
            }
            let start: usize = b * (k - 1);
            let mut i: usize = 0;
            while i < b
                invariant
                    i <= b,
                    bb == b,
                    start == off,
                    start + b <= q_len,
                    q@.len() == q_len == before.len(),
                    cur@.len() == b,
                    forall|p: int| off <= p < off + i ==> (#[trigger] q@[p]) == cur@[p - off],
                    forall|p: int|
                        0 <= p < q_len && !(off <= p < off + i) ==> (#[trigger] q@[p])
                            == before[p],
                decreases b - i,
            {
                q.set(start + i, cur[i]);
                i = i + 1;
            }
            proof {
                assert forall|p: int| bb * k - bb <= p < q_len && 0 <= p implies (
                #[trigger] q@[p])@ == fold_tail(f, bb, n, alpha@, p / bb + 1)[p % bb] by {
                    if p < off + bb {
                        lemma_row_major(bb, n - 1, p - off, k - 1);
                        assert((k - 1) * bb == bb * (k - 1)) by (nonlinear_arith);
                        assert(q@[p] == cur@[p - off]);
                        assert(vals(cur@)[p - off] == cur@[p - off]@);
                    } else {
                        assert(q@[p] == before[p]);
                    }
                }
            }
        } else {
            assert(bb * 0 == 0) by (nonlinear_arith);
        }
    }
    assert(vals(q@) =~= fold_quotient(f, bb, n, alpha@)) by {
        assert forall|p: int| 0 <= p < q_len implies vals(q@)[p] == fold_quotient(
            f,
            bb,
            n,
            alpha@,
        )[p] by {
            assert(bb * 0 - bb <= p) by (nonlinear_arith)
                requires
                    0 <= p,
                    1 <= bb,
            ;
            assert(q@[p]@ == fold_tail(f, bb, n, alpha@, p / bb + 1)[p % bb]);
        }
    }
    (cur, q)
}

/// The coefficients in reverse order.
pub fn reverse_coeffs(g: &[Scalar]) -> (d: Vec<Scalar>)
    ensures
        vals(d@) == reversed(vals(g@)),
        d@.len() == g@.len(),
{
    let n: usize = g.len();
    let mut d: Vec<Scalar> = Vec::new();
    let mut i: usize = 0;
    while i < n
        invariant
            i <= n == g@.len(),
            d@.len() == i,
            forall|k: int| 0 <= k < i ==> (#[trigger] d@[k]) == g@[n - 1 - k],
        decreases n - i,
    {
        d.push(g[n - 1 - i]);
        i = i + 1;
    }
    assert(vals(d@) =~= reversed(vals(g@)));
    d
}

/// The witness `S` of both inner products.
pub fn make_s_polynomial_structured(
    g: &[Scalar],
    h: &[Scalar],
    u1: &[Scalar],
    u2: &[Scalar],
    t: usize,
    gamma: Scalar,
) -> (s: Vec<Scalar>)
    requires
        t < usize::BITS,
        2 * p2(t as int) <= usize::MAX,
        g@.len() == p2(t as int),
        h@.len() == p2(t as int),
        u1@.len() == t,
        u2@.len() == t,
    ensures
        vals(s@) == combine(
            sym_witness(vals(g@), vals(u1@), t as int),
            sym_witness(vals(h@), vals(u2@), t as int),
            gamma@,
        ),
        s@.len() == p2(t as int) - 1,
{
    let s1 = symmetric_witness(g, u1, t);
    let s2 = symmetric_witness(h, u2, t);
    combine_scalars(s1.as_slice(), s2.as_slice(), gamma)
}

/// Rejects a `zeta` that is zero or its own inverse, and returns the inverse.
pub fn validate_zeta(zeta: Scalar) -> (r: Result<Scalar, PCSError>)
    ensures
        r is Ok <==> zeta_ok(zeta@),
        r matches Err(e) ==> e is InvalidProof,
        r matches Ok(i) ==> i@ == finv(zeta@) && is_inverse(zeta@, i@) && i@ != zeta@,
{
    if zeta.is_zero() {
        return Err(invalid_proof("zeta = 0"));
    }
    let sq = zeta.square();
    if sq.equals(&Scalar::one()) {
        return Err(invalid_proof("zeta^2 = 1 (zeta = 1/zeta): reciprocal points collide"));
    }
    match zeta.inverse() {
        Some(i) => Ok(i),
        None => Err(invalid_proof("zeta inverse failed")),
    }
}

/// Rejects a point of the batch check that is among the evaluation points.
pub fn validate_zbdfg(z: Scalar, zeta: Scalar, zeta_inv: Scalar, alpha: Scalar) -> (r: Result<
    (),
    PCSError,
>)
    ensures
        r is Ok <==> z@ != zeta@ && z@ != zeta_inv@ && z@ != alpha@,
        r matches Err(e) ==> e is InvalidProof,
{
    if z.equals(&zeta) || z.equals(&zeta_inv) || z.equals(&alpha) {
        return Err(invalid_proof("BDFG20 point collides with an evaluation node"));
    }
    Ok(())
}

/// Commits to two polynomials.
fn commit_two(pp: &MercuryProverParam, a: &[Scalar], b: &[Scalar]) -> (r: Result<
    (G1, G1),
    PCSError,
>)
    ensures
        r is Ok <==> a@.len() <= pp.g1_powers@.len() && b@.len() <= pp.g1_powers@.len(),
        r matches Err(e) ==> e is InvalidParameters,
        r matches Ok(c) ==> c.0@ == committed(pp.key(), vals(a@)) && c.1@ == committed(
            pp.key(),
            vals(b@),
        ),
{
    let ca = pp.commit(a)?;
    let cb = pp.commit(b)?;
    Ok((ca, cb))
}

/// A proof of an opening.
#[derive(Clone, Copy, Debug, PartialEq)]
pub struct MercuryProof {
    /// Commitment to the restriction `h`.
    pub comm_h: G1,
    /// Commitment to the remainder `g`.
    pub comm_g: G1,
    /// Commitment to the quotient `q`.
    pub comm_q: G1,
    /// Commitment to the witness `S`.
    pub comm_s: G1,
    /// Commitment to the reversal `D`.
    pub comm_d: G1,
    /// The folding proof at `zeta`.
    pub comm_quot_f: G1,
    /// First witness of the batch opening.
    pub comm_w: G1,
    /// Second witness of the batch opening.
    pub comm_w_prime: G1,
    /// `g(zeta)`.
    pub g_zeta: Scalar,
    /// `g(1/zeta)`.
    pub g_zeta_inv: Scalar,
    /// `h(zeta)`.
    pub h_zeta: Scalar,
    /// `h(1/zeta)`.
    pub h_zeta_inv: Scalar,
    /// `S(zeta)`.
    pub s_zeta: Scalar,
    /// `S(1/zeta)`.
    pub s_zeta_inv: Scalar,
    /// Number of variables.
    pub mu: usize,
}

impl MercuryProof {
    /// The views of the commitments and values.
    pub open spec fn model(&self) -> MercuryModel {
        MercuryModel {
            comm_h: self.comm_h@,
            comm_g: self.comm_g@,
            comm_q: self.comm_q@,
            comm_s: self.comm_s@,
            comm_d: self.comm_d@,
            comm_quot_f: self.comm_quot_f@,
            comm_w: self.comm_w@,
            comm_w_prime: self.comm_w_prime@,
            g_zeta: self.g_zeta@,
            g_zeta_inv: self.g_zeta_inv@,
            h_zeta: self.h_zeta@,
            h_zeta_inv: self.h_zeta_inv@,
            s_zeta: self.s_zeta@,
            s_zeta_inv: self.s_zeta_inv@,
        }
    }
}

/// The values of the polynomials of a batch opening, with their points.
#[derive(Clone, Copy, Debug)]
pub struct BdfgEvals {
    pub zeta: Scalar,
    pub zeta_inv: Scalar,
    pub alpha: Scalar,
    pub g_zeta: Scalar,
    pub g_zeta_inv: Scalar,
    pub h_zeta: Scalar,
    pub h_zeta_inv: Scalar,
    pub h_alpha: Scalar,
    pub s_zeta: Scalar,
    pub s_zeta_inv: Scalar,
    pub d_zeta: Scalar,
}

impl BdfgEvals {
    pub open spec fn model(&self) -> MercuryValues {
        MercuryValues {
            g_zeta: self.g_zeta@,
            g_zeta_inv: self.g_zeta_inv@,
            h_zeta: self.h_zeta@,
            h_zeta_inv: self.h_zeta_inv@,
            h_alpha: self.h_alpha@,
            s_zeta: self.s_zeta@,
            s_zeta_inv: self.s_zeta_inv@,
            d_zeta: self.d_zeta@,
        }
    }
}

/// Opens `g`, `h`, `S` and `D` at their points in one batch.
#[verifier::rlimit(40)]
pub fn bdfg_prove(
    pp: &MercuryProverParam,
    g: &[Scalar],
    h: &[Scalar],
    s: &[Scalar],
    d: &[Scalar],
    ev: &BdfgEvals,
    t: &mut IOPTranscript,
) -> (r: Result<(G1, G1, Scalar, Scalar), PCSError>)
    requires
        2 <= g@.len() <= pp.g1_powers@.len(),
        g@.len() + 20 <= usize::MAX,
        h@.len() == g@.len(),
        s@.len() == g@.len() - 1,
        d@.len() == g@.len(),
        zeta_ok(ev.zeta@),
        ev.zeta_inv@ == finv(ev.zeta@),
        is_inverse(ev.zeta@, ev.zeta_inv@),
        ev.g_zeta@ == feval(vals(g@), ev.zeta@),
        ev.g_zeta_inv@ == feval(vals(g@), ev.zeta_inv@),
        ev.h_zeta@ == feval(vals(h@), ev.zeta@),
        ev.h_zeta_inv@ == feval(vals(h@), ev.zeta_inv@),
        ev.h_alpha@ == feval(vals(h@), ev.alpha@),
        ev.s_zeta@ == feval(vals(s@), ev.zeta@),
        ev.s_zeta_inv@ == feval(vals(s@), ev.zeta_inv@),
        ev.d_zeta@ == feval(vals(d@), ev.zeta@),
    ensures
        ({
            let claims = claims_of(
                vals(g@),
                vals(h@),
                vals(s@),
                vals(d@),
                ev.model(),
                ev.zeta@,
                ev.alpha@,
            );
            let apart = ev.alpha@ != ev.zeta@ && ev.alpha@ != ev.zeta_inv@;
            match r {
                Ok((w, wp, beta, z)) => {
                    &&& apart
                    &&& z@ != ev.zeta@ && z@ != ev.zeta_inv@ && z@ != ev.alpha@
                    &&& nodes_ok(seq![ev.zeta@, ev.zeta_inv@])
                    &&& nodes_ok(seq![ev.zeta@, ev.zeta_inv@, ev.alpha@])
                    &&& nodes_ok(seq![ev.zeta@])
                    &&& w@ == committed(pp.key(), batch_quotient(claims, beta@))
                    &&& wp@ == committed(pp.key(), batch_opening(claims, beta@, z@))
                    &&& final(t)@ == old(t)@.push(Entry::Challenge("bt"@, beta@)).push(
                        Entry::Point("w"@, w@),
                    ).push(Entry::Challenge("z"@, z@))
                },
                Err(e) => e is InvalidProof && exists|beta: int, z: int| #[trigger]
                    batch_stopped(
                        old(t)@,
                        final(t)@,
                        ev.zeta@,
                        ev.alpha@,
                        beta,
                        committed(pp.key(), batch_quotient(claims, beta)),
                        z,
                    ),
            }
        }),
{
    let ghost gv = vals(g@);
    let ghost hv = vals(h@);
    let ghost sv = vals(s@);
    let ghost dv = vals(d@);
    let ghost zi = ev.zeta_inv@;
    let beta = t.get_and_append_challenge("bt");
    if ev.alpha.equals(&ev.zeta) || ev.alpha.equals(&ev.zeta_inv) {
        proof {
            let claims = claims_of(
                vals(g@),
                vals(h@),
                vals(s@),
                vals(d@),
                ev.model(),
                ev.zeta@,
                ev.alpha@,
            );
            let w = committed(pp.key(), batch_quotient(claims, beta@));
            assert(batch_stopped(old(t)@, t@, ev.zeta@, ev.alpha@, beta@, w, 0));
        }
        return Err(invalid_proof("alpha collides with a reciprocal node"));
    }
    let points2 = [ev.zeta, ev.zeta_inv];
    let points3 = [ev.zeta, ev.zeta_inv, ev.alpha];
    let points1 = [ev.zeta];
    let values_g = [ev.g_zeta, ev.g_zeta_inv];
    let values_h = [ev.h_zeta, ev.h_zeta_inv, ev.h_alpha];
    let values_s = [ev.s_zeta, ev.s_zeta_inv];
    let values_d = [ev.d_zeta];
    let claims = [
        BdfgClaim { poly: g, points: points2.as_slice(), values: values_g.as_slice() },
        BdfgClaim { poly: h, points: points3.as_slice(), values: values_h.as_slice() },
        BdfgClaim { poly: s, points: points2.as_slice(), values: values_s.as_slice() },
        BdfgClaim { poly: d, points: points1.as_slice(), values: values_d.as_slice() },
    ];
    let ghost cs = claims_of(gv, hv, sv, dv, ev.model(), ev.zeta@, ev.alpha@);
    let ghost c0 = MercuryChallenges {
        alpha: ev.alpha@,
        gamma: 0,
        zeta: ev.zeta@,
        beta: beta@,
        z: 0,
        pair: 0,
    };
    let ghost polys = MercuryPolys { h: hv, g: gv, q: gv, s: sv, d: dv, quot_f: gv };
    proof {
        assert(vals(points2@) =~= seq![ev.zeta@, zi]);
        assert(vals(points3@) =~= seq![ev.zeta@, zi, ev.alpha@]);
        assert(vals(points1@) =~= seq![ev.zeta@]);
        assert(vals(values_g@) =~= seq![ev.g_zeta@, ev.g_zeta_inv@]);
        assert(vals(values_h@) =~= seq![ev.h_zeta@, ev.h_zeta_inv@, ev.h_alpha@]);
        assert(vals(values_s@) =~= seq![ev.s_zeta@, ev.s_zeta_inv@]);
        assert(vals(values_d@) =~= seq![ev.d_zeta@]);
        assert(claim_views(claims@) =~= cs);
        assert(cs == honest_claims(polys, c0));
        assert(ev.zeta@ != zi);
        lemma_union(gv, hv, sv, dv, ev.model(), ev.zeta@, ev.alpha@);
        assert forall|q: int| 0 <= q < cs.len() implies union_of(claim_sets(cs), 4).len() + (
        #[trigger] cs[q]).poly.len() + cs[q].points.len() + 4 <= usize::MAX by {
            assert(q == 0 || q == 1 || q == 2 || q == 3);
        }
    }
    let first = bdfg_first_round(claims.as_slice(), beta);
    proof {
        assert(cs[0].points == seq![ev.zeta@, zi]);
        assert(cs[1].points == seq![ev.zeta@, zi, ev.alpha@]);
        assert(cs[3].points == seq![ev.zeta@]);
        assert(nodes_ok(cs[0].points) && nodes_ok(cs[1].points) && nodes_ok(cs[3].points));
        lemma_claims_divide(polys, c0);
        lemma_batch_lengths(gv, hv, sv, dv, ev.model(), ev.zeta@, ev.alpha@, beta@, 0);
    }
    let first = match first {
        Ok(f) => f,
        Err(e) => {
            assert(false);
            return Err(e);
        },
    };
    assert(vals(first.quot_m@) == batch_quotient(cs, beta@));
    assert(vals(first.quot_m@).len() == first.quot_m@.len());
    let w = commit_prefix(pp.g1_powers.as_slice(), first.quot_m.as_slice());
    t.append_point("w", &w);
    let z = t.get_and_append_challenge("z");
    let valid = validate_zbdfg(z, ev.zeta, ev.zeta_inv, ev.alpha);
    proof {
        if valid is Err {
            let honest = committed(pp.key(), batch_quotient(cs, beta@));
            assert(w@ == honest);
            assert(batch_stopped(old(t)@, t@, ev.zeta@, ev.alpha@, beta@, honest, z@));
        }
    }
    valid?;
    let ghost c = MercuryChallenges { z: z@, ..c0 };
    proof {
        assert(cs == honest_claims(polys, c));
        lemma_claims_divide(polys, c);
        lemma_batch_lengths(gv, hv, sv, dv, ev.model(), ev.zeta@, ev.alpha@, beta@, z@);
        assert(vals(first.union@).len() == first.union@.len());
        assert(poly_views(first.interpolants@) =~= interpolants_of(cs)) by {
            assert forall|q: int| 0 <= q < cs.len() implies poly_views(first.interpolants@)[q]
                == interpolants_of(cs)[q] by {
                assert(vals(first.interpolants@[q]@) == interp(cs[q].points, cs[q].values));
            }
        }
    }
    let second = match bdfg_second_round(claims.as_slice(), &first, beta, z) {
        Ok(s) => s,
        Err(e) => {
            assert(false);
            return Err(e);
        },
    };
    assert(vals(second.quot_l@) == batch_opening(cs, beta@, z@));
    assert(vals(second.quot_l@).len() == second.quot_l@.len());
    let wp = commit_prefix(pp.g1_powers.as_slice(), second.quot_l.as_slice());
    Ok((w, wp, beta, z))
}

/// Whether a batch opening from the history `log` ended in `end` on points
/// that collide.
pub open spec fn batch_stopped(
    log: Seq<Entry>,
    end: Seq<Entry>,
    zeta: int,
    alpha: int,
    beta: int,
    w: int,
    z: int,
) -> bool {
    let zi = finv(zeta);
    let first = log.push(Entry::Challenge("bt"@, beta));
    if alpha == zeta || alpha == zi {
        end == first
    } else {
        &&& z == zeta || z == zi || z == alpha
        &&& end == first.push(Entry::Point("w"@, w)).push(Entry::Challenge("z"@, z))
    }
}

/// Appends the statement to a transcript.
pub fn append_statement(
    tr: &mut IOPTranscript,
    t: usize,
    b: usize,
    cm_f: &G1,
    point: &[Scalar],
    value: &Scalar,
)
    requires
        vector_fits(point@.len() as int),
        t == cols(point@.len() as int),
        b == p2(t as int),
    ensures
        final(tr)@ == stated(old(tr)@, cm_f@, vals(point@), value@),
{
    tr.append_field_element("ver", &Scalar::from_u64(1));
    tr.append_field_element("mu", &Scalar::from_u64(point.len() as u64));
    tr.append_field_element("t", &Scalar::from_u64(t as u64));
    tr.append_field_element("b", &Scalar::from_u64(b as u64));
    tr.append_point("cf", cm_f);
    tr.append_field_elements("u", point);
    tr.append_field_element("e", value);
}

/// Whether a key, a table, a point and a value fit together.
pub open spec fn opening_ok(
    pp: &MercuryProverParam,
    coeffs: Seq<Scalar>,
    point: Seq<Scalar>,
    value: int,
) -> bool {
    &&& mu_ok(point.len() as int)
    &&& pp.max_degree >= p2(point.len() as int) - 1
    &&& value == mle_eval(vals(coeffs), vals(point))
}

/// Opens a table, after the statement was appended to the transcript. The
/// challenges come from the transcript; what the proof holds for them is what
/// an honest prover sends.
#[verifier::rlimit(80)]
pub fn mercury_core_open(
    pp: &MercuryProverParam,
    coeffs: &[Scalar],
    point: &[Scalar],
    value: &Scalar,
    tr: &mut IOPTranscript,
) -> (r: Result<MercuryProof, PCSError>)
    requires
        pp.wf(),
        mu_ok(point@.len() as int) ==> coeffs@.len() == p2(point@.len() as int),
    ensures
        !opening_ok(pp, coeffs@, point@, value@) ==> final(tr)@ == old(tr)@ && (r matches Err(e)
            && e is InvalidParameters),
        opening_ok(pp, coeffs@, point@, value@) ==> opening_result(
            old(tr)@,
            final(tr)@,
            pp,
            vals(coeffs@),
            vals(point@),
            r,
        ),
{
    let mu: usize = point.len();
    let (t, b, b_row, n) = mercury_dims(mu)?;
    if pp.max_degree < n - 1 {
        return Err(invalid_parameters("prover key max_degree insufficient"));
    }
    let u1s = vstd::slice::slice_subrange(point, 0, t);
    let u2s = vstd::slice::slice_subrange(point, t, mu);
    let ghost u = vals(point@);
    let ghost u1 = vals(u1s@);
    let ghost u2 = vals(u2s@);
    let ghost f = vals(coeffs@);
    let ghost key = pp.key();
    let ghost start = tr@;
    proof {
        lemma_split(mu as int);
        assert(u1 =~= left_part(u));
        assert(u2 =~= right_part(u));
        assert(u1 + u2 =~= u);
        lemma_dims_fit(b as int, b_row as int, mu as int);
    }
    let u2_full = pad_scalars(u2s, t);
    let eq_col = build_eq_vec(u1s, b);
    assert(vals(eq_col@) =~= eq_vec(u1, t as int));
    let h_poly = compute_h(coeffs, eq_col.as_slice(), b_row, b);
    let ghost hv = vals(h_poly@);
    assert(hv == restriction(f, u1, u2));
    let eq_row = build_eq_vec(u2s, b_row);
    assert(vals(eq_row@) =~= eq_vec(u2, mu - t));
    let v_check = inner_product(eq_row.as_slice(), h_poly.as_slice());
    proof {
        law_restriction_value(f, u1, u2);
        let bd = block_dots(f, eq_vec(u1, t as int), b as int, b_row as int);
        lemma_dot_comm(vals(eq_row@), hv, b_row as int);
        lemma_dot_ext(hv, bd, vals(eq_row@), vals(eq_row@), b_row as int);
    }
    if !v_check.equals(value) {
        return Err(invalid_parameters("claimed value inconsistent with committed polynomial"));
    }
    let comm_h = pp.commit(h_poly.as_slice())?;
    tr.append_point("h", &comm_h);
    let alpha = tr.get_and_append_challenge("a");
    let (g_poly, q_poly) = divide_by_binomial(coeffs, b, b_row, alpha);
    let ghost gv = vals(g_poly@);
    let ghost qv = vals(q_poly@);
    assert(b * (b_row - 1) == b * b_row - b) by (nonlinear_arith);
    let (comm_q, comm_g) = commit_two(pp, q_poly.as_slice(), g_poly.as_slice())?;
    tr.append_point("q", &comm_q);
    tr.append_point("g", &comm_g);
    let gamma = tr.get_and_append_challenge("gm");
    let h_alpha = poly_eval(h_poly.as_slice(), alpha);
    let s_poly = make_s_polynomial_structured(
        g_poly.as_slice(),
        h_poly.as_slice(),
        u1s,
        u2_full.as_slice(),
        t,
        gamma,
    );
    let ghost sv = vals(s_poly@);
    let d_poly = reverse_coeffs(g_poly.as_slice());
    let ghost dv = vals(d_poly@);
    let (comm_s, comm_d) = commit_two(pp, s_poly.as_slice(), d_poly.as_slice())?;
    tr.append_point("s", &comm_s);
    tr.append_point("d", &comm_d);
    let zeta = tr.get_and_append_challenge("zt");
    let ghost c0 = MercuryChallenges {
        alpha: alpha@,
        gamma: gamma@,
        zeta: zeta@,
        beta: 0,
        z: 0,
        pair: 0,
    };
    let valid = validate_zeta(zeta);
    proof {
        if valid is Err {
            let hp = honest_polys(f, u1, u2, c0);
            assert(hp.g == gv && hp.q == qv && hp.h == hv && hp.s == sv && hp.d == dv);
            assert(is_honest_stop(start, tr@, key, f, u, c0));
        }
    }
    let zeta_inv = valid?;
    let g_zeta = poly_eval(g_poly.as_slice(), zeta);
    let g_zeta_inv = poly_eval(g_poly.as_slice(), zeta_inv);
    let h_zeta = poly_eval(h_poly.as_slice(), zeta);
    let h_zeta_inv = poly_eval(h_poly.as_slice(), zeta_inv);
    let s_zeta = poly_eval(s_poly.as_slice(), zeta);
    let s_zeta_inv = poly_eval(s_poly.as_slice(), zeta_inv);
    let d_zeta = poly_eval(d_poly.as_slice(), zeta);
    let zeta_b = zeta.pow(b as u64);
    let zeta_b_alpha = zeta_b.sub(alpha);
    let mut num_f = copy_scalars(coeffs);
    add_scaled(&mut num_f, q_poly.as_slice(), zeta_b_alpha.neg());
    subtract_const(&mut num_f, g_zeta);
    let (quot_f, rem_f) = divide_by_linear(num_f.as_slice(), zeta);
    let ghost nf = vals(num_f@);
    proof {
        assert(nf == folding_numerator(f, qv, zeta_b_alpha@, g_zeta@));
        lemma_folding_exact(f, b as int, b_row as int, alpha@, zeta@);
        assert(nf.len() == f.len());
        assert(vals(quot_f@).len() == quot_f@.len());
    }
    if !rem_f.is_zero() {
        return Err(invalid_prover("folding quotient has nonzero remainder"));
    }
    let comm_quot_f = pp.commit(quot_f.as_slice())?;
    tr.append_field_element("gz", &g_zeta);
    tr.append_field_element("gzi", &g_zeta_inv);
    tr.append_field_element("hz", &h_zeta);
    tr.append_field_element("hzi", &h_zeta_inv);
    tr.append_field_element("sz", &s_zeta);
    tr.append_field_element("szi", &s_zeta_inv);
    tr.append_point("tf", &comm_quot_f);
    let ev = BdfgEvals {
        zeta,
        zeta_inv,
        alpha,
        g_zeta,
        g_zeta_inv,
        h_zeta,
        h_zeta_inv,
        h_alpha,
        s_zeta,
        s_zeta_inv,
        d_zeta,
    };
    let ghost mid = tr@;
    let batch = bdfg_prove(
        pp,
        g_poly.as_slice(),
        h_poly.as_slice(),
        s_poly.as_slice(),
        d_poly.as_slice(),
        &ev,
        tr,
    );
    proof {
        if batch is Err {
            let claims = claims_of(gv, hv, sv, dv, ev.model(), zeta@, alpha@);
            let (beta, z) = choose|beta: int, z: int| #[trigger]
                batch_stopped(
                    mid,
                    tr@,
                    zeta@,
                    alpha@,
                    beta,
                    committed(key, batch_quotient(claims, beta)),
                    z,
                );
            let c = MercuryChallenges { beta, z, ..c0 };
            let hp = honest_polys(f, u1, u2, c);
            assert(hp.g == gv && hp.q == qv && hp.h == hv && hp.s == sv && hp.d == dv);
            assert(hp.quot_f == vals(quot_f@));
            assert(honest_claims(hp, c) == claims);
            assert(is_honest_stop(start, tr@, key, f, u, c));
        }
    }
    let (comm_w, comm_w_prime, beta, z) = batch?;
    tr.append_point("wp", &comm_w_prime);
    let pair = tr.get_and_append_challenge("pd");
    let proof = MercuryProof {
        comm_h,
        comm_g,
        comm_q,
        comm_s,
        comm_d,
        comm_quot_f,
        comm_w,
        comm_w_prime,
        g_zeta,
        g_zeta_inv,
        h_zeta,
        h_zeta_inv,
        s_zeta,
        s_zeta_inv,
        mu,
    };
    proof {
        let c = MercuryChallenges { beta: beta@, z: z@, pair: pair@, ..c0 };
        let hp = honest_polys(f, u1, u2, c);
        assert(hp.g == gv && hp.q == qv && hp.h == hv && hp.s == sv && hp.d == dv);
        assert(hp.quot_f == vals(quot_f@));
        assert(honest_claims(hp, c) == claims_of(gv, hv, sv, dv, ev.model(), zeta@, alpha@));
        assert(proof.model() == honest_proof(key, f, u1, u2, c));
        assert(is_honest_run(start, tr@, key, f, u, proof.model(), c));
    }
    Ok(proof)
}

/// Whether `r` is the result of an opening that leads from the history `start`
/// to `end`: the honest proof for the run's challenges, or an error where one
/// of them cannot be used.
pub open spec fn opening_result(
    start: Seq<Entry>,
    end: Seq<Entry>,
    pp: &MercuryProverParam,
    f: Seq<int>,
    u: Seq<int>,
    r: Result<MercuryProof, PCSError>,
) -> bool {
    match r {
        Ok(proof) => proof.mu == u.len() && exists|c: MercuryChallenges| #[trigger]
            is_honest_run(start, end, pp.key(), f, u, proof.model(), c),
        Err(e) => e is InvalidProof && exists|c: MercuryChallenges| #[trigger]
            is_honest_stop(start, end, pp.key(), f, u, c),
    }
}

/// An inner product does not depend on the order of its arguments.
proof fn lemma_dot_comm(a: Seq<int>, b: Seq<int>, n: int)
    ensures
        dot(a, b, n) == dot(b, a, n),
    decreases n,
{
    if n > 0 {
        lemma_dot_comm(a, b, n - 1);
        let x = a[n - 1];
        let y = b[n - 1];
        assert(x * y == y * x) by (nonlinear_arith);
    }
}

proof fn lemma_dims_fit(b: int, n: int, mu: int)
    requires
        1 <= mu < usize::BITS,
        b == p2(cols(mu)),
        n == p2(mu - cols(mu)),
        2 <= b,
        1 <= n,
    ensures
        2 * b <= usize::MAX,
        b + 20 <= usize::MAX,
{
    let t = cols(mu);
    assert(t + 1 <= 33 && (usize::BITS == 64 || t + 1 <= 17));
    if usize::BITS == 64 {
        lemma_pow2_mono(t, 32);
    } else {
        lemma_pow2_mono(t, 16);
    }
    vstd::arithmetic::power2::lemma2_to64();
}

/// The views of a verifier's key.
pub open spec fn key_model(vp: &MercuryVerifierParam) -> MercuryKey {
    MercuryKey { g1_one: vp.g1_one@, g2_one: vp.g2_one@, g2_tau: vp.g2_tau@ }
}

/// The two sides of the batch statement, for given challenges.
pub fn bdfg_verify_lhs_pure(
    vp: &MercuryVerifierParam,
    proof: &MercuryProof,
    ev: &BdfgEvals,
    beta: Scalar,
    z: Scalar,
) -> (r: Result<(G1, G1), PCSError>)
    requires
        ev.zeta_inv@ == finv(ev.zeta@),
        ev.zeta@ != ev.zeta_inv@,
    ensures
        r is Ok <==> ev.alpha@ != ev.zeta@ && ev.alpha@ != ev.zeta_inv@,
        r matches Err(e) ==> e is InvalidProof,
        r matches Ok((l, w)) ==> {
            let c = MercuryChallenges {
                alpha: ev.alpha@,
                gamma: 0,
                zeta: ev.zeta@,
                beta: beta@,
                z: z@,
                pair: 0,
            };
            &&& l@ == batch_left(key_model(vp), proof.model(), ev.model(), c)
            &&& w@ == proof.comm_w_prime@
            &&& nodes_ok(seq![ev.zeta@, ev.zeta_inv@])
            &&& nodes_ok(seq![ev.zeta@, ev.zeta_inv@, ev.alpha@])
            &&& nodes_ok(seq![ev.zeta@])
        },
{
    if ev.alpha.equals(&ev.zeta) || ev.alpha.equals(&ev.zeta_inv) {
        return Err(invalid_proof("alpha collides with a reciprocal node"));
    }
    let points2 = [ev.zeta, ev.zeta_inv];
    let points3 = [ev.zeta, ev.zeta_inv, ev.alpha];
    let points1 = [ev.zeta];
    let values_g = [ev.g_zeta, ev.g_zeta_inv];
    let values_h = [ev.h_zeta, ev.h_zeta_inv, ev.h_alpha];
    let values_s = [ev.s_zeta, ev.s_zeta_inv];
    let values_d = [ev.d_zeta];
    let point_sets = [
        points2.as_slice(),
        points3.as_slice(),
        points2.as_slice(),
        points1.as_slice(),
    ];
    let value_sets = [
        values_g.as_slice(),
        values_h.as_slice(),
        values_s.as_slice(),
        values_d.as_slice(),
    ];
    let ghost e = Seq::<int>::empty();
    let ghost claims = claims_of(e, e, e, e, ev.model(), ev.zeta@, ev.alpha@);
    let ghost sets = claim_sets(claims);
    proof {
        let zi = ev.zeta_inv@;
        assert(vals(points2@) =~= seq![ev.zeta@, zi]);
        assert(vals(points3@) =~= seq![ev.zeta@, zi, ev.alpha@]);
        assert(vals(points1@) =~= seq![ev.zeta@]);
        assert(vals(values_g@) =~= seq![ev.g_zeta@, ev.g_zeta_inv@]);
        assert(vals(values_h@) =~= seq![ev.h_zeta@, ev.h_zeta_inv@, ev.h_alpha@]);
        assert(vals(values_s@) =~= seq![ev.s_zeta@, ev.s_zeta_inv@]);
        assert(vals(values_d@) =~= seq![ev.d_zeta@]);
        assert(set_views(point_sets@) =~= sets);
        assert(set_views(value_sets@) =~= claim_values(claims));
        lemma_union(e, e, e, e, ev.model(), ev.zeta@, ev.alpha@);
        assert forall|q: int| 0 <= q < point_sets@.len() implies (#[trigger] point_sets@[q])@.len()
            < usize::MAX - 1 by {
            assert(q == 0 || q == 1 || q == 2 || q == 3);
        }
        assert forall|q: int| 0 <= q < sets.len() implies (#[trigger] sets[q]).len()
            == claim_values(claims)[q].len() && sets[q].len() > 0 by {
            assert(q == 0 || q == 1 || q == 2 || q == 3);
        }
    }
    let comb = bdfg_verifier_combination(point_sets.as_slice(), value_sets.as_slice(), beta, z)?;
    let scalars = [
        comb.commit_scalars[0],
        comb.commit_scalars[1],
        comb.commit_scalars[2],
        comb.commit_scalars[3],
        comb.const_scalar.neg(),
        comb.z_t_z.neg(),
        z,
    ];
    let bases = [
        proof.comm_g,
        proof.comm_h,
        proof.comm_s,
        proof.comm_d,
        vp.g1_one,
        proof.comm_w,
        proof.comm_w_prime,
    ];
    proof {
        let u = union_of(sets, 4);
        assert(logs(bases@) =~= seq![
            proof.comm_g@,
            proof.comm_h@,
            proof.comm_s@,
            proof.comm_d@,
            vp.g1_one@,
            proof.comm_w@,
            proof.comm_w_prime@,
        ]);
        assert(vals(scalars@) =~= seq![
            commit_scalar(sets, u, beta@, z@, 0),
            commit_scalar(sets, u, beta@, z@, 1),
            commit_scalar(sets, u, beta@, z@, 2),
            commit_scalar(sets, u, beta@, z@, 3),
            fneg(comb.const_scalar@),
            fneg(comb.z_t_z@),
            z@,
        ]);
        assert(nodes_ok(sets[0]) && nodes_ok(sets[1]) && nodes_ok(sets[3]));
        assert(sets[0] == seq![ev.zeta@, ev.zeta_inv@]);
        assert(sets[1] == seq![ev.zeta@, ev.zeta_inv@, ev.alpha@]);
        assert(sets[3] == seq![ev.zeta@]);
    }
    Ok((G1::msm(bases.as_slice(), scalars.as_slice()), proof.comm_w_prime))
}

/// The value `h(alpha)` that the identity of the inner products leaves.
fn recover_h_alpha(
    u1: &[Scalar],
    u2: &[Scalar],
    value: &Scalar,
    proof: &MercuryProof,
    gamma: Scalar,
    zeta: Scalar,
    zeta_inv: Scalar,
) -> (r: Scalar)
    requires
        zeta_inv@ == finv(zeta@),
    ensures
        r@ == recovered_h_alpha(
            vals(u1@),
            vals(u2@),
            value@,
            proof.model(),
            MercuryChallenges { alpha: 0, gamma: gamma@, zeta: zeta@, beta: 0, z: 0, pair: 0 },
        ),
{
    let pu1_zeta = pu_eval(u1, zeta);
    let pu1_zeta_inv = pu_eval(u1, zeta_inv);
    let pu2_zeta = pu_eval(u2, zeta);
    let pu2_zeta_inv = pu_eval(u2, zeta_inv);
    let two = Scalar::one().double();
    proof {
        lemma_two_invertible();
    }
    let two_inv = two.inverse().unwrap();
    let first = proof.g_zeta.mul(pu1_zeta_inv).add(proof.g_zeta_inv.mul(pu1_zeta));
    let second = proof.h_zeta.mul(pu2_zeta_inv).add(proof.h_zeta_inv.mul(pu2_zeta)).sub(
        value.double(),
    );
    first.add(gamma.mul(second)).sub(zeta.mul(proof.s_zeta)).sub(
        zeta_inv.mul(proof.s_zeta_inv),
    ).mul(two_inv)
}

/// The pairing check of a verifier, for given sides of the batch statement.
fn check_statement(
    vp: &MercuryVerifierParam,
    com: &G1,
    b: usize,
    proof: &MercuryProof,
    alpha: Scalar,
    zeta: Scalar,
    batch_side: &G1,
    pair: Scalar,
) -> (r: bool)
    requires
        1 <= b,
    ensures
        ({
            let c = MercuryChallenges {
                alpha: alpha@,
                gamma: 0,
                zeta: zeta@,
                beta: 0,
                z: 0,
                pair: pair@,
            };
            let l1 = folding_left(key_model(vp), com@, b as int, proof.model(), c);
            r == (dot(
                seq![
                    fadd(l1, fmul(batch_side@, pair@)),
                    fneg(fadd(proof.comm_quot_f@, fmul(proof.comm_w_prime@, pair@))),
                ],
                seq![vp.g2_one@, vp.g2_tau@],
                2,
            ) == 0)
        }),
{
    let zeta_b = zeta.pow((b - 1) as u64).mul(zeta);
    let fold_scalars = [zeta_b.sub(alpha).neg(), proof.g_zeta.neg(), zeta];
    let fold_bases = [proof.comm_q, vp.g1_one, proof.comm_quot_f];
    proof {
        assert(logs(fold_bases@) =~= seq![proof.comm_q@, vp.g1_one@, proof.comm_quot_f@]);
        assert(vals(fold_scalars@) =~= seq![
            fneg(fsub(zeta_b@, alpha@)),
            fneg(proof.g_zeta@),
            zeta@,
        ]);
    }
    let l1 = com.add(&G1::msm(fold_bases.as_slice(), fold_scalars.as_slice()));
    let ll = l1.add(&batch_side.mul(&pair));
    let rl = proof.comm_quot_f.add(&proof.comm_w_prime.mul(&pair)).neg();
    let left = [ll, rl];
    let right = [vp.g2_one, vp.g2_tau];
    proof {
        assert(logs(left@) =~= seq![ll@, rl@]);
        assert(logs2(right@) =~= seq![vp.g2_one@, vp.g2_tau@]);
    }
    pairing_check(left.as_slice(), right.as_slice())
}

/// Whether a proof and a point are such that a verifier looks at them.
pub open spec fn verification_ok(
    vp: &MercuryVerifierParam,
    point: Seq<Scalar>,
    proof: &MercuryProof,
) -> bool {
    &&& mu_ok(proof.mu as int)
    &&& point.len() == proof.mu
    &&& vp.max_degree >= p2(proof.mu as int) - 1
}

/// Whether `r` is the result of a verification that leads from the history
/// `log` to the history `end`: the verdict for the run's challenges, or an
/// error where one of them cannot be used.
pub open spec fn verified(
    log: Seq<Entry>,
    end: Seq<Entry>,
    vp: &MercuryVerifierParam,
    com: int,
    u: Seq<int>,
    value: int,
    proof: &MercuryProof,
    r: Result<bool, PCSError>,
) -> bool {
    let start = stated(log, com, u, value);
    match r {
        Ok(ok) => verdict(start, end, key_model(vp), com, u, value, proof.model(), ok),
        Err(e) => e is InvalidProof && exists|c: MercuryChallenges| #[trigger]
            verifier_stopped(start, end, proof.model(), c),
    }
}

/// Verifies a proof, in a transcript of its own that is fresh.
#[verifier::rlimit(60)]
pub fn mercury_core_verify(
    vp: &MercuryVerifierParam,
    com: &G1,
    point: &[Scalar],
    value: &Scalar,
    proof: &MercuryProof,
    tr: &mut IOPTranscript,
) -> (r: Result<bool, PCSError>)
    ensures
        !verification_ok(vp, point@, proof) ==> final(tr)@ == old(tr)@ && (r matches Err(e) && e
            is InvalidProof),
        verification_ok(vp, point@, proof) ==> verified(
            old(tr)@,
            final(tr)@,
            vp,
            com@,
            vals(point@),
            value@,
            proof,
            r,
        ),
{
    let mu: usize = proof.mu;
    let (t, b, b_row, n) = mercury_dims_verify(mu)?;
    if point.len() != mu {
        return Err(invalid_proof("point length differs from proof.mu"));
    }
    if vp.max_degree < n - 1 {
        return Err(invalid_proof("verifier max_degree insufficient"));
    }
    let u1s = vstd::slice::slice_subrange(point, 0, t);
    let u2s = vstd::slice::slice_subrange(point, t, mu);
    let ghost u = vals(point@);
    let ghost u1 = left_part(u);
    let ghost u2 = right_part(u);
    let ghost p = proof.model();
    let ghost vk = key_model(vp);
    assert(vals(u1s@) =~= u1);
    assert(vals(u2s@) =~= u2);
    append_statement(tr, t, b, com, point, value);
    let ghost start = tr@;
    tr.append_point("h", &proof.comm_h);
    let alpha = tr.get_and_append_challenge("a");
    tr.append_point("q", &proof.comm_q);
    tr.append_point("g", &proof.comm_g);
    let gamma = tr.get_and_append_challenge("gm");
    tr.append_point("s", &proof.comm_s);
    tr.append_point("d", &proof.comm_d);
    let zeta = tr.get_and_append_challenge("zt");
    let ghost c0 = MercuryChallenges {
        alpha: alpha@,
        gamma: gamma@,
        zeta: zeta@,
        beta: 0,
        z: 0,
        pair: 0,
    };
    let valid = validate_zeta(zeta);
    proof {
        if valid is Err {
            assert(verifier_stopped(start, tr@, p, c0));
        }
    }
    let zeta_inv = valid?;
    tr.append_field_element("gz", &proof.g_zeta);
    tr.append_field_element("gzi", &proof.g_zeta_inv);
    tr.append_field_element("hz", &proof.h_zeta);
    tr.append_field_element("hzi", &proof.h_zeta_inv);
    tr.append_field_element("sz", &proof.s_zeta);
    tr.append_field_element("szi", &proof.s_zeta_inv);
    tr.append_point("tf", &proof.comm_quot_f);
    let h_alpha = recover_h_alpha(u1s, u2s, value, proof, gamma, zeta, zeta_inv);
    let d_zeta = zeta.pow((b - 1) as u64).mul(proof.g_zeta_inv);
    let ev = BdfgEvals {
        zeta,
        zeta_inv,
        alpha,
        g_zeta: proof.g_zeta,
        g_zeta_inv: proof.g_zeta_inv,
        h_zeta: proof.h_zeta,
        h_zeta_inv: proof.h_zeta_inv,
        h_alpha,
        s_zeta: proof.s_zeta,
        s_zeta_inv: proof.s_zeta_inv,
        d_zeta,
    };
    let beta = tr.get_and_append_challenge("bt");
    tr.append_point("w", &proof.comm_w);
    let z = tr.get_and_append_challenge("z");
    let ghost c1 = MercuryChallenges { beta: beta@, z: z@, ..c0 };
    let valid = validate_zbdfg(z, zeta, zeta_inv, alpha);
    proof {
        if valid is Err {
            assert(verifier_stopped(start, tr@, p, c1));
        }
    }
    valid?;
    let sides = bdfg_verify_lhs_pure(vp, proof, &ev, beta, z);
    proof {
        if sides is Err {
            assert(verifier_stopped(start, tr@, p, c1));
        }
    }
    let (lhs, rhs) = sides?;
    tr.append_point("wp", &proof.comm_w_prime);
    let pair = tr.get_and_append_challenge("pd");
    let ok = check_statement(vp, com, b, proof, alpha, zeta, &lhs, pair);
    proof {
        let c = MercuryChallenges { pair: pair@, ..c1 };
        assert(ev.model() == recovered_values(u1, u2, value@, p, c));
        assert(lhs@ == batch_left(vk, p, ev.model(), c));
        assert(ok == accepts(vk, com@, u1, u2, value@, p, c));
        assert(is_verdict(start, tr@, vk, com@, u, value@, p, ok, c));
        assert(verdict(start, tr@, vk, com@, u, value@, p, ok));
    }
    let res: Result<bool, PCSError> = Ok(ok);
    assert(verified(old(tr)@, tr@, vp, com@, u, value@, proof, res));
    res
}

/// The history of a fresh transcript of the scheme.
pub open spec fn fresh_log() -> Seq<Entry> {
    seq![Entry::Domain("mercury-mlpcs-v1"@)]
}

/// Whether the prover's parameters, the polynomial and the point fit together.
pub open spec fn request_ok(pp: &MercuryProverParam, poly: &Mle, point: Seq<Scalar>) -> bool {
    &&& mu_ok(poly.num_vars as int)
    &&& point.len() == poly.num_vars
    &&& pp.max_degree >= p2(poly.num_vars as int) - 1
}

/// Whether `r` is the result of an opening that leads from a fresh history to
/// the history `end`.
pub open spec fn opened(
    end: Seq<Entry>,
    pp: &MercuryProverParam,
    poly: &Mle,
    u: Seq<int>,
    com: int,
    r: Result<(MercuryProof, Scalar), PCSError>,
) -> bool {
    let y = mle_eval(poly.table(), u);
    let start = stated(fresh_log(), com, u, y);
    match r {
        Ok((proof, value)) => value@ == y && opening_result(
            start,
            end,
            pp,
            poly.table(),
            u,
            Ok(proof),
        ),
        Err(e) => opening_result(start, end, pp, poly.table(), u, Err(e)),
    }
}

/// Whether a result is that of an opening in a fresh transcript: its course is
/// determined by the statement and what the prover sends.
pub open spec fn is_opening(
    pp: &MercuryProverParam,
    poly: &Mle,
    point: Seq<Scalar>,
    com: int,
    r: Result<(MercuryProof, Scalar), PCSError>,
) -> bool {
    exists|end: Seq<Entry>| is_course(end) && #[trigger] opened(end, pp, poly, vals(point), com, r)
}

/// Whether a result is that of a verification in a fresh transcript: its course
/// is determined by the statement and the proof.
pub open spec fn is_verification(
    vp: &MercuryVerifierParam,
    com: int,
    point: Seq<Scalar>,
    value: int,
    proof: &MercuryProof,
    r: Result<bool, PCSError>,
) -> bool {
    exists|end: Seq<Entry>|
        is_course(end) && #[trigger] verified(
            fresh_log(),
            end,
            vp,
            com,
            vals(point),
            value,
            proof,
            r,
        )
}

/// The commitment scheme.
pub struct MercuryPCS {}

impl MercuryPCS {
    /// Parameters for up to `nv` variables from a trapdoor and a point of each
    /// group. For testing only.
    pub fn gen_srs_for_testing(tau: Scalar, g1: G1, g2: G2, nv: usize) -> (r: Result<
        MercuryUniversalParams,
        PCSError,
    >)
        ensures
            r is Ok <==> mu_ok(nv as int),
            r matches Err(e) ==> e is InvalidParameters,
            r matches Ok(srs) ==> {
                &&& srs.wf()
                &&& srs.prover_param.max_degree == p2(nv as int) - 1
                &&& is_power_key(srs.prover_param.key(), g1@, tau@)
                &&& srs.verifier_param.g1_one@ == srs.prover_param.key()[0]
                &&& srs.verifier_param.g2_one@ == g2@
                &&& srs.verifier_param.g2_tau@ == fmul(g2@, tau@)
                &&& srs.verifier_param.max_degree == srs.prover_param.max_degree
            },
    {
        MercuryUniversalParams::gen_srs_for_testing(tau, g1, g2, nv)
    }

    /// Prover and verifier parameters for a number of variables, which has to
    /// be given.
    pub fn trim(srs: &MercuryUniversalParams, supported_num_vars: Option<usize>) -> (r: Result<
        (MercuryProverParam, MercuryVerifierParam),
        PCSError,
    >)
        requires
            srs.wf(),
        ensures
            r is Ok <==> (supported_num_vars matches Some(nv) && mu_ok(nv as int) && p2(nv as int)
                - 1 <= srs.prover_param.max_degree),
            r matches Err(e) ==> e is InvalidParameters,
            r matches Ok((ck, vk)) ==> {
                &&& ck.wf()
                &&& supported_num_vars matches Some(nv) && ck.max_degree == p2(nv as int) - 1
                &&& ck.g1_powers@ == srs.prover_param.g1_powers@.take(ck.max_degree + 1)
                &&& vk.g1_one == srs.prover_param.g1_powers@[0]
                &&& vk.g2_one == srs.verifier_param.g2_one
                &&& vk.g2_tau == srs.verifier_param.g2_tau
                &&& vk.max_degree == ck.max_degree
            },
    {
        match supported_num_vars {
            None => Err(invalid_parameters("need num_var")),
            Some(nv) => {
                let (t, b, b_row, n) = mercury_dims(nv)?;
                srs.trim(n - 1)
            },
        }
    }

    /// Commits to a polynomial.
    pub fn commit(pp: &MercuryProverParam, poly: &Mle) -> (r: Result<G1, PCSError>)
        requires
            pp.wf(),
            poly.wf(),
        ensures
            r is Ok <==> mu_ok(poly.num_vars as int) && pp.max_degree >= p2(poly.num_vars as int)
                - 1,
            r matches Err(e) ==> e is InvalidParameters,
            r matches Ok(c) ==> c@ == committed(pp.key(), poly.table()),
    {
        let (t, b, b_row, n) = mercury_dims(poly.num_vars)?;
        if pp.max_degree < n - 1 {
            return Err(invalid_parameters("SRS max degree insufficient"));
        }
        pp.commit(poly.evaluations.as_slice())
    }

    /// Opens a polynomial at a point with a commitment that was made before.
    pub fn open_with_commitment(
        pp: &MercuryProverParam,
        poly: &Mle,
        point: &[Scalar],
        commitment: &G1,
    ) -> (r: Result<(MercuryProof, Scalar), PCSError>)
        requires
            pp.wf(),
            poly.wf(),
        ensures
            !request_ok(pp, poly, point@) ==> (r matches Err(e) && e is InvalidParameters),
            request_ok(pp, poly, point@) ==> is_opening(pp, poly, point@, commitment@, r),
    {
        let nv: usize = poly.num_vars;
        let (t, b, b_row, n) = mercury_dims(nv)?;
        if point.len() != nv {
            return Err(invalid_parameters("point length differs from mu"));
        }
        let value = match poly.evaluate(point) {
            Some(v) => v,
            None => {
                return Err(invalid_parameters("evaluation failed"));
            },
        };
        let mut tr: IOPTranscript = IOPTranscript::new("mercury-mlpcs-v1");
        append_statement(&mut tr, t, b, commitment, point, &value);
        let opening = mercury_core_open(
            pp,
            poly.evaluations.as_slice(),
            point,
            &value,
            &mut tr,
        );
        let ghost end = tr@;
        proof {
            use_type_invariant(&tr);
            tr.lemma_course();
        }
        match opening {
            Ok(proof) => {
                let r: Result<(MercuryProof, Scalar), PCSError> = Ok((proof, value));
                assert(request_ok(pp, poly, point@) ==> opened(
                    end,
                    pp,
                    poly,
                    vals(point@),
                    commitment@,
                    r,
                ));
                r
            },
            Err(e) => {
                let r: Result<(MercuryProof, Scalar), PCSError> = Err(e);
                assert(request_ok(pp, poly, point@) ==> opened(
                    end,
                    pp,
                    poly,
                    vals(point@),
                    commitment@,
                    r,
                ));
                r
            },
        }
    }

    /// Opens a polynomial at a point.
    pub fn open(pp: &MercuryProverParam, poly: &Mle, point: &[Scalar]) -> (r: Result<
        (MercuryProof, Scalar),
        PCSError,
    >)
        requires
            pp.wf(),
            poly.wf(),
        ensures
            !request_ok(pp, poly, point@) ==> (r matches Err(e) && e is InvalidParameters),
            request_ok(pp, poly, point@) ==> is_opening(
                pp,
                poly,
                point@,
                committed(pp.key(), poly.table()),
                r,
            ),
            1 <= poly.num_vars && point@.len() == poly.num_vars && p2(poly.num_vars as int) - 1
                <= pp.max_degree ==> (r matches Err(e) ==> e is InvalidProof),
    {
        let (t, b, b_row, n) = mercury_dims(poly.num_vars)?;
        if point.len() != poly.num_vars {
            return Err(invalid_parameters("point length differs from mu"));
        }
        let commitment = Self::commit(pp, poly)?;
        Self::open_with_commitment(pp, poly, point, &commitment)
    }

    /// Verifies a proof.
    pub fn verify(
        vp: &MercuryVerifierParam,
        com: &G1,
        point: &[Scalar],
        value: &Scalar,
        proof: &MercuryProof,
    ) -> (r: Result<bool, PCSError>)
        ensures
            !verification_ok(vp, point@, proof) ==> (r matches Err(e) && e is InvalidProof),
            verification_ok(vp, point@, proof) ==> is_verification(
                vp,
                com@,
                point@,
                value@,
                proof,
                r,
            ),
    {
        let mut tr: IOPTranscript = IOPTranscript::new("mercury-mlpcs-v1");
        let r = mercury_core_verify(vp, com, point, value, proof, &mut tr);
        proof {
            use_type_invariant(&tr);
            tr.lemma_course();
        }
        assert(verification_ok(vp, point@, proof) ==> verified(
            fresh_log(),
            tr@,
            vp,
            com@,
            vals(point@),
            value@,
            proof,
            r,
        ));
        r
    }
}

} // verus!
