//! Nested reciprocal grid KZG: a multilinear commitment scheme that views the
//! table of a polynomial as a matrix `F[i, j]`, closes two nested reciprocal
//! inner-product arguments, and opens the bivariate twin
//! `f(X, Y) = sum F[i, j] X^i Y^j` on the grid `{r, 1/r} x {s, 1/s}` with one
//! aggregated KZG proof.
//!
//! The scheme provides neither hiding nor zero knowledge.

pub mod batch;
pub mod laws;
pub mod model;
pub mod roundtrip;
pub mod serving;
pub mod soundness;

use crate::bdfg::poly_eval;
use crate::carina::srs::{
    base_position, collected, is_grid_key, layout, lemma_base_of_position, lemma_grid_dims,
    lemma_position_of_base, sigma_bases, split_exponents, tau_bases, CarinaProverParam,
    CarinaUniversalParams, CarinaVerifierParam,
};
use crate::dims::{copy_scalars, lemma_column, lemma_row_major, lemma_split};
use crate::errors::{invalid_parameters, invalid_proof, invalid_prover, PCSError};
use crate::field::{fadd, finv, fmul, fneg, fsub, is_inverse, vals, Scalar};
use crate::grid::{block, combine_scalars, fold_rows, fold_table, law_two_stage_evaluation};
use crate::group::{logs, logs2, pairing_check, G1, G2};
use crate::laurent::{sym_witness, symmetric_witness};
use crate::nested_grid_kzg::laws::{honest_setting, lemma_grid_exact, lemma_witnesses_exact};
use crate::nested_grid_kzg::model::{
    adjusted, combined_commitment, g_poly, grid_exact, grid_interp, honest_opening, honest_proof,
    honest_values, is_honest_run, is_honest_stop, is_run, is_stopped_run, is_verdict, left_part,
    less_line, pi_x_scalars, pi_y_bases, pi_y_scalars, quotient_x, recovered, remainder_0,
    remainder_1, restrict, right_part, s0_poly, s1_poly, stated, verdict, with_statement,
    witness_exact, GridInterp, NrgChallenges, NrgKey, NrgProof, NrgRun,
};
use crate::poly::{dot, feval, invertible, lemma_dot_ext};
use crate::quadratic::{
    div_by_monic_quadratic, quad_at, quad_quotient, quad_rem0, quad_rem1, two_point_remainder,
};
use crate::tensor::{build_eq_vec, eq_vec, eval_tensor, inner_product, mle_eval, p2, Mle};
use crate::transcript::{
    draw_nonzero, draw_reciprocal, is_course, vector_fits, Entry, IOPTranscript,
};
use vstd::arithmetic::power2::pow2;
use vstd::utf8::is_ascii_chars_encode_utf8;
use vstd::prelude::*;

verus! {

/// Universal parameters of the scheme: the grid key.
pub type NestedGridKzgUniversalParams = CarinaUniversalParams;

/// Prover parameters of the scheme.
pub type NestedGridKzgProverParam = CarinaProverParam;

/// Verifier parameters of the scheme.
pub type NestedGridKzgVerifierParam = CarinaVerifierParam;

/// Whether a number of variables is supported.
pub open spec fn mu_ok(mu: int) -> bool {
    4 <= mu < usize::BITS
}

/// Rejects a number of variables that is not supported.
pub fn check_mu(mu: usize) -> (r: Result<(), PCSError>)
    ensures
        r is Ok <==> mu_ok(mu as int),
        r matches Err(e) ==> e is InvalidParameters,
{
    if mu < 4 {
        return Err(invalid_parameters("nested-grid-kzg requires mu >= 4"));
    }
    if mu >= usize::BITS as usize {
        return Err(invalid_parameters("mu exceeds platform word size"));
    }
    Ok(())
}

/// A table `evals[i + M_L j]` in the order of the key.
pub fn layout_scalars(pp: &NestedGridKzgProverParam, evals: &[Scalar]) -> (r: Vec<Scalar>)
    requires
        pp.dims(),
        evals@.len() == pow2(pp.num_vars as nat),
    ensures
        vals(r@) == layout(vals(evals@), pp.ml(), pp.mr()),
        r@.len() == evals@.len(),
{
    let big_ml: usize = pp.big_ml();
    let big_mr: usize = pp.big_mr();
    proof {
        lemma_grid_dims(pp.num_vars as int);
    }
    let n: usize = big_ml * big_mr;
    let ghost lay = layout(vals(evals@), pp.ml(), pp.mr());
    let mut scalars: Vec<Scalar> = Vec::new();
    let mut p: usize = 0;
    while p < n
        invariant
            p <= n,
            n == big_ml * big_mr,
            3 <= big_ml,
            (big_ml - 2) * big_mr <= usize::MAX,
            evals@.len() == n,
            lay == layout(vals(evals@), big_ml as int, big_mr as int),
            scalars@.len() == p,
            forall|k: int| 0 <= k < p ==> (#[trigger] scalars@[k])@ == lay[k],
        decreases n - p,
    {
        let (i, j) = crate::carina::srs::inv_base_index(big_ml, big_mr, p);
        proof {
            lemma_base_of_position(big_ml as int, big_mr as int, p as int);
            lemma_row_major(big_ml as int, big_mr as int, i as int, j as int);
            assert(big_ml * j == j * big_ml) by (nonlinear_arith);
        }
        scalars.push(evals[i + big_ml * j]);
        p = p + 1;
    }
    assert(vals(scalars@) =~= lay);
    scalars
}

/// The witness `S` of the inner product of `a` with the eq vector of `p`.
pub fn reciprocal_witness(a: &[Scalar], p: &[Scalar], m: usize) -> (s: Vec<Scalar>)
    requires
        m < usize::BITS,
        2 * p2(m as int) <= usize::MAX,
        a@.len() == p2(m as int),
        m <= p@.len(),
    ensures
        vals(s@) == sym_witness(vals(a@), vals(p@), m as int),
        s@.len() == p2(m as int) - 1,
{
    symmetric_witness(a, p, m)
}

/// `g[i] = sum_j F[i, j] psi_R[j]`.
pub fn compute_g(evals: &[Scalar], psi_r: &[Scalar], big_ml: usize, big_mr: usize) -> (g: Vec<
    Scalar,
>)
    requires
        evals@.len() == big_ml * big_mr,
        psi_r@.len() == big_mr,
    ensures
        vals(g@) == fold_rows(vals(evals@), vals(psi_r@), big_ml as int, big_mr as int),
        g@.len() == big_ml,
{
    fold_table(evals, psi_r, big_ml, big_mr)
}

/// The coefficients of `f(r, Y)` and `f(1/r, Y)`.
pub fn compute_restrictions(
    evals: &[Scalar],
    r: Scalar,
    r_inv: Scalar,
    big_ml: usize,
    big_mr: usize,
) -> (h: (Vec<Scalar>, Vec<Scalar>))
    requires
        evals@.len() == big_ml * big_mr,
    ensures
        vals(h.0@) == restrict(vals(evals@), big_ml as int, big_mr as int, r@),
        vals(h.1@) == restrict(vals(evals@), big_ml as int, big_mr as int, r_inv@),
        h.0@.len() == big_mr,
        h.1@.len() == big_mr,
{
    let total: usize = evals.len();
    let ghost f = vals(evals@);
    let mut h_plus: Vec<Scalar> = Vec::new();
    let mut h_minus: Vec<Scalar> = Vec::new();
    let mut j: usize = 0;
    while j < big_mr
        invariant
            j <= big_mr,
            evals@.len() == total == big_ml * big_mr,
            f == vals(evals@),
            h_plus@.len() == j,
            h_minus@.len() == j,
            forall|k: int|
                0 <= k < j ==> (#[trigger] h_plus@[k])@ == feval(block(f, big_ml as int, k), r@),
            forall|k: int|
                0 <= k < j ==> (#[trigger] h_minus@[k])@ == feval(
                    block(f, big_ml as int, k),
                    r_inv@,
                ),
        decreases big_mr - j,
    {
        proof {
            lemma_column(big_ml as int, big_mr as int, j as int);
        }
        let col = vstd::slice::slice_subrange(evals, big_ml * j, big_ml * j + big_ml);
        assert(vals(col@) =~= block(f, big_ml as int, j as int));
        h_plus.push(poly_eval(col, r));
        h_minus.push(poly_eval(col, r_inv));
        j = j + 1;
    }
    assert(vals(h_plus@) =~= restrict(f, big_ml as int, big_mr as int, r@));
    assert(vals(h_minus@) =~= restrict(f, big_ml as int, big_mr as int, r_inv@));
    (h_plus, h_minus)
}

/// The values that a proof discloses.
#[derive(Clone, Copy, Debug)]
pub struct GridValues {
    pub a_plus: Scalar,
    pub a_minus: Scalar,
    pub t0_plus: Scalar,
    pub v_pp: Scalar,
    pub v_pn: Scalar,
    pub v_np: Scalar,
    pub v_nn: Scalar,
    pub t1_plus: Scalar,
}

impl GridValues {
    /// The views of the values, beside no commitments.
    pub open spec fn model(&self) -> NrgProof {
        NrgProof {
            cm_s0: 0,
            cm_s1: 0,
            pi_x: 0,
            pi_y: 0,
            a_plus: self.a_plus@,
            a_minus: self.a_minus@,
            t0_plus: self.t0_plus@,
            v_pp: self.v_pp@,
            v_pn: self.v_pn@,
            v_np: self.v_np@,
            v_nn: self.v_nn@,
            t1_plus: self.t1_plus@,
        }
    }
}

/// The challenges of a run, with the inverses of two of them.
#[derive(Clone, Copy, Debug)]
pub struct GridChallenges {
    pub r: Scalar,
    pub r_inv: Scalar,
    pub lambda: Scalar,
    pub s: Scalar,
    pub s_inv: Scalar,
    pub eta: Scalar,
}

impl GridChallenges {
    pub open spec fn wf(&self) -> bool {
        &&& self.r_inv@ == finv(self.r@)
        &&& self.s_inv@ == finv(self.s@)
    }

    pub open spec fn model(&self) -> NrgChallenges {
        NrgChallenges { r: self.r@, lambda: self.lambda@, s: self.s@, eta: self.eta@ }
    }
}

/// The interpolants on the grid: `I = i0[0] + i0[1] Y + (i1[0] + i1[1] Y) X`,
/// `L0 = l0[0] + l0[1] X` and `L1 = l1[0] + l1[1] Y`.
#[derive(Clone, Copy, Debug)]
pub struct GridLines {
    pub i0: [Scalar; 2],
    pub i1: [Scalar; 2],
    pub l0: [Scalar; 2],
    pub l1: [Scalar; 2],
}

impl GridLines {
    pub open spec fn model(&self) -> GridInterp {
        GridInterp {
            i00: self.i0@[0]@,
            i01: self.i0@[1]@,
            i10: self.i1@[0]@,
            i11: self.i1@[1]@,
            l00: self.l0@[0]@,
            l01: self.l0@[1]@,
            l10: self.l1@[0]@,
            l11: self.l1@[1]@,
        }
    }
}

/// `x (a_+ psi(1/x) + a_- psi(x) - 2 y - x t)`.
fn recover(
    x: Scalar,
    a_plus: Scalar,
    a_minus: Scalar,
    psi_x: Scalar,
    psi_xinv: Scalar,
    y: Scalar,
    t: Scalar,
) -> (r: Scalar)
    ensures
        r@ == recovered(x@, a_plus@, a_minus@, psi_x@, psi_xinv@, y@, t@),
{
    x.mul(a_plus.mul(psi_xinv).add(a_minus.mul(psi_x)).sub(y.double()).sub(x.mul(t)))
}

/// The interpolants that the disclosed values determine.
pub fn interpolate_grid(
    u_l: &[Scalar],
    u_r: &[Scalar],
    value: Scalar,
    v: &GridValues,
    c: &GridChallenges,
) -> (res: Result<GridLines, PCSError>)
    requires
        c.wf(),
    ensures
        res is Ok <==> c.r@ != c.r_inv@ && c.s@ != c.s_inv@,
        res matches Err(e) ==> e is InvalidProof,
        res matches Ok(g) ==> {
            &&& g.model() == grid_interp(
                vals(u_l@),
                vals(u_r@),
                value@,
                v.model(),
                c.model(),
            )
            &&& invertible(fsub(c.r_inv@, c.r@))
            &&& invertible(fsub(c.s_inv@, c.s@))
        },
{
    let psi_l_r = eval_tensor(u_l, c.r);
    let psi_l_rinv = eval_tensor(u_l, c.r_inv);
    let psi_r_s = eval_tensor(u_r, c.s);
    let psi_r_sinv = eval_tensor(u_r, c.s_inv);
    let t0_minus = recover(c.r, v.a_plus, v.a_minus, psi_l_r, psi_l_rinv, value, v.t0_plus);
    let a_lambda = v.a_plus.add(c.lambda.mul(v.a_minus));
    let h_s = v.v_pp.add(c.lambda.mul(v.v_np));
    let h_s_inv = v.v_pn.add(c.lambda.mul(v.v_nn));
    let t1_minus = recover(c.s, h_s, h_s_inv, psi_r_s, psi_r_sinv, a_lambda, v.t1_plus);
    let px_s = two_point_remainder(c.r, v.v_pp, c.r_inv, v.v_np)?;
    let px_sinv = two_point_remainder(c.r, v.v_pn, c.r_inv, v.v_nn)?;
    let i0 = two_point_remainder(c.s, px_s[0], c.s_inv, px_sinv[0])?;
    let i1 = two_point_remainder(c.s, px_s[1], c.s_inv, px_sinv[1])?;
    let l0 = two_point_remainder(c.r, v.t0_plus, c.r_inv, t0_minus)?;
    let l1 = two_point_remainder(c.s, v.t1_plus, c.s_inv, t1_minus)?;
    Ok(GridLines { i0, i1, l0, l1 })
}

/// Column `j` of `f - I`.
fn adjusted_column(evals: &[Scalar], big_ml: usize, big_mr: usize, j: usize, g: &GridLines) -> (r:
    Vec<Scalar>)
    requires
        2 <= big_ml,
        j < big_mr,
        evals@.len() == big_ml * big_mr,
    ensures
        vals(r@) == adjusted(vals(evals@), big_ml as int, j as int, g.model()),
        r@.len() == big_ml,
{
    let total: usize = evals.len();
    let ghost f = vals(evals@);
    proof {
        lemma_column(big_ml as int, big_mr as int, j as int);
    }
    assert(total == big_ml * big_mr);
    let start: usize = big_ml * j;
    let mut col = copy_scalars(vstd::slice::slice_subrange(evals, start, start + big_ml));
    assert(vals(col@) =~= block(f, big_ml as int, j as int));
    if j == 0 {
        let c0 = col[0].sub(g.i0[0]);
        let c1 = col[1].sub(g.i1[0]);
        col.set(0, c0);
        col.set(1, c1);
    } else if j == 1 {
        let c0 = col[0].sub(g.i0[1]);
        let c1 = col[1].sub(g.i1[1]);
        col.set(0, c0);
        col.set(1, c1);
    }
    assert(vals(col@) =~= adjusted(f, big_ml as int, j as int, g.model()));
    col
}

/// Divides `f - I` by the two divisors: the quotient in `X`, and the quotients
/// in `Y` of both parts of the remainder. Fails where a remainder is left.
pub fn divide_grid(
    evals: &[Scalar],
    g: &GridLines,
    p_r: Scalar,
    q_s: Scalar,
    big_ml: usize,
    big_mr: usize,
) -> (r: Result<(Vec<Scalar>, Vec<Scalar>, Vec<Scalar>), PCSError>)
    requires
        3 <= big_ml,
        2 <= big_mr,
        evals@.len() == big_ml * big_mr,
    ensures
        r is Ok <==> grid_exact(
            vals(evals@),
            big_ml as int,
            big_mr as int,
            g.model(),
            p_r@,
            q_s@,
        ),
        r matches Err(e) ==> e is InvalidProver,
        r matches Ok(q) ==> {
            let f = vals(evals@);
            let ml = big_ml as int;
            let mr = big_mr as int;
            &&& vals(q.0@) == quotient_x(f, ml, mr, g.model(), p_r@)
            &&& vals(q.1@) == quad_quotient(remainder_0(f, ml, mr, g.model(), p_r@), q_s@)
            &&& vals(q.2@) == quad_quotient(remainder_1(f, ml, mr, g.model(), p_r@), q_s@)
        },
{
    let ghost f = vals(evals@);
    let ghost ml = big_ml as int;
    let ghost mr = big_mr as int;
    let ghost gi = g.model();
    let ghost w = ml - 2;
    let mut qx: Vec<Scalar> = Vec::new();
    let mut r0_col: Vec<Scalar> = Vec::new();
    let mut r1_col: Vec<Scalar> = Vec::new();
    let mut j: usize = 0;
    while j < big_mr
        invariant
            j <= big_mr,
            3 <= big_ml,
            evals@.len() == big_ml * big_mr,
            f == vals(evals@),
            ml == big_ml,
            mr == big_mr,
            w == ml - 2,
            gi == g.model(),
            qx@.len() == w * j,
            r0_col@.len() == j,
            r1_col@.len() == j,
            forall|k: int|
                0 <= k < w * j ==> (#[trigger] qx@[k])@ == quad_at(
                    adjusted(f, ml, k / w, gi),
                    p_r@,
                    k % w,
                ),
            forall|k: int|
                0 <= k < j ==> (#[trigger] r0_col@[k])@ == quad_rem0(adjusted(f, ml, k, gi), p_r@),
            forall|k: int|
                0 <= k < j ==> (#[trigger] r1_col@[k])@ == quad_rem1(adjusted(f, ml, k, gi), p_r@),
        decreases big_mr - j,
    {
        let col = adjusted_column(evals, big_ml, big_mr, j, g);
        let (q, rem) = div_by_monic_quadratic(col.as_slice(), p_r);
        let ghost before = qx@;
        let mut i: usize = 0;
        while i < q.len()
            invariant
                i <= q@.len(),
                q@.len() == w,
                before.len() == w * j,
                qx@ =~= before + q@.take(i as int),
            decreases q@.len() - i,
        {
            qx.push(q[i]);
            i = i + 1;
        }
        proof {
            assert(q@.take(w) =~= q@);
            assert(w * (j + 1) == w * j + w) by (nonlinear_arith);
            assert forall|k: int| 0 <= k < w * (j + 1) implies (#[trigger] qx@[k])@ == quad_at(
                adjusted(f, ml, k / w, gi),
                p_r@,
                k % w,
            ) by {
                if k < w * j {
                    assert(qx@[k] == before[k]);
                } else {
                    lemma_row_major(w, mr, k - w * j, j as int);
                    assert(w * j == j * w) by (nonlinear_arith);
                    assert(qx@[k] == q@[k - w * j]);
                    assert(vals(q@)[k - w * j] == q@[k - w * j]@);
                }
            }
        }
        r0_col.push(rem[0]);
        r1_col.push(rem[1]);
        j = j + 1;
    }
    assert(vals(qx@) =~= quotient_x(f, ml, mr, gi, p_r@));
    assert(vals(r0_col@) =~= remainder_0(f, ml, mr, gi, p_r@));
    assert(vals(r1_col@) =~= remainder_1(f, ml, mr, gi, p_r@));
    let (q_y0, rem_y0) = div_by_monic_quadratic(r0_col.as_slice(), q_s);
    let (q_y1, rem_y1) = div_by_monic_quadratic(r1_col.as_slice(), q_s);
    if !rem_y0[0].is_zero() || !rem_y0[1].is_zero() || !rem_y1[0].is_zero()
        || !rem_y1[1].is_zero() {
        return Err(
            invalid_prover("grid quotient remainder is nonzero (f-I not in <Z_A,Z_B>)"),
        );
    }
    Ok((qx, q_y0, q_y1))
}

/// The quotient of a witness less its line by the divisor. Fails where a
/// remainder is left.
pub fn divide_witness(s: &[Scalar], l: &[Scalar; 2], p: Scalar) -> (r: Result<
    Vec<Scalar>,
    PCSError,
>)
    requires
        2 <= s@.len(),
    ensures
        r is Ok <==> witness_exact(vals(s@), l@[0]@, l@[1]@, p@),
        r matches Err(e) ==> e is InvalidProver,
        r matches Ok(w) ==> vals(w@) == quad_quotient(
            less_line(vals(s@), l@[0]@, l@[1]@),
            p@,
        ) && w@.len() == s@.len() - 2,
{
    let mut m = copy_scalars(s);
    let m0 = m[0].sub(l[0]);
    let m1 = m[1].sub(l[1]);
    m.set(0, m0);
    m.set(1, m1);
    assert(vals(m@) =~= less_line(vals(s@), l@[0]@, l@[1]@));
    let (w, rem) = div_by_monic_quadratic(m.as_slice(), p);
    if !rem[0].is_zero() || !rem[1].is_zero() {
        return Err(invalid_prover("witness less its interpolant is not divisible"));
    }
    Ok(w)
}

/// Commitment over the bases `[tau^i]`.
fn commit_in_x(pp: &NestedGridKzgProverParam, s: &[Scalar]) -> (r: Result<G1, PCSError>)
    requires
        pp.dims(),
        pp.g1_powers@.len() >= pow2(pp.num_vars as nat),
        s@.len() <= pp.ml(),
    ensures
        r matches Ok(c) && c@ == dot(
            tau_bases(pp.key(), pp.ml(), pp.mr()),
            vals(s@),
            s@.len() as int,
        ),
{
    proof {
        lemma_grid_dims(pp.num_vars as int);
    }
    let ghost ml = pp.ml();
    let ghost mr = pp.mr();
    let mut indices: Vec<usize> = Vec::new();
    let mut i: usize = 0;
    while i < s.len()
        invariant
            i <= s@.len() <= ml,
            pp.dims(),
            ml == pp.ml(),
            mr == pp.mr(),
            3 <= ml,
            1 <= mr,
            indices@.len() == i,
            forall|k: int|
                0 <= k < i ==> #[trigger] indices@[k] == base_position(ml, mr, k, 0) && indices@[k]
                    < ml * mr,
        decreases s@.len() - i,
    {
        proof {
            lemma_position_of_base(ml, mr, i as int, 0);
        }
        indices.push(pp.base_index(i, 0));
        i = i + 1;
    }
    proof {
        lemma_dot_ext(
            collected(pp.key(), indices@),
            tau_bases(pp.key(), ml, mr),
            vals(s@),
            vals(s@),
            s@.len() as int,
        );
    }
    pp.msm_collected(indices.as_slice(), s)
}

/// Commitment over the bases `[sigma^j]`.
fn commit_in_y(pp: &NestedGridKzgProverParam, s: &[Scalar]) -> (r: Result<G1, PCSError>)
    requires
        pp.dims(),
        pp.g1_powers@.len() >= pow2(pp.num_vars as nat),
        s@.len() <= pp.mr(),
    ensures
        r matches Ok(c) && c@ == dot(
            sigma_bases(pp.key(), pp.ml(), pp.mr()),
            vals(s@),
            s@.len() as int,
        ),
{
    proof {
        lemma_grid_dims(pp.num_vars as int);
    }
    let ghost ml = pp.ml();
    let ghost mr = pp.mr();
    let mut indices: Vec<usize> = Vec::new();
    let mut j: usize = 0;
    while j < s.len()
        invariant
            j <= s@.len() <= mr,
            pp.dims(),
            ml == pp.ml(),
            mr == pp.mr(),
            3 <= ml,
            indices@.len() == j,
            forall|k: int|
                0 <= k < j ==> #[trigger] indices@[k] == base_position(ml, mr, 0, k) && indices@[k]
                    < ml * mr,
        decreases s@.len() - j,
    {
        proof {
            lemma_position_of_base(ml, mr, 0, j as int);
        }
        indices.push(pp.base_index(0, j));
        j = j + 1;
    }
    proof {
        lemma_dot_ext(
            collected(pp.key(), indices@),
            sigma_bases(pp.key(), ml, mr),
            vals(s@),
            vals(s@),
            s@.len() as int,
        );
    }
    pp.msm_collected(indices.as_slice(), s)
}

/// `Pi_X = [Q_X + eta W0]`, over the prefix of the key.
fn commit_pi_x(pp: &NestedGridKzgProverParam, qx: &[Scalar], w0: &[Scalar], eta: Scalar) -> (r:
    Result<G1, PCSError>)
    requires
        w0@.len() <= qx@.len() <= pp.g1_powers@.len(),
    ensures
        r matches Ok(c) && c@ == dot(
            pp.key(),
            pi_x_scalars(vals(qx@), vals(w0@), eta@),
            qx@.len() as int,
        ),
{
    let mut scalars = copy_scalars(qx);
    let mut i: usize = 0;
    while i < w0.len()
        invariant
            i <= w0@.len() <= qx@.len(),
            scalars@.len() == qx@.len(),
            forall|k: int|
                0 <= k < i ==> (#[trigger] scalars@[k])@ == fadd(qx@[k]@, fmul(eta@, w0@[k]@)),
            forall|k: int| i <= k < qx@.len() ==> (#[trigger] scalars@[k])@ == qx@[k]@,
        decreases w0@.len() - i,
    {
        let v = scalars[i].add(eta.mul(w0[i]));
        scalars.set(i, v);
        i = i + 1;
    }
    assert(vals(scalars@) =~= pi_x_scalars(vals(qx@), vals(w0@), eta@));
    pp.msm_prefix(scalars.as_slice())
}

/// `Pi_Y = [Q_Y + eta^2 W1]`, over the bases `[sigma^j]` and `[tau sigma^j]`.
fn commit_pi_y(
    pp: &NestedGridKzgProverParam,
    q_y0: &[Scalar],
    q_y1: &[Scalar],
    w1: &[Scalar],
    eta2: Scalar,
) -> (r: Result<G1, PCSError>)
    requires
        pp.dims(),
        pp.g1_powers@.len() >= pow2(pp.num_vars as nat),
        q_y0@.len() == q_y1@.len() == pp.mr() - 2,
    ensures
        r matches Ok(c) && c@ == dot(
            pi_y_bases(pp.key(), pp.ml(), pp.mr()),
            pi_y_scalars(vals(q_y0@), vals(q_y1@), vals(w1@), eta2@, pp.mr()),
            2 * (pp.mr() - 2),
        ),
{
    proof {
        lemma_grid_dims(pp.num_vars as int);
    }
    let ghost ml = pp.ml();
    let ghost mr = pp.mr();
    let ghost spec_scalars = pi_y_scalars(vals(q_y0@), vals(q_y1@), vals(w1@), eta2@, mr);
    let mut indices: Vec<usize> = Vec::new();
    let mut scalars: Vec<Scalar> = Vec::new();
    let mut j: usize = 0;
    while j < q_y0.len()
        invariant
            j <= q_y0@.len(),
            q_y0@.len() == q_y1@.len() == mr - 2,
            pp.dims(),
            ml == pp.ml(),
            mr == pp.mr(),
            3 <= ml,
            spec_scalars == pi_y_scalars(vals(q_y0@), vals(q_y1@), vals(w1@), eta2@, mr),
            indices@.len() == 2 * j,
            scalars@.len() == 2 * j,
            forall|k: int|
                0 <= k < 2 * j ==> #[trigger] indices@[k] == base_position(ml, mr, k % 2, k / 2)
                    && indices@[k] < ml * mr,
            forall|k: int| 0 <= k < 2 * j ==> (#[trigger] scalars@[k])@ == spec_scalars[k],
        decreases q_y0@.len() - j,
    {
        proof {
            lemma_position_of_base(ml, mr, 0, j as int);
            lemma_position_of_base(ml, mr, 1, j as int);
        }
        let mut c0 = q_y0[j];
        if j < w1.len() {
            c0 = c0.add(eta2.mul(w1[j]));
        }
        indices.push(pp.base_index(0, j));
        scalars.push(c0);
        indices.push(pp.base_index(1, j));
        scalars.push(q_y1[j]);
        j = j + 1;
    }
    proof {
        assert(vals(scalars@) =~= spec_scalars);
        lemma_dot_ext(
            collected(pp.key(), indices@),
            pi_y_bases(pp.key(), ml, mr),
            spec_scalars,
            spec_scalars,
            2 * (mr - 2),
        );
    }
    pp.msm_collected(indices.as_slice(), scalars.as_slice())
}

/// A proof of an opening.
#[derive(Clone, Copy, Debug, PartialEq)]
pub struct NestedGridKzgProof {
    /// `[S_0(tau)]`.
    pub cm_s0: G1,
    /// `[S_1(sigma)]`.
    pub cm_s1: G1,
    /// `[Q_X + eta W_0]`.
    pub pi_x: G1,
    /// `[Q_Y + eta^2 W_1]`.
    pub pi_y: G1,
    /// `g(r)`.
    pub a_plus: Scalar,
    /// `g(1/r)`.
    pub a_minus: Scalar,
    /// `S_0(r)`.
    pub t0_plus: Scalar,
    /// `f(r, s)`.
    pub v_pp: Scalar,
    /// `f(r, 1/s)`.
    pub v_pn: Scalar,
    /// `f(1/r, s)`.
    pub v_np: Scalar,
    /// `f(1/r, 1/s)`.
    pub v_nn: Scalar,
    /// `S_1(s)`.
    pub t1_plus: Scalar,
    /// Number of variables.
    pub mu: u32,
}

impl NestedGridKzgProof {
    /// The views of the commitments and values.
    pub open spec fn model(&self) -> NrgProof {
        NrgProof {
            cm_s0: self.cm_s0@,
            cm_s1: self.cm_s1@,
            pi_x: self.pi_x@,
            pi_y: self.pi_y@,
            a_plus: self.a_plus@,
            a_minus: self.a_minus@,
            t0_plus: self.t0_plus@,
            v_pp: self.v_pp@,
            v_pn: self.v_pn@,
            v_np: self.v_np@,
            v_nn: self.v_nn@,
            t1_plus: self.t1_plus@,
        }
    }

    /// Size in bytes of the commitments and values: four points of G1 and
    /// eight scalars.
    pub fn cryptographic_payload_bytes(&self) -> (r: usize)
        ensures
            r == 4 * 48 + 8 * 32,
    {
        4 * self.cm_s0.compressed_size() + 8 * self.a_plus.compressed_size()
    }

    fn values(&self) -> (r: GridValues)
        ensures
            r.model() == (NrgProof { cm_s0: 0, cm_s1: 0, pi_x: 0, pi_y: 0, ..self.model() }),
    {
        GridValues {
            a_plus: self.a_plus,
            a_minus: self.a_minus,
            t0_plus: self.t0_plus,
            v_pp: self.v_pp,
            v_pn: self.v_pn,
            v_np: self.v_np,
            v_nn: self.v_nn,
            t1_plus: self.t1_plus,
        }
    }
}

/// Appends the statement to a transcript.
pub fn append_statement(
    t: &mut IOPTranscript,
    mu: usize,
    m_left: usize,
    m_right: usize,
    cm_f: &G1,
    point: &[Scalar],
    value: &Scalar,
)
    requires
        vector_fits(point@.len() as int),
    ensures
        final(t)@ == with_statement(
            old(t)@,
            mu as int,
            m_left as int,
            m_right as int,
            cm_f@,
            vals(point@),
            value@,
        ),
{
    proof {
        reveal_strlit("nested-grid-kzg-v1");
        is_ascii_chars_encode_utf8("nested-grid-kzg-v1"@);
    }
    t.append_message("nrg::version", "nested-grid-kzg-v1");
    t.append_field_element("nrg::mu", &Scalar::from_u64(mu as u64));
    t.append_field_element("nrg::m_left", &Scalar::from_u64(m_left as u64));
    t.append_field_element("nrg::m_right", &Scalar::from_u64(m_right as u64));
    t.append_point("nrg::cm_f", cm_f);
    t.append_field_elements("nrg::point", point);
    t.append_field_element("nrg::value", value);
}

/// The last two commitments of a proof, for given challenges: both quotients
/// of `f - I`, and with them the quotients of the witnesses less their lines.
/// Fails on a challenge that is its own inverse, and where a division leaves a
/// remainder.
pub fn aggregate_quotients(
    pp: &NestedGridKzgProverParam,
    evals: &[Scalar],
    s0: &[Scalar],
    s1: &[Scalar],
    lines: &GridLines,
    c: &GridChallenges,
) -> (r: Result<(G1, G1), PCSError>)
    requires
        pp.dims(),
        evals@.len() == pow2(pp.num_vars as nat),
        pp.g1_powers@.len() >= pow2(pp.num_vars as nat),
        s0@.len() == pp.ml() - 1,
        s1@.len() == pp.mr() - 1,
    ensures
        ({
            let f = vals(evals@);
            let gi = lines.model();
            let pr = fadd(c.r@, c.r_inv@);
            let qs = fadd(c.s@, c.s_inv@);
            &&& r is Ok <==> grid_exact(f, pp.ml(), pp.mr(), gi, pr, qs) && witness_exact(
                vals(s0@),
                gi.l00,
                gi.l01,
                pr,
            ) && witness_exact(vals(s1@), gi.l10, gi.l11, qs)
            &&& r matches Err(e) ==> e is InvalidProver
            &&& r matches Ok(pi) ==> {
                let w0 = quad_quotient(less_line(vals(s0@), gi.l00, gi.l01), pr);
                let w1 = quad_quotient(less_line(vals(s1@), gi.l10, gi.l11), qs);
                let qx = quotient_x(f, pp.ml(), pp.mr(), gi, pr);
                let qy0 = quad_quotient(remainder_0(f, pp.ml(), pp.mr(), gi, pr), qs);
                let qy1 = quad_quotient(remainder_1(f, pp.ml(), pp.mr(), gi, pr), qs);
                &&& pi.0@ == dot(
                    pp.key(),
                    pi_x_scalars(qx, w0, c.eta@),
                    (pp.ml() - 2) * pp.mr(),
                )
                &&& pi.1@ == dot(
                    pi_y_bases(pp.key(), pp.ml(), pp.mr()),
                    pi_y_scalars(qy0, qy1, w1, fmul(c.eta@, c.eta@), pp.mr()),
                    2 * (pp.mr() - 2),
                )
            }
        }),
{
    proof {
        lemma_grid_dims(pp.num_vars as int);
    }
    let big_ml: usize = pp.big_ml();
    let big_mr: usize = pp.big_mr();
    let ghost ml = big_ml as int;
    let ghost mr = big_mr as int;
    let eta2 = c.eta.square();
    let p_r = c.r.add(c.r_inv);
    let q_s = c.s.add(c.s_inv);
    let (q_x, q_y0, q_y1) = divide_grid(evals, lines, p_r, q_s, big_ml, big_mr)?;
    let w0 = divide_witness(s0, &lines.l0, p_r)?;
    let w1 = divide_witness(s1, &lines.l1, q_s)?;
    proof {
        assert(vals(q_x@).len() == (ml - 2) * mr);
        assert(ml - 3 <= (ml - 2) * mr) by (nonlinear_arith)
            requires
                ml >= 4,
                mr >= 4,
        ;
        assert(vals(w0@).len() == w0@.len());
        assert(vals(q_y0@).len() == q_y0@.len());
        assert(vals(q_y1@).len() == q_y1@.len());
        assert(vals(q_x@).len() == q_x@.len());
    }
    let pi_x = commit_pi_x(pp, q_x.as_slice(), w0.as_slice(), c.eta)?;
    let pi_y = commit_pi_y(pp, q_y0.as_slice(), q_y1.as_slice(), w1.as_slice(), eta2)?;
    Ok((pi_x, pi_y))
}

/// Whether the prover's parameters, the polynomial and the point fit together.
pub open spec fn opening_ok(pp: &NestedGridKzgProverParam, poly: &Mle, point: Seq<Scalar>) -> bool {
    &&& mu_ok(poly.num_vars as int)
    &&& pp.num_vars == poly.num_vars
    &&& point.len() == poly.num_vars
    &&& poly.evaluations@.len() == pow2(poly.num_vars as nat)
    &&& pp.g1_powers@.len() >= pow2(poly.num_vars as nat)
}

/// Whether `r` is the result of an opening that leads from the history `log` to
/// the history `end`: the value with the honest proof for the run's challenges,
/// or an error where the draws of a challenge were exhausted.
pub open spec fn opened(
    log: Seq<Entry>,
    end: Seq<Entry>,
    pp: &NestedGridKzgProverParam,
    poly: &Mle,
    point: Seq<Scalar>,
    com: int,
    r: Result<(NestedGridKzgProof, Scalar), PCSError>,
) -> bool {
    match r {
        Ok((proof, value)) => {
            &&& value@ == mle_eval(poly.table(), vals(point))
            &&& proof.mu == poly.num_vars
            &&& honest_opening(
                log,
                end,
                pp.key(),
                poly.table(),
                vals(point),
                com,
                proof.model(),
            )
        },
        Err(e) => e is InvalidParameters && exists|c: NrgChallenges, h: NrgRun| #[trigger]
            is_honest_stop(log, end, pp.key(), poly.table(), vals(point), com, c, h),
    }
}

/// Whether `r` is the result of a verification that leads from the history
/// `log` to the history `end`: the verdict for the run's challenges, or an
/// error where the draws of a challenge were exhausted.
pub open spec fn verified(
    log: Seq<Entry>,
    end: Seq<Entry>,
    vp: &NestedGridKzgVerifierParam,
    com: int,
    point: Seq<Scalar>,
    value: int,
    proof: &NestedGridKzgProof,
    r: Result<bool, PCSError>,
) -> bool {
    match r {
        Ok(ok) => verdict(
            log,
            end,
            key_model(vp),
            com,
            vals(point),
            value,
            proof.model(),
            ok,
        ),
        Err(e) => e is InvalidParameters && exists|c: NrgChallenges, h: NrgRun| #[trigger]
            is_stopped_run(stated(log, com, vals(point), value), end, proof.model(), c, h),
    }
}

/// A drawn pair of inverses is as the divisions need it.
proof fn lemma_drawn_pair(x: int, y: int)
    requires
        fmul(x, x) != 1,
        is_inverse(x, y),
    ensures
        x != y,
        fmul(x, y) == 1,
{
}

/// Opens a polynomial at a point, in a transcript of its own that is fresh.
/// The four challenges come from the transcript; what the proof holds for them
/// is what an honest prover sends.
#[verifier::rlimit(60)]
pub fn nested_grid_open(
    pp: &NestedGridKzgProverParam,
    poly: &Mle,
    point: &[Scalar],
    commitment: &G1,
    t: &mut IOPTranscript,
) -> (r: Result<(NestedGridKzgProof, Scalar), PCSError>)
    requires
        pp.dims(),
    ensures
        !opening_ok(pp, poly, point@) ==> final(t)@ == old(t)@ && (r matches Err(e) && e
            is InvalidParameters),
        opening_ok(pp, poly, point@) ==> opened(
            old(t)@,
            final(t)@,
            pp,
            poly,
            point@,
            commitment@,
            r,
        ),
{
    let mu: usize = poly.num_vars;
    check_mu(mu)?;
    let (m_left, m_right) = split_exponents(mu);
    if pp.num_vars != mu {
        return Err(invalid_parameters("prover param is for another number of variables"));
    }
    if point.len() != mu {
        return Err(invalid_parameters("point length differs from mu"));
    }
    proof {
        lemma_grid_dims(mu as int);
        lemma_split(mu as int);
    }
    let big_ml: usize = pp.big_ml();
    let big_mr: usize = pp.big_mr();
    let n: usize = big_ml * big_mr;
    if poly.evaluations.len() != n {
        return Err(invalid_parameters("wrong number of evaluations"));
    }
    if pp.g1_powers.len() < n {
        return Err(invalid_parameters("SRS G1 length insufficient"));
    }
    let evals = poly.evaluations.as_slice();
    let u_l = vstd::slice::slice_subrange(point, 0, m_left);
    let u_r = vstd::slice::slice_subrange(point, m_left, mu);
    let ghost u = vals(point@);
    let ghost ul = vals(u_l@);
    let ghost ur = vals(u_r@);
    let ghost f = vals(evals@);
    let ghost key = pp.key();
    let ghost ml = big_ml as int;
    let ghost mr = big_mr as int;
    assert(ul =~= left_part(u));
    assert(ur =~= right_part(u));
    assert(u =~= ul + ur);
    let value = match poly.evaluate(point) {
        Some(v) => v,
        None => {
            return Err(invalid_parameters("evaluation failed"));
        },
    };
    append_statement(t, mu, m_left, m_right, commitment, point, &value);
    let ghost start = t@;
    let psi_l = build_eq_vec(u_l, big_ml);
    let psi_r = build_eq_vec(u_r, big_mr);
    assert(vals(psi_l@) =~= eq_vec(ul, m_left as int));
    assert(vals(psi_r@) =~= eq_vec(ur, m_right as int));
    let g = compute_g(evals, psi_r.as_slice(), big_ml, big_mr);
    assert(vals(g@) == g_poly(f, ul, ur));
    let y = inner_product(g.as_slice(), psi_l.as_slice());
    proof {
        law_two_stage_evaluation(f, u, ul, ur);
    }
    if y != value {
        return Err(invalid_prover("claimed value inconsistent with committed polynomial"));
    }
    proof {
        assert(2 * ml <= ml * mr && 2 * mr <= ml * mr) by (nonlinear_arith)
            requires
                ml >= 4,
                mr >= 4,
        ;
    }
    let s0 = reciprocal_witness(g.as_slice(), u_l, m_left);
    assert(vals(s0@) == s0_poly(f, ul, ur));
    let cm_s0 = commit_in_x(pp, s0.as_slice())?;
    t.append_point("nrg::cm_s0", &cm_s0);
    let drawn_r = draw_reciprocal(t, "nrg::r");
    proof {
        if drawn_r is Err {
            let c = NrgChallenges { r: 0, lambda: 0, s: 0, eta: 0 };
            let h = NrgRun { after_r: t@, after_lambda: t@, after_s: t@, after_eta: t@ };
            assert(is_honest_stop(old(t)@, t@, key, f, u, commitment@, c, h));
        }
    }
    let (r, r_inv) = drawn_r?;
    let ghost after_r = t@;
    proof {
        lemma_drawn_pair(r@, r_inv@);
    }
    let a_plus = poly_eval(g.as_slice(), r);
    let a_minus = poly_eval(g.as_slice(), r_inv);
    let t0_plus = poly_eval(s0.as_slice(), r);
    t.append_field_element("nrg::a_plus", &a_plus);
    t.append_field_element("nrg::a_minus", &a_minus);
    t.append_field_element("nrg::t0_plus", &t0_plus);
    let drawn_lambda = draw_nonzero(t, "nrg::lambda");
    proof {
        if drawn_lambda is Err {
            let c = NrgChallenges { r: r@, lambda: 0, s: 0, eta: 0 };
            let h = NrgRun { after_r, after_lambda: t@, after_s: t@, after_eta: t@ };
            assert(is_honest_stop(old(t)@, t@, key, f, u, commitment@, c, h));
        }
    }
    let lambda = drawn_lambda?;
    let ghost after_lambda = t@;
    let (h_plus, h_minus) = compute_restrictions(evals, r, r_inv, big_ml, big_mr);
    let h_comb = combine_scalars(h_plus.as_slice(), h_minus.as_slice(), lambda);
    let s1 = reciprocal_witness(h_comb.as_slice(), u_r, m_right);
    let cm_s1 = commit_in_y(pp, s1.as_slice())?;
    t.append_point("nrg::cm_s1", &cm_s1);
    let drawn_s = draw_reciprocal(t, "nrg::s");
    proof {
        if drawn_s is Err {
            let c = NrgChallenges { r: r@, lambda: lambda@, s: 0, eta: 0 };
            let h = NrgRun { after_r, after_lambda, after_s: t@, after_eta: t@ };
            assert(is_honest_stop(old(t)@, t@, key, f, u, commitment@, c, h));
        }
    }
    let (s, s_inv) = drawn_s?;
    let ghost after_s = t@;
    proof {
        lemma_drawn_pair(s@, s_inv@);
    }
    let v_pp = poly_eval(h_plus.as_slice(), s);
    let v_pn = poly_eval(h_plus.as_slice(), s_inv);
    let v_np = poly_eval(h_minus.as_slice(), s);
    let v_nn = poly_eval(h_minus.as_slice(), s_inv);
    let t1_plus = poly_eval(s1.as_slice(), s);
    t.append_field_element("nrg::v_pp", &v_pp);
    t.append_field_element("nrg::v_pn", &v_pn);
    t.append_field_element("nrg::v_np", &v_np);
    t.append_field_element("nrg::v_nn", &v_nn);
    t.append_field_element("nrg::t1_plus", &t1_plus);
    let drawn_eta = draw_nonzero(t, "nrg::eta");
    proof {
        if drawn_eta is Err {
            let c = NrgChallenges { r: r@, lambda: lambda@, s: s@, eta: 0 };
            let h = NrgRun { after_r, after_lambda, after_s, after_eta: t@ };
            assert(is_honest_stop(old(t)@, t@, key, f, u, commitment@, c, h));
        }
    }
    let eta = drawn_eta?;
    let values = GridValues { a_plus, a_minus, t0_plus, v_pp, v_pn, v_np, v_nn, t1_plus };
    let challenges = GridChallenges { r, r_inv, lambda, s, s_inv, eta };
    let ghost c = challenges.model();
    let ghost hv = honest_values(key, f, ul, ur, c);
    assert(vals(s1@) == s1_poly(f, ul, ur, c));
    let lines = interpolate_grid(u_l, u_r, value, &values, &challenges)?;
    let ghost gi = lines.model();
    assert(gi == grid_interp(ul, ur, value@, hv, c));
    proof {
        assert(honest_setting(f, ul, ur, value@, c));
        lemma_grid_exact(key, f, ul, ur, value@, c);
        lemma_witnesses_exact(key, f, ul, ur, value@, c);
    }
    let (pi_x, pi_y) = aggregate_quotients(
        pp,
        evals,
        s0.as_slice(),
        s1.as_slice(),
        &lines,
        &challenges,
    )?;
    let proof = NestedGridKzgProof {
        cm_s0,
        cm_s1,
        pi_x,
        pi_y,
        a_plus,
        a_minus,
        t0_plus,
        v_pp,
        v_pn,
        v_np,
        v_nn,
        t1_plus,
        mu: mu as u32,
    };
    proof {
        let h = NrgRun { after_r, after_lambda, after_s, after_eta: t@ };
        assert(proof.model() == honest_proof(key, f, ul, ur, value@, c));
        assert(is_run(start, proof.model(), c, h));
        assert(is_honest_run(old(t)@, key, f, u, commitment@, proof.model(), c, h));
        assert(honest_opening(old(t)@, t@, key, f, u, commitment@, proof.model()));
    }
    Ok((proof, value))
}

/// The views of a verifier's key.
pub open spec fn key_model(vp: &NestedGridKzgVerifierParam) -> NrgKey {
    NrgKey {
        g1_one: vp.g1_one@,
        g1_tau: vp.g1_tau@,
        g1_sigma: vp.g1_sigma@,
        g1_tau_sigma: vp.g1_tau_sigma@,
        g2_one: vp.g2_one@,
        g2_tau: vp.g2_tau@,
        g2_tau2: vp.g2_tau2@,
        g2_sigma: vp.g2_sigma@,
        g2_sigma2: vp.g2_sigma2@,
    }
}

/// `z2 - z p + z0`: the commitment in G2 to a divisor.
fn divisor_point(z2: &G2, z: &G2, z0: &G2, p: Scalar) -> (r: G2)
    ensures
        r@ == fadd(fadd(z2@, fmul(z@, fneg(p@))), z0@),
{
    z2.add(&z.mul(&p.neg())).add(z0)
}

/// The pairing check of a verifier, for given challenges and interpolants.
pub fn check_opening(
    vp: &NestedGridKzgVerifierParam,
    com: &G1,
    proof: &NestedGridKzgProof,
    lines: &GridLines,
    c: &GridChallenges,
) -> (r: bool)
    ensures
        ({
            let vk = key_model(vp);
            let ce = combined_commitment(vk, com@, proof.model(), lines.model(), c.eta@);
            let pr = fadd(c.r@, c.r_inv@);
            let qs = fadd(c.s@, c.s_inv@);
            let za = fadd(fadd(vk.g2_tau2, fmul(vk.g2_tau, fneg(pr))), vk.g2_one);
            let zb = fadd(fadd(vk.g2_sigma2, fmul(vk.g2_sigma, fneg(qs))), vk.g2_one);
            r == (dot(
                seq![ce, fneg(proof.pi_x@), fneg(proof.pi_y@)],
                seq![vk.g2_one, za, zb],
                3,
            ) == 0)
        }),
{
    let eta = c.eta;
    let eta2 = eta.square();
    let j00 = lines.i0[0].add(eta.mul(lines.l0[0])).add(eta2.mul(lines.l1[0]));
    let j10 = lines.i1[0].add(eta.mul(lines.l0[1]));
    let j01 = lines.i0[1].add(eta2.mul(lines.l1[1]));
    let j11 = lines.i1[1];
    let bases = [
        *com,
        proof.cm_s0,
        proof.cm_s1,
        vp.g1_one,
        vp.g1_tau,
        vp.g1_sigma,
        vp.g1_tau_sigma,
    ];
    let scalars = [Scalar::one(), eta, eta2, j00.neg(), j10.neg(), j01.neg(), j11.neg()];
    let c_e = G1::msm(bases.as_slice(), scalars.as_slice());
    proof {
        assert(logs(bases@) =~= seq![
            com@,
            proof.cm_s0@,
            proof.cm_s1@,
            vp.g1_one@,
            vp.g1_tau@,
            vp.g1_sigma@,
            vp.g1_tau_sigma@,
        ]);
        assert(vals(scalars@) =~= seq![
            1,
            eta@,
            eta2@,
            fneg(j00@),
            fneg(j10@),
            fneg(j01@),
            fneg(j11@),
        ]);
    }
    let p_r = c.r.add(c.r_inv);
    let q_s = c.s.add(c.s_inv);
    let z_a = divisor_point(&vp.g2_tau2, &vp.g2_tau, &vp.g2_one, p_r);
    let z_b = divisor_point(&vp.g2_sigma2, &vp.g2_sigma, &vp.g2_one, q_s);
    let left = [c_e, proof.pi_x.neg(), proof.pi_y.neg()];
    let right = [vp.g2_one, z_a, z_b];
    proof {
        assert(logs(left@) =~= seq![c_e@, fneg(proof.pi_x@), fneg(proof.pi_y@)]);
        assert(logs2(right@) =~= seq![vp.g2_one@, z_a@, z_b@]);
    }
    pairing_check(left.as_slice(), right.as_slice())
}

/// Whether a proof and a point are such that a verifier looks at them.
pub open spec fn verification_ok(
    vp: &NestedGridKzgVerifierParam,
    point: Seq<Scalar>,
    proof: &NestedGridKzgProof,
) -> bool {
    &&& mu_ok(proof.mu as int)
    &&& proof.mu <= vp.max_num_vars
    &&& point.len() == proof.mu
}

/// Verifies a proof, in a transcript of its own that is fresh.
#[verifier::rlimit(40)]
pub fn nested_grid_verify(
    vp: &NestedGridKzgVerifierParam,
    com: &G1,
    point: &[Scalar],
    value: &Scalar,
    proof: &NestedGridKzgProof,
    t: &mut IOPTranscript,
) -> (r: Result<bool, PCSError>)
    ensures
        !verification_ok(vp, point@, proof) ==> final(t)@ == old(t)@ && (r matches Err(e) && e
            is InvalidProof),
        verification_ok(vp, point@, proof) ==> verified(
            old(t)@,
            final(t)@,
            vp,
            com@,
            point@,
            value@,
            proof,
            r,
        ),
{
    let mu: usize = proof.mu as usize;
    if mu < 4 {
        return Err(invalid_proof("proof.mu < 4 unsupported"));
    }
    if mu >= usize::BITS as usize {
        return Err(invalid_proof("proof.mu exceeds platform word size"));
    }
    if mu > vp.max_num_vars {
        return Err(invalid_proof("proof.mu exceeds verifier key capacity"));
    }
    let (m_left, m_right) = split_exponents(mu);
    if point.len() != mu {
        return Err(invalid_proof("point length differs from proof.mu"));
    }
    proof {
        lemma_split(mu as int);
    }
    let u_l = vstd::slice::slice_subrange(point, 0, m_left);
    let u_r = vstd::slice::slice_subrange(point, m_left, mu);
    let ghost u = vals(point@);
    assert(vals(u_l@) =~= left_part(u));
    assert(vals(u_r@) =~= right_part(u));
    append_statement(t, mu, m_left, m_right, com, point, value);
    let ghost start = t@;
    assert(start == stated(old(t)@, com@, u, value@));
    t.append_point("nrg::cm_s0", &proof.cm_s0);
    let drawn_r = draw_reciprocal(t, "nrg::r");
    proof {
        if drawn_r is Err {
            let c = NrgChallenges { r: 0, lambda: 0, s: 0, eta: 0 };
            let h = NrgRun { after_r: t@, after_lambda: t@, after_s: t@, after_eta: t@ };
            assert(is_stopped_run(start, t@, proof.model(), c, h));
        }
    }
    let (r, r_inv) = drawn_r?;
    let ghost after_r = t@;
    t.append_field_element("nrg::a_plus", &proof.a_plus);
    t.append_field_element("nrg::a_minus", &proof.a_minus);
    t.append_field_element("nrg::t0_plus", &proof.t0_plus);
    let drawn_lambda = draw_nonzero(t, "nrg::lambda");
    proof {
        if drawn_lambda is Err {
            let c = NrgChallenges { r: r@, lambda: 0, s: 0, eta: 0 };
            let h = NrgRun { after_r, after_lambda: t@, after_s: t@, after_eta: t@ };
            assert(is_stopped_run(start, t@, proof.model(), c, h));
        }
    }
    let lambda = drawn_lambda?;
    let ghost after_lambda = t@;
    t.append_point("nrg::cm_s1", &proof.cm_s1);
    let drawn_s = draw_reciprocal(t, "nrg::s");
    proof {
        if drawn_s is Err {
            let c = NrgChallenges { r: r@, lambda: lambda@, s: 0, eta: 0 };
            let h = NrgRun { after_r, after_lambda, after_s: t@, after_eta: t@ };
            assert(is_stopped_run(start, t@, proof.model(), c, h));
        }
    }
    let (s, s_inv) = drawn_s?;
    let ghost after_s = t@;
    t.append_field_element("nrg::v_pp", &proof.v_pp);
    t.append_field_element("nrg::v_pn", &proof.v_pn);
    t.append_field_element("nrg::v_np", &proof.v_np);
    t.append_field_element("nrg::v_nn", &proof.v_nn);
    t.append_field_element("nrg::t1_plus", &proof.t1_plus);
    let drawn_eta = draw_nonzero(t, "nrg::eta");
    proof {
        if drawn_eta is Err {
            let c = NrgChallenges { r: r@, lambda: lambda@, s: s@, eta: 0 };
            let h = NrgRun { after_r, after_lambda, after_s, after_eta: t@ };
            assert(is_stopped_run(start, t@, proof.model(), c, h));
        }
    }
    let eta = drawn_eta?;
    let ghost h = NrgRun { after_r, after_lambda, after_s, after_eta: t@ };
    proof {
        lemma_drawn_pair(r@, r_inv@);
        lemma_drawn_pair(s@, s_inv@);
    }
    let values = proof.values();
    let challenges = GridChallenges { r, r_inv, lambda, s, s_inv, eta };
    let ghost c = challenges.model();
    let lines = interpolate_grid(u_l, u_r, *value, &values, &challenges)?;
    assert(lines.model() == grid_interp(
        left_part(u),
        right_part(u),
        value@,
        proof.model(),
        c,
    ));
    let ok = check_opening(vp, com, proof, &lines, &challenges);
    proof {
        assert(is_run(start, proof.model(), c, h));
        let vk = key_model(vp);
        assert(is_verdict(old(t)@, vk, com@, u, value@, proof.model(), ok, c, h));
        assert(verdict(old(t)@, t@, vk, com@, u, value@, proof.model(), ok));
    }
    Ok(ok)
}

/// Whether a result is that of an opening in a fresh transcript: its course is
/// determined by the statement and what the prover sends.
pub open spec fn is_opening(
    pp: &NestedGridKzgProverParam,
    poly: &Mle,
    point: Seq<Scalar>,
    com: int,
    r: Result<(NestedGridKzgProof, Scalar), PCSError>,
) -> bool {
    exists|end: Seq<Entry>|
        is_course(end) && #[trigger] opened(fresh_log(), end, pp, poly, point, com, r)
}

/// Whether a result is that of a verification in a fresh transcript: its course
/// is determined by the statement and the proof.
pub open spec fn is_verification(
    vp: &NestedGridKzgVerifierParam,
    com: int,
    point: Seq<Scalar>,
    value: int,
    proof: &NestedGridKzgProof,
    r: Result<bool, PCSError>,
) -> bool {
    exists|end: Seq<Entry>|
        is_course(end) && #[trigger] verified(fresh_log(), end, vp, com, point, value, proof, r)
}

/// The commitment scheme.
pub struct NestedGridKzgPCS {}

impl NestedGridKzgPCS {
    /// Parameters for up to `nv` variables from two trapdoors, nonzero and
    /// distinct, and a point of each group. For testing only.
    pub fn gen_srs_for_testing(tau: Scalar, sigma: Scalar, g1: G1, g2: G2, nv: usize) -> (r: Result<
        NestedGridKzgUniversalParams,
        PCSError,
    >)
        requires
            tau@ != 0,
            sigma@ != 0,
            sigma@ != tau@,
        ensures
            r is Ok <==> mu_ok(nv as int),
            r matches Err(e) ==> e is InvalidParameters,
            r matches Ok(srs) ==> {
                &&& srs.wf()
                &&& srs.max_num_vars == nv
                &&& is_grid_key(
                    srs.key(),
                    pow2(srs.m_left as nat) as int,
                    pow2(srs.m_right as nat) as int,
                    g1@,
                    tau@,
                    sigma@,
                )
                &&& srs.g2_one@ == g2@
                &&& srs.g2_tau@ == fmul(g2@, tau@)
                &&& srs.g2_tau2@ == fmul(fmul(g2@, tau@), tau@)
                &&& srs.g2_sigma@ == fmul(g2@, sigma@)
                &&& srs.g2_sigma2@ == fmul(fmul(g2@, sigma@), sigma@)
            },
    {
        NestedGridKzgUniversalParams::gen_srs_for_testing(tau, sigma, g1, g2, nv)
    }

    /// Prover and verifier parameters for a number of variables, which has to
    /// be given.
    pub fn trim(srs: &NestedGridKzgUniversalParams, supported_num_vars: Option<usize>) -> (r:
        Result<(NestedGridKzgProverParam, NestedGridKzgVerifierParam), PCSError>)
        requires
            srs.wf(),
        ensures
            r is Ok <==> (supported_num_vars matches Some(nv) && 4 <= nv <= srs.max_num_vars),
            r matches Err(e) ==> e is InvalidParameters,
            r matches Ok((pp, vp)) ==> {
                &&& pp.wf()
                &&& supported_num_vars == Some(pp.num_vars)
                &&& pp.key() == srs.trimmed_key(pp.num_vars as int)
                &&& vp.grid_bases(pp.key(), pp.ml(), pp.mr())
                &&& vp.g2_one == srs.g2_one
                &&& vp.g2_tau == srs.g2_tau
                &&& vp.g2_tau2 == srs.g2_tau2
                &&& vp.g2_sigma == srs.g2_sigma
                &&& vp.g2_sigma2 == srs.g2_sigma2
                &&& vp.max_num_vars == pp.num_vars
                &&& vp.m_left == pp.m_left
                &&& vp.m_right == pp.m_right
            },
    {
        match supported_num_vars {
            None => Err(invalid_parameters("need num_var")),
            Some(nv) => srs.trim(nv),
        }
    }

    /// Commits to a polynomial.
    pub fn commit(pp: &NestedGridKzgProverParam, poly: &Mle) -> (r: Result<G1, PCSError>)
        requires
            pp.dims(),
        ensures
            r is Ok <==> commitment_ok(pp, poly),
            r matches Err(e) ==> e is InvalidParameters,
            r matches Ok(c) ==> c@ == table_commitment(pp, poly),
    {
        let mu: usize = poly.num_vars;
        check_mu(mu)?;
        if pp.num_vars != mu {
            return Err(invalid_parameters("prover param is for another number of variables"));
        }
        let n: usize = pp.n();
        if poly.evaluations.len() != n {
            return Err(invalid_parameters("wrong number of evaluations"));
        }
        if pp.g1_powers.len() < n {
            return Err(invalid_parameters("SRS G1 length insufficient"));
        }
        proof {
            lemma_grid_dims(mu as int);
        }
        let scalars = layout_scalars(pp, poly.evaluations.as_slice());
        pp.msm_prefix(scalars.as_slice())
    }

    /// Opens a polynomial at a point with a commitment that was made before.
    pub fn open_with_commitment(
        pp: &NestedGridKzgProverParam,
        poly: &Mle,
        point: &[Scalar],
        commitment: &G1,
    ) -> (r: Result<(NestedGridKzgProof, Scalar), PCSError>)
        requires
            pp.dims(),
        ensures
            !opening_ok(pp, poly, point@) ==> (r matches Err(e) && e is InvalidParameters),
            opening_ok(pp, poly, point@) ==> is_opening(pp, poly, point@, commitment@, r),
    {
        let mut t: IOPTranscript = IOPTranscript::new("nested-grid-kzg-v1");
        let r = nested_grid_open(pp, poly, point, commitment, &mut t);
        proof {
            use_type_invariant(&t);
            t.lemma_course();
        }
        assert(opening_ok(pp, poly, point@) ==> opened(
            fresh_log(),
            t@,
            pp,
            poly,
            point@,
            commitment@,
            r,
        ));
        r
    }

    /// Opens a polynomial at a point.
    pub fn open(pp: &NestedGridKzgProverParam, poly: &Mle, point: &[Scalar]) -> (r:
        Result<(NestedGridKzgProof, Scalar), PCSError>)
        requires
            pp.dims(),
        ensures
            !opening_ok(pp, poly, point@) ==> (r matches Err(e) && e is InvalidParameters),
            opening_ok(pp, poly, point@) ==> is_opening(
                pp,
                poly,
                point@,
                table_commitment(pp, poly),
                r,
            ),
    {
        let commitment = Self::commit(pp, poly)?;
        Self::open_with_commitment(pp, poly, point, &commitment)
    }

    /// Verifies a proof.
    pub fn verify(
        vp: &NestedGridKzgVerifierParam,
        com: &G1,
        point: &[Scalar],
        value: &Scalar,
        proof: &NestedGridKzgProof,
    ) -> (r: Result<bool, PCSError>)
        ensures
            !verification_ok(vp, point@, proof) ==> (r matches Err(e) && e is InvalidProof),
            verification_ok(vp, point@, proof) ==> is_verification(
                vp,
                com@,
                point@,
                value@,
                proof,
                r,
            ),
    {
        let mut t: IOPTranscript = IOPTranscript::new("nested-grid-kzg-v1");
        let r = nested_grid_verify(vp, com, point, value, proof, &mut t);
        proof {
            use_type_invariant(&t);
            t.lemma_course();
        }
        assert(verification_ok(vp, point@, proof) ==> verified(
            fresh_log(),
            t@,
            vp,
            com@,
            point@,
            value@,
            proof,
            r,
        ));
        r
    }
}

/// Whether a polynomial can be committed to under a key.
pub open spec fn commitment_ok(pp: &NestedGridKzgProverParam, poly: &Mle) -> bool {
    &&& mu_ok(poly.num_vars as int)
    &&& pp.num_vars == poly.num_vars
    &&& poly.evaluations@.len() == pow2(poly.num_vars as nat)
    &&& pp.g1_powers@.len() >= pow2(poly.num_vars as nat)
}

/// The commitment to a polynomial: its table in the order of the key.
pub open spec fn table_commitment(pp: &NestedGridKzgProverParam, poly: &Mle) -> int {
    dot(
        pp.key(),
        layout(poly.table(), pp.ml(), pp.mr()),
        pow2(pp.num_vars as nat) as int,
    )
}

/// The history of a fresh transcript of the scheme.
pub open spec fn fresh_log() -> Seq<Entry> {
    seq![Entry::Domain("nested-grid-kzg-v1"@)]
}

} // verus!
