//! What an accepted opening says: the equations that its values and commitments
//! satisfy, for challenges that the statement and the proof determine.

use crate::errors::PCSError;
use crate::field::{
    cong, fadd, finv, fmul, fneg, fsub, group_reduced, group_shadow, lemma_cong_add,
    lemma_cong_apart, lemma_cong_cancel, lemma_cong_eq, lemma_cong_inverse, lemma_cong_move,
    lemma_cong_mul, lemma_cong_sub, lemma_cong_symm, lemma_cong_trans, lemma_double_cancel,
    lemma_refl, reduced, vals, Scalar,
};
use crate::nested_grid_kzg::{
    fresh_log, is_verification, key_model, verification_ok, verified, NestedGridKzgProof,
    NestedGridKzgVerifierParam,
};
use crate::nested_grid_kzg::batch::aggregate_verified;
use crate::nested_grid_kzg::model::{
    accepts, combined_commitment, grid_interp, inverse_pair, is_run, is_verdict, left_part,
    recovered, right_part, stated, t0_minus, t1_minus, with_inner, with_inner_values, with_outer,
    with_outer_values, GridInterp, NrgChallenges, NrgKey, NrgProof, NrgRun,
};
use crate::poly::{int_dot, invertible, lemma_dot_shadow};
use crate::quadratic::{lemma_line_names, line_offset, line_slope};
use crate::tensor::tensor;
use crate::transcript::{drawn, is_course, nonzero, reciprocal, Entry};
use vstd::prelude::*;

verus! {

/// What an opening is made of: the challenges with their inverses, a bilinear
/// `I(X, Y)` and two lines `L0(X)` and `L1(Y)`.
pub struct NrgOpening {
    pub r: int,
    pub ri: int,
    pub lambda: int,
    pub s: int,
    pub si: int,
    pub eta: int,
    pub i00: int,
    pub i01: int,
    pub i10: int,
    pub i11: int,
    pub l00: int,
    pub l01: int,
    pub l10: int,
    pub l11: int,
}

impl NrgOpening {
    /// `I(x, y)`.
    pub open spec fn grid(self, x: int, y: int) -> int {
        (self.i00 + self.i01 * y) + (self.i10 + self.i11 * y) * x
    }

    /// `L0(x)`.
    pub open spec fn outer(self, x: int) -> int {
        self.l00 + self.l01 * x
    }

    /// `L1(y)`.
    pub open spec fn inner(self, y: int) -> int {
        self.l10 + self.l11 * y
    }
}

/// The values of an opening: `I` takes the four values on the grid, and both lines
/// satisfy the reciprocal identity of their inner product, the outer one with the
/// claimed value `y`.
pub open spec fn values_agree(
    ul: Seq<int>,
    ur: Seq<int>,
    y: int,
    proof: &NestedGridKzgProof,
    o: NrgOpening,
) -> bool {
    let nl = ul.len() as int;
    let nr = ur.len() as int;
    &&& cong(o.r * o.ri, 1)
    &&& cong(o.s * o.si, 1)
    &&& cong(o.grid(o.r, o.s), proof.v_pp@)
    &&& cong(o.grid(o.r, o.si), proof.v_pn@)
    &&& cong(o.grid(o.ri, o.s), proof.v_np@)
    &&& cong(o.grid(o.ri, o.si), proof.v_nn@)
    &&& cong(o.outer(o.r), proof.t0_plus@)
    &&& cong(
        o.r * o.outer(o.r) + o.ri * o.outer(o.ri) + 2 * y,
        proof.a_plus@ * tensor(ul, o.ri, nl) + proof.a_minus@ * tensor(ul, o.r, nl),
    )
    &&& cong(o.inner(o.s), proof.t1_plus@)
    &&& cong(
        o.s * o.inner(o.s) + o.si * o.inner(o.si) + 2 * (proof.a_plus@ + o.lambda * proof.a_minus@),
        (proof.v_pp@ + o.lambda * proof.v_np@) * tensor(ur, o.si, nr) + (proof.v_pn@ + o.lambda
            * proof.v_nn@) * tensor(ur, o.s, nr),
    )
}

/// The pairing product of an opening:
/// `e(C_E, [1]) == e(Pi_X, [Z_r(tau)]) e(Pi_Y, [Z_s(sigma)])` in the exponent, where
/// `C_E` commits to `(f - I) + eta (S0 - L0) + eta^2 (S1 - L1)`.
pub open spec fn pairing_agrees(
    vp: &NestedGridKzgVerifierParam,
    com: int,
    proof: &NestedGridKzgProof,
    o: NrgOpening,
) -> bool {
    let e2 = o.eta * o.eta;
    let ce = com + o.eta * proof.cm_s0@ + e2 * proof.cm_s1@ - (o.i00 + o.eta * o.l00 + e2 * o.l10)
        * vp.g1_one@ - (o.i10 + o.eta * o.l01) * vp.g1_tau@ - (o.i01 + e2 * o.l11) * vp.g1_sigma@
        - o.i11 * vp.g1_tau_sigma@;
    cong(
        ce * vp.g2_one@,
        proof.pi_x@ * (vp.g2_tau2@ - (o.r + o.ri) * vp.g2_tau@ + vp.g2_one@) + proof.pi_y@ * (
        vp.g2_sigma2@ - (o.s + o.si) * vp.g2_sigma@ + vp.g2_one@),
    )
}

/// The challenges of an opening are drawn in turn, each after the statement and all
/// that the proof holds for it.
pub open spec fn challenges_bound(
    com: int,
    u: Seq<int>,
    y: int,
    proof: &NestedGridKzgProof,
    o: NrgOpening,
    h: NrgRun,
) -> bool {
    let mu = u.len() as int;
    let stated = seq![
        Entry::Domain("nested-grid-kzg-v1"@),
        Entry::Message("nrg::version"@, "nested-grid-kzg-v1"@),
        Entry::Field("nrg::mu"@, mu),
        Entry::Field("nrg::m_left"@, (mu + 1) / 2),
        Entry::Field("nrg::m_right"@, mu / 2),
        Entry::Point("nrg::cm_f"@, com),
        Entry::Fields("nrg::point"@, u),
        Entry::Field("nrg::value"@, y),
        Entry::Point("nrg::cm_s0"@, proof.cm_s0@),
    ];
    let outer = seq![
        Entry::Field("nrg::a_plus"@, proof.a_plus@),
        Entry::Field("nrg::a_minus"@, proof.a_minus@),
        Entry::Field("nrg::t0_plus"@, proof.t0_plus@),
    ];
    let inner = seq![
        Entry::Field("nrg::v_pp"@, proof.v_pp@),
        Entry::Field("nrg::v_pn"@, proof.v_pn@),
        Entry::Field("nrg::v_np"@, proof.v_np@),
        Entry::Field("nrg::v_nn"@, proof.v_nn@),
        Entry::Field("nrg::t1_plus"@, proof.t1_plus@),
    ];
    &&& is_course(h.after_eta)
    &&& drawn(stated, h.after_r, "nrg::r"@, reciprocal(), Some(o.r))
    &&& drawn(h.after_r + outer, h.after_lambda, "nrg::lambda"@, nonzero(), Some(o.lambda))
    &&& drawn(
        h.after_lambda + seq![Entry::Point("nrg::cm_s1"@, proof.cm_s1@)],
        h.after_s,
        "nrg::s"@,
        reciprocal(),
        Some(o.s),
    )
    &&& drawn(h.after_s + inner, h.after_eta, "nrg::eta"@, nonzero(), Some(o.eta))
}

/// Whether a proof opens `com` at `u` to `y`, with the given lines and challenges.
pub open spec fn opens_to(
    vp: &NestedGridKzgVerifierParam,
    com: int,
    u: Seq<int>,
    y: int,
    proof: &NestedGridKzgProof,
    o: NrgOpening,
    h: NrgRun,
) -> bool {
    let m = (u.len() as int + 1) / 2;
    &&& values_agree(u.take(m), u.skip(m), y, proof, o)
    &&& pairing_agrees(vp, com, proof, o)
    &&& challenges_bound(com, u, y, proof, o, h)
}

/// The value that a reciprocal identity leaves satisfies the identity.
proof fn lemma_recovered(
    x: int,
    xi: int,
    a_plus: int,
    a_minus: int,
    psi_x: int,
    psi_xi: int,
    y: int,
    t: int,
)
    requires
        fmul(x, xi) == 1,
    ensures
        cong(
            x * t + xi * recovered(x, a_plus, a_minus, psi_x, psi_xi, y, t) + 2 * y,
            a_plus * psi_xi + a_minus * psi_x,
        ),
{
    let v = recovered(x, a_plus, a_minus, psi_x, psi_xi, y, t);
    let sum = a_plus * psi_xi + a_minus * psi_x;
    let rest = sum - (y + y) - x * t;
    assert(cong(v, x * rest)) by {
        lemma_refl(x);
        lemma_refl(a_plus);
        lemma_refl(a_minus);
        lemma_refl(psi_x);
        lemma_refl(psi_xi);
        lemma_refl(y);
        lemma_refl(t);
        broadcast use group_shadow;

        assert(cong(fadd(fmul(a_plus, psi_xi), fmul(a_minus, psi_x)), sum));
        assert(cong(fmul(x, t), x * t));
        assert(cong(fadd(y, y), y + y));
    }
    lemma_cong_inverse(x, xi);
    lemma_refl(xi);
    lemma_refl(rest);
    lemma_cong_mul(xi, xi, v, x * rest);
    lemma_cong_mul(x * xi, 1, rest, rest);
    assert(xi * (x * rest) == (x * xi) * rest) by (nonlinear_arith);
    assert(1 * rest == rest) by (nonlinear_arith);
    lemma_cong_trans(xi * v, xi * (x * rest), rest);
    lemma_refl(x * t + 2 * y);
    lemma_cong_add(x * t + 2 * y, x * t + 2 * y, xi * v, rest);
}

/// A line in the second variable whose coefficients are lines in the first.
proof fn lemma_grid(
    i00: int,
    i01: int,
    i10: int,
    i11: int,
    y: int,
    b: int,
    m: int,
    x: int,
    v: int,
)
    requires
        cong(i00 + i01 * y, b),
        cong(i10 + i11 * y, m),
        cong(b + m * x, v),
    ensures
        cong((i00 + i01 * y) + (i10 + i11 * y) * x, v),
{
    lemma_refl(x);
    lemma_cong_mul(i10 + i11 * y, m, x, x);
    lemma_cong_add(i00 + i01 * y, b, (i10 + i11 * y) * x, m * x);
    lemma_cong_trans((i00 + i01 * y) + (i10 + i11 * y) * x, b + m * x, v);
}

/// The lines of a verifier.
pub open spec fn opening_of(gi: GridInterp, c: NrgChallenges) -> NrgOpening {
    NrgOpening {
        r: c.r,
        ri: finv(c.r),
        lambda: c.lambda,
        s: c.s,
        si: finv(c.s),
        eta: c.eta,
        i00: gi.i00,
        i01: gi.i01,
        i10: gi.i10,
        i11: gi.i11,
        l00: gi.l00,
        l01: gi.l01,
        l10: gi.l10,
        l11: gi.l11,
    }
}

proof fn lemma_values(
    ul: Seq<int>,
    ur: Seq<int>,
    y: int,
    proof: &NestedGridKzgProof,
    c: NrgChallenges,
)
    requires
        inverse_pair(c.r, finv(c.r)),
        inverse_pair(c.s, finv(c.s)),
    ensures
        values_agree(
            ul,
            ur,
            y,
            proof,
            opening_of(grid_interp(ul, ur, y, proof.model(), c), c),
        ),
{
    broadcast use group_reduced;

    let p = proof.model();
    let gi = grid_interp(ul, ur, y, p, c);
    let o = opening_of(gi, c);
    let (r, ri, s, si) = (c.r, finv(c.r), c.s, finv(c.s));
    let nl = ul.len() as int;
    let nr = ur.len() as int;
    lemma_cong_inverse(r, ri);
    lemma_cong_inverse(s, si);
    let a0 = line_offset(r, p.v_pp, ri, p.v_np);
    let a1 = line_slope(r, p.v_pp, ri, p.v_np);
    let b0 = line_offset(r, p.v_pn, ri, p.v_nn);
    let b1 = line_slope(r, p.v_pn, ri, p.v_nn);
    lemma_line_names(r, p.v_pp, ri, p.v_np);
    lemma_line_names(r, p.v_pn, ri, p.v_nn);
    lemma_line_names(s, a0, si, b0);
    lemma_line_names(s, a1, si, b1);
    lemma_grid(gi.i00, gi.i01, gi.i10, gi.i11, s, a0, a1, r, p.v_pp);
    lemma_grid(gi.i00, gi.i01, gi.i10, gi.i11, s, a0, a1, ri, p.v_np);
    lemma_grid(gi.i00, gi.i01, gi.i10, gi.i11, si, b0, b1, r, p.v_pn);
    lemma_grid(gi.i00, gi.i01, gi.i10, gi.i11, si, b0, b1, ri, p.v_nn);
    let t0 = t0_minus(ul, y, p, c);
    lemma_line_names(r, p.t0_plus, ri, t0);
    lemma_recovered(
        r,
        ri,
        p.a_plus,
        p.a_minus,
        tensor(ul, r, nl),
        tensor(ul, ri, nl),
        y,
        p.t0_plus,
    );
    lemma_identity(
        o.l00,
        o.l01,
        r,
        ri,
        p.t0_plus,
        t0,
        y,
        p.a_plus * tensor(ul, ri, nl) + p.a_minus * tensor(ul, r, nl),
    );
    let t1 = t1_minus(ur, p, c);
    lemma_line_names(s, p.t1_plus, si, t1);
    let ap = fadd(p.v_pp, fmul(c.lambda, p.v_np));
    let am = fadd(p.v_pn, fmul(c.lambda, p.v_nn));
    let w = fadd(p.a_plus, fmul(c.lambda, p.a_minus));
    let px = tensor(ur, s, nr);
    let pxi = tensor(ur, si, nr);
    lemma_recovered(s, si, ap, am, px, pxi, w, p.t1_plus);
    lemma_identity(o.l10, o.l11, s, si, p.t1_plus, t1, w, ap * pxi + am * px);
    let ap1 = p.v_pp + c.lambda * p.v_np;
    let am1 = p.v_pn + c.lambda * p.v_nn;
    let w1 = p.a_plus + c.lambda * p.a_minus;
    assert(cong(ap, ap1) && cong(am, am1) && cong(w, w1)) by {
        lemma_refl(p.v_pp);
        lemma_refl(p.v_np);
        lemma_refl(p.v_pn);
        lemma_refl(p.v_nn);
        lemma_refl(p.a_plus);
        lemma_refl(p.a_minus);
        lemma_refl(c.lambda);
        broadcast use group_shadow;

    }
    let head = s * o.inner(s) + si * o.inner(si);
    lemma_refl(head);
    lemma_refl(px);
    lemma_refl(pxi);
    lemma_refl(2);
    lemma_cong_mul(2, 2, w, w1);
    lemma_cong_add(head, head, 2 * w, 2 * w1);
    lemma_cong_symm(head + 2 * w, head + 2 * w1);
    lemma_cong_mul(ap, ap1, pxi, pxi);
    lemma_cong_mul(am, am1, px, px);
    lemma_cong_add(ap * pxi, ap1 * pxi, am * px, am1 * px);
    lemma_cong_trans(head + 2 * w1, head + 2 * w, ap * pxi + am * px);
    lemma_cong_trans(head + 2 * w1, ap * pxi + am * px, ap1 * pxi + am1 * px);
}

/// The identity of two values is one of a line that takes them.
proof fn lemma_identity(b: int, m: int, x: int, xi: int, t: int, ti: int, y: int, sum: int)
    requires
        cong(b + m * x, t),
        cong(b + m * xi, ti),
        cong(x * t + xi * ti + 2 * y, sum),
    ensures
        cong(x * (b + m * x) + xi * (b + m * xi) + 2 * y, sum),
{
    lemma_refl(x);
    lemma_refl(xi);
    lemma_refl(2 * y);
    lemma_cong_mul(x, x, b + m * x, t);
    lemma_cong_mul(xi, xi, b + m * xi, ti);
    lemma_cong_add(x * (b + m * x), x * t, xi * (b + m * xi), xi * ti);
    lemma_cong_add(
        x * (b + m * x) + xi * (b + m * xi),
        x * t + xi * ti,
        2 * y,
        2 * y,
    );
    lemma_cong_trans(
        x * (b + m * x) + xi * (b + m * xi) + 2 * y,
        x * t + xi * ti + 2 * y,
        sum,
    );
}

/// The combined commitment as an integer.
pub open spec fn combined_int(vk: NrgKey, com: int, p: NrgProof, gi: GridInterp, eta: int) -> int {
    let e2 = eta * eta;
    com + eta * p.cm_s0 + e2 * p.cm_s1 - (gi.i00 + eta * gi.l00 + e2 * gi.l10) * vk.g1_one - (gi.i10
        + eta * gi.l01) * vk.g1_tau - (gi.i01 + e2 * gi.l11) * vk.g1_sigma - gi.i11
        * vk.g1_tau_sigma
}

proof fn lemma_combined(vk: NrgKey, com: int, p: NrgProof, gi: GridInterp, eta: int)
    ensures
        cong(combined_commitment(vk, com, p, gi, eta), combined_int(vk, com, p, gi, eta)),
{
    let eta2 = fmul(eta, eta);
    let e2 = eta * eta;
    let j00 = fadd(fadd(gi.i00, fmul(eta, gi.l00)), fmul(eta2, gi.l10));
    let j10 = fadd(gi.i10, fmul(eta, gi.l01));
    let j01 = fadd(gi.i01, fmul(eta2, gi.l11));
    let a = seq![com, p.cm_s0, p.cm_s1, vk.g1_one, vk.g1_tau, vk.g1_sigma, vk.g1_tau_sigma];
    let b = seq![1, eta, eta2, fneg(j00), fneg(j10), fneg(j01), fneg(gi.i11)];
    let k00 = gi.i00 + eta * gi.l00 + e2 * gi.l10;
    let k10 = gi.i10 + eta * gi.l01;
    let k01 = gi.i01 + e2 * gi.l11;
    let y = seq![1, eta, e2, -k00, -k10, -k01, -gi.i11];
    assert(cong(eta2, e2) && cong(fneg(j00), -k00) && cong(fneg(j10), -k10) && cong(
        fneg(j01),
        -k01,
    ) && cong(fneg(gi.i11), -gi.i11)) by {
        lemma_refl(eta);
        lemma_refl(gi.i00);
        lemma_refl(gi.i01);
        lemma_refl(gi.i10);
        lemma_refl(gi.i11);
        lemma_refl(gi.l00);
        lemma_refl(gi.l01);
        lemma_refl(gi.l10);
        lemma_refl(gi.l11);
        broadcast use group_shadow;

    }
    assert forall|i: int| 0 <= i < 7 implies cong(#[trigger] b[i], y[i]) by {
        lemma_refl(1);
        lemma_refl(eta);
    }
    assert forall|i: int| 0 <= i < 7 implies cong(#[trigger] a[i], a[i]) by {
        lemma_refl(a[i]);
    }
    lemma_dot_shadow(a, a, b, y, 7);
    reveal_with_fuel(int_dot, 8);
    assert(int_dot(a, y, 7) == com * 1 + p.cm_s0 * eta + p.cm_s1 * e2 + vk.g1_one * (-k00)
        + vk.g1_tau * (-k10) + vk.g1_sigma * (-k01) + vk.g1_tau_sigma * (-gi.i11));
    assert(vk.g1_one * (-k00) == -(k00 * vk.g1_one)) by (nonlinear_arith);
    assert(vk.g1_tau * (-k10) == -(k10 * vk.g1_tau)) by (nonlinear_arith);
    assert(vk.g1_sigma * (-k01) == -(k01 * vk.g1_sigma)) by (nonlinear_arith);
    assert(vk.g1_tau_sigma * (-gi.i11) == -(gi.i11 * vk.g1_tau_sigma)) by (nonlinear_arith);
    assert(p.cm_s0 * eta == eta * p.cm_s0) by (nonlinear_arith);
    assert(p.cm_s1 * e2 == e2 * p.cm_s1) by (nonlinear_arith);
}

/// What the equation of the verifier says, in integers.
proof fn lemma_pairing(
    vk: NrgKey,
    com: int,
    ul: Seq<int>,
    ur: Seq<int>,
    y: int,
    p: NrgProof,
    c: NrgChallenges,
)
    requires
        accepts(vk, com, ul, ur, y, p, c),
    ensures
        ({
            let gi = grid_interp(ul, ur, y, p, c);
            cong(
                combined_int(vk, com, p, gi, c.eta) * vk.g2_one,
                p.pi_x * (vk.g2_tau2 - (c.r + finv(c.r)) * vk.g2_tau + vk.g2_one) + p.pi_y * (
                vk.g2_sigma2 - (c.s + finv(c.s)) * vk.g2_sigma + vk.g2_one),
            )
        }),
{
    let gi = grid_interp(ul, ur, y, p, c);
    let ce = combined_commitment(vk, com, p, gi, c.eta);
    let ci = combined_int(vk, com, p, gi, c.eta);
    lemma_combined(vk, com, p, gi, c.eta);
    let (r, ri, s, si) = (c.r, finv(c.r), c.s, finv(c.s));
    let za = fadd(fadd(vk.g2_tau2, fmul(vk.g2_tau, fneg(fadd(r, ri)))), vk.g2_one);
    let zb = fadd(fadd(vk.g2_sigma2, fmul(vk.g2_sigma, fneg(fadd(s, si)))), vk.g2_one);
    let xa = vk.g2_tau2 + vk.g2_tau * (-(r + ri)) + vk.g2_one;
    let xb = vk.g2_sigma2 + vk.g2_sigma * (-(s + si)) + vk.g2_one;
    let a = seq![ce, fneg(p.pi_x), fneg(p.pi_y)];
    let x = seq![ci, -p.pi_x, -p.pi_y];
    let b = seq![vk.g2_one, za, zb];
    let z = seq![vk.g2_one, xa, xb];
    assert(cong(za, xa) && cong(zb, xb) && cong(fneg(p.pi_x), -p.pi_x) && cong(
        fneg(p.pi_y),
        -p.pi_y,
    ) && cong(vk.g2_one, vk.g2_one)) by {
        lemma_refl(vk.g2_one);
        lemma_refl(vk.g2_tau);
        lemma_refl(vk.g2_tau2);
        lemma_refl(vk.g2_sigma);
        lemma_refl(vk.g2_sigma2);
        lemma_refl(r);
        lemma_refl(ri);
        lemma_refl(s);
        lemma_refl(si);
        lemma_refl(p.pi_x);
        lemma_refl(p.pi_y);
        broadcast use group_shadow;

    }
    assert forall|i: int| 0 <= i < 3 implies cong(#[trigger] a[i], x[i]) by {}
    assert forall|i: int| 0 <= i < 3 implies cong(#[trigger] b[i], z[i]) by {}
    lemma_dot_shadow(a, x, b, z, 3);
    reveal_with_fuel(int_dot, 4);
    assert(int_dot(x, z, 3) == ci * vk.g2_one + (-p.pi_x) * xa + (-p.pi_y) * xb);
    let ya = vk.g2_tau2 - (r + ri) * vk.g2_tau + vk.g2_one;
    let yb = vk.g2_sigma2 - (s + si) * vk.g2_sigma + vk.g2_one;
    assert(vk.g2_tau * (-(r + ri)) == -((r + ri) * vk.g2_tau)) by (nonlinear_arith);
    assert(vk.g2_sigma * (-(s + si)) == -((s + si) * vk.g2_sigma)) by (nonlinear_arith);
    assert((-p.pi_x) * xa == -(p.pi_x * ya)) by (nonlinear_arith)
        requires
            xa == ya,
    ;
    assert((-p.pi_y) * xb == -(p.pi_y * yb)) by (nonlinear_arith)
        requires
            xb == yb,
    ;
    lemma_cong_move(ci * vk.g2_one, p.pi_x * ya + p.pi_y * yb);
}

/// An accepted proof opens the commitment at the point to the value: where `verify`
/// returns `true`, the pairing product is one and the identities of the values hold,
/// for challenges drawn from the statement and the proof.
pub proof fn law_accepted_proof_opens(
    vp: &NestedGridKzgVerifierParam,
    com: int,
    point: Seq<Scalar>,
    value: int,
    proof: &NestedGridKzgProof,
)
    requires
        is_verification(vp, com, point, value, proof, Ok(true)),
    ensures
        exists|o: NrgOpening, h: NrgRun| #[trigger]
            opens_to(vp, com, vals(point), value, proof, o, h),
{
    let u = vals(point);
    let r: Result<bool, PCSError> = Ok(true);
    let end = choose|end: Seq<Entry>|
        is_course(end) && #[trigger] verified(fresh_log(), end, vp, com, point, value, proof, r);
    assert(verified(fresh_log(), end, vp, com, point, value, proof, r));
    let p = proof.model();
    let vk = key_model(vp);
    let (c, h) = choose|c: NrgChallenges, h: NrgRun|
        h.after_eta == end && #[trigger] is_verdict(
            fresh_log(),
            vk,
            com,
            u,
            value,
            p,
            true,
            c,
            h,
        );
    assert(is_verdict(fresh_log(), vk, com, u, value, p, true, c, h));
    let ul = left_part(u);
    let ur = right_part(u);
    let gi = grid_interp(ul, ur, value, p, c);
    let o = opening_of(gi, c);
    lemma_values(ul, ur, value, proof, c);
    lemma_pairing(vk, com, ul, ur, value, p, c);
    assert(pairing_agrees(vp, com, proof, o));
    lemma_bound(com, u, value, proof, c, h, o);
    assert(opens_to(vp, com, u, value, proof, o, h));
}

proof fn lemma_bound(
    com: int,
    u: Seq<int>,
    y: int,
    proof: &NestedGridKzgProof,
    c: NrgChallenges,
    h: NrgRun,
    o: NrgOpening,
)
    requires
        is_course(h.after_eta),
        is_run(
            stated(fresh_log(), com, u, y),
            proof.model(),
            c,
            h,
        ),
        o.r == c.r,
        o.lambda == c.lambda,
        o.s == c.s,
        o.eta == c.eta,
    ensures
        challenges_bound(com, u, y, proof, o, h),
{
    let p = proof.model();
    let mu = u.len() as int;
    let first = seq![
        Entry::Domain("nested-grid-kzg-v1"@),
        Entry::Message("nrg::version"@, "nested-grid-kzg-v1"@),
        Entry::Field("nrg::mu"@, mu),
        Entry::Field("nrg::m_left"@, (mu + 1) / 2),
        Entry::Field("nrg::m_right"@, mu / 2),
        Entry::Point("nrg::cm_f"@, com),
        Entry::Fields("nrg::point"@, u),
        Entry::Field("nrg::value"@, y),
        Entry::Point("nrg::cm_s0"@, proof.cm_s0@),
    ];
    let outer = seq![
        Entry::Field("nrg::a_plus"@, proof.a_plus@),
        Entry::Field("nrg::a_minus"@, proof.a_minus@),
        Entry::Field("nrg::t0_plus"@, proof.t0_plus@),
    ];
    let inner = seq![
        Entry::Field("nrg::v_pp"@, proof.v_pp@),
        Entry::Field("nrg::v_pn"@, proof.v_pn@),
        Entry::Field("nrg::v_np"@, proof.v_np@),
        Entry::Field("nrg::v_nn"@, proof.v_nn@),
        Entry::Field("nrg::t1_plus"@, proof.t1_plus@),
    ];
    assert(with_outer(
        stated(fresh_log(), com, u, y),
        p,
    ) =~= first);
    assert(with_outer_values(h.after_r, p) =~= h.after_r + outer);
    assert(with_inner(h.after_lambda, p) =~= h.after_lambda + seq![
        Entry::Point("nrg::cm_s1"@, proof.cm_s1@),
    ]);
    assert(with_inner_values(h.after_s, p) =~= h.after_s + inner);
}

/// A proof is accepted for at most one value, given the challenges: the outer line
/// is determined by its value at `r` and by the pairing product, and with it the
/// value. The challenge `r` must not be the trapdoor.
pub proof fn law_one_value(
    vp: &NestedGridKzgVerifierParam,
    com: int,
    u: Seq<int>,
    y: int,
    v: int,
    proof: &NestedGridKzgProof,
    c: NrgChallenges,
    h: NrgRun,
    k: NrgRun,
)
    requires
        reduced(y),
        reduced(v),
        is_verdict(fresh_log(), key_model(vp), com, u, y, proof.model(), true, c, h),
        is_verdict(fresh_log(), key_model(vp), com, u, v, proof.model(), true, c, k),
        invertible(c.eta),
        invertible(vp.g2_one@),
        invertible(fsub(vp.g1_tau@, fmul(c.r, vp.g1_one@))),
    ensures
        y == v,
{
    let p = proof.model();
    let vk = key_model(vp);
    let ul = left_part(u);
    let ur = right_part(u);
    let gy = grid_interp(ul, ur, y, p, c);
    let gv = grid_interp(ul, ur, v, p, c);
    lemma_pairing(vk, com, ul, ur, y, p, c);
    lemma_pairing(vk, com, ul, ur, v, p, c);
    lemma_values(ul, ur, y, proof, c);
    lemma_values(ul, ur, v, proof, c);
    let (r, ri) = (c.r, finv(c.r));
    let right = p.pi_x * (vk.g2_tau2 - (r + ri) * vk.g2_tau + vk.g2_one) + p.pi_y * (vk.g2_sigma2 - (
    c.s + finv(c.s)) * vk.g2_sigma + vk.g2_one);
    let cy = combined_int(vk, com, p, gy, c.eta);
    let cv = combined_int(vk, com, p, gv, c.eta);
    let d0 = gv.l00 - gy.l00;
    let d1 = gv.l01 - gy.l01;
    // C_y - C_v is eta (d0 + d1 tau), and d0 is -d1 r
    lemma_cong_symm(cv * vk.g2_one, right);
    lemma_cong_trans(cy * vk.g2_one, right, cv * vk.g2_one);
    lemma_cong_apart(cy * vk.g2_one, cv * vk.g2_one);
    let e2 = c.eta * c.eta;
    assert(cy - cv == c.eta * (d0 * vk.g1_one + d1 * vk.g1_tau)) by (nonlinear_arith)
        requires
            cy == com + c.eta * p.cm_s0 + e2 * p.cm_s1 - (gy.i00 + c.eta * gy.l00 + e2 * gy.l10)
                * vk.g1_one - (gy.i10 + c.eta * gy.l01) * vk.g1_tau - (gy.i01 + e2 * gy.l11)
                * vk.g1_sigma - gy.i11 * vk.g1_tau_sigma,
            cv == com + c.eta * p.cm_s0 + e2 * p.cm_s1 - (gy.i00 + c.eta * gv.l00 + e2 * gy.l10)
                * vk.g1_one - (gy.i10 + c.eta * gv.l01) * vk.g1_tau - (gy.i01 + e2 * gy.l11)
                * vk.g1_sigma - gy.i11 * vk.g1_tau_sigma,
            d0 == gv.l00 - gy.l00,
            d1 == gv.l01 - gy.l01,
    ;
    let w = d0 * vk.g1_one + d1 * vk.g1_tau;
    assert(cy * vk.g2_one - cv * vk.g2_one == vk.g2_one * (c.eta * w)) by (nonlinear_arith)
        requires
            cy - cv == c.eta * w,
    ;
    lemma_cong_inverse(vk.g2_one, finv(vk.g2_one));
    lemma_cong_cancel(vk.g2_one, finv(vk.g2_one), c.eta * w);
    lemma_cong_inverse(c.eta, finv(c.eta));
    lemma_cong_cancel(c.eta, finv(c.eta), w);
    // both lines take t0_plus at r
    let by = gy.l00 + gy.l01 * r;
    let bv = gv.l00 + gv.l01 * r;
    lemma_cong_symm(by, p.t0_plus);
    lemma_cong_trans(bv, p.t0_plus, by);
    lemma_cong_apart(bv, by);
    assert(bv - by == d0 + d1 * r) by (nonlinear_arith)
        requires
            bv == gv.l00 + gv.l01 * r,
            by == gy.l00 + gy.l01 * r,
            d0 == gv.l00 - gy.l00,
            d1 == gv.l01 - gy.l01,
    ;
    lemma_refl(vk.g1_one);
    lemma_cong_mul(d0 + d1 * r, 0, vk.g1_one, vk.g1_one);
    lemma_cong_sub(w, 0, (d0 + d1 * r) * vk.g1_one, 0 * vk.g1_one);
    let t = vk.g1_tau - r * vk.g1_one;
    assert(w - (d0 + d1 * r) * vk.g1_one == t * d1) by (nonlinear_arith)
        requires
            w == d0 * vk.g1_one + d1 * vk.g1_tau,
            t == vk.g1_tau - r * vk.g1_one,
    ;
    assert(0 - 0 * vk.g1_one == 0) by (nonlinear_arith);
    let tf = fsub(vk.g1_tau, fmul(r, vk.g1_one));
    assert(cong(tf, t)) by {
        lemma_refl(r);
        lemma_refl(vk.g1_one);
        lemma_refl(vk.g1_tau);
        broadcast use group_shadow;

    }
    lemma_refl(d1);
    lemma_cong_mul(tf, t, d1, d1);
    lemma_cong_trans(tf * d1, t * d1, 0);
    lemma_cong_inverse(tf, finv(tf));
    lemma_cong_cancel(tf, finv(tf), d1);
    lemma_same_outer(gy.l00, gy.l01, gv.l00, gv.l01, r, ri, y, v,
        p.a_plus * tensor(ul, ri, ul.len() as int) + p.a_minus * tensor(ul, r, ul.len() as int));
}

/// Lines that agree leave the same value.
proof fn lemma_same_outer(
    a0: int,
    a1: int,
    b0: int,
    b1: int,
    r: int,
    ri: int,
    y: int,
    v: int,
    sum: int,
)
    requires
        reduced(y),
        reduced(v),
        cong(b1 - a1, 0),
        cong((b0 - a0) + (b1 - a1) * r, 0),
        cong(r * (a0 + a1 * r) + ri * (a0 + a1 * ri) + 2 * y, sum),
        cong(r * (b0 + b1 * r) + ri * (b0 + b1 * ri) + 2 * v, sum),
    ensures
        y == v,
{
    let d0 = b0 - a0;
    let d1 = b1 - a1;
    lemma_refl(r);
    lemma_refl(ri);
    lemma_cong_mul(d1, 0, r, r);
    assert(0 * r == 0 && 0 * ri == 0 && r * 0 == 0 && ri * 0 == 0) by (nonlinear_arith);
    lemma_cong_sub(d0 + d1 * r, 0, d1 * r, 0);
    assert(cong(d0, 0));
    lemma_cong_mul(d1, 0, ri, ri);
    lemma_cong_add(d0, 0, d1 * ri, 0);
    lemma_cong_mul(r, r, d0 + d1 * r, 0);
    lemma_cong_mul(ri, ri, d0 + d1 * ri, 0);
    lemma_cong_add(r * (d0 + d1 * r), 0, ri * (d0 + d1 * ri), 0);
    let sy = r * (a0 + a1 * r) + ri * (a0 + a1 * ri) + 2 * y;
    let sv = r * (b0 + b1 * r) + ri * (b0 + b1 * ri) + 2 * v;
    let d = r * (d0 + d1 * r) + ri * (d0 + d1 * ri);
    lemma_cong_symm(sv, sum);
    lemma_cong_trans(sy, sum, sv);
    lemma_cong_add(sy, sv, d, 0);
    assert(sy + d == sv - 2 * v + 2 * y) by (nonlinear_arith)
        requires
            sy == r * (a0 + a1 * r) + ri * (a0 + a1 * ri) + 2 * y,
            sv == r * (b0 + b1 * r) + ri * (b0 + b1 * ri) + 2 * v,
            d == r * (d0 + d1 * r) + ri * (d0 + d1 * ri),
            d0 == b0 - a0,
            d1 == b1 - a1,
    ;
    lemma_refl(2 * v - sv);
    lemma_cong_add(sy + d, sv, 2 * v - sv, 2 * v - sv);
    assert(cong(2 * y, 2 * v));
    lemma_refl(y);
    lemma_refl(v);
    broadcast use {group_reduced, group_shadow};

    assert(cong(fadd(y, y), y + y));
    assert(cong(fadd(v, v), v + v));
    lemma_cong_trans(fadd(y, y), y + y, v + v);
    lemma_cong_symm(fadd(v, v), v + v);
    lemma_cong_trans(fadd(y, y), v + v, fadd(v, v));
    lemma_cong_eq(fadd(y, y), fadd(v, v));
    lemma_double_cancel(y, v);
}

/// A batch is accepted only where the proof opens the combined commitment at the final
/// point of the sumcheck to the value that it expects there.
pub proof fn law_accepted_batch_opens(
    vp: &NestedGridKzgVerifierParam,
    com: int,
    a: Seq<Scalar>,
    y: int,
    proof: &NestedGridKzgProof,
)
    requires
        aggregate_verified(vp, com, a, y, proof, Ok(true)),
    ensures
        verification_ok(vp, a, proof),
        exists|o: NrgOpening, h: NrgRun| #[trigger]
            opens_to(vp, com, vals(a), y, proof, o, h),
{
    law_accepted_proof_opens(vp, com, a, y, proof);
}

} // verus!
