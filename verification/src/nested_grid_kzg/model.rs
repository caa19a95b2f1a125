//! The mathematical model of the scheme: what an honest prover sends and what
//! a verifier accepts, over field elements and logarithms.

use crate::carina::srs::{base_position, sigma_bases, tau_bases};
use crate::dims::split;
use crate::field::{fadd, finv, fmul, fneg, fsub};
use crate::grid::{block, block_values, combine, fold_rows};
use crate::laurent::sym_witness;
use crate::poly::{dot, feval, invertible};
use crate::quadratic::{line_offset, line_slope, quad_at, quad_quotient, quad_rem0, quad_rem1};
use crate::tensor::{eq_vec, mle_eval, p2, tensor};
use crate::transcript::{drawn, nonzero, reciprocal, Entry};
use vstd::prelude::*;

verus! {

/// The coefficients of `f(x, Y)`.
pub open spec fn restrict(f: Seq<int>, ml: int, mr: int, x: int) -> Seq<int> {
    block_values(f, ml, mr, x)
}

/// The value `S(1/x)` that the reciprocal identity leaves for a witness with
/// `S(x) = t`, from the values at `x` and `1/x` of both factors and the inner
/// product `y`.
pub open spec fn recovered(
    x: int,
    a_plus: int,
    a_minus: int,
    psi_x: int,
    psi_xinv: int,
    y: int,
    t: int,
) -> int {
    fmul(
        x,
        fsub(
            fsub(fadd(fmul(a_plus, psi_xinv), fmul(a_minus, psi_x)), fadd(y, y)),
            fmul(x, t),
        ),
    )
}

/// The views of a proof.
pub struct NrgProof {
    pub cm_s0: int,
    pub cm_s1: int,
    pub pi_x: int,
    pub pi_y: int,
    pub a_plus: int,
    pub a_minus: int,
    pub t0_plus: int,
    pub v_pp: int,
    pub v_pn: int,
    pub v_np: int,
    pub v_nn: int,
    pub t1_plus: int,
}

/// The challenges of a run.
pub struct NrgChallenges {
    pub r: int,
    pub lambda: int,
    pub s: int,
    pub eta: int,
}

/// The interpolants on the grid: `I(X, Y) = i00 + i01 Y + (i10 + i11 Y) X`,
/// `L0(X) = l00 + l01 X` and `L1(Y) = l10 + l11 Y`.
pub struct GridInterp {
    pub i00: int,
    pub i01: int,
    pub i10: int,
    pub i11: int,
    pub l00: int,
    pub l01: int,
    pub l10: int,
    pub l11: int,
}

/// The value `S0(1/r)` that goes with the outer values of a proof.
pub open spec fn t0_minus(ul: Seq<int>, y: int, p: NrgProof, c: NrgChallenges) -> int {
    let n = ul.len() as int;
    recovered(
        c.r,
        p.a_plus,
        p.a_minus,
        tensor(ul, c.r, n),
        tensor(ul, finv(c.r), n),
        y,
        p.t0_plus,
    )
}

/// The value `S1(1/s)` that goes with the grid values of a proof.
pub open spec fn t1_minus(ur: Seq<int>, p: NrgProof, c: NrgChallenges) -> int {
    let n = ur.len() as int;
    recovered(
        c.s,
        fadd(p.v_pp, fmul(c.lambda, p.v_np)),
        fadd(p.v_pn, fmul(c.lambda, p.v_nn)),
        tensor(ur, c.s, n),
        tensor(ur, finv(c.s), n),
        fadd(p.a_plus, fmul(c.lambda, p.a_minus)),
        p.t1_plus,
    )
}

/// The interpolants that the values of a proof determine.
pub open spec fn grid_interp(
    ul: Seq<int>,
    ur: Seq<int>,
    y: int,
    p: NrgProof,
    c: NrgChallenges,
) -> GridInterp {
    let ri = finv(c.r);
    let si = finv(c.s);
    let a0 = line_offset(c.r, p.v_pp, ri, p.v_np);
    let a1 = line_slope(c.r, p.v_pp, ri, p.v_np);
    let b0 = line_offset(c.r, p.v_pn, ri, p.v_nn);
    let b1 = line_slope(c.r, p.v_pn, ri, p.v_nn);
    let t0 = t0_minus(ul, y, p, c);
    let t1 = t1_minus(ur, p, c);
    GridInterp {
        i00: line_offset(c.s, a0, si, b0),
        i01: line_slope(c.s, a0, si, b0),
        i10: line_offset(c.s, a1, si, b1),
        i11: line_slope(c.s, a1, si, b1),
        l00: line_offset(c.r, p.t0_plus, ri, t0),
        l01: line_slope(c.r, p.t0_plus, ri, t0),
        l10: line_offset(c.s, p.t1_plus, si, t1),
        l11: line_slope(c.s, p.t1_plus, si, t1),
    }
}

/// Column `j` of `f - I`.
pub open spec fn adjusted(f: Seq<int>, ml: int, j: int, g: GridInterp) -> Seq<int> {
    let c = block(f, ml, j);
    if j == 0 {
        c.update(0, fsub(c[0], g.i00)).update(1, fsub(c[1], g.i10))
    } else if j == 1 {
        c.update(0, fsub(c[0], g.i01)).update(1, fsub(c[1], g.i11))
    } else {
        c
    }
}

/// The quotient of `f - I` in `X`, column after column.
pub open spec fn quotient_x(f: Seq<int>, ml: int, mr: int, g: GridInterp, pr: int) -> Seq<int> {
    Seq::new(
        ((ml - 2) * mr) as nat,
        |k: int| quad_at(adjusted(f, ml, k / (ml - 2), g), pr, k % (ml - 2)),
    )
}

/// The coefficients in `Y` of the constant part of the remainder in `X`.
pub open spec fn remainder_0(f: Seq<int>, ml: int, mr: int, g: GridInterp, pr: int) -> Seq<int> {
    Seq::new(mr as nat, |j: int| quad_rem0(adjusted(f, ml, j, g), pr))
}

/// The coefficients in `Y` of the linear part of the remainder in `X`.
pub open spec fn remainder_1(f: Seq<int>, ml: int, mr: int, g: GridInterp, pr: int) -> Seq<int> {
    Seq::new(mr as nat, |j: int| quad_rem1(adjusted(f, ml, j, g), pr))
}

/// Whether `f - I` lies in the ideal of the two divisors.
pub open spec fn grid_exact(
    f: Seq<int>,
    ml: int,
    mr: int,
    g: GridInterp,
    pr: int,
    qs: int,
) -> bool {
    let r0 = remainder_0(f, ml, mr, g, pr);
    let r1 = remainder_1(f, ml, mr, g, pr);
    &&& quad_rem0(r0, qs) == 0
    &&& quad_rem1(r0, qs) == 0
    &&& quad_rem0(r1, qs) == 0
    &&& quad_rem1(r1, qs) == 0
}

/// A witness less its interpolant.
pub open spec fn less_line(s: Seq<int>, l0: int, l1: int) -> Seq<int> {
    s.update(0, fsub(s[0], l0)).update(1, fsub(s[1], l1))
}

/// Whether a witness less its interpolant is a multiple of the divisor.
pub open spec fn witness_exact(s: Seq<int>, l0: int, l1: int, p: int) -> bool {
    &&& quad_rem0(less_line(s, l0, l1), p) == 0
    &&& quad_rem1(less_line(s, l0, l1), p) == 0
}

/// The scalars of `Pi_X`: the quotient in `X` with `eta W0` in the first
/// column.
pub open spec fn pi_x_scalars(qx: Seq<int>, w0: Seq<int>, eta: int) -> Seq<int> {
    Seq::new(
        qx.len(),
        |k: int| if k < w0.len() {
            fadd(qx[k], fmul(eta, w0[k]))
        } else {
            qx[k]
        },
    )
}

/// The scalars of `Pi_Y`: the quotients in `Y` of the two remainders,
/// interleaved, with `eta^2 W1` beside the first.
pub open spec fn pi_y_scalars(
    qy0: Seq<int>,
    qy1: Seq<int>,
    w1: Seq<int>,
    eta2: int,
    mr: int,
) -> Seq<int> {
    Seq::new(
        (2 * (mr - 2)) as nat,
        |k: int| if k % 2 == 0 {
            if k / 2 < w1.len() {
                fadd(qy0[k / 2], fmul(eta2, w1[k / 2]))
            } else {
                qy0[k / 2]
            }
        } else {
            qy1[k / 2]
        },
    )
}

/// The bases of `Pi_Y`: `[sigma^j]` and `[tau sigma^j]` in turn.
pub open spec fn pi_y_bases(key: Seq<int>, ml: int, mr: int) -> Seq<int> {
    Seq::new((2 * (mr - 2)) as nat, |k: int| key[base_position(ml, mr, k % 2, k / 2)])
}

/// The polynomial `g` of an opening.
pub open spec fn g_poly(f: Seq<int>, ul: Seq<int>, ur: Seq<int>) -> Seq<int> {
    fold_rows(f, eq_vec(ur, ur.len() as int), p2(ul.len() as int), p2(ur.len() as int))
}

/// The outer witness `S0`.
pub open spec fn s0_poly(f: Seq<int>, ul: Seq<int>, ur: Seq<int>) -> Seq<int> {
    sym_witness(g_poly(f, ul, ur), ul, ul.len() as int)
}

/// The combined restriction `f(r, Y) + lambda f(1/r, Y)`.
pub open spec fn h_poly(f: Seq<int>, ul: Seq<int>, ur: Seq<int>, c: NrgChallenges) -> Seq<int> {
    let ml = p2(ul.len() as int);
    let mr = p2(ur.len() as int);
    combine(restrict(f, ml, mr, c.r), restrict(f, ml, mr, finv(c.r)), c.lambda)
}

/// The inner witness `S1`.
pub open spec fn s1_poly(f: Seq<int>, ul: Seq<int>, ur: Seq<int>, c: NrgChallenges) -> Seq<int> {
    sym_witness(h_poly(f, ul, ur, c), ur, ur.len() as int)
}

/// What an honest prover sends, but for the last two commitments.
pub open spec fn honest_values(
    key: Seq<int>,
    f: Seq<int>,
    ul: Seq<int>,
    ur: Seq<int>,
    c: NrgChallenges,
) -> NrgProof {
    let ml = p2(ul.len() as int);
    let mr = p2(ur.len() as int);
    let g = g_poly(f, ul, ur);
    let s0 = s0_poly(f, ul, ur);
    let s1 = s1_poly(f, ul, ur, c);
    let hp = restrict(f, ml, mr, c.r);
    let hm = restrict(f, ml, mr, finv(c.r));
    NrgProof {
        cm_s0: dot(tau_bases(key, ml, mr), s0, ml - 1),
        cm_s1: dot(sigma_bases(key, ml, mr), s1, mr - 1),
        pi_x: 0,
        pi_y: 0,
        a_plus: feval(g, c.r),
        a_minus: feval(g, finv(c.r)),
        t0_plus: feval(s0, c.r),
        v_pp: feval(hp, c.s),
        v_pn: feval(hp, finv(c.s)),
        v_np: feval(hm, c.s),
        v_nn: feval(hm, finv(c.s)),
        t1_plus: feval(s1, c.s),
    }
}

/// The proof of an honest prover for the table `f` and the point `(ul, ur)`.
pub open spec fn honest_proof(
    key: Seq<int>,
    f: Seq<int>,
    ul: Seq<int>,
    ur: Seq<int>,
    y: int,
    c: NrgChallenges,
) -> NrgProof {
    let ml = p2(ul.len() as int);
    let mr = p2(ur.len() as int);
    let v = honest_values(key, f, ul, ur, c);
    let gi = grid_interp(ul, ur, y, v, c);
    let pr = fadd(c.r, finv(c.r));
    let qs = fadd(c.s, finv(c.s));
    let w0 = quad_quotient(less_line(s0_poly(f, ul, ur), gi.l00, gi.l01), pr);
    let w1 = quad_quotient(less_line(s1_poly(f, ul, ur, c), gi.l10, gi.l11), qs);
    let qx = quotient_x(f, ml, mr, gi, pr);
    let qy0 = quad_quotient(remainder_0(f, ml, mr, gi, pr), qs);
    let qy1 = quad_quotient(remainder_1(f, ml, mr, gi, pr), qs);
    NrgProof {
        pi_x: dot(key, pi_x_scalars(qx, w0, c.eta), (ml - 2) * mr),
        pi_y: dot(
            pi_y_bases(key, ml, mr),
            pi_y_scalars(qy0, qy1, w1, fmul(c.eta, c.eta), mr),
            2 * (mr - 2),
        ),
        ..v
    }
}

/// The views of a verifier key.
pub struct NrgKey {
    pub g1_one: int,
    pub g1_tau: int,
    pub g1_sigma: int,
    pub g1_tau_sigma: int,
    pub g2_one: int,
    pub g2_tau: int,
    pub g2_tau2: int,
    pub g2_sigma: int,
    pub g2_sigma2: int,
}

/// The combined commitment `C_E`.
pub open spec fn combined_commitment(
    vk: NrgKey,
    com: int,
    p: NrgProof,
    gi: GridInterp,
    eta: int,
) -> int {
    let eta2 = fmul(eta, eta);
    let j00 = fadd(fadd(gi.i00, fmul(eta, gi.l00)), fmul(eta2, gi.l10));
    let j10 = fadd(gi.i10, fmul(eta, gi.l01));
    let j01 = fadd(gi.i01, fmul(eta2, gi.l11));
    dot(
        seq![com, p.cm_s0, p.cm_s1, vk.g1_one, vk.g1_tau, vk.g1_sigma, vk.g1_tau_sigma],
        seq![1, eta, eta2, fneg(j00), fneg(j10), fneg(j01), fneg(gi.i11)],
        7,
    )
}

/// Whether a verifier accepts a proof.
pub open spec fn accepts(
    vk: NrgKey,
    com: int,
    ul: Seq<int>,
    ur: Seq<int>,
    y: int,
    p: NrgProof,
    c: NrgChallenges,
) -> bool {
    let gi = grid_interp(ul, ur, y, p, c);
    let ce = combined_commitment(vk, com, p, gi, c.eta);
    let pr = fadd(c.r, finv(c.r));
    let qs = fadd(c.s, finv(c.s));
    let za = fadd(fadd(vk.g2_tau2, fmul(vk.g2_tau, fneg(pr))), vk.g2_one);
    let zb = fadd(fadd(vk.g2_sigma2, fmul(vk.g2_sigma, fneg(qs))), vk.g2_one);
    dot(seq![ce, fneg(p.pi_x), fneg(p.pi_y)], seq![vk.g2_one, za, zb], 3) == 0
}

/// The history of a transcript to which the statement was appended.
pub open spec fn with_statement(
    log: Seq<Entry>,
    mu: int,
    m_left: int,
    m_right: int,
    com: int,
    u: Seq<int>,
    y: int,
) -> Seq<Entry> {
    log.push(Entry::Message("nrg::version"@, "nested-grid-kzg-v1"@)).push(
        Entry::Field("nrg::mu"@, mu),
    ).push(Entry::Field("nrg::m_left"@, m_left)).push(Entry::Field("nrg::m_right"@, m_right)).push(
        Entry::Point("nrg::cm_f"@, com),
    ).push(Entry::Fields("nrg::point"@, u)).push(Entry::Field("nrg::value"@, y))
}

/// The history at the four points of a run just after a challenge was drawn.
pub struct NrgRun {
    pub after_r: Seq<Entry>,
    pub after_lambda: Seq<Entry>,
    pub after_s: Seq<Entry>,
    pub after_eta: Seq<Entry>,
}

/// The history with the first witness appended.
pub open spec fn with_outer(log: Seq<Entry>, p: NrgProof) -> Seq<Entry> {
    log.push(Entry::Point("nrg::cm_s0"@, p.cm_s0))
}

/// The history with the values at `r` appended.
pub open spec fn with_outer_values(log: Seq<Entry>, p: NrgProof) -> Seq<Entry> {
    log.push(Entry::Field("nrg::a_plus"@, p.a_plus)).push(
        Entry::Field("nrg::a_minus"@, p.a_minus),
    ).push(Entry::Field("nrg::t0_plus"@, p.t0_plus))
}

/// The history with the second witness appended.
pub open spec fn with_inner(log: Seq<Entry>, p: NrgProof) -> Seq<Entry> {
    log.push(Entry::Point("nrg::cm_s1"@, p.cm_s1))
}

/// The history with the values on the grid appended.
pub open spec fn with_inner_values(log: Seq<Entry>, p: NrgProof) -> Seq<Entry> {
    log.push(Entry::Field("nrg::v_pp"@, p.v_pp)).push(Entry::Field("nrg::v_pn"@, p.v_pn)).push(
        Entry::Field("nrg::v_np"@, p.v_np),
    ).push(Entry::Field("nrg::v_nn"@, p.v_nn)).push(Entry::Field("nrg::t1_plus"@, p.t1_plus))
}

/// Whether the histories of a run are those of a prover or verifier who starts
/// from `start`, absorbs the messages of the proof, and draws the challenges.
pub open spec fn is_run(start: Seq<Entry>, p: NrgProof, c: NrgChallenges, h: NrgRun) -> bool {
    &&& drawn(with_outer(start, p), h.after_r, "nrg::r"@, reciprocal(), Some(c.r))
    &&& drawn(
        with_outer_values(h.after_r, p),
        h.after_lambda,
        "nrg::lambda"@,
        nonzero(),
        Some(c.lambda),
    )
    &&& drawn(with_inner(h.after_lambda, p), h.after_s, "nrg::s"@, reciprocal(), Some(c.s))
    &&& drawn(
        with_inner_values(h.after_s, p),
        h.after_eta,
        "nrg::eta"@,
        nonzero(),
        Some(c.eta),
    )
}

/// Whether a run from `start` ends in `end` because the draws of one of its
/// challenges were exhausted.
pub open spec fn is_stopped_run(
    start: Seq<Entry>,
    end: Seq<Entry>,
    p: NrgProof,
    c: NrgChallenges,
    h: NrgRun,
) -> bool {
    let to_r = drawn(with_outer(start, p), h.after_r, "nrg::r"@, reciprocal(), Some(c.r));
    let to_lambda = to_r && drawn(
        with_outer_values(h.after_r, p),
        h.after_lambda,
        "nrg::lambda"@,
        nonzero(),
        Some(c.lambda),
    );
    let to_s = to_lambda && drawn(
        with_inner(h.after_lambda, p),
        h.after_s,
        "nrg::s"@,
        reciprocal(),
        Some(c.s),
    );
    ||| drawn(with_outer(start, p), end, "nrg::r"@, reciprocal(), None)
    ||| to_r && drawn(with_outer_values(h.after_r, p), end, "nrg::lambda"@, nonzero(), None)
    ||| to_lambda && drawn(with_inner(h.after_lambda, p), end, "nrg::s"@, reciprocal(), None)
    ||| to_s && drawn(with_inner_values(h.after_s, p), end, "nrg::eta"@, nonzero(), None)
}

/// The first part of a point.
pub open spec fn left_part(u: Seq<int>) -> Seq<int> {
    u.take(split(u.len() as int).0)
}

/// The last part of a point.
pub open spec fn right_part(u: Seq<int>) -> Seq<int> {
    u.skip(split(u.len() as int).0)
}

/// The history `log` with the statement that `com` opens at `u` to `y`.
pub open spec fn stated(log: Seq<Entry>, com: int, u: Seq<int>, y: int) -> Seq<Entry> {
    let mu = u.len() as int;
    with_statement(log, mu, split(mu).0, split(mu).1, com, u, y)
}

/// Whether a challenge and its inverse are as the divisions need them.
pub open spec fn inverse_pair(x: int, y: int) -> bool {
    &&& fmul(x, y) == 1
    &&& invertible(fsub(y, x))
}

/// Whether a proof is the honest proof of an opening of `f` at `u` for the
/// challenges of a run that starts from the history `log`.
pub open spec fn is_honest_run(
    log: Seq<Entry>,
    key: Seq<int>,
    f: Seq<int>,
    u: Seq<int>,
    com: int,
    p: NrgProof,
    c: NrgChallenges,
    h: NrgRun,
) -> bool {
    let y = mle_eval(f, u);
    &&& is_run(stated(log, com, u, y), p, c, h)
    &&& inverse_pair(c.r, finv(c.r))
    &&& inverse_pair(c.s, finv(c.s))
    &&& p == honest_proof(key, f, left_part(u), right_part(u), y, c)
}

/// Whether a proof is the honest proof of an opening of `f` at `u` for some
/// run that leads from the history `log` to the history `end`.
pub open spec fn honest_opening(
    log: Seq<Entry>,
    end: Seq<Entry>,
    key: Seq<int>,
    f: Seq<int>,
    u: Seq<int>,
    com: int,
    p: NrgProof,
) -> bool {
    exists|c: NrgChallenges, h: NrgRun|
        h.after_eta == end && #[trigger] is_honest_run(log, key, f, u, com, p, c, h)
}

/// Whether an honest prover's run from the history `log` ends in `end` because
/// the draws of one of its challenges were exhausted.
pub open spec fn is_honest_stop(
    log: Seq<Entry>,
    end: Seq<Entry>,
    key: Seq<int>,
    f: Seq<int>,
    u: Seq<int>,
    com: int,
    c: NrgChallenges,
    h: NrgRun,
) -> bool {
    let y = mle_eval(f, u);
    is_stopped_run(
        stated(log, com, u, y),
        end,
        honest_proof(key, f, left_part(u), right_part(u), y, c),
        c,
        h,
    )
}

/// Whether `ok` is the verdict on a proof for the challenges of a run that
/// starts from the history `log`.
pub open spec fn is_verdict(
    log: Seq<Entry>,
    vk: NrgKey,
    com: int,
    u: Seq<int>,
    y: int,
    p: NrgProof,
    ok: bool,
    c: NrgChallenges,
    h: NrgRun,
) -> bool {
    &&& is_run(stated(log, com, u, y), p, c, h)
    &&& inverse_pair(c.r, finv(c.r))
    &&& inverse_pair(c.s, finv(c.s))
    &&& ok == accepts(vk, com, left_part(u), right_part(u), y, p, c)
}

/// Whether `ok` is the verdict on a proof for some run that leads from the
/// history `log` to the history `end`.
pub open spec fn verdict(
    log: Seq<Entry>,
    end: Seq<Entry>,
    vk: NrgKey,
    com: int,
    u: Seq<int>,
    y: int,
    p: NrgProof,
    ok: bool,
) -> bool {
    exists|c: NrgChallenges, h: NrgRun|
        h.after_eta == end && #[trigger] is_verdict(log, vk, com, u, y, p, ok, c, h)
}

} // verus!
