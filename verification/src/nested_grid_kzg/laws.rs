//! What the scheme promises: an honest prover never fails on an accepted
//! challenge, and a verifier accepts what an honest prover sends.

use crate::carina::laws::{
    law_prefix_commitment, law_sigma_commitment, law_table_commitment, law_tau_commitment,
    lemma_grid_key_at,
};
use crate::carina::srs::{grid_base, is_grid_key, layout};
use crate::dims::{lemma_pow2_mono, lemma_row_major, lemma_split, split};
use crate::field::{
    cong, fadd, finv, fmul, fneg, fpow, fsub, group_reduced, group_shadow, lemma_cong_add,
    lemma_cong_eq, lemma_cong_mul, lemma_cong_sub, lemma_cong_symm, lemma_cong_trans, lemma_modulus,
    lemma_refl, lemma_shadow_eq,
};
use crate::grid::{
    block, block_values, law_two_stage_evaluation, lemma_block_key, lemma_combine_dot,
    lemma_eval_mix, lemma_fold_eval,
};
use crate::laurent::{entries_reduced, law_symmetric_witness, sym_witness};
use crate::nested_grid_kzg::model::{
    accepts, adjusted, combined_commitment, g_poly, grid_exact, grid_interp, h_poly, honest_proof,
    honest_values, inverse_pair, is_honest_run, is_verdict, left_part, less_line, pi_x_scalars,
    pi_y_bases, pi_y_scalars, quotient_x, recovered, remainder_0, remainder_1, restrict, right_part,
    s0_poly, s1_poly, t0_minus, t1_minus, witness_exact, GridInterp, NrgChallenges, NrgKey,
    NrgProof, NrgRun,
};
use crate::poly::{at, dot, feval, invertible, lemma_eval_const, lemma_eval_lin, lemma_tail_reduced};
use crate::quadratic::{
    law_line, law_quadratic_division, law_quadratic_exact, lemma_divisor_roots, lemma_line_zero,
    line_offset, line_slope, quad_divisor, quad_quotient, quad_rem0, quad_rem1,
};
use crate::tensor::{eq_vec, mle_eval, p2, tensor};
use crate::transcript::Entry;
use vstd::prelude::*;

verus! {

/// The recovered value is the witness at the inverse point.
pub proof fn lemma_recovered(a: Seq<int>, u: Seq<int>, x: int, y: int)
    requires
        a.len() == p2(u.len() as int),
        entries_reduced(a),
        fmul(x, y) == 1,
    ensures
        ({
            let m = u.len() as int;
            let s = sym_witness(a, u, m);
            let v = dot(a, eq_vec(u, m), p2(m));
            recovered(
                x,
                feval(a, x),
                feval(a, y),
                tensor(u, x, m),
                tensor(u, y, m),
                v,
                feval(s, x),
            ) == feval(s, y)
        }),
{
    broadcast use group_reduced;

    let m = u.len() as int;
    let s = sym_witness(a, u, m);
    let v = dot(a, eq_vec(u, m), p2(m));
    law_symmetric_witness(a, u, m, x, y);
    let ax = feval(a, x);
    let ay = feval(a, y);
    let tx = tensor(u, x, m);
    let ty = tensor(u, y, m);
    let sx = feval(s, x);
    let sy = feval(s, y);
    let l = fadd(fmul(ax, ty), fmul(ay, tx));
    lemma_refl(v);
    lemma_refl(sx);
    lemma_refl(sy);
    lemma_refl(x);
    lemma_refl(y);
    assert(cong(l, (v + v) + (x * sx + y * sy))) by {
        broadcast use group_shadow;

    }
    assert(cong(
        fmul(x, fsub(fsub(l, fadd(v, v)), fmul(x, sx))),
        x * ((((v + v) + (x * sx + y * sy)) - (v + v)) - x * sx),
    )) by {
        broadcast use group_shadow;

    }
    assert(x * ((((v + v) + (x * sx + y * sy)) - (v + v)) - x * sx) == (x * y) * sy)
        by (nonlinear_arith);
    assert(cong(1, x * y)) by {
        assert(cong(fmul(x, y), x * y)) by {
            broadcast use group_shadow;

        }
    }
    lemma_cong_mul(1, x * y, sy, sy);
    lemma_tail_reduced(s, y, 0);
    assert(1 * sy == sy);
    let rec = fmul(x, fsub(fsub(l, fadd(v, v)), fmul(x, sx)));
    lemma_cong_symm(1 * sy, (x * y) * sy);
    lemma_cong_trans(rec, (x * y) * sy, sy);
    lemma_cong_eq(rec, sy);
}

/// Value of a polynomial less a line.
pub proof fn lemma_eval_less_line(s: Seq<int>, l0: int, l1: int, x: int)
    requires
        2 <= s.len(),
    ensures
        feval(less_line(s, l0, l1), x) == fsub(feval(s, x), fadd(l0, fmul(l1, x))),
{
    broadcast use group_reduced;

    let r = less_line(s, l0, l1);
    let line = seq![l0, l1];
    let sv = feval(s, x);
    assert forall|k: int| 0 <= k implies cong(#[trigger] at(r, k), 1 * at(s, k) + (-1) * at(
        line,
        k,
    )) by {
        lemma_refl(at(s, k));
        lemma_refl(l0);
        lemma_refl(l1);
        if k < 2 {
            assert(at(line, k) == line[k]);
            broadcast use group_shadow;

        }
    }
    lemma_eval_lin(r, s, line, 1, -1, x);
    let lv = feval(line, x);
    assert(cong(lv, l0 + l1 * x)) by {
        assert(crate::poly::tail(line, x, 2) == 0);
        assert(crate::poly::tail(line, x, 1) == fadd(fmul(0, x), l1));
        assert(lv == fadd(fmul(fadd(fmul(0, x), l1), x), l0));
        lemma_refl(0);
        lemma_refl(x);
        lemma_refl(l0);
        lemma_refl(l1);
        assert((0 * x + l1) * x + l0 == l0 + l1 * x) by (nonlinear_arith);
        broadcast use group_shadow;

    }
    lemma_refl(sv);
    lemma_cong_sub(sv, sv, lv, l0 + l1 * x);
    lemma_cong_trans(feval(r, x), 1 * sv + (-1) * lv, sv - (l0 + l1 * x));
    lemma_refl(l0);
    lemma_refl(l1);
    lemma_refl(x);
    assert(cong(fsub(sv, fadd(l0, fmul(l1, x))), sv - (l0 + l1 * x))) by {
        broadcast use group_shadow;

    }
    lemma_tail_reduced(r, x, 0);
    lemma_shadow_eq(
        feval(r, x),
        sv - (l0 + l1 * x),
        fsub(sv, fadd(l0, fmul(l1, x))),
        sv - (l0 + l1 * x),
    );
}

/// A difference of equal elements.
proof fn lemma_fsub_self(a: int)
    ensures
        fsub(a, a) == 0,
{
    broadcast use group_reduced, group_shadow;

    lemma_modulus();
    lemma_refl(a);
    lemma_refl(0);
    lemma_shadow_eq(fsub(a, a), a - a, 0, 0);
}

/// A witness less the line through its values at a point and its inverse is a
/// multiple of the divisor.
pub proof fn lemma_witness_exact(s: Seq<int>, x: int, y: int)
    requires
        2 <= s.len(),
        fmul(x, y) == 1,
        invertible(fsub(y, x)),
    ensures
        witness_exact(
            s,
            line_offset(x, feval(s, x), y, feval(s, y)),
            line_slope(x, feval(s, x), y, feval(s, y)),
            fadd(x, y),
        ),
{
    let a = feval(s, x);
    let b = feval(s, y);
    lemma_tail_reduced(s, x, 0);
    lemma_tail_reduced(s, y, 0);
    law_line(x, a, y, b);
    let l0 = line_offset(x, a, y, b);
    let l1 = line_slope(x, a, y, b);
    lemma_eval_less_line(s, l0, l1, x);
    lemma_eval_less_line(s, l0, l1, y);
    lemma_fsub_self(a);
    lemma_fsub_self(b);
    law_quadratic_exact(less_line(s, l0, l1), x, y);
}

/// The coefficients in `Y` of `(f - I)(x, Y)`.
spec fn adjusted_values(f: Seq<int>, ml: int, mr: int, g: GridInterp, x: int) -> Seq<int> {
    Seq::new(mr as nat, |j: int| feval(adjusted(f, ml, j, g), x))
}

proof fn lemma_adjusted_values(f: Seq<int>, ml: int, mr: int, g: GridInterp, x: int, y: int)
    requires
        2 <= ml,
        2 <= mr,
        f.len() == ml * mr,
    ensures
        feval(adjusted_values(f, ml, mr, g, x), y) == fsub(
            feval(restrict(f, ml, mr, x), y),
            fadd(
                fadd(g.i00, fmul(g.i10, x)),
                fmul(fadd(g.i01, fmul(g.i11, x)), y),
            ),
        ),
{
    let h = restrict(f, ml, mr, x);
    let c0 = fadd(g.i00, fmul(g.i10, x));
    let c1 = fadd(g.i01, fmul(g.i11, x));
    assert(ml * 0 == 0) by (nonlinear_arith);
    assert(ml * 1 == ml) by (nonlinear_arith);
    assert(2 * ml <= ml * mr) by (nonlinear_arith)
        requires
            2 <= mr,
            0 <= ml,
    ;
    lemma_eval_less_line(block(f, ml, 0), g.i00, g.i10, x);
    lemma_eval_less_line(block(f, ml, 1), g.i01, g.i11, x);
    assert(adjusted(f, ml, 0, g) =~= less_line(block(f, ml, 0), g.i00, g.i10));
    assert(adjusted(f, ml, 1, g) =~= less_line(block(f, ml, 1), g.i01, g.i11));
    assert(adjusted_values(f, ml, mr, g, x) =~= less_line(h, c0, c1));
    lemma_eval_less_line(h, c0, c1, y);
}

/// Division in `X`, column by column: `(f - I)(x, y)` from the quotients and
/// the remainders.
proof fn lemma_columns_divide(
    f: Seq<int>,
    ml: int,
    mr: int,
    g: GridInterp,
    pr: int,
    x: int,
    y: int,
)
    requires
        2 <= ml,
        2 <= mr,
        f.len() == ml * mr,
    ensures
        feval(adjusted_values(f, ml, mr, g, x), y) == fadd(
            fmul(quad_divisor(pr, x), feval(quotient_values(f, ml, mr, g, pr, x), y)),
            fadd(
                feval(remainder_0(f, ml, mr, g, pr), y),
                fmul(x, feval(remainder_1(f, ml, mr, g, pr), y)),
            ),
        ),
{
    broadcast use group_reduced;

    let e = adjusted_values(f, ml, mr, g, x);
    let q = quotient_values(f, ml, mr, g, pr, x);
    let r0 = remainder_0(f, ml, mr, g, pr);
    let r1 = remainder_1(f, ml, mr, g, pr);
    let z = quad_divisor(pr, x);
    let s = Seq::new(mr as nat, |j: int| fadd(r0[j], fmul(r1[j], x)));
    lemma_refl(z);
    lemma_refl(x);
    lemma_refl(0);
    assert forall|k: int| 0 <= k implies cong(#[trigger] at(e, k), z * at(q, k) + 1 * at(s, k)) by {
        if k < mr {
            law_quadratic_division(adjusted(f, ml, k, g), pr, x);
            assert(e[k] == fadd(fmul(z, q[k]), s[k]));
            lemma_refl(q[k]);
            lemma_refl(s[k]);
            broadcast use group_shadow;

        } else {
            assert(z * 0 + 1int * 0 == 0) by (nonlinear_arith);
        }
    }
    lemma_eval_lin(e, q, s, z, 1, y);
    assert forall|k: int| 0 <= k implies cong(#[trigger] at(s, k), 1 * at(r0, k) + x * at(r1, k)) by {
        if k < mr {
            lemma_refl(r0[k]);
            lemma_refl(r1[k]);
            assert(1 * r0[k] + x * r1[k] == r0[k] + r1[k] * x) by (nonlinear_arith);
            broadcast use group_shadow;

        } else {
            assert(1int * 0 + x * 0 == 0) by (nonlinear_arith);
        }
    }
    lemma_eval_lin(s, r0, r1, 1, x, y);
    let ev = feval(e, y);
    let qv = feval(q, y);
    let sv = feval(s, y);
    let a = feval(r0, y);
    let b = feval(r1, y);
    lemma_refl(z * qv);
    lemma_cong_add(z * qv, z * qv, sv, 1 * a + x * b);
    lemma_cong_trans(ev, z * qv + 1 * sv, z * qv + (1 * a + x * b));
    lemma_refl(qv);
    lemma_refl(a);
    lemma_refl(b);
    assert(cong(fadd(fmul(z, qv), fadd(a, fmul(x, b))), z * qv + (a + x * b))) by {
        broadcast use group_shadow;

    }
    lemma_tail_reduced(e, y, 0);
    lemma_shadow_eq(
        ev,
        z * qv + (1 * a + x * b),
        fadd(fmul(z, qv), fadd(a, fmul(x, b))),
        z * qv + (a + x * b),
    );
}

/// The values at `x` of the quotients of the columns.
pub open spec fn quotient_values(
    f: Seq<int>,
    ml: int,
    mr: int,
    g: GridInterp,
    pr: int,
    x: int,
) -> Seq<int> {
    Seq::new(mr as nat, |j: int| feval(quad_quotient(adjusted(f, ml, j, g), pr), x))
}

/// The interpolant in the two orders of its variables.
proof fn lemma_interp_order(a: int, b: int, c: int, d: int, x: int, y: int)
    ensures
        fadd(fadd(a, fmul(c, x)), fmul(fadd(b, fmul(d, x)), y)) == fadd(
            fadd(a, fmul(b, y)),
            fmul(fadd(c, fmul(d, y)), x),
        ),
{
    broadcast use group_reduced;

    lemma_refl(a);
    lemma_refl(b);
    lemma_refl(c);
    lemma_refl(d);
    lemma_refl(x);
    lemma_refl(y);
    assert((a + c * x) + (b + d * x) * y == (a + b * y) + (c + d * y) * x) by (nonlinear_arith);
    broadcast use group_shadow;

    lemma_shadow_eq(
        fadd(fadd(a, fmul(c, x)), fmul(fadd(b, fmul(d, x)), y)),
        (a + c * x) + (b + d * x) * y,
        fadd(fadd(a, fmul(b, y)), fmul(fadd(c, fmul(d, y)), x)),
        (a + b * y) + (c + d * y) * x,
    );
}

/// `f - I` vanishes at a point of the grid where `I` takes the value of `f`.
proof fn lemma_grid_zero(f: Seq<int>, ml: int, mr: int, g: GridInterp, x: int, y: int, v: int)
    requires
        2 <= ml,
        2 <= mr,
        f.len() == ml * mr,
        feval(restrict(f, ml, mr, x), y) == v,
        fadd(fadd(g.i00, fmul(g.i01, y)), fmul(fadd(g.i10, fmul(g.i11, y)), x)) == v,
    ensures
        feval(adjusted_values(f, ml, mr, g, x), y) == 0,
{
    lemma_adjusted_values(f, ml, mr, g, x, y);
    lemma_interp_order(g.i00, g.i01, g.i10, g.i11, x, y);
    lemma_fsub_self(v);
}

/// At a root of the divisor in `X` the remainders alone are left.
proof fn lemma_remainders_at_root(
    f: Seq<int>,
    ml: int,
    mr: int,
    g: GridInterp,
    pr: int,
    x: int,
    y: int,
)
    requires
        2 <= ml,
        2 <= mr,
        f.len() == ml * mr,
        quad_divisor(pr, x) == 0,
        feval(adjusted_values(f, ml, mr, g, x), y) == 0,
    ensures
        fadd(
            feval(remainder_0(f, ml, mr, g, pr), y),
            fmul(feval(remainder_1(f, ml, mr, g, pr), y), x),
        ) == 0,
{
    broadcast use group_reduced;

    lemma_columns_divide(f, ml, mr, g, pr, x, y);
    let q = feval(quotient_values(f, ml, mr, g, pr, x), y);
    let a = feval(remainder_0(f, ml, mr, g, pr), y);
    let b = feval(remainder_1(f, ml, mr, g, pr), y);
    lemma_refl(0);
    lemma_refl(q);
    lemma_refl(a);
    lemma_refl(b);
    lemma_refl(x);
    assert(0 * q + (a + x * b) == a + b * x) by (nonlinear_arith);
    broadcast use group_shadow;

    lemma_shadow_eq(
        fadd(fmul(0, q), fadd(a, fmul(x, b))),
        0 * q + (a + x * b),
        fadd(a, fmul(b, x)),
        a + b * x,
    );
}

/// The grid quotient leaves no remainder for honest values.
pub proof fn lemma_grid_exact(
    key: Seq<int>,
    f: Seq<int>,
    ul: Seq<int>,
    ur: Seq<int>,
    y: int,
    c: NrgChallenges,
)
    requires
        2 <= p2(ul.len() as int),
        2 <= p2(ur.len() as int),
        f.len() == p2(ul.len() as int) * p2(ur.len() as int),
        inverse_pair(c.r, finv(c.r)),
        inverse_pair(c.s, finv(c.s)),
    ensures
        grid_exact(
            f,
            p2(ul.len() as int),
            p2(ur.len() as int),
            grid_interp(ul, ur, y, honest_values(key, f, ul, ur, c), c),
            fadd(c.r, finv(c.r)),
            fadd(c.s, finv(c.s)),
        ),
{
    broadcast use group_reduced;

    let ml = p2(ul.len() as int);
    let mr = p2(ur.len() as int);
    let v = honest_values(key, f, ul, ur, c);
    let g = grid_interp(ul, ur, y, v, c);
    let r = c.r;
    let ri = finv(c.r);
    let s = c.s;
    let si = finv(c.s);
    let pr = fadd(r, ri);
    let qs = fadd(s, si);
    let hp = restrict(f, ml, mr, r);
    let hm = restrict(f, ml, mr, ri);
    lemma_tail_reduced(hp, s, 0);
    lemma_tail_reduced(hp, si, 0);
    lemma_tail_reduced(hm, s, 0);
    lemma_tail_reduced(hm, si, 0);
    law_line(r, v.v_pp, ri, v.v_np);
    law_line(r, v.v_pn, ri, v.v_nn);
    let a0 = line_offset(r, v.v_pp, ri, v.v_np);
    let a1 = line_slope(r, v.v_pp, ri, v.v_np);
    let b0 = line_offset(r, v.v_pn, ri, v.v_nn);
    let b1 = line_slope(r, v.v_pn, ri, v.v_nn);
    law_line(s, a0, si, b0);
    law_line(s, a1, si, b1);
    lemma_grid_zero(f, ml, mr, g, r, s, v.v_pp);
    lemma_grid_zero(f, ml, mr, g, r, si, v.v_pn);
    lemma_grid_zero(f, ml, mr, g, ri, s, v.v_np);
    lemma_grid_zero(f, ml, mr, g, ri, si, v.v_nn);
    lemma_divisor_roots(r, ri);
    lemma_remainders_at_root(f, ml, mr, g, pr, r, s);
    lemma_remainders_at_root(f, ml, mr, g, pr, ri, s);
    lemma_remainders_at_root(f, ml, mr, g, pr, r, si);
    lemma_remainders_at_root(f, ml, mr, g, pr, ri, si);
    let r0 = remainder_0(f, ml, mr, g, pr);
    let r1 = remainder_1(f, ml, mr, g, pr);
    lemma_tail_reduced(r0, s, 0);
    lemma_tail_reduced(r1, s, 0);
    lemma_tail_reduced(r0, si, 0);
    lemma_tail_reduced(r1, si, 0);
    lemma_line_zero(feval(r0, s), feval(r1, s), r, ri);
    lemma_line_zero(feval(r0, si), feval(r1, si), r, ri);
    law_quadratic_exact(r0, s, si);
    law_quadratic_exact(r1, s, si);
}

/// The conditions under which the statements about honest runs hold: a table
/// of the right size, the claimed value, and usable challenges.
pub open spec fn honest_setting(
    f: Seq<int>,
    ul: Seq<int>,
    ur: Seq<int>,
    y: int,
    c: NrgChallenges,
) -> bool {
    &&& 4 <= p2(ul.len() as int)
    &&& 4 <= p2(ur.len() as int)
    &&& f.len() == p2(ul.len() as int) * p2(ur.len() as int)
    &&& y == mle_eval(f, ul + ur)
    &&& inverse_pair(c.r, finv(c.r))
    &&& inverse_pair(c.s, finv(c.s))
}

/// The values that the verifier recovers are those of the witnesses.
pub proof fn lemma_recovered_values(
    key: Seq<int>,
    f: Seq<int>,
    ul: Seq<int>,
    ur: Seq<int>,
    y: int,
    c: NrgChallenges,
)
    requires
        honest_setting(f, ul, ur, y, c),
    ensures
        t0_minus(ul, y, honest_values(key, f, ul, ur, c), c) == feval(
            s0_poly(f, ul, ur),
            finv(c.r),
        ),
        t1_minus(ur, honest_values(key, f, ul, ur, c), c) == feval(
            s1_poly(f, ul, ur, c),
            finv(c.s),
        ),
{
    broadcast use group_reduced;

    lemma_modulus();
    let a = ul.len() as int;
    let b = ur.len() as int;
    let ml = p2(a);
    let mr = p2(b);
    let v = honest_values(key, f, ul, ur, c);
    let g = g_poly(f, ul, ur);
    let er = eq_vec(ur, b);
    let ri = finv(c.r);
    let si = finv(c.s);
    vstd::arithmetic::power2::lemma_pow2_adds(ul.len(), ur.len());
    law_two_stage_evaluation(f, ul + ur, ul, ur);
    assert(entries_reduced(g));
    lemma_recovered(g, ul, c.r, ri);
    let hp = restrict(f, ml, mr, c.r);
    let hm = restrict(f, ml, mr, ri);
    let h = h_poly(f, ul, ur, c);
    assert(entries_reduced(h));
    lemma_recovered(h, ur, c.s, si);
    lemma_eval_mix(h, hp, hm, c.lambda, c.s);
    lemma_eval_mix(h, hp, hm, c.lambda, si);
    lemma_combine_dot(hp, hm, c.lambda, er, mr);
    lemma_fold_eval(f, er, ml, mr, mr, c.r);
    lemma_fold_eval(f, er, ml, mr, mr, ri);
}

/// The witnesses of an honest run divide without remainder.
pub proof fn lemma_witnesses_exact(
    key: Seq<int>,
    f: Seq<int>,
    ul: Seq<int>,
    ur: Seq<int>,
    y: int,
    c: NrgChallenges,
)
    requires
        honest_setting(f, ul, ur, y, c),
    ensures
        ({
            let g = grid_interp(ul, ur, y, honest_values(key, f, ul, ur, c), c);
            &&& witness_exact(s0_poly(f, ul, ur), g.l00, g.l01, fadd(c.r, finv(c.r)))
            &&& witness_exact(s1_poly(f, ul, ur, c), g.l10, g.l11, fadd(c.s, finv(c.s)))
        }),
{
    lemma_recovered_values(key, f, ul, ur, y, c);
    lemma_witness_exact(s0_poly(f, ul, ur), c.r, finv(c.r));
    lemma_witness_exact(s1_poly(f, ul, ur, c), c.s, finv(c.s));
}

/// Value of a sequence with a multiple of a shorter one beside it.
proof fn lemma_eval_beside(a: Seq<int>, b: Seq<int>, t: int, x: int)
    requires
        b.len() <= a.len(),
    ensures
        feval(pi_x_scalars(a, b, t), x) == fadd(feval(a, x), fmul(t, feval(b, x))),
{
    broadcast use group_reduced;

    let r = pi_x_scalars(a, b, t);
    lemma_refl(t);
    lemma_refl(0);
    assert forall|k: int| 0 <= k implies cong(#[trigger] at(r, k), 1 * at(a, k) + t * at(b, k)) by {
        if k < b.len() {
            lemma_refl(a[k]);
            lemma_refl(b[k]);
            broadcast use group_shadow;

        } else {
            assert(t * 0 == 0) by (nonlinear_arith);
            lemma_refl(at(a, k));
        }
    }
    lemma_eval_lin(r, a, b, 1, t, x);
    let av = feval(a, x);
    let bv = feval(b, x);
    lemma_refl(av);
    lemma_refl(bv);
    lemma_tail_reduced(r, x, 0);
    broadcast use group_shadow;

    lemma_shadow_eq(feval(r, x), 1 * av + t * bv, fadd(av, fmul(t, bv)), av + t * bv);
}

/// `Pi_X` evaluates `Q_X + eta W0`.
proof fn lemma_pi_x(
    key: Seq<int>,
    f: Seq<int>,
    ml: int,
    mr: int,
    gi: GridInterp,
    pr: int,
    w0: Seq<int>,
    eta: int,
    g: int,
    tau: int,
    sigma: int,
)
    requires
        4 <= ml,
        4 <= mr,
        f.len() == ml * mr,
        w0.len() <= ml - 2,
        is_grid_key(key, ml, mr, g, tau, sigma),
    ensures
        dot(key, pi_x_scalars(quotient_x(f, ml, mr, gi, pr), w0, eta), (ml - 2) * mr) == fmul(
            g,
            fadd(
                feval(quotient_values(f, ml, mr, gi, pr, tau), sigma),
                fmul(eta, feval(w0, tau)),
            ),
        ),
{
    broadcast use group_reduced;

    let w = ml - 2;
    let qx = quotient_x(f, ml, mr, gi, pr);
    let c = pi_x_scalars(qx, w0, eta);
    assert(w <= w * mr) by (nonlinear_arith)
        requires
            1 <= w,
            1 <= mr,
    ;
    law_prefix_commitment(key, ml, mr, g, tau, sigma, c);
    let v = block_values(c, w, mr, tau);
    let q = quotient_values(f, ml, mr, gi, pr, tau);
    let e = seq![feval(w0, tau)];
    assert(v =~= pi_x_scalars(q, e, eta)) by {
        assert forall|j: int| 0 <= j < mr implies v[j] == pi_x_scalars(q, e, eta)[j] by {
            lemma_column_bounds(ml, mr, j);
            let qj = quad_quotient(adjusted(f, ml, j, gi), pr);
            assert forall|i: int| 0 <= i < w implies #[trigger] qx[w * j + i] == qj[i] by {
                lemma_row_major(w, mr, i, j);
                assert(j * w == w * j) by (nonlinear_arith);
            }
            if j == 0 {
                assert(w * 0 == 0) by (nonlinear_arith);
                assert(block(c, w, 0) =~= pi_x_scalars(qj, w0, eta)) by {
                    assert forall|i: int| 0 <= i < w implies block(c, w, 0)[i] == pi_x_scalars(
                        qj,
                        w0,
                        eta,
                    )[i] by {
                        assert(qx[w * 0 + i] == qj[i]);
                    }
                }
                lemma_eval_beside(qj, w0, eta, tau);
            } else {
                assert(w <= w * j) by (nonlinear_arith)
                    requires
                        1 <= j,
                        1 <= w,
                ;
                assert(block(c, w, j) =~= qj) by {
                    assert forall|i: int| 0 <= i < w implies block(c, w, j)[i] == qj[i] by {
                        assert(qx[w * j + i] == qj[i]);
                    }
                }
            }
        }
    }
    lemma_eval_beside(q, e, eta, sigma);
    lemma_eval_const(feval(w0, tau), sigma);
    lemma_tail_reduced(w0, tau, 0);
}

proof fn lemma_column_bounds(ml: int, mr: int, j: int)
    requires
        3 <= ml,
        0 <= j < mr,
    ensures
        0 <= (ml - 2) * j,
        (ml - 2) * j + (ml - 2) <= (ml - 2) * mr,
        0 <= ml * j,
        ml * j + ml <= ml * mr,
{
    let w = ml - 2;
    assert(0 <= w * j && w * j + w <= w * mr && 0 <= ml * j && ml * j + ml <= ml * mr)
        by (nonlinear_arith)
        requires
            1 <= w,
            3 <= ml,
            0 <= j < mr,
    ;
}

/// `Pi_Y` evaluates `Q_Y + eta^2 W1`.
proof fn lemma_pi_y(
    key: Seq<int>,
    ml: int,
    mr: int,
    q0: Seq<int>,
    q1: Seq<int>,
    w1: Seq<int>,
    eta2: int,
    g: int,
    tau: int,
    sigma: int,
)
    requires
        4 <= ml,
        4 <= mr,
        q0.len() == q1.len() == mr - 2,
        w1.len() <= mr - 2,
        is_grid_key(key, ml, mr, g, tau, sigma),
    ensures
        dot(pi_y_bases(key, ml, mr), pi_y_scalars(q0, q1, w1, eta2, mr), 2 * (mr - 2)) == fmul(
            g,
            fadd(
                fadd(feval(q0, sigma), fmul(eta2, feval(w1, sigma))),
                fmul(tau, feval(q1, sigma)),
            ),
        ),
{
    broadcast use group_reduced;

    let n = mr - 2;
    let c = pi_y_scalars(q0, q1, w1, eta2, mr);
    let bases = pi_y_bases(key, ml, mr);
    assert forall|i: int, j: int| 0 <= i < 2 && 0 <= j < n implies #[trigger] bases[2 * j + i]
        == fmul(g, fmul(fpow(tau, i as nat), fpow(sigma, j as nat))) by {
        lemma_grid_key_at(key, ml, mr, g, tau, sigma, i, j);
        assert((2 * j + i) % 2 == i && (2 * j + i) / 2 == j);
    }
    lemma_block_key(bases, c, 2, n, g, tau, sigma);
    let v = block_values(c, 2, n, tau);
    let a = pi_x_scalars(q0, w1, eta2);
    assert(2 * n == n * 2);
    assert forall|j: int| 0 <= j < n implies cong(#[trigger] v[j], a[j] + tau * q1[j]) by {
        let b = block(c, 2, j);
        assert(b.len() == 2);
        assert((2 * j) % 2 == 0 && (2 * j) / 2 == j);
        assert((2 * j + 1) % 2 == 1 && (2 * j + 1) / 2 == j);
        assert(b[0] == c[2 * j] && b[1] == c[2 * j + 1]);
        assert(b[0] == a[j] && b[1] == q1[j]);
        assert(crate::poly::tail(b, tau, 2) == 0);
        assert(crate::poly::tail(b, tau, 1) == fadd(fmul(0, tau), b[1]));
        assert(feval(b, tau) == fadd(fmul(fadd(fmul(0, tau), b[1]), tau), b[0]));
        lemma_refl(0);
        lemma_refl(tau);
        lemma_refl(b[0]);
        lemma_refl(b[1]);
        assert((0 * tau + b[1]) * tau + b[0] == b[0] + tau * b[1]) by (nonlinear_arith);
        broadcast use group_shadow;

    }
    lemma_refl(0);
    assert forall|k: int| 0 <= k implies cong(#[trigger] at(v, k), 1 * at(a, k) + tau * at(q1, k)) by {
        if k < n {
            assert(cong(v[k], a[k] + tau * q1[k]));
        } else {
            assert(tau * 0 == 0) by (nonlinear_arith);
        }
    }
    lemma_eval_lin(v, a, q1, 1, tau, sigma);
    lemma_eval_beside(q0, w1, eta2, sigma);
    let av = feval(a, sigma);
    let bv = feval(q1, sigma);
    lemma_refl(av);
    lemma_refl(bv);
    lemma_refl(tau);
    lemma_tail_reduced(v, sigma, 0);
    broadcast use group_shadow;

    lemma_shadow_eq(feval(v, sigma), 1 * av + tau * bv, fadd(av, fmul(tau, bv)), av + tau * bv);
}

/// The verifier's key that belongs to a grid key.
pub open spec fn key_of(g: int, tau: int, sigma: int, h: int) -> NrgKey {
    NrgKey {
        g1_one: grid_base(g, tau, sigma, 0, 0),
        g1_tau: grid_base(g, tau, sigma, 1, 0),
        g1_sigma: grid_base(g, tau, sigma, 0, 1),
        g1_tau_sigma: grid_base(g, tau, sigma, 1, 1),
        g2_one: h,
        g2_tau: fmul(h, tau),
        g2_tau2: fmul(fmul(h, tau), tau),
        g2_sigma: fmul(h, sigma),
        g2_sigma2: fmul(fmul(h, sigma), sigma),
    }
}

/// The value of `I` at the trapdoors.
spec fn interp_at(gi: GridInterp, x: int, y: int) -> int {
    fadd(fadd(gi.i00, fmul(gi.i10, x)), fmul(fadd(gi.i01, fmul(gi.i11, x)), y))
}

proof fn lemma_ring_combined(
    g: int,
    f: int,
    s0: int,
    s1: int,
    e: int,
    e2: int,
    t: int,
    s: int,
    gi: GridInterp,
)
    ensures
        g * f * 1 + g * s0 * e + g * s1 * e2 + g * (-(gi.i00 + e * gi.l00 + e2 * gi.l10)) + g * t
            * (-(gi.i10 + e * gi.l01)) + g * s * (-(gi.i01 + e2 * gi.l11)) + g * (t * s)
            * (-gi.i11) == g * (((f + e * s0) + e2 * s1) - (((gi.i00 + gi.i10 * t) + (gi.i01
            + gi.i11 * t) * s) + e * (gi.l00 + gi.l01 * t) + e2 * (gi.l10 + gi.l11 * s))),
{
    let a = gi.i00 + e * gi.l00 + e2 * gi.l10;
    let b = gi.i10 + e * gi.l01;
    let c = gi.i01 + e2 * gi.l11;
    let d = gi.i11;
    assert(g * f * 1 == g * f) by (nonlinear_arith);
    assert(g * s0 * e == g * (e * s0)) by (nonlinear_arith);
    assert(g * s1 * e2 == g * (e2 * s1)) by (nonlinear_arith);
    assert(g * t * (-b) == g * (-(b * t))) by (nonlinear_arith);
    assert(g * s * (-c) == g * (-(c * s))) by (nonlinear_arith);
    assert(g * (t * s) * (-d) == g * (-(d * t * s))) by (nonlinear_arith);
    assert(b * t == gi.i10 * t + e * (gi.l01 * t)) by (nonlinear_arith)
        requires
            b == gi.i10 + e * gi.l01,
    ;
    assert(c * s == gi.i01 * s + e2 * (gi.l11 * s)) by (nonlinear_arith)
        requires
            c == gi.i01 + e2 * gi.l11,
    ;
    assert((gi.i01 + gi.i11 * t) * s == gi.i01 * s + d * t * s) by (nonlinear_arith)
        requires
            d == gi.i11,
    ;
    assert(e * (gi.l00 + gi.l01 * t) == e * gi.l00 + e * (gi.l01 * t)) by (nonlinear_arith);
    assert(e2 * (gi.l10 + gi.l11 * s) == e2 * gi.l10 + e2 * (gi.l11 * s)) by (nonlinear_arith);
    let x = f;
    let y = e * s0;
    let z = e2 * s1;
    let bt = b * t;
    let cs = c * s;
    let dts = d * t * s;
    assert(g * x + g * y + g * z + g * (-a) + g * (-bt) + g * (-cs) + g * (-dts) == g * (x + y + z
        - a - bt - cs - dts)) by (nonlinear_arith);
}

/// `C_E` commits to `f + eta S0 + eta^2 S1` less the interpolants.
proof fn lemma_combined_commitment(
    g: int,
    tau: int,
    sigma: int,
    h: int,
    f: int,
    s0: int,
    s1: int,
    p: NrgProof,
    gi: GridInterp,
    eta: int,
)
    requires
        p.cm_s0 == fmul(g, s0),
        p.cm_s1 == fmul(g, s1),
    ensures
        ({
            let eta2 = fmul(eta, eta);
            combined_commitment(key_of(g, tau, sigma, h), fmul(g, f), p, gi, eta) == fmul(
                g,
                fsub(
                    fadd(fadd(f, fmul(eta, s0)), fmul(eta2, s1)),
                    fadd(
                        fadd(
                            interp_at(gi, tau, sigma),
                            fmul(eta, fadd(gi.l00, fmul(gi.l01, tau))),
                        ),
                        fmul(eta2, fadd(gi.l10, fmul(gi.l11, sigma))),
                    ),
                ),
            )
        }),
{
    broadcast use group_reduced;

    let vk = key_of(g, tau, sigma, h);
    let eta2 = fmul(eta, eta);
    let j00 = fadd(fadd(gi.i00, fmul(eta, gi.l00)), fmul(eta2, gi.l10));
    let j10 = fadd(gi.i10, fmul(eta, gi.l01));
    let j01 = fadd(gi.i01, fmul(eta2, gi.l11));
    let a = seq![fmul(g, f), p.cm_s0, p.cm_s1, vk.g1_one, vk.g1_tau, vk.g1_sigma, vk.g1_tau_sigma];
    let b = seq![1, eta, eta2, fneg(j00), fneg(j10), fneg(j01), fneg(gi.i11)];
    reveal_with_fuel(dot, 8);
    reveal_with_fuel(fpow, 2);
    lemma_refl(0);
    lemma_refl(1);
    lemma_refl(g);
    lemma_refl(tau);
    lemma_refl(sigma);
    lemma_refl(f);
    lemma_refl(s0);
    lemma_refl(s1);
    lemma_refl(eta);
    let e2 = eta * eta;
    lemma_refl(gi.i00);
    lemma_refl(gi.i01);
    lemma_refl(gi.i10);
    lemma_refl(gi.i11);
    lemma_refl(gi.l00);
    lemma_refl(gi.l01);
    lemma_refl(gi.l10);
    lemma_refl(gi.l11);
    let lhs = dot(a, b, 7);
    let t0 = fmul(fmul(g, f), 1);
    let t1 = fmul(fmul(g, s0), eta);
    let t2 = fmul(fmul(g, s1), eta2);
    let t3 = fmul(vk.g1_one, fneg(j00));
    let t4 = fmul(vk.g1_tau, fneg(j10));
    let t5 = fmul(vk.g1_sigma, fneg(j01));
    let t6 = fmul(vk.g1_tau_sigma, fneg(gi.i11));
    assert(lhs == fadd(fadd(fadd(fadd(fadd(fadd(fadd(0, t0), t1), t2), t3), t4), t5), t6));
    assert(vk.g1_one == fmul(g, fmul(1, 1)));
    assert(fpow(tau, 1) == fmul(1, tau));
    assert(fpow(sigma, 1) == fmul(1, sigma));
    assert(vk.g1_tau == fmul(g, fmul(fmul(1, tau), 1)));
    assert(vk.g1_sigma == fmul(g, fmul(1, fmul(1, sigma))));
    assert(vk.g1_tau_sigma == fmul(g, fmul(fmul(1, tau), fmul(1, sigma))));
    let l = 0 + (g * f) * 1 + (g * s0) * eta + (g * s1) * e2 + (g * (1 * 1)) * (-((gi.i00 + eta
        * gi.l00) + e2 * gi.l10)) + (g * ((1 * tau) * 1)) * (-(gi.i10 + eta * gi.l01)) + (g * (1
        * (1 * sigma))) * (-(gi.i01 + e2 * gi.l11)) + (g * ((1 * tau) * (1 * sigma))) * (-gi.i11);
    assert(cong(lhs, l)) by {
        broadcast use group_shadow;

        assert(cong(t0, (g * f) * 1));
        assert(cong(t1, (g * s0) * eta));
        assert(cong(t2, (g * s1) * e2));
        assert(cong(t3, (g * (1 * 1)) * (-((gi.i00 + eta * gi.l00) + e2 * gi.l10))));
        assert(cong(t4, (g * ((1 * tau) * 1)) * (-(gi.i10 + eta * gi.l01))));
        assert(cong(t5, (g * (1 * (1 * sigma))) * (-(gi.i01 + e2 * gi.l11))));
        assert(cong(t6, (g * ((1 * tau) * (1 * sigma))) * (-gi.i11)));
    }
    let iv = interp_at(gi, tau, sigma);
    let rhs = fmul(
        g,
        fsub(
            fadd(fadd(f, fmul(eta, s0)), fmul(eta2, s1)),
            fadd(
                fadd(iv, fmul(eta, fadd(gi.l00, fmul(gi.l01, tau)))),
                fmul(eta2, fadd(gi.l10, fmul(gi.l11, sigma))),
            ),
        ),
    );
    let r = g * (((f + eta * s0) + e2 * s1) - ((((gi.i00 + gi.i10 * tau) + (gi.i01 + gi.i11 * tau)
        * sigma) + eta * (gi.l00 + gi.l01 * tau)) + e2 * (gi.l10 + gi.l11 * sigma)));
    assert(cong(rhs, r)) by {
        broadcast use group_shadow;

    }
    lemma_ring_combined(g, f, s0, s1, eta, e2, tau, sigma, gi);
    assert(l == r) by {
        assert(g * (1 * 1) == g) by (nonlinear_arith);
        assert((1 * tau) * 1 == tau && 1 * (1 * sigma) == sigma && (1 * tau) * (1 * sigma) == tau
            * sigma) by (nonlinear_arith);
    }
    lemma_shadow_eq(lhs, l, rhs, r);
}

proof fn lemma_ring_pairing(g: int, h: int, e: int, px: int, py: int, za: int, zb: int)
    requires
        e == za * px + zb * py,
    ensures
        ((0 + (g * e) * h) + (-(g * px)) * (h * za)) + (-(g * py)) * (h * zb) == 0,
{
    assert((g * e) * h == (g * h) * (za * px) + (g * h) * (zb * py)) by (nonlinear_arith)
        requires
            e == za * px + zb * py,
    ;
    assert((-(g * px)) * (h * za) == -((g * h) * (za * px))) by (nonlinear_arith);
    assert((-(g * py)) * (h * zb) == -((g * h) * (zb * py))) by (nonlinear_arith);
}

/// The pairing check holds where the committed polynomial lies in the ideal of
/// the divisors, with the committed quotients.
proof fn lemma_pairing_holds(
    g: int,
    h: int,
    e: int,
    px: int,
    py: int,
    tau: int,
    sigma: int,
    pr: int,
    qs: int,
)
    requires
        e == fadd(fmul(quad_divisor(pr, tau), px), fmul(quad_divisor(qs, sigma), py)),
    ensures
        ({
            let za = fadd(fadd(fmul(fmul(h, tau), tau), fmul(fmul(h, tau), fneg(pr))), h);
            let zb = fadd(fadd(fmul(fmul(h, sigma), sigma), fmul(fmul(h, sigma), fneg(qs))), h);
            dot(
                seq![fmul(g, e), fneg(fmul(g, px)), fneg(fmul(g, py))],
                seq![h, za, zb],
                3,
            ) == 0
        }),
{
    broadcast use group_reduced;

    let za = fadd(fadd(fmul(fmul(h, tau), tau), fmul(fmul(h, tau), fneg(pr))), h);
    let zb = fadd(fadd(fmul(fmul(h, sigma), sigma), fmul(fmul(h, sigma), fneg(qs))), h);
    let d = dot(seq![fmul(g, e), fneg(fmul(g, px)), fneg(fmul(g, py))], seq![h, za, zb], 3);
    reveal_with_fuel(dot, 4);
    lemma_modulus();
    lemma_refl(0);
    lemma_refl(1);
    lemma_refl(g);
    lemma_refl(h);
    lemma_refl(tau);
    lemma_refl(sigma);
    lemma_refl(pr);
    lemma_refl(qs);
    lemma_refl(px);
    lemma_refl(py);
    let ia = (tau * tau - pr * tau) + 1;
    let ib = (sigma * sigma - qs * sigma) + 1;
    let ie = ia * px + ib * py;
    assert(cong(e, ie)) by {
        broadcast use group_shadow;

    }
    assert(cong(za, h * ia)) by {
        assert(((h * tau) * tau + (h * tau) * (-pr)) + h == h * ((tau * tau - pr * tau) + 1))
            by (nonlinear_arith);
        broadcast use group_shadow;

    }
    assert(cong(zb, h * ib)) by {
        assert(((h * sigma) * sigma + (h * sigma) * (-qs)) + h == h * ((sigma * sigma - qs * sigma)
            + 1)) by (nonlinear_arith);
        broadcast use group_shadow;

    }
    assert(d == fadd(
        fadd(fadd(0, fmul(fmul(g, e), h)), fmul(fneg(fmul(g, px)), za)),
        fmul(fneg(fmul(g, py)), zb),
    ));
    let l = ((0 + (g * ie) * h) + (-(g * px)) * (h * ia)) + (-(g * py)) * (h * ib);
    lemma_pairing_shadow(d, g, h, e, px, py, za, zb, ie, ia, ib);
    lemma_ring_pairing(g, h, ie, px, py, ia, ib);
    lemma_shadow_eq(d, l, 0, 0);
}

proof fn lemma_pairing_shadow(
    d: int,
    g: int,
    h: int,
    e: int,
    px: int,
    py: int,
    za: int,
    zb: int,
    ie: int,
    ia: int,
    ib: int,
)
    requires
        cong(e, ie),
        cong(za, h * ia),
        cong(zb, h * ib),
        d == fadd(
            fadd(fadd(0, fmul(fmul(g, e), h)), fmul(fneg(fmul(g, px)), za)),
            fmul(fneg(fmul(g, py)), zb),
        ),
    ensures
        cong(
            d,
            ((0 + (g * ie) * h) + (-(g * px)) * (h * ia)) + (-(g * py)) * (h * ib),
        ),
{
    lemma_refl(0);
    lemma_refl(g);
    lemma_refl(h);
    lemma_refl(px);
    lemma_refl(py);
    broadcast use group_shadow;

}

/// The committed polynomial of an honest run in terms of the quotients.
proof fn lemma_ideal(
    f: int,
    s0: int,
    s1: int,
    i: int,
    l0: int,
    l1: int,
    za: int,
    zb: int,
    qx: int,
    q0: int,
    q1: int,
    w0: int,
    w1: int,
    e: int,
    e2: int,
    t: int,
    r0: int,
    r1: int,
)
    requires
        fsub(f, i) == fadd(fmul(za, qx), fadd(r0, fmul(t, r1))),
        cong(r0, zb * q0),
        cong(r1, zb * q1),
        cong(fsub(s0, l0), za * w0),
        cong(fsub(s1, l1), zb * w1),
    ensures
        fsub(fadd(fadd(f, fmul(e, s0)), fmul(e2, s1)), fadd(fadd(i, fmul(e, l0)), fmul(e2, l1)))
            == fadd(
            fmul(za, fadd(qx, fmul(e, w0))),
            fmul(zb, fadd(fadd(q0, fmul(e2, w1)), fmul(t, q1))),
        ),
{
    broadcast use group_reduced;

    lemma_refl(f);
    lemma_refl(s0);
    lemma_refl(s1);
    lemma_refl(i);
    lemma_refl(l0);
    lemma_refl(l1);
    lemma_refl(za);
    lemma_refl(zb);
    lemma_refl(qx);
    lemma_refl(q0);
    lemma_refl(q1);
    lemma_refl(w0);
    lemma_refl(w1);
    lemma_refl(e);
    lemma_refl(e2);
    lemma_refl(t);
    let lhs = fsub(
        fadd(fadd(f, fmul(e, s0)), fmul(e2, s1)),
        fadd(fadd(i, fmul(e, l0)), fmul(e2, l1)),
    );
    let df = fsub(f, i);
    let d0 = fsub(s0, l0);
    let d1 = fsub(s1, l1);
    let mid = fadd(fadd(df, fmul(e, d0)), fmul(e2, d1));
    assert(lhs == mid) by {
        let a = ((f + e * s0) + e2 * s1) - ((i + e * l0) + e2 * l1);
        let b = ((f - i) + e * (s0 - l0)) + e2 * (s1 - l1);
        assert(cong(lhs, a)) by {
            broadcast use group_shadow;

        }
        assert(cong(mid, b)) by {
            broadcast use group_shadow;

        }
        assert(e * (s0 - l0) == e * s0 - e * l0) by (nonlinear_arith);
        assert(e2 * (s1 - l1) == e2 * s1 - e2 * l1) by (nonlinear_arith);
        lemma_shadow_eq(lhs, a, mid, b);
    }
    lemma_ideal_sum(df, d0, d1, za, zb, qx, q0, q1, w0, w1, e, e2, t, r0, r1);
}

proof fn lemma_ideal_sum(
    df: int,
    d0: int,
    d1: int,
    za: int,
    zb: int,
    qx: int,
    q0: int,
    q1: int,
    w0: int,
    w1: int,
    e: int,
    e2: int,
    t: int,
    r0: int,
    r1: int,
)
    requires
        df == fadd(fmul(za, qx), fadd(r0, fmul(t, r1))),
        cong(r0, zb * q0),
        cong(r1, zb * q1),
        cong(d0, za * w0),
        cong(d1, zb * w1),
    ensures
        fadd(fadd(df, fmul(e, d0)), fmul(e2, d1)) == fadd(
            fmul(za, fadd(qx, fmul(e, w0))),
            fmul(zb, fadd(fadd(q0, fmul(e2, w1)), fmul(t, q1))),
        ),
{
    broadcast use group_reduced;

    lemma_refl(za);
    lemma_refl(zb);
    lemma_refl(qx);
    lemma_refl(q0);
    lemma_refl(q1);
    lemma_refl(w0);
    lemma_refl(w1);
    lemma_refl(e);
    lemma_refl(e2);
    lemma_refl(t);
    let lhs = fadd(fadd(df, fmul(e, d0)), fmul(e2, d1));
    let a = ((za * qx + (zb * q0 + t * (zb * q1))) + e * (za * w0)) + e2 * (zb * w1);
    lemma_ideal_shadow(df, d0, d1, za, zb, qx, q0, q1, w0, w1, e, e2, t, r0, r1);
    let rhs = fadd(
        fmul(za, fadd(qx, fmul(e, w0))),
        fmul(zb, fadd(fadd(q0, fmul(e2, w1)), fmul(t, q1))),
    );
    let b = za * (qx + e * w0) + zb * ((q0 + e2 * w1) + t * q1);
    assert(cong(rhs, b)) by {
        broadcast use group_shadow;

    }
    assert(za * (qx + e * w0) == za * qx + e * (za * w0)) by (nonlinear_arith);
    assert(zb * ((q0 + e2 * w1) + t * q1) == zb * q0 + e2 * (zb * w1) + t * (zb * q1))
        by (nonlinear_arith);
    lemma_shadow_eq(lhs, a, rhs, b);
}

proof fn lemma_ideal_shadow(
    df: int,
    d0: int,
    d1: int,
    za: int,
    zb: int,
    qx: int,
    q0: int,
    q1: int,
    w0: int,
    w1: int,
    e: int,
    e2: int,
    t: int,
    r0: int,
    r1: int,
)
    requires
        df == fadd(fmul(za, qx), fadd(r0, fmul(t, r1))),
        cong(r0, zb * q0),
        cong(r1, zb * q1),
        cong(d0, za * w0),
        cong(d1, zb * w1),
    ensures
        cong(
            fadd(fadd(df, fmul(e, d0)), fmul(e2, d1)),
            ((za * qx + (zb * q0 + t * (zb * q1))) + e * (za * w0)) + e2 * (zb * w1),
        ),
{
    lemma_refl(za);
    lemma_refl(qx);
    lemma_refl(e);
    lemma_refl(e2);
    lemma_refl(t);
    broadcast use group_shadow;

}

/// An exact division leaves the product with the divisor.
proof fn lemma_exact_value(c: Seq<int>, p: int, x: int)
    requires
        quad_rem0(c, p) == 0,
        quad_rem1(c, p) == 0,
    ensures
        cong(feval(c, x), quad_divisor(p, x) * feval(quad_quotient(c, p), x)),
{
    law_quadratic_division(c, p, x);
    let z = quad_divisor(p, x);
    let q = feval(quad_quotient(c, p), x);
    lemma_refl(z);
    lemma_refl(q);
    lemma_refl(0);
    lemma_refl(x);
    assert(z * q + (0 + 0 * x) == z * q) by (nonlinear_arith);
    broadcast use group_shadow;

    assert(cong(fadd(fmul(z, q), fadd(0, fmul(0, x))), z * q + (0 + 0 * x)));
}

/// Completeness: for every table, every point and every usable choice of the
/// challenges, a verifier whose key belongs to the prover's grid key accepts
/// what an honest prover sends.
pub proof fn law_completeness(
    key: Seq<int>,
    g: int,
    tau: int,
    sigma: int,
    h: int,
    f: Seq<int>,
    ul: Seq<int>,
    ur: Seq<int>,
    y: int,
    c: NrgChallenges,
)
    requires
        honest_setting(f, ul, ur, y, c),
        is_grid_key(key, p2(ul.len() as int), p2(ur.len() as int), g, tau, sigma),
    ensures
        accepts(
            key_of(g, tau, sigma, h),
            dot(
                key,
                layout(f, p2(ul.len() as int), p2(ur.len() as int)),
                p2(ul.len() as int) * p2(ur.len() as int),
            ),
            ul,
            ur,
            y,
            honest_proof(key, f, ul, ur, y, c),
            c,
        ),
{
    let ml = p2(ul.len() as int);
    let mr = p2(ur.len() as int);
    let v = honest_values(key, f, ul, ur, c);
    let p = honest_proof(key, f, ul, ur, y, c);
    let gi = grid_interp(ul, ur, y, v, c);
    assert(gi == grid_interp(ul, ur, y, p, c));
    let pr = fadd(c.r, finv(c.r));
    let qs = fadd(c.s, finv(c.s));
    let eta = c.eta;
    let eta2 = fmul(eta, eta);
    lemma_grid_exact(key, f, ul, ur, y, c);
    lemma_witnesses_exact(key, f, ul, ur, y, c);
    let s0 = s0_poly(f, ul, ur);
    let s1 = s1_poly(f, ul, ur, c);
    let m0 = less_line(s0, gi.l00, gi.l01);
    let m1 = less_line(s1, gi.l10, gi.l11);
    let w0 = quad_quotient(m0, pr);
    let w1 = quad_quotient(m1, qs);
    let rem0 = remainder_0(f, ml, mr, gi, pr);
    let rem1 = remainder_1(f, ml, mr, gi, pr);
    let q0 = quad_quotient(rem0, qs);
    let q1 = quad_quotient(rem1, qs);
    let fv = feval(restrict(f, ml, mr, tau), sigma);
    let za = quad_divisor(pr, tau);
    let zb = quad_divisor(qs, sigma);
    let qxv = feval(quotient_values(f, ml, mr, gi, pr, tau), sigma);
    law_table_commitment(key, ml, mr, g, tau, sigma, f);
    law_tau_commitment(key, ml, mr, g, tau, sigma, s0);
    law_sigma_commitment(key, ml, mr, g, tau, sigma, s1);
    lemma_pi_x(key, f, ml, mr, gi, pr, w0, eta, g, tau, sigma);
    lemma_pi_y(key, ml, mr, q0, q1, w1, eta2, g, tau, sigma);
    let s0v = feval(s0, tau);
    let s1v = feval(s1, sigma);
    lemma_combined_commitment(g, tau, sigma, h, fv, s0v, s1v, p, gi, eta);
    lemma_adjusted_values(f, ml, mr, gi, tau, sigma);
    lemma_columns_divide(f, ml, mr, gi, pr, tau, sigma);
    lemma_exact_value(rem0, qs, sigma);
    lemma_exact_value(rem1, qs, sigma);
    lemma_eval_less_line(s0, gi.l00, gi.l01, tau);
    lemma_eval_less_line(s1, gi.l10, gi.l11, sigma);
    lemma_exact_value(m0, pr, tau);
    lemma_exact_value(m1, qs, sigma);
    let l0v = fadd(gi.l00, fmul(gi.l01, tau));
    let l1v = fadd(gi.l10, fmul(gi.l11, sigma));
    let iv = interp_at(gi, tau, sigma);
    let w0v = feval(w0, tau);
    let w1v = feval(w1, sigma);
    let q0v = feval(q0, sigma);
    let q1v = feval(q1, sigma);
    lemma_ideal(
        fv,
        s0v,
        s1v,
        iv,
        l0v,
        l1v,
        za,
        zb,
        qxv,
        q0v,
        q1v,
        w0v,
        w1v,
        eta,
        eta2,
        tau,
        feval(rem0, sigma),
        feval(rem1, sigma),
    );
    let px = fadd(qxv, fmul(eta, w0v));
    let py = fadd(fadd(q0v, fmul(eta2, w1v)), fmul(tau, q1v));
    let e = fadd(fmul(za, px), fmul(zb, py));
    lemma_pairing_holds(g, h, e, px, py, tau, sigma, pr, qs);
}

/// What an honest prover sends in a run is accepted in the same run: the
/// verifier who replays the transcript draws the same challenges and says yes.
pub proof fn law_honest_run_is_accepted(
    log: Seq<Entry>,
    key: Seq<int>,
    g: int,
    tau: int,
    sigma: int,
    h: int,
    f: Seq<int>,
    u: Seq<int>,
    com: int,
    p: NrgProof,
    c: NrgChallenges,
    run: NrgRun,
)
    requires
        4 <= u.len(),
        f.len() == p2(u.len() as int),
        is_grid_key(
            key,
            p2(split(u.len() as int).0),
            p2(split(u.len() as int).1),
            g,
            tau,
            sigma,
        ),
        com == dot(
            key,
            layout(f, p2(split(u.len() as int).0), p2(split(u.len() as int).1)),
            p2(u.len() as int),
        ),
        is_honest_run(log, key, f, u, com, p, c, run),
    ensures
        is_verdict(
            log,
            key_of(g, tau, sigma, h),
            com,
            u,
            mle_eval(f, u),
            p,
            true,
            c,
            run,
        ),
{
    let mu = u.len() as int;
    let ul = left_part(u);
    let ur = right_part(u);
    lemma_split(mu);
    lemma_pow2_mono(2, split(mu).0);
    lemma_pow2_mono(2, split(mu).1);
    vstd::arithmetic::power2::lemma2_to64();
    assert(ul + ur =~= u);
    law_completeness(key, g, tau, sigma, h, f, ul, ur, mle_eval(f, u), c);
}

} // verus!
