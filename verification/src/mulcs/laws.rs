//! Laws of Mulcs: a verifier accepts what an honest prover sends.

use crate::bdfg::lemma_fsub_zero;
use crate::dims::lemma_pow2_mono;
use crate::field::{
    cong, fadd, finv, fmul, fneg, fpow, fsub, group_reduced, group_shadow, is_inverse,
    lemma_cong_add, lemma_cong_symm, lemma_cong_trans, lemma_modulus, lemma_mul_cancel, lemma_refl,
    lemma_shadow_eq, reduced,
};
use crate::kzg::{is_power_key, lemma_commit, lemma_second_power};
use crate::laurent::lemma_inverse_pow;
use crate::mulcs::{lemma_quotient_len, lemma_vanishing_two};
use crate::mulcs::claymore::{law_claymore, law_h_middle, powers_apart};
use crate::mulcs::division::{law_division, lemma_div_len, p_div, p_rem, reduced_top, top_quotient};
use crate::mulcs::model::{
    accepts, combined_quotient, honest_h_bar, honest_proof, is_honest_run, is_verdict,
    two_point_interp, two_point_quotient, MulcsChallenges, MulcsKey, MulcsModel,
};
use crate::mulcs::util::{claymore_h, claymore_h_bar};
use crate::poly::{
    all_reduced, basis_den, dot, feval, interp, invertible, lemma_dot_reduced,
    lemma_eval_add_scaled, lemma_eval_sub, lemma_eval_two, lemma_eval_vanishing, lemma_interp_eval,
    lemma_tail_reduced, nodes_ok, p_sub, p_vanishing, root_product,
};
use crate::quadratic::{law_line, lemma_line_zero, line_offset, line_slope};
use crate::tensor::{eq_vec, lemma_p2_step, lemma_p2_zero, mle_eval, p2, tensor};
use crate::transcript::Entry;
use vstd::prelude::*;

verus! {

/// The interpolant through two points is their line.
pub proof fn law_interp_is_line(x0: int, y0: int, x1: int, y1: int)
    requires
        nodes_ok(seq![x0, x1]),
        reduced(y0),
        reduced(y1),
    ensures
        interp(seq![x0, x1], seq![y0, y1]) == seq![
            line_offset(x0, y0, x1, y1),
            line_slope(x0, y0, x1, y1),
        ],
        invertible(fsub(x1, x0)),
{
    broadcast use group_reduced;

    let xs = seq![x0, x1];
    let ys = seq![y0, y1];
    let p = interp(xs, ys);
    let off = line_offset(x0, y0, x1, y1);
    let slope = line_slope(x0, y0, x1, y1);
    assert(invertible(fsub(x1, x0))) by {
        assert(invertible(basis_den(xs, 1, 2)));
        reveal_with_fuel(basis_den, 3);
        let d = fsub(x1, x0);
        assert(basis_den(xs, 1, 2) == fmul(1, d));
        lemma_refl(1);
        lemma_refl(d);
        broadcast use group_shadow;

        lemma_shadow_eq(fmul(1, d), 1 * d, d, d);
    }
    law_line(x0, y0, x1, y1);
    assert(all_reduced(ys));
    lemma_interp_eval(xs, ys, 0);
    lemma_interp_eval(xs, ys, 1);
    assert(xs[0] == x0 && xs[1] == x1);
    assert(p.len() == 2);
    lemma_eval_two(p, x0);
    lemma_eval_two(p, x1);
    let a = p[0];
    let b = p[1];
    assert(reduced(a) && reduced(b));
    lemma_same_line(a, b, off, slope, x0);
    lemma_same_line(a, b, off, slope, x1);
    let d0 = fsub(a, off);
    let d1 = fsub(b, slope);
    lemma_line_zero(d0, d1, x0, x1);
    lemma_fsub_zero(a, off);
    lemma_fsub_zero(b, slope);
    assert(p =~= seq![off, slope]);
}

/// The difference of two lines that meet at `x` vanishes there.
proof fn lemma_same_line(a: int, b: int, c: int, d: int, x: int)
    requires
        fadd(a, fmul(b, x)) == fadd(c, fmul(d, x)),
    ensures
        fadd(fsub(a, c), fmul(fsub(b, d), x)) == 0,
{
    broadcast use group_reduced;

    lemma_modulus();
    lemma_refl(a);
    lemma_refl(b);
    lemma_refl(c);
    lemma_refl(d);
    lemma_refl(x);
    lemma_refl(0);
    let l = fadd(a, fmul(b, x));
    let r = fadd(c, fmul(d, x));
    assert((a - c) + (b - d) * x == (a + b * x) - (c + d * x)) by (nonlinear_arith);
    broadcast use group_shadow;

    assert(cong(fsub(l, r), (a + b * x) - (c + d * x)));
    lemma_refl(l);
    lemma_shadow_eq(fsub(l, l), l - l, 0, 0);
    lemma_shadow_eq(
        fadd(fsub(a, c), fmul(fsub(b, d), x)),
        (a - c) + (b - d) * x,
        fsub(l, r),
        (a + b * x) - (c + d * x),
    );
}

proof fn lemma_rem_reduced(a: Seq<int>, b: Seq<int>)
    requires
        all_reduced(a),
    ensures
        all_reduced(p_rem(a, b)),
    decreases a.len(),
{
    broadcast use group_reduced;

    if !(b.len() == 0 || a.len() < b.len()) {
        lemma_rem_reduced(reduced_top(a, b, top_quotient(a, b)), b);
    }
}

/// Value of the vanishing polynomial of two points.
proof fn lemma_vanishing_value(a: int, b: int, x: int)
    ensures
        feval(p_vanishing(seq![a, b], 2), x) == fmul(fsub(x, a), fsub(x, b)),
{
    broadcast use group_reduced;

    let xs = seq![a, b];
    lemma_eval_vanishing(xs, 2, x);
    reveal_with_fuel(root_product, 3);
    let u = fsub(x, a);
    let v = fsub(x, b);
    assert(root_product(xs, x, 2) == fmul(fmul(1, u), v));
    lemma_refl(1);
    lemma_refl(u);
    lemma_refl(v);
    broadcast use group_shadow;

    lemma_shadow_eq(fmul(fmul(1, u), v), (1 * u) * v, fmul(u, v), u * v);
}

/// A product with a difference of equal elements vanishes.
proof fn lemma_root(q: int, x: int, y: int, v: int)
    requires
        x == y,
    ensures
        fmul(q, fmul(fsub(x, y), v)) == 0,
        fmul(q, fmul(v, fsub(x, y))) == 0,
{
    broadcast use group_reduced;

    lemma_modulus();
    lemma_refl(q);
    lemma_refl(x);
    lemma_refl(v);
    lemma_refl(0);
    broadcast use group_shadow;

    assert(q * ((x - x) * v) == 0) by (nonlinear_arith);
    assert(q * (v * (x - x)) == 0) by (nonlinear_arith);
    lemma_shadow_eq(fmul(q, fmul(fsub(x, x), v)), q * ((x - x) * v), 0, 0);
    lemma_shadow_eq(fmul(q, fmul(v, fsub(x, x))), q * (v * (x - x)), 0, 0);
}

/// A polynomial from its values at two points and the quotient by their
/// vanishing polynomial.
pub proof fn law_two_point_quotient(p: Seq<int>, a: int, b: int, x: int)
    requires
        p.len() >= 2,
        all_reduced(p),
        nodes_ok(seq![a, b]),
    ensures
        feval(p, x) == fadd(
            fmul(feval(two_point_quotient(p, a, b), x), fmul(fsub(x, a), fsub(x, b))),
            fadd(
                line_offset(a, feval(p, a), b, feval(p, b)),
                fmul(line_slope(a, feval(p, a), b, feval(p, b)), x),
            ),
        ),
{
    broadcast use group_reduced;

    let ya = feval(p, a);
    let yb = feval(p, b);
    let r = two_point_interp(p, a, b);
    let d = p_sub(p, r);
    let z = p_vanishing(seq![a, b], 2);
    lemma_tail_reduced(p, a, 0);
    lemma_tail_reduced(p, b, 0);
    law_interp_is_line(a, ya, b, yb);
    let off = line_offset(a, ya, b, yb);
    let slope = line_slope(a, ya, b, yb);
    assert(r =~= seq![off, slope]);
    lemma_vanishing_two(a, b);
    lemma_modulus();
    assert(invertible(1)) by {
        lemma_refl(1);
        broadcast use group_shadow;

        lemma_shadow_eq(fmul(1, 1), 1 * 1int, 1, 1);
        assert(is_inverse(1, 1));
    }
    let q = p_div(d, z);
    let rem = p_rem(d, z);
    lemma_div_len(d, z);
    assert(rem.len() == 2);
    assert(all_reduced(d));
    lemma_rem_reduced(d, z);
    law_line(a, ya, b, yb);
    assert forall|y: int| #![trigger feval(d, y)] feval(d, y) == fsub(
        feval(p, y),
        fadd(off, fmul(slope, y)),
    ) && feval(d, y) == fadd(
        fmul(feval(q, y), fmul(fsub(y, a), fsub(y, b))),
        fadd(rem[0], fmul(rem[1], y)),
    ) by {
        lemma_eval_sub(p, r, y);
        lemma_eval_two(r, y);
        law_division(d, z, y);
        lemma_vanishing_value(a, b, y);
        lemma_eval_two(rem, y);
    }
    lemma_vanishes_there(p, d, q, rem, a, b, a);
    lemma_vanishes_there(p, d, q, rem, a, b, b);
    lemma_line_zero(rem[0], rem[1], a, b);
    let qv = feval(q, x);
    let zv = fmul(fsub(x, a), fsub(x, b));
    let pv = feval(p, x);
    let line = fadd(off, fmul(slope, x));
    assert(feval(d, x) == fsub(pv, line));
    lemma_tail_reduced(p, x, 0);
    lemma_close(pv, line, fmul(qv, zv), x);
}

/// `p = q z + line` from `p - line = q z + 0 + 0 x`.
proof fn lemma_close(p: int, line: int, m: int, x: int)
    requires
        reduced(p),
        fsub(p, line) == fadd(m, fadd(0, fmul(0, x))),
    ensures
        p == fadd(m, line),
{
    broadcast use group_reduced;

    lemma_refl(p);
    lemma_refl(line);
    lemma_refl(m);
    lemma_refl(x);
    lemma_refl(0);
    assert(0 * x == 0) by (nonlinear_arith);
    broadcast use group_shadow;

    let d = fsub(p, line);
    assert(cong(d, p - line));
    assert(cong(d, m + (0 + 0 * x)));
    lemma_cong_add(d, p - line, line, line);
    lemma_cong_add(d, m + (0 + 0 * x), line, line);
    lemma_cong_symm(d + line, p);
    lemma_cong_trans(p, d + line, m + line);
    lemma_shadow_eq(p, m + line, fadd(m, line), m + line);
}

/// The remainder vanishes where the dividend and the divisor do.
proof fn lemma_vanishes_there(
    p: Seq<int>,
    d: Seq<int>,
    q: Seq<int>,
    rem: Seq<int>,
    a: int,
    b: int,
    y: int,
)
    requires
        y == a || y == b,
        rem.len() == 2,
        all_reduced(rem),
        ({
            let ya = feval(p, a);
            let yb = feval(p, b);
            feval(d, y) == fsub(
                feval(p, y),
                fadd(line_offset(a, ya, b, yb), fmul(line_slope(a, ya, b, yb), y)),
            )
        }),
        feval(d, y) == fadd(
            fmul(feval(q, y), fmul(fsub(y, a), fsub(y, b))),
            fadd(rem[0], fmul(rem[1], y)),
        ),
        invertible(fsub(b, a)),
    ensures
        fadd(rem[0], fmul(rem[1], y)) == 0,
{
    broadcast use group_reduced;

    let ya = feval(p, a);
    let yb = feval(p, b);
    lemma_tail_reduced(p, a, 0);
    lemma_tail_reduced(p, b, 0);
    law_line(a, ya, b, yb);
    let v = feval(p, y);
    let r = fadd(rem[0], fmul(rem[1], y));
    lemma_modulus();
    lemma_refl(v);
    lemma_refl(0);
    lemma_refl(r);
    if y == a {
        lemma_root(feval(q, y), y, a, fsub(y, b));
    } else {
        lemma_root(feval(q, y), y, b, fsub(y, a));
    }
    broadcast use group_shadow;

    lemma_shadow_eq(fsub(v, v), v - v, 0, 0);
    lemma_shadow_eq(fadd(0, r), 0 + r, r, r);
}

proof fn lemma_ring_pairing(
    g: int,
    q: int,
    d: int,
    e: int,
    r0: int,
    r1: int,
    h: int,
    x: int,
    z: int,
    w: int,
)
    requires
        d == x - z,
        e == x - w,
    ensures
        (0 + ((g * (q * (d * e) + (r0 + r1 * x))) + (-(g * r0 + (g * x) * r1))) * h) + (-(g * q))
            * ((((h * x) * x) + (h * x) * (-(z + w))) + h * (z * w)) == 0,
{
    assert((g * (q * (d * e) + (r0 + r1 * x))) + (-(g * r0 + (g * x) * r1)) == g * (q * (d * e)))
        by (nonlinear_arith);
    assert((((h * x) * x) + (h * x) * (-(z + w))) + h * (z * w) == h * (d * e)) by {
        assert((h * x) * x == h * (x * x)) by (nonlinear_arith);
        assert((h * x) * (-(z + w)) == -(h * (x * z)) - h * (x * w)) by (nonlinear_arith);
        assert((x - z) * (x - w) == x * x - x * z - x * w + z * w) by (nonlinear_arith);
        let xx = x * x;
        let xz = x * z;
        let xw = x * w;
        let zw = z * w;
        assert(h * (xx - xz - xw + zw) == h * xx - h * xz - h * xw + h * zw) by (nonlinear_arith);
    }
    let de = d * e;
    assert((g * (q * de)) * h == (g * q) * (h * de)) by (nonlinear_arith);
    assert((-(g * q)) * (h * de) == -((g * q) * (h * de))) by (nonlinear_arith);
}

/// The equation of the batched opening in the exponent.
#[verifier::spinoff_prover]
proof fn lemma_pairing(
    g: int,
    f: int,
    hb: int,
    q: int,
    r0: int,
    r1: int,
    h: int,
    x: int,
    z: int,
    w: int,
)
    requires
        fadd(f, hb) == fadd(
            fmul(q, fmul(fsub(x, z), fsub(x, w))),
            fadd(r0, fmul(r1, x)),
        ),
    ensures
        dot(
            seq![
                fadd(
                    fadd(fmul(g, f), fmul(g, hb)),
                    fneg(fadd(fmul(g, r0), fmul(fmul(g, x), r1))),
                ),
                fneg(fmul(g, q)),
            ],
            seq![
                h,
                fadd(
                    fadd(fmul(fmul(h, x), x), fmul(fmul(h, x), fneg(fadd(z, w)))),
                    fmul(h, fmul(z, w)),
                ),
            ],
            2,
        ) == 0,
{
    broadcast use group_reduced;

    lemma_modulus();
    lemma_refl(g);
    lemma_refl(f);
    lemma_refl(hb);
    lemma_refl(q);
    lemma_refl(r0);
    lemma_refl(r1);
    lemma_refl(h);
    lemma_refl(x);
    lemma_refl(z);
    lemma_refl(w);
    lemma_refl(0);
    let m = fadd(fmul(q, fmul(fsub(x, z), fsub(x, w))), fadd(r0, fmul(r1, x)));
    // g f + g hb = g m
    assert(fadd(fmul(g, f), fmul(g, hb)) == fmul(g, m)) by {
        broadcast use group_shadow;

        assert(g * f + g * hb == g * (f + hb)) by (nonlinear_arith);
        lemma_shadow_eq(
            fadd(fmul(g, f), fmul(g, hb)),
            g * f + g * hb,
            fmul(g, fadd(f, hb)),
            g * (f + hb),
        );
    }
    lemma_ring_pairing(g, q, x - z, x - w, r0, r1, h, x, z, w);
    let a0 = fadd(fmul(g, m), fneg(fadd(fmul(g, r0), fmul(fmul(g, x), r1))));
    let a1 = fneg(fmul(g, q));
    let b1 = fadd(
        fadd(fmul(fmul(h, x), x), fmul(fmul(h, x), fneg(fadd(z, w)))),
        fmul(h, fmul(z, w)),
    );
    let sa = seq![a0, a1];
    let sb = seq![h, b1];
    assert(dot(sa, sb, 2) == fadd(fadd(0, fmul(a0, h)), fmul(a1, b1))) by {
        reveal_with_fuel(dot, 3);
        assert(dot(sa, sb, 2) == fadd(fadd(0, fmul(sa[0], sb[0])), fmul(sa[1], sb[1])));
    }
    let ma = q * ((x - z) * (x - w)) + (r0 + r1 * x);
    let aa = (g * ma) + (-(g * r0 + (g * x) * r1));
    let bb = (((h * x) * x) + (h * x) * (-(z + w))) + h * (z * w);
    assert(cong(m, ma)) by {
        broadcast use group_shadow;

    }
    assert(cong(a0, aa)) by {
        broadcast use group_shadow;

    }
    assert(cong(b1, bb)) by {
        broadcast use group_shadow;

    }
    assert(cong(a1, -(g * q))) by {
        broadcast use group_shadow;

    }
    assert(cong(fadd(fadd(0, fmul(a0, h)), fmul(a1, b1)), (0 + aa * h) + (-(g * q)) * bb)) by {
        broadcast use group_shadow;

    }
    lemma_shadow_eq(
        fadd(fadd(0, fmul(a0, h)), fmul(a1, b1)),
        (0 + aa * h) + (-(g * q)) * bb,
        0,
        0,
    );
}

/// Two decompositions add up.
proof fn lemma_sum_of_quotients(
    q1: int,
    q2: int,
    m: int,
    a1: int,
    b1: int,
    a2: int,
    b2: int,
    x: int,
)
    ensures
        fadd(
            fadd(fmul(q1, m), fadd(a1, fmul(b1, x))),
            fadd(fmul(q2, m), fadd(a2, fmul(b2, x))),
        ) == fadd(
            fmul(fadd(q1, fmul(1, q2)), m),
            fadd(fadd(a1, a2), fmul(fadd(b1, b2), x)),
        ),
{
    broadcast use group_reduced;

    lemma_refl(q1);
    lemma_refl(q2);
    lemma_refl(m);
    lemma_refl(a1);
    lemma_refl(b1);
    lemma_refl(a2);
    lemma_refl(b2);
    lemma_refl(x);
    lemma_refl(1);
    assert((q1 + 1 * q2) * m == q1 * m + q2 * m) by (nonlinear_arith);
    assert((b1 + b2) * x == b1 * x + b2 * x) by (nonlinear_arith);
    broadcast use group_shadow;

    lemma_shadow_eq(
        fadd(
            fadd(fmul(q1, m), fadd(a1, fmul(b1, x))),
            fadd(fmul(q2, m), fadd(a2, fmul(b2, x))),
        ),
        (q1 * m + (a1 + b1 * x)) + (q2 * m + (a2 + b2 * x)),
        fadd(
            fmul(fadd(q1, fmul(1, q2)), m),
            fadd(fadd(a1, a2), fmul(fadd(b1, b2), x)),
        ),
        (q1 + 1 * q2) * m + ((a1 + a2) + (b1 + b2) * x),
    );
}

proof fn lemma_h_bar_reduced(h: Seq<int>, gamma: int, n: int, delta: int)
    requires
        reduced(delta),
    ensures
        all_reduced(claymore_h_bar(h, gamma, n, delta)),
{
    broadcast use group_reduced;

}

/// A point that stays apart from its multiple by `gamma` has an inverse.
proof fn lemma_point_invertible(z: int, gamma: int)
    requires
        nodes_ok(seq![z, fmul(gamma, z)]),
    ensures
        invertible(z),
{
    broadcast use group_reduced;

    let xs = seq![z, fmul(gamma, z)];
    let b = basis_den(xs, 0, xs.len() as int);
    reveal_with_fuel(basis_den, 3);
    assert(b == fmul(1, fsub(z, fmul(gamma, z))));
    let w = finv(b);
    assert(is_inverse(b, w));
    let v = fmul(fsub(1, gamma), w);
    lemma_refl(z);
    lemma_refl(gamma);
    lemma_refl(w);
    lemma_refl(1);
    assert(z * ((1 - gamma) * w) == (1 * (z - gamma * z)) * w) by (nonlinear_arith);
    assert(fmul(z, v) == fmul(b, w)) by {
        broadcast use group_shadow;

        lemma_shadow_eq(
            fmul(z, v),
            z * ((1 - gamma) * w),
            fmul(b, w),
            (1 * (z - gamma * z)) * w,
        );
    }
    lemma_modulus();
    assert(is_inverse(z, v));
}

/// The verifier accepts the honest proof.
#[verifier::spinoff_prover]
pub proof fn law_completeness(
    key: Seq<int>,
    g: int,
    x: int,
    vk: MulcsKey,
    f: Seq<int>,
    u: Seq<int>,
    c: MulcsChallenges,
)
    requires
        is_power_key(key, g, x),
        u.len() >= 1,
        f.len() == p2(u.len() as int),
        2 * f.len() - 1 <= key.len(),
        all_reduced(f),
        reduced(c.delta),
        vk.g1_one == key[0],
        vk.g1_x == key[1],
        vk.g2_x == fmul(vk.g2_one, x),
        vk.g2_x2 == fmul(vk.g2_x, x),
        powers_apart(vk.gamma, f.len() as int, 2 * f.len() - 1),
        nodes_ok(seq![c.z, fmul(vk.gamma, c.z)]),
    ensures
        accepts(
            vk,
            dot(key, f, f.len() as int),
            u,
            mle_eval(f, u),
            honest_proof(key, vk.gamma, f, u, c),
            c.z,
        ),
{
    let n = f.len() as int;
    let gamma = vk.gamma;
    let z = c.z;
    let gz = fmul(gamma, z);
    lemma_point_invertible(z, gamma);
    let hb = honest_h_bar(f, u, gamma, c.delta);
    let p = honest_proof(key, gamma, f, u, c);
    lemma_pow2_mono(1, u.len() as int);
    lemma_p2_zero();
    lemma_p2_step(1);
    lemma_dot_reduced(f, eq_vec(u, u.len() as int), p2(u.len() as int));
    law_h_middle(f, u, mle_eval(f, u));
    assert(hb.len() == 2 * n - 1);
    lemma_h_bar_reduced(
        claymore_h(f, u, u.len() as int, mle_eval(f, u)),
        gamma,
        n,
        c.delta,
    );
    law_claymore(f, u, gamma, c.delta, z);
    law_two_point_quotient(f, z, gz, x);
    law_two_point_quotient(hb, z, gz, x);
    lemma_quotient_len(f, z, gz);
    lemma_quotient_len(hb, z, gz);
    let qf = two_point_quotient(f, z, gz);
    let qh = two_point_quotient(hb, z, gz);
    let q = combined_quotient(f, hb, z, gz);
    lemma_eval_add_scaled(qf, qh, 1, x);
    let a1 = line_offset(z, p.y_f, gz, p.y_f_prime);
    let b1 = line_slope(z, p.y_f, gz, p.y_f_prime);
    let a2 = line_offset(z, p.y_hbar, gz, p.y_hbar_prime);
    let b2 = line_slope(z, p.y_hbar, gz, p.y_hbar_prime);
    let m = fmul(fsub(x, z), fsub(x, gz));
    lemma_sum_of_quotients(feval(qf, x), feval(qh, x), m, a1, b1, a2, b2, x);
    lemma_commit(key, g, x, f);
    lemma_commit(key, g, x, hb);
    lemma_commit(key, g, x, q);
    lemma_second_power(key, g, x);
    lemma_pairing(
        vk.g1_one,
        feval(f, x),
        feval(hb, x),
        feval(q, x),
        fadd(a1, a2),
        fadd(b1, b2),
        vk.g2_one,
        x,
        z,
        gz,
    );
}

/// The verifier accepts what the honest prover sends.
pub proof fn law_honest_run_is_accepted(
    start: Seq<Entry>,
    end: Seq<Entry>,
    key: Seq<int>,
    g: int,
    x: int,
    vk: MulcsKey,
    f: Seq<int>,
    u: Seq<int>,
    p: MulcsModel,
    c: MulcsChallenges,
)
    requires
        is_power_key(key, g, x),
        u.len() >= 1,
        f.len() == p2(u.len() as int),
        2 * f.len() - 1 <= key.len(),
        all_reduced(f),
        vk.g1_one == key[0],
        vk.g1_x == key[1],
        vk.g2_x == fmul(vk.g2_one, x),
        vk.g2_x2 == fmul(vk.g2_x, x),
        powers_apart(vk.gamma, f.len() as int, 2 * f.len() - 1),
        is_honest_run(start, end, key, vk.gamma, f, u, p, c),
    ensures
        is_verdict(
            start,
            end,
            vk,
            dot(key, f, f.len() as int),
            u,
            mle_eval(f, u),
            p,
            true,
            c,
        ),
{
    law_completeness(key, g, x, vk, f, u, c);
    law_interp_is_line(c.z, 0, fmul(vk.gamma, c.z), 0);
}

/// A proof determines the value: for a given `z` that has an inverse at most one
/// value is accepted.
pub proof fn law_value_is_unique(
    vk: MulcsKey,
    com: int,
    u: Seq<int>,
    y: int,
    v: int,
    p: MulcsModel,
    z: int,
)
    requires
        reduced(y),
        reduced(v),
        invertible(z),
        accepts(vk, com, u, y, p, z),
        accepts(vk, com, u, v, p, z),
    ensures
        y == v,
{
    broadcast use {group_reduced, group_shadow};

    let e = (p2(u.len() as int) - 1) as nat;
    let zi = finv(z);
    lemma_inverse_pow(z, zi, e);
    let a = fmul(p.y_f, tensor(u, zi, u.len() as int));
    lemma_mul_cancel(fpow(z, e), fpow(zi, e), fsub(a, y), fsub(a, v));
    lemma_refl(a);
    lemma_refl(y);
    lemma_refl(v);
    lemma_shadow_eq(fsub(a, fsub(a, y)), a - (a - y), y, y);
    lemma_shadow_eq(fsub(a, fsub(a, v)), a - (a - v), v, v);
}

} // verus!
