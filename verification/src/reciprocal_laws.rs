//! Laws of openings at a point and its inverse: a verifier accepts what an
//! honest prover sends.

use crate::dims::lemma_pow2_mono;
use crate::errors::PCSError;
use crate::field::{
    cong, fadd, finv, fmul, fneg, fsub, group_reduced, group_shadow, is_inverse, lemma_add_cancel,
    lemma_cong_eq, lemma_cong_inverse, lemma_cong_move, lemma_cong_sub, lemma_cong_symm,
    lemma_cong_trans, lemma_double_cancel, lemma_modulus, lemma_refl, lemma_shadow_eq, reduced,
};
use crate::kzg::{is_power_key, lemma_commit, lemma_second_power};
use crate::laurent::{entries_reduced, law_symmetric_witness, sym_witness};
use crate::poly::{
    all_reduced, dot, feval, int_dot, invertible, lemma_dot_shadow, lemma_eval_add_scaled,
    lemma_eval_sub, lemma_eval_two, lemma_tail_reduced, p_add_scaled,
};
use crate::quadratic::{
    law_line, law_quadratic_division, law_quadratic_exact, lemma_line_names, line_offset,
    line_slope, quad_divisor, quad_quotient,
};
use crate::reciprocal::{
    accepts, after_z, combined_numerator, combined_offset, combined_slope, honest_proof,
    honest_quotient, honest_values, is_honest_run, is_verdict, run_end, verification_result,
    ReciChallenges, ReciKey, ReciLabels, ReciModel,
};
use crate::tensor::{lemma_p2_zero, mle_eval, p2, tensor};
use crate::transcript::{is_course, lemma_course_challenge, Entry};
use vstd::prelude::*;

verus! {

proof fn lemma_ring_line(a: int, b: int, c: int, d: int, al: int, x: int)
    ensures
        (a + al * c) + (b + al * d) * x == (a + b * x) + al * (c + d * x),
{
    assert((b + al * d) * x == b * x + al * (d * x)) by (nonlinear_arith);
    assert(al * (c + d * x) == al * c + al * (d * x)) by (nonlinear_arith);
}

/// A combination of two lines at a point.
proof fn lemma_combined_line(a: int, b: int, c: int, d: int, al: int, x: int, u: int, v: int)
    requires
        fadd(a, fmul(b, x)) == u,
        fadd(c, fmul(d, x)) == v,
    ensures
        fsub(fadd(u, fmul(al, v)), fadd(fadd(a, fmul(al, c)), fmul(fadd(b, fmul(al, d)), x)))
            == 0,
{
    broadcast use group_reduced;

    lemma_modulus();
    lemma_refl(a);
    lemma_refl(b);
    lemma_refl(c);
    lemma_refl(d);
    lemma_refl(al);
    lemma_refl(x);
    lemma_refl(0);
    lemma_ring_line(a, b, c, d, al, x);
    let left = fadd(fadd(a, fmul(b, x)), fmul(al, fadd(c, fmul(d, x))));
    let right = fadd(fadd(a, fmul(al, c)), fmul(fadd(b, fmul(al, d)), x));
    broadcast use group_shadow;

    lemma_shadow_eq(
        left,
        (a + b * x) + al * (c + d * x),
        right,
        (a + al * c) + (b + al * d) * x,
    );
    lemma_refl(left);
    lemma_shadow_eq(fsub(left, left), left - left, 0, 0);
}

/// The honest numerator vanishes at `z` and at its inverse.
proof fn lemma_numerator_vanishes(
    key: Seq<int>,
    f: Seq<int>,
    hb: Seq<int>,
    c: ReciChallenges,
    x: int,
)
    requires
        x == c.z || x == finv(c.z),
        invertible(fsub(finv(c.z), c.z)),
    ensures
        ({
            let v = honest_values(key, f, hb, c.z);
            feval(
                combined_numerator(
                    f,
                    hb,
                    c.alpha,
                    combined_offset(v, c),
                    combined_slope(v, c),
                ),
                x,
            )
        }) == 0,
{
    let z = c.z;
    let zi = finv(z);
    let v = honest_values(key, f, hb, z);
    let r0 = combined_offset(v, c);
    let r1 = combined_slope(v, c);
    let line = seq![r0, r1];
    let sum = p_add_scaled(f, hb, c.alpha);
    lemma_tail_reduced(f, z, 0);
    lemma_tail_reduced(f, zi, 0);
    lemma_tail_reduced(hb, z, 0);
    lemma_tail_reduced(hb, zi, 0);
    law_line(z, v.f_z, zi, v.f_z_inv);
    law_line(z, v.hbar_z, zi, v.hbar_z_inv);
    lemma_eval_add_scaled(f, hb, c.alpha, x);
    lemma_eval_two(line, x);
    lemma_eval_sub(sum, line, x);
    lemma_combined_line(
        line_offset(z, v.f_z, zi, v.f_z_inv),
        line_slope(z, v.f_z, zi, v.f_z_inv),
        line_offset(z, v.hbar_z, zi, v.hbar_z_inv),
        line_slope(z, v.hbar_z, zi, v.hbar_z_inv),
        c.alpha,
        x,
        feval(f, x),
        feval(hb, x),
    );
}

proof fn lemma_ring_pairing(g: int, m: int, q: int, d: int, h: int, x: int, s: int)
    requires
        d == x * x - s * x + 1,
        m == d * q,
    ensures
        (0 + (g * m) * h) + (-(g * q)) * (((h * x) * x + (h * x) * (-s)) + h) == 0,
{
    assert((h * x) * x == h * (x * x)) by (nonlinear_arith);
    assert((h * x) * (-s) == -(h * (s * x))) by (nonlinear_arith);
    let xx = x * x;
    let sx = s * x;
    assert(h * (xx - sx + 1) == h * xx - h * sx + h) by (nonlinear_arith);
    assert((g * (d * q)) * h == (g * q) * (h * d)) by (nonlinear_arith);
    assert((-(g * q)) * (h * d) == -((g * q) * (h * d))) by (nonlinear_arith);
}

/// `g f + (g hb) alpha - (g r0 + (g x) r1)` is `g` times the numerator.
proof fn lemma_left(g: int, f: int, hb: int, al: int, r0: int, r1: int, x: int)
    ensures
        fadd(
            fadd(fmul(g, f), fmul(fmul(g, hb), al)),
            fneg(fadd(fmul(g, r0), fmul(fmul(g, x), r1))),
        ) == fmul(g, fsub(fadd(f, fmul(al, hb)), fadd(r0, fmul(r1, x)))),
{
    broadcast use group_reduced;

    lemma_refl(g);
    lemma_refl(f);
    lemma_refl(hb);
    lemma_refl(al);
    lemma_refl(r0);
    lemma_refl(r1);
    lemma_refl(x);
    assert((g * hb) * al == g * (al * hb)) by (nonlinear_arith);
    assert((g * x) * r1 == g * (r1 * x)) by (nonlinear_arith);
    let ah = al * hb;
    let rx = r1 * x;
    assert(g * ((f + ah) - (r0 + rx)) == (g * f + g * ah) + (-(g * r0 + g * rx)))
        by (nonlinear_arith);
    broadcast use group_shadow;

    lemma_shadow_eq(
        fadd(
            fadd(fmul(g, f), fmul(fmul(g, hb), al)),
            fneg(fadd(fmul(g, r0), fmul(fmul(g, x), r1))),
        ),
        (g * f + (g * hb) * al) + (-(g * r0 + (g * x) * r1)),
        fmul(g, fsub(fadd(f, fmul(al, hb)), fadd(r0, fmul(r1, x)))),
        g * ((f + al * hb) - (r0 + r1 * x)),
    );
}

/// The pairing equation for an exact quotient.
#[verifier::spinoff_prover]
proof fn lemma_right(g: int, m: int, q: int, h: int, x: int, s: int)
    requires
        m == fmul(quad_divisor(s, x), q),
    ensures
        dot(
            seq![fmul(g, m), fneg(fmul(g, q))],
            seq![h, fadd(fadd(fmul(fmul(h, x), x), fmul(fmul(h, x), fneg(s))), h)],
            2,
        ) == 0,
{
    broadcast use group_reduced;

    lemma_modulus();
    lemma_refl(g);
    lemma_refl(q);
    lemma_refl(h);
    lemma_refl(x);
    lemma_refl(s);
    lemma_refl(0);
    lemma_refl(1);
    let d = x * x - s * x + 1;
    lemma_ring_pairing(g, d * q, q, d, h, x, s);
    let a0 = fmul(g, m);
    let a1 = fneg(fmul(g, q));
    let b1 = fadd(fadd(fmul(fmul(h, x), x), fmul(fmul(h, x), fneg(s))), h);
    let sa = seq![a0, a1];
    let sb = seq![h, b1];
    assert(dot(sa, sb, 2) == fadd(fadd(0, fmul(a0, h)), fmul(a1, b1))) by {
        reveal_with_fuel(dot, 3);
        assert(dot(sa, sb, 2) == fadd(fadd(0, fmul(sa[0], sb[0])), fmul(sa[1], sb[1])));
    }
    let bb = ((h * x) * x + (h * x) * (-s)) + h;
    assert(cong(m, d * q)) by {
        broadcast use group_shadow;

        assert(cong(quad_divisor(s, x), d));
    }
    assert(cong(b1, bb)) by {
        broadcast use group_shadow;

    }
    broadcast use group_shadow;

    lemma_shadow_eq(
        fadd(fadd(0, fmul(a0, h)), fmul(a1, b1)),
        (0 + (g * (d * q)) * h) + (-(g * q)) * bb,
        0,
        0,
    );
}

/// The quotient of the honest prover is exact.
proof fn lemma_exact(key: Seq<int>, f: Seq<int>, hb: Seq<int>, c: ReciChallenges, x: int)
    requires
        is_inverse(c.z, finv(c.z)),
        invertible(fsub(finv(c.z), c.z)),
    ensures
        ({
            let v = honest_values(key, f, hb, c.z);
            fsub(
                fadd(feval(f, x), fmul(c.alpha, feval(hb, x))),
                fadd(combined_offset(v, c), fmul(combined_slope(v, c), x)),
            )
        }) == fmul(
            quad_divisor(fadd(c.z, finv(c.z)), x),
            feval(honest_quotient(key, f, hb, c), x),
        ),
{
    broadcast use group_reduced;

    let z = c.z;
    let zi = finv(z);
    let v = honest_values(key, f, hb, z);
    let r0 = combined_offset(v, c);
    let r1 = combined_slope(v, c);
    let line = seq![r0, r1];
    let num = combined_numerator(f, hb, c.alpha, r0, r1);
    let s = fadd(z, zi);
    lemma_numerator_vanishes(key, f, hb, c, z);
    lemma_numerator_vanishes(key, f, hb, c, zi);
    law_quadratic_exact(num, z, zi);
    law_quadratic_division(num, s, x);
    lemma_eval_add_scaled(f, hb, c.alpha, x);
    lemma_eval_two(line, x);
    lemma_eval_sub(p_add_scaled(f, hb, c.alpha), line, x);
    let m = fmul(quad_divisor(s, x), feval(quad_quotient(num, s), x));
    lemma_refl(m);
    lemma_refl(0);
    lemma_refl(x);
    broadcast use group_shadow;

    assert(0 * x == 0) by (nonlinear_arith);
    lemma_shadow_eq(fadd(m, fadd(0, fmul(0, x))), m + (0 + 0 * x), m, m);
}

proof fn lemma_swap_sum(a: int, b: int, y: int)
    ensures
        fadd(fadd(a, b), fadd(y, y)) == fadd(fadd(y, y), fadd(a, b)),
{
    assert(fadd(a, b) + fadd(y, y) == fadd(y, y) + fadd(a, b));
}

/// The verifier accepts what the honest prover sends.
pub proof fn law_completeness(
    key: Seq<int>,
    g: int,
    x: int,
    vk: ReciKey,
    f: Seq<int>,
    u: Seq<int>,
    c: ReciChallenges,
)
    requires
        is_power_key(key, g, x),
        f.len() == p2(u.len() as int),
        f.len() <= key.len(),
        2 <= key.len(),
        all_reduced(f),
        vk.g1_one == key[0],
        vk.g1_tau == key[1],
        vk.g2_tau == fmul(vk.g2_one, x),
        vk.g2_tau2 == fmul(vk.g2_tau, x),
        is_inverse(c.z, finv(c.z)),
        invertible(fsub(finv(c.z), c.z)),
    ensures
        accepts(
            vk,
            dot(key, f, f.len() as int),
            u,
            mle_eval(f, u),
            honest_proof(key, f, u, c),
            c,
        ),
{
    let mu = u.len() as int;
    let z = c.z;
    let zi = finv(z);
    let hb = sym_witness(f, u, mu);
    let p = honest_proof(key, f, u, c);
    let v = honest_values(key, f, hb, z);
    let q = honest_quotient(key, f, hb, c);
    let r0 = combined_offset(v, c);
    let r1 = combined_slope(v, c);
    assert(combined_offset(p, c) == r0);
    assert(combined_slope(p, c) == r1);
    lemma_pow2_mono(0, mu);
    lemma_p2_zero();
    assert(hb.len() == f.len() - 1);
    assert(q.len() <= key.len());
    lemma_commit(key, g, x, f);
    lemma_commit(key, g, x, hb);
    lemma_commit(key, g, x, q);
    lemma_second_power(key, g, x);
    lemma_exact(key, f, hb, c, x);
    let g1 = vk.g1_one;
    lemma_left(g1, feval(f, x), feval(hb, x), c.alpha, r0, r1, x);
    let m = fsub(
        fadd(feval(f, x), fmul(c.alpha, feval(hb, x))),
        fadd(r0, fmul(r1, x)),
    );
    lemma_right(g1, m, feval(q, x), vk.g2_one, x, fadd(z, zi));
    assert(entries_reduced(f));
    law_symmetric_witness(f, u, mu, z, zi);
    lemma_swap_sum(fmul(z, p.hbar_z), fmul(zi, p.hbar_z_inv), mle_eval(f, u));
}

/// The verifier accepts what the honest prover sends: from the same statement
/// it draws the same challenges and comes to the verdict `true`.
pub proof fn law_honest_run_is_accepted(
    start: Seq<Entry>,
    end: Seq<Entry>,
    l: ReciLabels,
    key: Seq<int>,
    g: int,
    x: int,
    vk: ReciKey,
    f: Seq<int>,
    u: Seq<int>,
    p: ReciModel,
    named: Option<int>,
    c: ReciChallenges,
)
    requires
        is_power_key(key, g, x),
        f.len() == p2(u.len() as int),
        f.len() <= key.len(),
        2 <= key.len(),
        all_reduced(f),
        vk.g1_one == key[0],
        vk.g1_tau == key[1],
        vk.g2_tau == fmul(vk.g2_one, x),
        vk.g2_tau2 == fmul(vk.g2_tau, x),
        is_honest_run(start, end, l, key, f, u, p, c),
        named is None || named == Some(c.z),
    ensures
        is_verdict(
            start,
            end,
            l,
            vk,
            dot(key, f, f.len() as int),
            u,
            mle_eval(f, u),
            p,
            named,
            true,
            c,
        ),
{
    law_completeness(key, g, x, vk, f, u, c);
}

/// A verification of what an honest run sent returns `true`: its course is that
/// of the run.
pub proof fn law_verification_of_honest_run(
    start: Seq<Entry>,
    end: Seq<Entry>,
    other: Seq<Entry>,
    l: ReciLabels,
    key: Seq<int>,
    g: int,
    x: int,
    vk: ReciKey,
    f: Seq<int>,
    u: Seq<int>,
    p: ReciModel,
    named: Option<int>,
    c: ReciChallenges,
    res: Result<bool, PCSError>,
    d: ReciChallenges,
)
    requires
        is_course(end),
        is_course(other),
        is_power_key(key, g, x),
        f.len() == p2(u.len() as int),
        f.len() <= key.len(),
        2 <= key.len(),
        all_reduced(f),
        vk.g1_one == key[0],
        vk.g1_tau == key[1],
        vk.g2_tau == fmul(vk.g2_one, x),
        vk.g2_tau2 == fmul(vk.g2_tau, x),
        is_honest_run(start, end, l, key, f, u, p, c),
        named is None || named == Some(c.z),
        verification_result(
            start,
            other,
            l,
            vk,
            dot(key, f, f.len() as int),
            u,
            mle_eval(f, u),
            p,
            named,
            res,
            d,
        ),
    ensures
        res == Ok::<bool, PCSError>(true),
{
    law_honest_run_is_accepted(start, end, l, key, g, x, vk, f, u, p, named, c);
    let before = start.push(Entry::Point(l.cm_hbar@, p.cm_hbar));
    let to_c = after_z(start, l, p.cm_hbar, c.z);
    let to_d = after_z(start, l, p.cm_hbar, d.z);
    assert(to_c.is_prefix_of(run_end(start, l, p, c)));
    assert(to_d.is_prefix_of(run_end(start, l, p, d)));
    assert(to_d.is_prefix_of(to_d));
    lemma_course_challenge(end, before, l.z@, c.z);
    lemma_course_challenge(other, before, l.z@, d.z);
    assert(c.z == d.z);
    if other == run_end(start, l, p, d) {
        let last = to_c.push(Entry::Field(l.f_z@, p.f_z)).push(
            Entry::Field(l.f_z_inv@, p.f_z_inv),
        ).push(Entry::Field(l.hbar_z@, p.hbar_z)).push(Entry::Field(l.hbar_z_inv@, p.hbar_z_inv));
        assert(end.is_prefix_of(end));
        assert(other.is_prefix_of(other));
        lemma_course_challenge(end, last, l.alpha@, c.alpha);
        lemma_course_challenge(other, last, l.alpha@, d.alpha);
        assert(c == d);
    }
}

/// A proof determines the value: for given challenges at most one value is
/// accepted.
pub proof fn law_value_is_unique(
    vk: ReciKey,
    com: int,
    u: Seq<int>,
    y: int,
    v: int,
    p: ReciModel,
    c: ReciChallenges,
)
    requires
        reduced(y),
        reduced(v),
        accepts(vk, com, u, y, p, c),
        accepts(vk, com, u, v, p, c),
    ensures
        y == v,
{
    broadcast use group_reduced;

    lemma_add_cancel(
        fadd(fmul(c.z, p.hbar_z), fmul(finv(c.z), p.hbar_z_inv)),
        fadd(y, y),
        fadd(v, v),
    );
    lemma_double_cancel(y, v);
}

/// What an opening is made of: the challenges, the inverse of `z`, and the lines
/// through the values of `f` and of the witness.
pub struct ReciOpening {
    pub z: int,
    pub zi: int,
    pub alpha: int,
    pub f0: int,
    pub f1: int,
    pub h0: int,
    pub h1: int,
}

/// Whether values and commitments open `com` at `u` to `y`: the lines take the values
/// at `z` and its inverse, the values satisfy the symmetric identity with `y`, and the
/// pairing product
/// `e([f] + alpha [hbar] - [line], [1]) == e(pi, [tau^2 - (z + 1/z) tau + 1])` is one, in
/// the exponent.
pub open spec fn reciprocal_opens(
    vk: ReciKey,
    com: int,
    u: Seq<int>,
    y: int,
    p: ReciModel,
    o: ReciOpening,
) -> bool {
    let mu = u.len() as int;
    &&& o.z != o.zi
    &&& cong(o.z * o.zi, 1)
    &&& cong(o.f0 + o.f1 * o.z, p.f_z)
    &&& cong(o.f0 + o.f1 * o.zi, p.f_z_inv)
    &&& cong(o.h0 + o.h1 * o.z, p.hbar_z)
    &&& cong(o.h0 + o.h1 * o.zi, p.hbar_z_inv)
    &&& cong(
        o.z * p.hbar_z + o.zi * p.hbar_z_inv + 2 * y,
        p.f_z * tensor(u, o.zi, mu) + p.f_z_inv * tensor(u, o.z, mu),
    )
    &&& cong(
        (com + o.alpha * p.cm_hbar - (o.f0 + o.alpha * o.h0) * vk.g1_one - (o.f1 + o.alpha * o.h1)
            * vk.g1_tau) * vk.g2_one,
        p.pi * (vk.g2_tau2 - (o.z + o.zi) * vk.g2_tau + vk.g2_one),
    )
}

/// What the checks of a verifier say, in integers.
pub proof fn lemma_accepted_opens(
    vk: ReciKey,
    com: int,
    u: Seq<int>,
    y: int,
    p: ReciModel,
    c: ReciChallenges,
) -> (o: ReciOpening)
    requires
        accepts(vk, com, u, y, p, c),
        is_inverse(c.z, finv(c.z)),
        c.z != finv(c.z),
        invertible(fsub(finv(c.z), c.z)),
        reduced(p.f_z),
        reduced(p.f_z_inv),
        reduced(p.hbar_z),
        reduced(p.hbar_z_inv),
    ensures
        reciprocal_opens(vk, com, u, y, p, o),
        o.z == c.z,
        o.zi == finv(c.z),
        o.alpha == c.alpha,
{
    let z = c.z;
    let zi = finv(z);
    let mu = u.len() as int;
    let o = ReciOpening {
        z,
        zi,
        alpha: c.alpha,
        f0: line_offset(z, p.f_z, zi, p.f_z_inv),
        f1: line_slope(z, p.f_z, zi, p.f_z_inv),
        h0: line_offset(z, p.hbar_z, zi, p.hbar_z_inv),
        h1: line_slope(z, p.hbar_z, zi, p.hbar_z_inv),
    };
    lemma_cong_inverse(z, zi);
    lemma_line_names(z, p.f_z, zi, p.f_z_inv);
    lemma_line_names(z, p.hbar_z, zi, p.hbar_z_inv);
    let tz = tensor(u, z, mu);
    let ti = tensor(u, zi, mu);
    let left = fadd(fadd(fmul(z, p.hbar_z), fmul(zi, p.hbar_z_inv)), fadd(y, y));
    let right = fadd(fmul(p.f_z, ti), fmul(p.f_z_inv, tz));
    let li = z * p.hbar_z + zi * p.hbar_z_inv + (y + y);
    let ri = p.f_z * ti + p.f_z_inv * tz;
    assert(cong(left, li) && cong(right, ri)) by {
        lemma_refl(z);
        lemma_refl(zi);
        lemma_refl(p.hbar_z);
        lemma_refl(p.hbar_z_inv);
        lemma_refl(y);
        lemma_refl(p.f_z);
        lemma_refl(p.f_z_inv);
        lemma_refl(ti);
        lemma_refl(tz);
        broadcast use group_shadow;

    }
    lemma_cong_symm(left, li);
    lemma_cong_trans(li, left, ri);
    let r0 = combined_offset(p, c);
    let r1 = combined_slope(p, c);
    let i0 = o.f0 + c.alpha * o.h0;
    let i1 = o.f1 + c.alpha * o.h1;
    let a0 = fadd(
        fadd(com, fmul(p.cm_hbar, c.alpha)),
        fneg(fadd(fmul(vk.g1_one, r0), fmul(vk.g1_tau, r1))),
    );
    let x0 = com + p.cm_hbar * c.alpha + (-(vk.g1_one * i0 + vk.g1_tau * i1));
    let b1 = fadd(fadd(vk.g2_tau2, fmul(vk.g2_tau, fneg(fadd(z, zi)))), vk.g2_one);
    let y1 = vk.g2_tau2 + vk.g2_tau * (-(z + zi)) + vk.g2_one;
    assert(cong(r0, i0) && cong(r1, i1)) by {
        lemma_refl(o.f0);
        lemma_refl(o.f1);
        lemma_refl(o.h0);
        lemma_refl(o.h1);
        lemma_refl(c.alpha);
        broadcast use group_shadow;

    }
    assert(cong(a0, x0) && cong(b1, y1) && cong(fneg(p.pi), -p.pi) && cong(vk.g2_one, vk.g2_one))
        by {
        lemma_refl(com);
        lemma_refl(p.cm_hbar);
        lemma_refl(c.alpha);
        lemma_refl(vk.g1_one);
        lemma_refl(vk.g1_tau);
        lemma_refl(vk.g2_one);
        lemma_refl(vk.g2_tau);
        lemma_refl(vk.g2_tau2);
        lemma_refl(z);
        lemma_refl(zi);
        lemma_refl(p.pi);
        broadcast use group_shadow;

    }
    let a = seq![a0, fneg(p.pi)];
    let x = seq![x0, -p.pi];
    let b = seq![vk.g2_one, b1];
    let w = seq![vk.g2_one, y1];
    assert forall|i: int| 0 <= i < 2 implies cong(#[trigger] a[i], x[i]) by {}
    assert forall|i: int| 0 <= i < 2 implies cong(#[trigger] b[i], w[i]) by {}
    lemma_dot_shadow(a, x, b, w, 2);
    reveal_with_fuel(int_dot, 3);
    assert(int_dot(x, w, 2) == x0 * vk.g2_one + (-p.pi) * y1);
    let ce = com + c.alpha * p.cm_hbar - i0 * vk.g1_one - i1 * vk.g1_tau;
    assert(x0 == ce) by (nonlinear_arith)
        requires
            x0 == com + p.cm_hbar * c.alpha + (-(vk.g1_one * i0 + vk.g1_tau * i1)),
            ce == com + c.alpha * p.cm_hbar - i0 * vk.g1_one - i1 * vk.g1_tau,
    ;
    let d = vk.g2_tau2 - (z + zi) * vk.g2_tau + vk.g2_one;
    assert(vk.g2_tau * (-(z + zi)) == -((z + zi) * vk.g2_tau)) by (nonlinear_arith);
    assert((-p.pi) * y1 == -(p.pi * d)) by (nonlinear_arith)
        requires
            y1 == d,
    ;
    lemma_cong_move(ce * vk.g2_one, p.pi * d);
    o
}

/// The values of an opening leave one value: it is accepted for no other.
pub proof fn law_opened_value(
    vk: ReciKey,
    com: int,
    wk: ReciKey,
    other: int,
    u: Seq<int>,
    y: int,
    v: int,
    p: ReciModel,
    o: ReciOpening,
    q: ReciOpening,
)
    requires
        reduced(y),
        reduced(v),
        reciprocal_opens(vk, com, u, y, p, o),
        reciprocal_opens(wk, other, u, v, p, q),
        o.z == q.z,
        o.zi == q.zi,
    ensures
        y == v,
{
    let head = o.z * p.hbar_z + o.zi * p.hbar_z_inv;
    let sum = p.f_z * tensor(u, o.zi, u.len() as int) + p.f_z_inv * tensor(
        u,
        o.z,
        u.len() as int,
    );
    lemma_cong_symm(head + 2 * v, sum);
    lemma_cong_trans(head + 2 * y, sum, head + 2 * v);
    lemma_refl(head);
    lemma_cong_sub(head + 2 * y, head + 2 * v, head, head);
    lemma_twice(y, v);
}

/// Doubles that name the same element are those of one element.
pub proof fn lemma_twice(y: int, v: int)
    requires
        reduced(y),
        reduced(v),
        cong(2 * y, 2 * v),
    ensures
        y == v,
{
    lemma_refl(y);
    lemma_refl(v);
    broadcast use {group_reduced, group_shadow};

    assert(cong(fadd(y, y), y + y));
    assert(cong(fadd(v, v), v + v));
    lemma_cong_trans(fadd(y, y), y + y, v + v);
    lemma_cong_symm(fadd(v, v), v + v);
    lemma_cong_trans(fadd(y, y), v + v, fadd(v, v));
    lemma_cong_eq(fadd(y, y), fadd(v, v));
    lemma_double_cancel(y, v);
}

} // verus!
