//! What the scheme promises: an honest prover never fails on usable challenges,
//! and a verifier accepts what an honest prover sends.

use crate::bdfg::{
    all_distinct, chain_exact, claim_sets, claims_shaped, combined_at, commit_scalar, complement_of,
    const_term, l_poly, numerator, outside_poly, quotient_chain, union_into, union_of, Claim,
};
use crate::bdfg_laws::{
    batch_opening, batch_quotient, claim_values, combined_commitments, consistent, interpolants_of,
    law_first_round_succeeds, law_second_round_succeeds, law_verifier_equation, lemma_nodes_prefix,
};
use crate::dims::{lemma_pow2_mono, lemma_split, padded};
use crate::field::{
    cong, fadd, finv, fmul, fneg, fpow, fsub, group_reduced, group_shadow, lemma_cong_add,
    lemma_cong_eq, lemma_cong_mul, lemma_cong_symm, lemma_cong_trans, lemma_modulus, lemma_refl,
    lemma_shadow_eq, lemma_two_invertible, reduced,
};
use crate::grid::{block, law_padding_keeps_value, lemma_eval_mix};
use crate::kzg::{is_power_key, law_commitment_evaluates};
use crate::laurent::{entries_reduced, law_symmetric_witness, sym_witness};
use crate::mercury::fold::{
    block_dots, fold_quotient, fold_remainder, law_fold, law_fold_restriction,
    law_restriction_value, law_reversed, lemma_fold_tail_len, lemma_tensor_padded,
};
use crate::mercury::model::{
    accepts, batch_left, claims_of, committed, folding_left, folding_numerator, honest_claims,
    honest_polys, honest_proof, honest_values, is_honest_run, is_verdict, left_part, points_ok,
    recovered_h_alpha, recovered_values, right_part, MercuryChallenges, MercuryKey, MercuryModel,
    MercuryPolys, MercuryValues,
};
use crate::poly::{
    all_reduced, at, distinct, dot, feval, interp, invertible, lemma_dot_reduced,
    lemma_eval_add_scaled, lemma_eval_cong, lemma_eval_sub_const, lemma_linear_division,
    lemma_tail_reduced, p_add_scaled, p_vanishing, root_product,
};
use crate::tensor::{eq_vec, mle_eval, p2};
use crate::transcript::Entry;
use vstd::prelude::*;

verus! {

/// The union of the evaluation points.
pub proof fn lemma_union(
    g: Seq<int>,
    h: Seq<int>,
    s: Seq<int>,
    d: Seq<int>,
    v: MercuryValues,
    zeta: int,
    alpha: int,
)
    requires
        alpha != zeta,
        alpha != finv(zeta),
        zeta != finv(zeta),
    ensures
        ({
            let cs = claims_of(g, h, s, d, v, zeta, alpha);
            let sets = claim_sets(cs);
            &&& union_of(sets, 4) == seq![zeta, finv(zeta), alpha]
            &&& all_distinct(sets)
            &&& claims_shaped(cs)
            &&& sets.len() == 4
        }),
{
    let cs = claims_of(g, h, s, d, v, zeta, alpha);
    let sets = claim_sets(cs);
    let zi = finv(zeta);
    let e = Seq::<int>::empty();
    let u = seq![zeta, zi];
    let w = seq![zeta, zi, alpha];
    assert(sets[0] == u);
    assert(union_into(e, u, 0) =~= e);
    assert(union_into(e, u, 1) =~= seq![zeta]);
    assert(union_into(e, u, 2) =~= u) by {
        assert(!seq![zeta].contains(zi));
    }
    assert(union_of(sets, 0) == e);
    assert(union_of(sets, 1) == u);
    assert(sets[1] == w);
    assert(u.contains(u[0]) && u.contains(u[1]));
    assert(!u.contains(alpha));
    assert(union_into(u, w, 0) == u);
    assert(union_into(u, w, 1) == u);
    assert(union_into(u, w, 2) == u);
    assert(union_into(u, w, 3) =~= w);
    assert(union_of(sets, 2) == w);
    assert(w.contains(w[0]) && w.contains(w[1]));
    assert(sets[2] == u);
    assert(union_into(w, u, 0) == w);
    assert(union_into(w, u, 1) == w);
    assert(union_into(w, u, 2) == w);
    assert(union_of(sets, 3) == w);
    assert(sets[3] == seq![zeta]);
    assert(union_into(w, sets[3], 0) == w);
    assert(union_into(w, sets[3], 1) == w);
    assert(union_of(sets, 4) == w);
    assert forall|k: int| 0 <= k < sets.len() implies distinct(#[trigger] sets[k]) by {
        assert(sets[k] == u || sets[k] == w || sets[k] == seq![zeta]);
    }
    assert forall|k: int| 0 <= k < cs.len() implies (#[trigger] cs[k]).points.len()
        == cs[k].values.len() && cs[k].points.len() > 0 by {
        assert(k == 0 || k == 1 || k == 2 || k == 3);
    }
}

/// The parts of the union outside the point sets.
proof fn lemma_complements(zeta: int, zi: int, alpha: int)
    requires
        alpha != zeta,
        alpha != zi,
        zeta != zi,
    ensures
        complement_of(seq![zeta, zi, alpha], seq![zeta, zi], 3) == seq![alpha],
        complement_of(seq![zeta, zi, alpha], seq![zeta, zi, alpha], 3) == Seq::<int>::empty(),
        complement_of(seq![zeta, zi, alpha], seq![zeta], 3) == seq![zi, alpha],
{
    let u = seq![zeta, zi, alpha];
    let s = seq![zeta, zi];
    let o = seq![zeta];
    assert(u.contains(u[0]) && u.contains(u[1]) && u.contains(u[2]));
    assert(s.contains(s[0]) && s.contains(s[1]) && o.contains(o[0]));
    assert(!s.contains(alpha) && !o.contains(zi) && !o.contains(alpha));
    reveal_with_fuel(complement_of, 4);
    assert(complement_of(u, s, 3) =~= seq![alpha]);
    assert(complement_of(u, o, 2) =~= seq![zi]);
    assert(complement_of(u, o, 3) =~= seq![zi, alpha]);
}

/// Bounds on the lengths of the two witnesses of the batch opening.
pub proof fn lemma_batch_lengths(
    g: Seq<int>,
    h: Seq<int>,
    s: Seq<int>,
    d: Seq<int>,
    v: MercuryValues,
    zeta: int,
    alpha: int,
    beta: int,
    z: int,
)
    requires
        alpha != zeta,
        alpha != finv(zeta),
        zeta != finv(zeta),
        2 <= g.len(),
        h.len() == g.len(),
        s.len() == g.len() - 1,
        d.len() == g.len(),
    ensures
        batch_quotient(claims_of(g, h, s, d, v, zeta, alpha), beta).len() <= g.len() - 1,
        batch_opening(claims_of(g, h, s, d, v, zeta, alpha), beta, z).len() <= g.len() - 1,
{
    let cs = claims_of(g, h, s, d, v, zeta, alpha);
    let sets = claim_sets(cs);
    let zi = finv(zeta);
    let b = g.len() as int;
    lemma_union(g, h, s, d, v, zeta, alpha);
    lemma_complements(zeta, zi, alpha);
    let u = union_of(sets, 4);
    assert(sets[0] == seq![zeta, zi] && sets[1] == u && sets[2] == sets[0] && sets[3] == seq![
        zeta,
    ]);
    assert(p_vanishing(seq![alpha], 0).len() == 1);
    assert(p_vanishing(seq![zi, alpha], 0).len() == 1);
    assert(p_vanishing(seq![zi, alpha], 1).len() == 2);
    assert(outside_poly(u, sets[0]).len() == 2);
    assert(outside_poly(u, sets[1]).len() == 1);
    assert(outside_poly(u, sets[3]).len() == 3);
    assert(interp(cs[0].points, cs[0].values).len() == 2);
    assert(interp(cs[1].points, cs[1].values).len() == 3);
    assert(interp(cs[2].points, cs[2].values).len() == 2);
    assert(interp(cs[3].points, cs[3].values).len() == 1);
    let n0 = numerator(cs, u, beta, 0);
    let n1 = numerator(cs, u, beta, 1);
    let n2 = numerator(cs, u, beta, 2);
    let n3 = numerator(cs, u, beta, 3);
    let n4 = numerator(cs, u, beta, 4);
    assert(n1.len() <= b + 2);
    assert(n2.len() <= b + 2);
    assert(n3.len() <= b + 2);
    assert(n4.len() <= b + 2);
    let q1 = quotient_chain(n4, u, 1);
    let q2 = quotient_chain(n4, u, 2);
    let q3 = quotient_chain(n4, u, 3);
    assert(quotient_chain(n4, u, 0) == n4);
    assert(q1.len() <= b + 1);
    assert(q2.len() <= b);
    assert(q3.len() <= b - 1);
    let its = interpolants_of(cs);
    let l0 = combined_at(cs, u, its, beta, z, 0);
    let l1 = combined_at(cs, u, its, beta, z, 1);
    let l2 = combined_at(cs, u, its, beta, z, 2);
    let l3 = combined_at(cs, u, its, beta, z, 3);
    let l4 = combined_at(cs, u, its, beta, z, 4);
    assert(l1.len() <= b);
    assert(l2.len() <= b);
    assert(l3.len() <= b);
    assert(1 <= l4.len() <= b);
}

/// Claims with the polynomials' own values divide without remainder.
pub proof fn lemma_claims_divide(p: MercuryPolys, c: MercuryChallenges)
    requires
        points_ok(c),
    ensures
        ({
            let cs = honest_claims(p, c);
            let u = union_of(claim_sets(cs), 4);
            &&& chain_exact(numerator(cs, u, c.beta, 4), u, u.len() as int)
            &&& feval(
                l_poly(cs, u, interpolants_of(cs), batch_quotient(cs, c.beta), c.beta, c.z),
                c.z,
            ) == 0
        }),
{
    let cs = honest_claims(p, c);
    let zi = finv(c.zeta);
    lemma_union(p.g, p.h, p.s, p.d, honest_values(p, c), c.zeta, c.alpha);
    let u = union_of(claim_sets(cs), 4);
    lemma_tail_reduced(p.g, c.zeta, 0);
    lemma_tail_reduced(p.g, zi, 0);
    lemma_tail_reduced(p.h, c.zeta, 0);
    lemma_tail_reduced(p.h, zi, 0);
    lemma_tail_reduced(p.h, c.alpha, 0);
    lemma_tail_reduced(p.s, c.zeta, 0);
    lemma_tail_reduced(p.s, zi, 0);
    lemma_tail_reduced(p.d, c.zeta, 0);
    assert forall|k: int| 0 <= k < cs.len() implies consistent(#[trigger] cs[k]) && all_reduced(
        cs[k].values,
    ) by {
        assert(k == 0 || k == 1 || k == 2 || k == 3);
    }
    assert forall|k: int| 0 <= k < u.len() implies invertible(
        root_product(u, #[trigger] u[k], k),
    ) by {
        lemma_nodes_prefix(u, k);
    }
    law_first_round_succeeds(cs, c.beta);
    law_second_round_succeeds(cs, c.beta, c.z);
}

/// The folding quotient leaves no remainder.
pub proof fn lemma_folding_exact(f: Seq<int>, b: int, n: int, alpha: int, zeta: int)
    requires
        1 <= b,
        1 <= n,
        f.len() == b * n,
    ensures
        ({
            let q = fold_quotient(f, b, n, alpha);
            let g = fold_remainder(f, b, n, alpha);
            let zba = fsub(fpow(zeta, b as nat), alpha);
            feval(folding_numerator(f, q, zba, feval(g, zeta)), zeta) == 0
        }),
{
    broadcast use group_reduced;

    lemma_modulus();
    let q = fold_quotient(f, b, n, alpha);
    let g = fold_remainder(f, b, n, alpha);
    let zba = fsub(fpow(zeta, b as nat), alpha);
    law_fold(f, b, n, alpha, zeta);
    lemma_folding_value(f, q, zba, feval(g, zeta), zeta);
    let qv = feval(q, zeta);
    let gv = feval(g, zeta);
    lemma_refl(zba);
    lemma_refl(qv);
    lemma_refl(gv);
    lemma_refl(0);
    assert(((zba * qv + gv) + (-zba) * qv) - gv == 0) by (nonlinear_arith);
    broadcast use group_shadow;

    lemma_shadow_eq(
        fsub(fadd(fadd(fmul(zba, qv), gv), fmul(fneg(zba), qv)), gv),
        ((zba * qv + gv) + (-zba) * qv) - gv,
        0,
        0,
    );
}

/// Value of the numerator of the folding proof.
proof fn lemma_folding_value(f: Seq<int>, q: Seq<int>, zba: int, gz: int, x: int)
    ensures
        feval(folding_numerator(f, q, zba, gz), x) == fsub(
            fadd(feval(f, x), fmul(fneg(zba), feval(q, x))),
            gz,
        ),
{
    lemma_eval_add_scaled(f, q, fneg(zba), x);
    lemma_eval_sub_const(p_add_scaled(f, q, fneg(zba)), gz, x);
}

/// The conditions under which the statements about honest runs hold: a table
/// of the right size, its value, and usable points.
pub open spec fn honest_setting(
    f: Seq<int>,
    u1: Seq<int>,
    u2: Seq<int>,
    y: int,
    c: MercuryChallenges,
) -> bool {
    &&& 1 <= u1.len()
    &&& u2.len() <= u1.len()
    &&& f.len() == p2((u1 + u2).len() as int)
    &&& y == mle_eval(f, u1 + u2)
    &&& points_ok(c)
}

/// Dimensions of the table of an honest setting.
proof fn lemma_setting_dims(f: Seq<int>, u1: Seq<int>, u2: Seq<int>, y: int, c: MercuryChallenges)
    requires
        honest_setting(f, u1, u2, y, c),
    ensures
        f.len() == p2(u1.len() as int) * p2(u2.len() as int),
        2 <= p2(u1.len() as int),
        1 <= p2(u2.len() as int) <= p2(u1.len() as int),
        p2(u1.len() as int) <= f.len(),
{
    vstd::arithmetic::power2::lemma_pow2_adds(u1.len(), u2.len());
    lemma_pow2_mono(1, u1.len() as int);
    lemma_pow2_mono(0, u2.len() as int);
    lemma_pow2_mono(u2.len() as int, u1.len() as int);
    vstd::arithmetic::power2::lemma2_to64();
    let b = p2(u1.len() as int);
    let n = p2(u2.len() as int);
    assert(b <= b * n) by (nonlinear_arith)
        requires
            1 <= n,
            0 <= b,
    ;
}

proof fn lemma_ring_recover(
    v: int,
    y: int,
    g: int,
    z: int,
    zi: int,
    p0: int,
    p1: int,
    q0: int,
    q1: int,
)
    ensures
        ((((v + v) + (z * p0 + zi * p1)) + g * (((y + y) + (z * q0 + zi * q1)) - (y + y))) - z * (p0
            + g * q0)) - zi * (p1 + g * q1) == 2 * v,
{
    assert(g * (((y + y) + (z * q0 + zi * q1)) - (y + y)) == g * (z * q0) + g * (zi * q1))
        by (nonlinear_arith);
    assert(z * (p0 + g * q0) == z * p0 + g * (z * q0)) by (nonlinear_arith);
    assert(zi * (p1 + g * q1) == zi * p1 + g * (zi * q1)) by (nonlinear_arith);
}

/// `(2 v) / 2 = v`.
proof fn lemma_halved(x: int, v: int)
    requires
        cong(x, 2 * v),
        reduced(v),
    ensures
        fmul(x, finv(fadd(1, 1))) == v,
{
    broadcast use group_reduced;

    lemma_two_invertible();
    let h = finv(2);
    lemma_refl(h);
    lemma_refl(2);
    lemma_refl(v);
    assert(cong(fmul(2, h), 2 * h)) by {
        broadcast use group_shadow;

    }
    assert(cong(fmul(x, h), (2 * v) * h)) by {
        broadcast use group_shadow;

    }
    assert((2 * v) * h == (2 * h) * v) by (nonlinear_arith);
    lemma_cong_mul(1, 2 * h, v, v);
    lemma_cong_symm(1 * v, (2 * h) * v);
    lemma_cong_trans(fmul(x, h), (2 * h) * v, v);
    lemma_cong_eq(fmul(x, h), v);
}

/// The values that a verifier recovers are those of the prover's polynomials.
pub proof fn lemma_recovered(
    key: Seq<int>,
    f: Seq<int>,
    u1: Seq<int>,
    u2: Seq<int>,
    y: int,
    c: MercuryChallenges,
)
    requires
        honest_setting(f, u1, u2, y, c),
    ensures
        recovered_values(u1, u2, y, honest_proof(key, f, u1, u2, c), c) == honest_values(
            honest_polys(f, u1, u2, c),
            c,
        ),
{
    broadcast use group_reduced;

    lemma_modulus();
    lemma_setting_dims(f, u1, u2, y, c);
    let t = u1.len() as int;
    let b = p2(t);
    let n = p2(u2.len() as int);
    let e1 = eq_vec(u1, t);
    let p = honest_polys(f, u1, u2, c);
    let m = honest_proof(key, f, u1, u2, c);
    let hv = honest_values(p, c);
    let z = c.zeta;
    let zi = finv(z);
    let u2p = padded(u2, u1.len());
    let bd = block_dots(f, e1, b, n);
    lemma_fold_tail_len(f, b, n, c.alpha, 0);
    assert(entries_reduced(p.g));
    assert(entries_reduced(p.h)) by {
        assert forall|k: int| 0 <= k < p.h.len() implies reduced(#[trigger] p.h[k]) by {
            if k < n {
                lemma_dot_reduced(block(f, b, k), e1, b);
            }
        }
    }
    law_symmetric_witness(p.g, u1, t, z, zi);
    law_symmetric_witness(p.h, u2p, t, z, zi);
    let v = hv.h_alpha;
    law_fold_restriction(f, b, n, c.alpha, e1);
    assert(feval(p.h, c.alpha) == feval(bd, c.alpha)) by {
        assert forall|k: int| 0 <= k implies cong(#[trigger] at(p.h, k), at(bd, k)) by {
            lemma_refl(at(p.h, k));
        }
        lemma_eval_cong(p.h, bd, c.alpha);
    }
    law_padding_keeps_value(bd, u2, u1.len());
    law_restriction_value(f, u1, u2);
    lemma_tensor_padded(u2, u1.len(), z, t);
    lemma_tensor_padded(u2, u1.len(), zi, t);
    let s1 = sym_witness(p.g, u1, t);
    let s2 = sym_witness(p.h, u2p, t);
    lemma_eval_mix(p.s, s1, s2, c.gamma, z);
    lemma_eval_mix(p.s, s1, s2, c.gamma, zi);
    let p0 = feval(s1, z);
    let p1 = feval(s1, zi);
    let q0 = feval(s2, z);
    let q1 = feval(s2, zi);
    let g = c.gamma;
    let x = fsub(
        fsub(
            fadd(
                fadd(fadd(v, v), fadd(fmul(z, p0), fmul(zi, p1))),
                fmul(
                    g,
                    fsub(fadd(fadd(y, y), fadd(fmul(z, q0), fmul(zi, q1))), fadd(y, y)),
                ),
            ),
            fmul(z, fadd(p0, fmul(g, q0))),
        ),
        fmul(zi, fadd(p1, fmul(g, q1))),
    );
    lemma_recover_shadow(x, v, y, g, z, zi, p0, p1, q0, q1);
    lemma_tail_reduced(p.h, c.alpha, 0);
    lemma_halved(x, v);
    assert(recovered_h_alpha(u1, u2, y, m, c) == v);
    law_reversed(p.g, z, zi);
}

proof fn lemma_recover_shadow(
    x: int,
    v: int,
    y: int,
    g: int,
    z: int,
    zi: int,
    p0: int,
    p1: int,
    q0: int,
    q1: int,
)
    requires
        x == fsub(
            fsub(
                fadd(
                    fadd(fadd(v, v), fadd(fmul(z, p0), fmul(zi, p1))),
                    fmul(
                        g,
                        fsub(fadd(fadd(y, y), fadd(fmul(z, q0), fmul(zi, q1))), fadd(y, y)),
                    ),
                ),
                fmul(z, fadd(p0, fmul(g, q0))),
            ),
            fmul(zi, fadd(p1, fmul(g, q1))),
        ),
    ensures
        cong(x, 2 * v),
{
    lemma_refl(v);
    lemma_refl(y);
    lemma_refl(g);
    lemma_refl(z);
    lemma_refl(zi);
    lemma_refl(p0);
    lemma_refl(p1);
    lemma_refl(q0);
    lemma_refl(q1);
    lemma_ring_recover(v, y, g, z, zi, p0, p1, q0, q1);
    broadcast use group_shadow;

    assert(cong(
        x,
        ((((v + v) + (z * p0 + zi * p1)) + g * (((y + y) + (z * q0 + zi * q1)) - (y + y))) - z * (p0
            + g * q0)) - zi * (p1 + g * q1),
    ));
}

/// The verifier's key that belongs to a power key.
pub open spec fn key_of(g: int, tau: int, h: int) -> MercuryKey {
    MercuryKey { g1_one: fmul(g, 1), g2_one: h, g2_tau: fmul(h, tau) }
}

proof fn lemma_ring_folding(g: int, f: int, q: int, a: int, gz: int, z: int, w: int, t: int)
    requires
        (f + (-a) * q) - gz == w * (t - z) + 0,
    ensures
        g * f + (((0 + (g * q) * (-a)) + (g * 1) * (-gz)) + (g * w) * z) == g * (t * w),
{
    assert((g * q) * (-a) == g * ((-a) * q)) by (nonlinear_arith);
    assert((g * 1) * (-gz) == g * (-gz)) by (nonlinear_arith);
    assert((g * w) * z == g * (w * z)) by (nonlinear_arith);
    assert(w * (t - z) == t * w - w * z) by (nonlinear_arith);
    let x = (-a) * q;
    let wz = w * z;
    let tw = t * w;
    assert(g * f + g * x + g * (-gz) + g * wz == g * (f + x - gz + wz)) by (nonlinear_arith);
}

/// The folding statement of an honest proof: the left side is `tau` times the
/// right side.
#[verifier::spinoff_prover]
#[verifier::rlimit(30)]
proof fn lemma_folding_left(
    key: Seq<int>,
    g: int,
    tau: int,
    h: int,
    f: Seq<int>,
    u1: Seq<int>,
    u2: Seq<int>,
    y: int,
    c: MercuryChallenges,
)
    requires
        honest_setting(f, u1, u2, y, c),
        is_power_key(key, g, tau),
        f.len() <= key.len(),
    ensures
        ({
            let m = honest_proof(key, f, u1, u2, c);
            let w = feval(honest_polys(f, u1, u2, c).quot_f, tau);
            &&& m.comm_quot_f == fmul(g, w)
            &&& folding_left(
                key_of(g, tau, h),
                committed(key, f),
                p2(u1.len() as int),
                m,
                c,
            ) == fmul(g, fmul(tau, w))
        }),
{
    lemma_setting_dims(f, u1, u2, y, c);
    let b = p2(u1.len() as int);
    let n = p2(u2.len() as int);
    let p = honest_polys(f, u1, u2, c);
    let m = honest_proof(key, f, u1, u2, c);
    let zba = fsub(fpow(c.zeta, b as nat), c.alpha);
    let gz = feval(p.g, c.zeta);
    let num = folding_numerator(f, p.q, zba, gz);
    assert(b * (n - 1) == b * n - b) by (nonlinear_arith);
    lemma_fold_tail_len(f, b, n, c.alpha, 0);
    law_commitment_evaluates(key, g, tau, f);
    law_commitment_evaluates(key, g, tau, p.q);
    law_commitment_evaluates(key, g, tau, p.quot_f);
    lemma_folding_exact(f, b, n, c.alpha, c.zeta);
    lemma_folding_value(f, p.q, zba, gz, tau);
    lemma_linear_division(num, c.zeta, tau);
    let zb = fmul(fpow(c.zeta, (b - 1) as nat), c.zeta);
    assert(zb == fpow(c.zeta, b as nat));
    let a3 = seq![m.comm_q, fmul(g, 1), m.comm_quot_f];
    let b3 = seq![fneg(zba), fneg(gz), c.zeta];
    let fv = feval(f, tau);
    let qv = feval(p.q, tau);
    let w = feval(p.quot_f, tau);
    let d = dot(a3, b3, 3);
    lemma_dot_three(a3, b3);
    lemma_folding_algebra(g, fv, qv, zba, gz, c.zeta, w, tau);
}

proof fn lemma_dot_three(a: Seq<int>, b: Seq<int>)
    ensures
        dot(a, b, 3) == fadd(fadd(fadd(0, fmul(a[0], b[0])), fmul(a[1], b[1])), fmul(a[2], b[2])),
{
    reveal_with_fuel(dot, 4);
}

proof fn lemma_folding_algebra(
    g: int,
    fv: int,
    qv: int,
    zba: int,
    gz: int,
    z: int,
    w: int,
    tau: int,
)
    requires
        fsub(fadd(fv, fmul(fneg(zba), qv)), gz) == fadd(fmul(w, fsub(tau, z)), 0),
    ensures
        fadd(
            fmul(g, fv),
            fadd(
                fadd(fadd(0, fmul(fmul(g, qv), fneg(zba))), fmul(fmul(g, 1), fneg(gz))),
                fmul(fmul(g, w), z),
            ),
        ) == fmul(g, fmul(tau, w)),
{
    broadcast use group_reduced;

    lemma_refl(0);
    lemma_refl(1);
    lemma_refl(g);
    lemma_refl(qv);
    lemma_refl(zba);
    lemma_refl(gz);
    lemma_refl(z);
    lemma_refl(w);
    lemma_refl(tau);
    let left = fsub(fadd(fv, fmul(fneg(zba), qv)), gz);
    // The value of `f` expressed by the rest.
    let fi = ((w * (tau - z) + 0) + gz) - (-zba) * qv;
    assert(cong(fv, fi)) by {
        lemma_refl(fv);
        assert(cong(left, (fv + (-zba) * qv) - gz)) by {
            broadcast use group_shadow;

        }
        assert(cong(left, w * (tau - z) + 0)) by {
            broadcast use group_shadow;

        }
        lemma_cong_symm(left, (fv + (-zba) * qv) - gz);
        lemma_cong_trans((fv + (-zba) * qv) - gz, left, w * (tau - z) + 0);
        lemma_refl(gz - (-zba) * qv);
        lemma_cong_add(
            (fv + (-zba) * qv) - gz,
            w * (tau - z) + 0,
            gz - (-zba) * qv,
            gz - (-zba) * qv,
        );
    }
    lemma_folding_shadow(g, fv, fi, qv, zba, gz, z, w);
    lemma_ring_folding(g, fi, qv, zba, gz, z, w, tau);
    let lhs = fadd(
        fmul(g, fv),
        fadd(
            fadd(fadd(0, fmul(fmul(g, qv), fneg(zba))), fmul(fmul(g, 1), fneg(gz))),
            fmul(fmul(g, w), z),
        ),
    );
    assert(cong(fmul(g, fmul(tau, w)), g * (tau * w))) by {
        broadcast use group_shadow;

    }
    lemma_shadow_eq(lhs, g * (tau * w), fmul(g, fmul(tau, w)), g * (tau * w));
}

proof fn lemma_folding_shadow(
    g: int,
    fv: int,
    fi: int,
    qv: int,
    zba: int,
    gz: int,
    z: int,
    w: int,
)
    requires
        cong(fv, fi),
    ensures
        cong(
            fadd(
                fmul(g, fv),
                fadd(
                    fadd(fadd(0, fmul(fmul(g, qv), fneg(zba))), fmul(fmul(g, 1), fneg(gz))),
                    fmul(fmul(g, w), z),
                ),
            ),
            g * fi + (((0 + (g * qv) * (-zba)) + (g * 1) * (-gz)) + (g * w) * z),
        ),
{
    lemma_refl(0);
    lemma_refl(1);
    lemma_refl(g);
    lemma_refl(qv);
    lemma_refl(zba);
    lemma_refl(gz);
    lemma_refl(z);
    lemma_refl(w);
    broadcast use group_shadow;

}

proof fn lemma_ring_batch(
    g: int,
    p0: int,
    p1: int,
    p2_: int,
    p3: int,
    c0: int,
    c1: int,
    c2: int,
    c3: int,
    k: int,
    z: int,
    w: int,
    zt: int,
    wp: int,
)
    ensures
        0 + (g * p0) * c0 + (g * p1) * c1 + (g * p2_) * c2 + (g * p3) * c3 + (g * 1) * (-k) + (g
            * w) * (-zt) + (g * wp) * z == g * (((((0 + c0 * p0 + c1 * p1 + c2 * p2_ + c3 * p3)
            - k) + (-zt) * w) + z * wp)),
{
    assert((g * p0) * c0 == g * (c0 * p0)) by (nonlinear_arith);
    assert((g * p1) * c1 == g * (c1 * p1)) by (nonlinear_arith);
    assert((g * p2_) * c2 == g * (c2 * p2_)) by (nonlinear_arith);
    assert((g * p3) * c3 == g * (c3 * p3)) by (nonlinear_arith);
    assert((g * 1) * (-k) == g * (-k)) by (nonlinear_arith);
    assert((g * w) * (-zt) == g * ((-zt) * w)) by (nonlinear_arith);
    assert((g * wp) * z == g * (z * wp)) by (nonlinear_arith);
    let a = c0 * p0;
    let b = c1 * p1;
    let c = c2 * p2_;
    let d = c3 * p3;
    let e = (-zt) * w;
    let f = z * wp;
    assert(g * a + g * b + g * c + g * d + g * (-k) + g * e + g * f == g * ((((0 + a + b + c + d)
        - k) + e) + f)) by (nonlinear_arith);
}

/// The combination of seven commitments over one point.
proof fn lemma_combined_seven(
    combined: int,
    g: int,
    v0: int,
    v1: int,
    v2: int,
    v3: int,
    c0: int,
    c1: int,
    c2: int,
    c3: int,
    k: int,
    z: int,
    wv: int,
    zt: int,
    wpv: int,
)
    requires
        combined == fadd(
            fadd(
                fadd(
                    fadd(
                        fadd(
                            fadd(fadd(0, fmul(fmul(g, v0), c0)), fmul(fmul(g, v1), c1)),
                            fmul(fmul(g, v2), c2),
                        ),
                        fmul(fmul(g, v3), c3),
                    ),
                    fmul(fmul(g, 1), fneg(k)),
                ),
                fmul(fmul(g, wv), fneg(zt)),
            ),
            fmul(fmul(g, wpv), z),
        ),
    ensures
        combined == fmul(
            g,
            fadd(
                fadd(
                    fsub(
                        fadd(
                            fadd(fadd(fadd(0, fmul(c0, v0)), fmul(c1, v1)), fmul(c2, v2)),
                            fmul(c3, v3),
                        ),
                        k,
                    ),
                    fmul(fneg(zt), wv),
                ),
                fmul(z, wpv),
            ),
        ),
{
    broadcast use group_reduced;

    lemma_refl(0);
    lemma_refl(1);
    lemma_refl(g);
    lemma_refl(c0);
    lemma_refl(c1);
    lemma_refl(c2);
    lemma_refl(c3);
    lemma_refl(k);
    lemma_refl(zt);
    lemma_refl(z);
    lemma_refl(v0);
    lemma_refl(v1);
    lemma_refl(v2);
    lemma_refl(v3);
    lemma_refl(wv);
    lemma_refl(wpv);
    lemma_ring_batch(g, v0, v1, v2, v3, c0, c1, c2, c3, k, z, wv, zt, wpv);
    let l = 0 + (g * v0) * c0 + (g * v1) * c1 + (g * v2) * c2 + (g * v3) * c3 + (g * 1) * (-k) + (g
        * wv) * (-zt) + (g * wpv) * z;
    let r = g * (((((0 + c0 * v0 + c1 * v1 + c2 * v2 + c3 * v3) - k) + (-zt) * wv) + z * wpv));
    let rhs = fmul(
        g,
        fadd(
            fadd(
                fsub(
                    fadd(
                        fadd(fadd(fadd(0, fmul(c0, v0)), fmul(c1, v1)), fmul(c2, v2)),
                        fmul(c3, v3),
                    ),
                    k,
                ),
                fmul(fneg(zt), wv),
            ),
            fmul(z, wpv),
        ),
    );
    assert(cong(combined, l)) by {
        broadcast use group_shadow;

    }
    assert(cong(rhs, r)) by {
        broadcast use group_shadow;

    }
    lemma_shadow_eq(combined, l, rhs, r);
}

/// The batch statement of commitments that evaluate the claims' polynomials:
/// the left side is `tau` times the right side.
#[verifier::spinoff_prover]
proof fn lemma_batch_left(
    g: int,
    tau: int,
    h: int,
    claims: Seq<Claim>,
    m: MercuryModel,
    v: MercuryValues,
    c: MercuryChallenges,
)
    requires
        claims.len() == 4,
        claims == claims_of(
            claims[0].poly,
            claims[1].poly,
            claims[2].poly,
            claims[3].poly,
            v,
            c.zeta,
            c.alpha,
        ),
        m.comm_g == fmul(g, feval(claims[0].poly, tau)),
        m.comm_h == fmul(g, feval(claims[1].poly, tau)),
        m.comm_s == fmul(g, feval(claims[2].poly, tau)),
        m.comm_d == fmul(g, feval(claims[3].poly, tau)),
        m.comm_w == fmul(g, feval(batch_quotient(claims, c.beta), tau)),
        m.comm_w_prime == fmul(g, feval(batch_opening(claims, c.beta, c.z), tau)),
        ({
            let u = union_of(claim_sets(claims), 4);
            chain_exact(numerator(claims, u, c.beta, 4), u, u.len() as int)
        }),
    ensures
        batch_left(key_of(g, tau, h), m, v, c) == fmul(
            g,
            fmul(tau, feval(batch_opening(claims, c.beta, c.z), tau)),
        ),
{
    let sets = claim_sets(claims);
    let e = Seq::<int>::empty();
    let bare = claims_of(e, e, e, e, v, c.zeta, c.alpha);
    assert(claim_sets(bare) =~= sets);
    assert(claim_values(bare) =~= claim_values(claims));
    let u = union_of(sets, 4);
    law_verifier_equation(claims, c.beta, c.z, tau);
    let c0 = commit_scalar(sets, u, c.beta, c.z, 0);
    let c1 = commit_scalar(sets, u, c.beta, c.z, 1);
    let c2 = commit_scalar(sets, u, c.beta, c.z, 2);
    let c3 = commit_scalar(sets, u, c.beta, c.z, 3);
    let k = const_term(sets, claim_values(claims), u, c.beta, c.z, 4);
    let zt = feval(p_vanishing(u, u.len() as int), c.z);
    let v0 = feval(claims[0].poly, tau);
    let v1 = feval(claims[1].poly, tau);
    let v2 = feval(claims[2].poly, tau);
    let v3 = feval(claims[3].poly, tau);
    let wv = feval(batch_quotient(claims, c.beta), tau);
    let wpv = feval(batch_opening(claims, c.beta, c.z), tau);
    let cc = combined_commitments(claims, u, c.beta, c.z, tau, 4);
    assert(cc == fadd(
        fadd(fadd(fadd(0, fmul(c0, v0)), fmul(c1, v1)), fmul(c2, v2)),
        fmul(c3, v3),
    )) by {
        reveal_with_fuel(combined_commitments, 5);
    }
    let a7 = seq![m.comm_g, m.comm_h, m.comm_s, m.comm_d, fmul(g, 1), m.comm_w, m.comm_w_prime];
    let b7 = seq![c0, c1, c2, c3, fneg(k), fneg(zt), c.z];
    let combined = dot(a7, b7, 7);
    assert(combined == fadd(
        fadd(
            fadd(
                fadd(
                    fadd(
                        fadd(fadd(0, fmul(fmul(g, v0), c0)), fmul(fmul(g, v1), c1)),
                        fmul(fmul(g, v2), c2),
                    ),
                    fmul(fmul(g, v3), c3),
                ),
                fmul(fmul(g, 1), fneg(k)),
            ),
            fmul(fmul(g, wv), fneg(zt)),
        ),
        fmul(fmul(g, wpv), c.z),
    )) by {
        reveal_with_fuel(dot, 8);
    }
    lemma_combined_seven(combined, g, v0, v1, v2, v3, c0, c1, c2, c3, k, c.z, wv, zt, wpv);
}

/// The final pairing check of two statements `L = tau R` over one point.
proof fn lemma_final_pairing(g: int, h: int, tau: int, x: int, w: int, d: int)
    ensures
        dot(
            seq![
                fadd(fmul(g, fmul(tau, x)), fmul(fmul(g, fmul(tau, w)), d)),
                fneg(fadd(fmul(g, x), fmul(fmul(g, w), d))),
            ],
            seq![h, fmul(h, tau)],
            2,
        ) == 0,
{
    broadcast use group_reduced;

    lemma_modulus();
    let ll = fadd(fmul(g, fmul(tau, x)), fmul(fmul(g, fmul(tau, w)), d));
    let rl = fneg(fadd(fmul(g, x), fmul(fmul(g, w), d)));
    let v = dot(seq![ll, rl], seq![h, fmul(h, tau)], 2);
    assert(v == fadd(fadd(0, fmul(ll, h)), fmul(rl, fmul(h, tau)))) by {
        reveal_with_fuel(dot, 3);
    }
    lemma_refl(0);
    lemma_refl(g);
    lemma_refl(h);
    lemma_refl(tau);
    lemma_refl(x);
    lemma_refl(w);
    lemma_refl(d);
    let l = (0 + (g * (tau * x) + (g * (tau * w)) * d) * h) + (-(g * x + (g * w) * d)) * (h * tau);
    assert(l == 0) by {
        let a = g * x;
        let b = (g * w) * d;
        assert(g * (tau * x) == a * tau) by (nonlinear_arith)
            requires
                a == g * x,
        ;
        assert((g * (tau * w)) * d == b * tau) by (nonlinear_arith)
            requires
                b == (g * w) * d,
        ;
        assert((a * tau + b * tau) * h == (a + b) * (h * tau)) by (nonlinear_arith);
        assert((-(a + b)) * (h * tau) == -((a + b) * (h * tau))) by (nonlinear_arith);
    }
    assert(cong(v, l)) by {
        broadcast use group_shadow;

    }
    lemma_shadow_eq(v, l, 0, 0);
}

/// Completeness: for every table, every point and every usable choice of the
/// challenges, a verifier whose key belongs to the prover's accepts what an
/// honest prover sends.
pub proof fn law_completeness(
    key: Seq<int>,
    g: int,
    tau: int,
    h: int,
    f: Seq<int>,
    u1: Seq<int>,
    u2: Seq<int>,
    y: int,
    c: MercuryChallenges,
)
    requires
        honest_setting(f, u1, u2, y, c),
        is_power_key(key, g, tau),
        f.len() <= key.len(),
    ensures
        accepts(
            key_of(g, tau, h),
            committed(key, f),
            u1,
            u2,
            y,
            honest_proof(key, f, u1, u2, c),
            c,
        ),
{
    lemma_setting_dims(f, u1, u2, y, c);
    let b = p2(u1.len() as int);
    let n = p2(u2.len() as int);
    let p = honest_polys(f, u1, u2, c);
    let m = honest_proof(key, f, u1, u2, c);
    let hv = honest_values(p, c);
    let claims = honest_claims(p, c);
    lemma_fold_tail_len(f, b, n, c.alpha, 0);
    lemma_recovered(key, f, u1, u2, y, c);
    lemma_folding_left(key, g, tau, h, f, u1, u2, y, c);
    lemma_claims_divide(p, c);
    lemma_batch_lengths(p.g, p.h, p.s, p.d, hv, c.zeta, c.alpha, c.beta, c.z);
    law_commitment_evaluates(key, g, tau, p.g);
    law_commitment_evaluates(key, g, tau, p.h);
    law_commitment_evaluates(key, g, tau, p.s);
    law_commitment_evaluates(key, g, tau, p.d);
    law_commitment_evaluates(key, g, tau, batch_quotient(claims, c.beta));
    law_commitment_evaluates(key, g, tau, batch_opening(claims, c.beta, c.z));
    lemma_batch_left(g, tau, h, claims, m, hv, c);
    let x = feval(p.quot_f, tau);
    let w = feval(batch_opening(claims, c.beta, c.z), tau);
    lemma_final_pairing(g, h, tau, x, w, c.pair);
}

/// What an honest prover sends in a run is accepted in the same run: the
/// verifier who replays the transcript draws the same challenges and says yes.
pub proof fn law_honest_run_is_accepted(
    start: Seq<Entry>,
    end: Seq<Entry>,
    key: Seq<int>,
    g: int,
    tau: int,
    h: int,
    f: Seq<int>,
    u: Seq<int>,
    p: MercuryModel,
    c: MercuryChallenges,
)
    requires
        1 <= u.len(),
        f.len() == p2(u.len() as int),
        f.len() <= key.len(),
        is_power_key(key, g, tau),
        is_honest_run(start, end, key, f, u, p, c),
    ensures
        is_verdict(
            start,
            end,
            key_of(g, tau, h),
            committed(key, f),
            u,
            mle_eval(f, u),
            p,
            true,
            c,
        ),
{
    let mu = u.len() as int;
    let u1 = left_part(u);
    let u2 = right_part(u);
    lemma_split(mu);
    assert(u1 + u2 =~= u);
    law_completeness(key, g, tau, h, f, u1, u2, mle_eval(f, u), c);
}

} // verus!
