//! Completeness of the scheme: what commitments under a grid key evaluate to,
//! the divisions of an honest prover, and that an honest run is accepted.

use crate::bdfg::{
    all_distinct, chain_exact, claim_sets, claims_shaped, combined_at, commit_scalar, complement_of,
    const_term, l_poly, numerator, outside_poly, quotient_chain, union_into, union_of, Claim,
};
use crate::bdfg_laws::{
    batch_opening, batch_quotient, claim_values, combined_commitments, consistent, interpolants_of,
    law_first_round_succeeds, law_second_round_succeeds, law_verifier_equation, lemma_nodes_prefix,
};
use crate::chopin::model::{
    accepts, alpha_restriction, batch_holds, bivariate_holds, claims_of, honest_claims,
    honest_proof, honest_values, identity_holds, is_honest_run, is_verdict, left_part, quotient_1,
    right_part, right_restriction, run_end, s_poly, usable_beta, ChopinChallenges, ChopinKey,
    ChopinModel, ChopinRun,
};
use crate::chopin::srs::{
    base_position, grid_base, is_grid_key, layout, lemma_position_of_base, sigma_bases, tau_bases,
};
use crate::dims::{lemma_column, lemma_pow2_mono, lemma_row_major, lemma_split, split};
use crate::field::{
    cong, fadd, finv, fmul, fneg, fpow, fsub, group_reduced, group_shadow, lemma_add_cancel,
    lemma_double_cancel, lemma_modulus, lemma_refl, lemma_shadow_eq, reduced,
};
use crate::grid::{
    block, block_values, law_two_stage_evaluation, lemma_block_key, lemma_dot_split, lemma_eval_mix,
    lemma_fold_eval,
};
use crate::laurent::{entries_reduced, law_symmetric_witness, sym_witness};
use crate::poly::{
    all_reduced, distinct, dot, feval, interp, invertible, lemma_dot_ext, lemma_eval_add_scaled,
    lemma_eval_const, lemma_eval_split, lemma_linear_division, lemma_power_key, lemma_tail_reduced,
    linear_quotient, nodes_ok, p_sub, p_vanishing, root_product,
};
use crate::tensor::{eq_vec, mle_eval, p2};
use crate::transcript::{nonzero, Entry};
use vstd::prelude::*;

verus! {

/// The base at the position of its exponents.
pub proof fn lemma_grid_key_at(
    key: Seq<int>,
    ml: int,
    mr: int,
    g: int,
    tau: int,
    sigma: int,
    i: int,
    j: int,
)
    requires
        2 <= ml,
        0 <= i < ml,
        0 <= j < mr,
        is_grid_key(key, ml, mr, g, tau, sigma),
    ensures
        key[base_position(ml, mr, i, j)] == grid_base(g, tau, sigma, i, j),
{
    lemma_position_of_base(ml, mr, i, j);
}

/// `g (t 1) = g t`.
pub proof fn lemma_base_right(g: int, t: int)
    ensures
        fmul(g, fmul(t, 1)) == fmul(g, t),
        fmul(g, fmul(1, t)) == fmul(g, t),
{
    broadcast use group_reduced;

    lemma_refl(g);
    lemma_refl(t);
    lemma_refl(1);
    assert(g * (t * 1) == g * t) by (nonlinear_arith);
    assert(g * (1 * t) == g * t) by (nonlinear_arith);
    broadcast use group_shadow;

    lemma_shadow_eq(fmul(g, fmul(t, 1)), g * (t * 1), fmul(g, t), g * t);
    lemma_shadow_eq(fmul(g, fmul(1, t)), g * (1 * t), fmul(g, t), g * t);
}

/// A commitment over the bases `[tau^i]` evaluates at `tau`.
pub proof fn law_tau_commitment(
    key: Seq<int>,
    ml: int,
    mr: int,
    g: int,
    tau: int,
    sigma: int,
    c: Seq<int>,
)
    requires
        2 <= ml,
        1 <= mr,
        c.len() <= ml,
        is_grid_key(key, ml, mr, g, tau, sigma),
    ensures
        dot(tau_bases(key, ml, mr), c, c.len() as int) == fmul(g, feval(c, tau)),
{
    let tb = tau_bases(key, ml, mr);
    assert forall|i: int| 0 <= i < c.len() implies #[trigger] tb[i] == fmul(g, fpow(tau, i as nat)) by {
        lemma_grid_key_at(key, ml, mr, g, tau, sigma, i, 0);
        lemma_base_right(g, fpow(tau, i as nat));
    }
    lemma_power_key(tb, g, tau, c);
}

/// A commitment over the bases `[sigma^j]` evaluates at `sigma`.
pub proof fn law_sigma_commitment(
    key: Seq<int>,
    ml: int,
    mr: int,
    g: int,
    tau: int,
    sigma: int,
    c: Seq<int>,
)
    requires
        2 <= ml,
        1 <= mr,
        c.len() <= mr,
        is_grid_key(key, ml, mr, g, tau, sigma),
    ensures
        dot(sigma_bases(key, ml, mr), c, c.len() as int) == fmul(g, feval(c, sigma)),
{
    let sb = sigma_bases(key, ml, mr);
    assert forall|j: int| 0 <= j < c.len() implies #[trigger] sb[j] == fmul(
        g,
        fpow(sigma, j as nat),
    ) by {
        lemma_grid_key_at(key, ml, mr, g, tau, sigma, 0, j);
        lemma_base_right(g, fpow(sigma, j as nat));
    }
    lemma_power_key(sb, g, sigma, c);
}

/// A commitment over the prefix of the key evaluates the bivariate polynomial
/// whose columns are the blocks of length `M_L - 1`.
pub proof fn law_prefix_commitment(
    key: Seq<int>,
    ml: int,
    mr: int,
    g: int,
    tau: int,
    sigma: int,
    c: Seq<int>,
)
    requires
        2 <= ml,
        1 <= mr,
        c.len() == (ml - 1) * mr,
        is_grid_key(key, ml, mr, g, tau, sigma),
    ensures
        dot(key, c, (ml - 1) * mr) == fmul(g, feval(block_values(c, ml - 1, mr, tau), sigma)),
{
    let w = ml - 1;
    assert forall|i: int, j: int| 0 <= i < w && 0 <= j < mr implies #[trigger] key[w * j + i]
        == fmul(g, fmul(fpow(tau, i as nat), fpow(sigma, j as nat))) by {
        lemma_grid_key_at(key, ml, mr, g, tau, sigma, i, j);
        assert(j * w == w * j) by (nonlinear_arith);
    }
    lemma_block_key(key, c, w, mr, g, tau, sigma);
}

/// The commitment to a table evaluates its bivariate twin.
pub proof fn law_table_commitment(
    key: Seq<int>,
    ml: int,
    mr: int,
    g: int,
    tau: int,
    sigma: int,
    f: Seq<int>,
)
    requires
        2 <= ml,
        1 <= mr,
        f.len() == ml * mr,
        is_grid_key(key, ml, mr, g, tau, sigma),
    ensures
        dot(key, layout(f, ml, mr), ml * mr) == fmul(
            g,
            feval(block_values(f, ml, mr, tau), sigma),
        ),
{
    broadcast use group_reduced;

    let w = ml - 1;
    let n1 = w * mr;
    let n2 = mr;
    assert(ml * mr == n1 + n2) by (nonlinear_arith)
        requires
            n1 == (ml - 1) * mr,
            n2 == mr,
    ;
    assert(0 <= n1) by (nonlinear_arith)
        requires
            n1 == w * mr,
            1 <= w,
            1 <= mr,
    ;
    let lay = layout(f, ml, mr);
    let c1 = lay.subrange(0, n1);
    let c2 = lay.subrange(n1, n1 + n2);
    let key2 = key.subrange(n1, n1 + n2);
    lemma_dot_split(key, lay, n1, key2, c2, n2);
    lemma_dot_ext(key, key, lay, c1, n1);
    law_prefix_commitment(key, ml, mr, g, tau, sigma, c1);
    let tw = fpow(tau, w as nat);
    let g2 = fmul(g, tw);
    assert forall|i: int, j: int| 0 <= i < 1 && 0 <= j < mr implies #[trigger] key2[1 * j + i]
        == fmul(g2, fmul(fpow(tau, i as nat), fpow(sigma, j as nat))) by {
        lemma_grid_key_at(key, ml, mr, g, tau, sigma, w, j);
        assert(key2[1 * j + i] == key[n1 + j]);
        let b = fpow(sigma, j as nat);
        lemma_refl(g);
        lemma_refl(tw);
        lemma_refl(1);
        lemma_refl(b);
        assert(g * (tw * b) == (g * tw) * (1 * b)) by (nonlinear_arith);
        broadcast use group_shadow;

        lemma_shadow_eq(
            fmul(g, fmul(tw, b)),
            g * (tw * b),
            fmul(fmul(g, tw), fmul(1, b)),
            (g * tw) * (1 * b),
        );
    }
    lemma_block_key(key2, c2, 1, mr, g2, tau, sigma);
    let v = block_values(f, ml, mr, tau);
    let v1 = block_values(c1, w, mr, tau);
    let v2 = block_values(c2, 1, mr, tau);
    assert forall|j: int| 0 <= j < mr implies #[trigger] v[j] == fadd(v1[j], fmul(tw, v2[j])) by {
        let col = block(f, ml, j);
        assert(0 <= ml * j && ml * j + ml <= ml * mr && 0 <= w * j && w * j + w <= w * mr)
            by (nonlinear_arith)
            requires
                0 <= j < mr,
                1 <= w,
                ml == w + 1,
        ;
        let lo = col.subrange(0, w);
        let hi = col.subrange(w, ml);
        assert(block(c1, w, j) =~= lo) by {
            assert forall|i: int| 0 <= i < w implies block(c1, w, j)[i] == lo[i] by {
                lemma_position_of_base(ml, mr, i, j);
                assert(j * w == w * j) by (nonlinear_arith);
                assert(lay[base_position(ml, mr, i, j)] == f[i + ml * j]);
            }
        }
        assert(block(c2, 1, j) =~= hi) by {
            lemma_position_of_base(ml, mr, w, j);
            assert(lay[base_position(ml, mr, w, j)] == f[w + ml * j]);
        }
        lemma_eval_split(col, w, tau);
    }
    crate::grid::lemma_eval_mix(v, v1, v2, tw, sigma);
    let a = feval(v1, sigma);
    let b = feval(v2, sigma);
    lemma_refl(g);
    lemma_refl(tw);
    lemma_refl(a);
    lemma_refl(b);
    assert(g * a + (g * tw) * b == g * (a + tw * b)) by (nonlinear_arith);
    broadcast use group_shadow;

    lemma_shadow_eq(
        fadd(fmul(g, a), fmul(fmul(g, tw), b)),
        g * a + (g * tw) * b,
        fmul(g, fadd(a, fmul(tw, b))),
        g * (a + tw * b),
    );
}

/// Whether the evaluation points of a run are three, and can be interpolated.
pub open spec fn points_ok(c: ChopinChallenges) -> bool {
    let bi = finv(c.beta);
    &&& c.alpha != c.beta
    &&& c.alpha != bi
    &&& c.beta != bi
    &&& fmul(c.beta, bi) == 1
    &&& nodes_ok(seq![c.alpha, c.beta, bi])
    &&& nodes_ok(seq![c.beta, bi])
}

/// The union of the evaluation points.
pub proof fn lemma_union(
    fz: Seq<int>,
    fa: Seq<int>,
    s: Seq<int>,
    p: ChopinModel,
    c: ChopinChallenges,
)
    requires
        c.alpha != c.beta,
        c.alpha != finv(c.beta),
        c.beta != finv(c.beta),
    ensures
        ({
            let cs = claims_of(fz, fa, s, p, c);
            let sets = claim_sets(cs);
            &&& union_of(sets, 3) == seq![c.alpha, c.beta, finv(c.beta)]
            &&& all_distinct(sets)
            &&& claims_shaped(cs)
            &&& sets.len() == 3
        }),
{
    let cs = claims_of(fz, fa, s, p, c);
    let sets = claim_sets(cs);
    let bi = finv(c.beta);
    let u = seq![c.alpha, c.beta, bi];
    let e = Seq::<int>::empty();
    let s0 = sets[0];
    assert(s0 == u);
    assert(union_into(e, s0, 0) =~= e);
    assert(union_into(e, s0, 1) =~= seq![c.alpha]);
    assert(union_into(e, s0, 2) =~= seq![c.alpha, c.beta]) by {
        assert(!seq![c.alpha].contains(c.beta));
    }
    assert(union_into(e, s0, 3) =~= u) by {
        assert(!seq![c.alpha, c.beta].contains(bi));
    }
    assert(union_of(sets, 0) == e);
    assert(union_of(sets, 1) == u);
    assert(u.contains(u[1]) && u.contains(u[2]));
    let s1 = sets[1];
    assert(s1 == seq![c.beta, bi]);
    assert(union_into(u, s1, 0) == u);
    assert(union_into(u, s1, 1) == u);
    assert(union_into(u, s1, 2) == u);
    assert(union_of(sets, 2) == u);
    assert(sets[2] == s1);
    assert(union_of(sets, 3) == u);
    assert forall|t: int| 0 <= t < sets.len() implies distinct(#[trigger] sets[t]) by {
        assert(sets[t] == u || sets[t] == s1);
    }
    assert forall|t: int| 0 <= t < cs.len() implies (#[trigger] cs[t]).points.len()
        == cs[t].values.len() && cs[t].points.len() > 0 by {
        assert(t == 0 || t == 1 || t == 2);
    }
}

/// The parts of the union outside the point sets.
proof fn lemma_complements(alpha: int, beta: int, bi: int)
    requires
        alpha != beta,
        alpha != bi,
        beta != bi,
    ensures
        complement_of(seq![alpha, beta, bi], seq![alpha, beta, bi], 3) == Seq::<int>::empty(),
        complement_of(seq![alpha, beta, bi], seq![beta, bi], 3) == seq![alpha],
{
    let u = seq![alpha, beta, bi];
    let s = seq![beta, bi];
    assert(u.contains(u[0]) && u.contains(u[1]) && u.contains(u[2]));
    assert(s.contains(s[0]) && s.contains(s[1]));
    assert(!s.contains(alpha));
    reveal_with_fuel(complement_of, 4);
    assert(complement_of(u, s, 1) =~= seq![alpha]);
}

/// The lengths of the two witnesses of the batch opening.
pub proof fn law_batch_lengths(
    fz: Seq<int>,
    fa: Seq<int>,
    s: Seq<int>,
    p: ChopinModel,
    c: ChopinChallenges,
)
    requires
        c.alpha != c.beta,
        c.alpha != finv(c.beta),
        c.beta != finv(c.beta),
        reduced(c.rho),
        c.rho != 0,
        2 <= fa.len() <= fz.len(),
        s.len() == fz.len() - 1,
    ensures
        batch_quotient(claims_of(fz, fa, s, p, c), c.rho).len() == w_length(
            fz.len() as int,
            fa.len() as int,
        ),
        batch_opening(claims_of(fz, fa, s, p, c), c.rho, c.z).len() == fz.len() - 1,
{
    broadcast use group_reduced;

    let cs = claims_of(fz, fa, s, p, c);
    let sets = claim_sets(cs);
    let bi = finv(c.beta);
    let ml = fz.len() as int;
    let mr = fa.len() as int;
    lemma_union(fz, fa, s, p, c);
    lemma_complements(c.alpha, c.beta, bi);
    lemma_modulus();
    let u = union_of(sets, 3);
    assert(sets[0] == u && sets[1] == seq![c.beta, bi] && sets[2] == sets[1]);
    let o0 = outside_poly(u, sets[0]);
    let o1 = outside_poly(u, sets[1]);
    assert(o0 == seq![1int]);
    assert(p_vanishing(seq![c.alpha], 0).len() == 1);
    assert(o1.len() == 2);
    reveal_with_fuel(fpow, 2);
    let r1 = fpow(c.rho, 1);
    assert(r1 == c.rho) by {
        lemma_refl(1);
        lemma_refl(c.rho);
        assert(1 * c.rho == c.rho) by (nonlinear_arith);
        broadcast use group_shadow;

        lemma_shadow_eq(fmul(1, c.rho), 1 * c.rho, c.rho, c.rho);
    }
    let n0 = numerator(cs, u, c.rho, 0);
    let n1 = numerator(cs, u, c.rho, 1);
    let n2 = numerator(cs, u, c.rho, 2);
    let n3 = numerator(cs, u, c.rho, 3);
    let m0 = if ml >= 3 { ml } else { 3 };
    assert(n0.len() == 0);
    assert(interp(cs[0].points, cs[0].values).len() == 3);
    assert(interp(cs[1].points, cs[1].values).len() == 2);
    assert(interp(cs[2].points, cs[2].values).len() == 2);
    assert(p_sub(cs[0].poly, interp(cs[0].points, cs[0].values)).len() == m0);
    assert(n1.len() == m0);
    assert(p_sub(cs[1].poly, interp(cs[1].points, cs[1].values)).len() == mr);
    assert(n2.len() == if mr + 1 >= m0 { mr + 1 } else { m0 });
    assert(n3.len() == n2.len());
    let q0 = quotient_chain(n3, u, 0);
    let q1 = quotient_chain(n3, u, 1);
    let q2 = quotient_chain(n3, u, 2);
    let q3 = quotient_chain(n3, u, 3);
    assert(q1.len() == n3.len() - 1);
    assert(q2.len() == n3.len() - 2);
    assert(q3.len() == n3.len() - 3);
    let its = interpolants_of(cs);
    let l0 = combined_at(cs, u, its, c.rho, c.z, 0);
    let l1 = combined_at(cs, u, its, c.rho, c.z, 1);
    let l2 = combined_at(cs, u, its, c.rho, c.z, 2);
    let l3 = combined_at(cs, u, its, c.rho, c.z, 3);
    assert(l1.len() == ml) by {
        lemma_eval_const(1, c.z);
        let w = fmul(fpow(c.rho, 0), feval(o0, c.z));
        assert(w == fmul(1, 1));
        assert(w == 1) by {
            lemma_refl(1);
            broadcast use group_shadow;

            lemma_shadow_eq(fmul(1, 1), 1int * 1int, 1, 1);
        }
    }
    assert(l2.len() == ml);
    assert(l3.len() == ml);
    assert(q3.len() <= ml);
}

/// Length of the first witness of the batch opening.
pub open spec fn w_length(ml: int, mr: int) -> int {
    let m0 = if ml >= 3 {
        ml
    } else {
        3
    };
    (if mr + 1 >= m0 {
        mr + 1
    } else {
        m0
    }) - 3
}

/// The claims of honest values divide without remainder.
pub proof fn lemma_claims_divide(
    fz: Seq<int>,
    fa: Seq<int>,
    s: Seq<int>,
    p: ChopinModel,
    c: ChopinChallenges,
)
    requires
        points_ok(c),
        p.a == feval(fz, c.alpha),
        p.a1 == feval(fz, c.beta),
        p.a2 == feval(fz, finv(c.beta)),
        p.b1 == feval(fa, c.beta),
        p.b2 == feval(fa, finv(c.beta)),
        p.s1 == feval(s, c.beta),
        p.s2 == feval(s, finv(c.beta)),
    ensures
        ({
            let cs = claims_of(fz, fa, s, p, c);
            let u = union_of(claim_sets(cs), 3);
            &&& chain_exact(numerator(cs, u, c.rho, 3), u, u.len() as int)
            &&& feval(
                l_poly(cs, u, interpolants_of(cs), batch_quotient(cs, c.rho), c.rho, c.z),
                c.z,
            ) == 0
        }),
{
    let cs = claims_of(fz, fa, s, p, c);
    let bi = finv(c.beta);
    lemma_union(fz, fa, s, p, c);
    let u = union_of(claim_sets(cs), 3);
    lemma_tail_reduced(fz, c.alpha, 0);
    lemma_tail_reduced(fz, c.beta, 0);
    lemma_tail_reduced(fz, bi, 0);
    lemma_tail_reduced(fa, c.beta, 0);
    lemma_tail_reduced(fa, bi, 0);
    lemma_tail_reduced(s, c.beta, 0);
    lemma_tail_reduced(s, bi, 0);
    assert forall|t: int| 0 <= t < cs.len() implies consistent(#[trigger] cs[t]) && all_reduced(
        cs[t].values,
    ) by {
        assert(t == 0 || t == 1 || t == 2);
    }
    assert forall|k: int| 0 <= k < u.len() implies invertible(
        root_product(u, #[trigger] u[k], k),
    ) by {
        lemma_nodes_prefix(u, k);
    }
    law_first_round_succeeds(cs, c.rho);
    law_second_round_succeeds(cs, c.rho, c.z);
}

/// The conditions under which the statements about honest runs hold: a table
/// of the right size, its value, and usable challenges.
pub open spec fn honest_setting(
    f: Seq<int>,
    ul: Seq<int>,
    ur: Seq<int>,
    y: int,
    c: ChopinChallenges,
) -> bool {
    &&& 2 <= p2(ur.len() as int) <= p2(ul.len() as int)
    &&& f.len() == p2(ul.len() as int) * p2(ur.len() as int)
    &&& y == mle_eval(f, ul + ur)
    &&& points_ok(c)
    &&& reduced(c.rho)
    &&& c.rho != 0
}

proof fn lemma_ring_identity(
    y: int,
    a: int,
    g: int,
    b: int,
    bi: int,
    p0: int,
    p1: int,
    q0: int,
    q1: int,
)
    ensures
        ((y + y) + (b * p0 + bi * p1)) + g * ((a + a) + (b * q0 + bi * q1)) == (((y + g * a) + (y
            + g * a)) + b * (p0 + g * q0)) + bi * (p1 + g * q1),
{
    assert(g * ((a + a) + (b * q0 + bi * q1)) == g * a + g * a + g * (b * q0) + g * (bi * q1))
        by (nonlinear_arith);
    assert(b * (p0 + g * q0) == b * p0 + g * (b * q0)) by (nonlinear_arith);
    assert(bi * (p1 + g * q1) == bi * p1 + g * (bi * q1)) by (nonlinear_arith);
}

/// The field identity holds for honest values.
pub proof fn lemma_identity(
    key: Seq<int>,
    f: Seq<int>,
    ul: Seq<int>,
    ur: Seq<int>,
    y: int,
    c: ChopinChallenges,
)
    requires
        honest_setting(f, ul, ur, y, c),
    ensures
        identity_holds(ul, ur, y, honest_values(key, f, ul, ur, c), c),
{
    broadcast use group_reduced;

    lemma_modulus();
    let nl = ul.len() as int;
    let nr = ur.len() as int;
    let ml = p2(nl);
    let mr = p2(nr);
    let v = honest_values(key, f, ul, ur, c);
    let fz = right_restriction(f, ul, ur);
    let fa = alpha_restriction(f, ul, ur, c.alpha);
    let s0 = sym_witness(fz, ul, nl);
    let s1 = sym_witness(fa, ur, nr);
    let s = s_poly(fz, fa, ul, ur, c.gamma);
    let b = c.beta;
    let bi = finv(b);
    let er = eq_vec(ur, nr);
    vstd::arithmetic::power2::lemma_pow2_adds(ul.len(), ur.len());
    law_two_stage_evaluation(f, ul + ur, ul, ur);
    assert(entries_reduced(fz));
    assert(entries_reduced(fa)) by {
        assert forall|k: int| 0 <= k < fa.len() implies reduced(#[trigger] fa[k]) by {
            lemma_tail_reduced(block(f, ml, k), c.alpha, 0);
        }
    }
    law_symmetric_witness(fz, ul, nl, b, bi);
    law_symmetric_witness(fa, ur, nr, b, bi);
    lemma_fold_eval(f, er, ml, mr, mr, c.alpha);
    lemma_eval_add_scaled(s0, s1, c.gamma, b);
    lemma_eval_add_scaled(s0, s1, c.gamma, bi);
    let a = v.a;
    let g = c.gamma;
    let p0 = feval(s0, b);
    let p1 = feval(s0, bi);
    let q0 = feval(s1, b);
    let q1 = feval(s1, bi);
    lemma_refl(y);
    lemma_refl(a);
    lemma_refl(g);
    lemma_refl(b);
    lemma_refl(bi);
    lemma_refl(p0);
    lemma_refl(p1);
    lemma_refl(q0);
    lemma_refl(q1);
    lemma_ring_identity(y, a, g, b, bi, p0, p1, q0, q1);
    let l0 = fadd(fadd(y, y), fadd(fmul(b, p0), fmul(bi, p1)));
    let l1 = fadd(fadd(a, a), fadd(fmul(b, q0), fmul(bi, q1)));
    let w = fadd(y, fmul(g, a));
    let lhs = fadd(l0, fmul(g, l1));
    let rhs = fadd(
        fadd(fadd(w, w), fmul(b, fadd(p0, fmul(g, q0)))),
        fmul(bi, fadd(p1, fmul(g, q1))),
    );
    assert(lhs == rhs) by {
        broadcast use group_shadow;

        lemma_shadow_eq(
            lhs,
            ((y + y) + (b * p0 + bi * p1)) + g * ((a + a) + (b * q0 + bi * q1)),
            rhs,
            (((y + g * a) + (y + g * a)) + b * (p0 + g * q0)) + bi * (p1 + g * q1),
        );
    }
}

/// `f(x, y) = q(x, y) (x - alpha) + f(alpha, y)` for the quotients of the
/// columns.
proof fn lemma_divide_x(f: Seq<int>, ml: int, mr: int, alpha: int, x: int, y: int)
    requires
        2 <= ml,
        0 <= mr,
        f.len() == ml * mr,
    ensures
        feval(block_values(f, ml, mr, x), y) == fadd(
            feval(block_values(f, ml, mr, alpha), y),
            fmul(
                fsub(x, alpha),
                feval(block_values(quotient_1(f, ml, mr, alpha), ml - 1, mr, x), y),
            ),
        ),
{
    broadcast use group_reduced;

    let w = ml - 1;
    let v = block_values(f, ml, mr, x);
    let fa = block_values(f, ml, mr, alpha);
    let q1 = quotient_1(f, ml, mr, alpha);
    let q = block_values(q1, w, mr, x);
    let t = fsub(x, alpha);
    assert forall|j: int| 0 <= j < mr implies #[trigger] v[j] == fadd(fa[j], fmul(t, q[j])) by {
        lemma_column(ml, mr, j);
        lemma_column(w, mr, j);
        let col = block(f, ml, j);
        assert(block(q1, w, j) =~= linear_quotient(col, alpha)) by {
            assert forall|i: int| 0 <= i < w implies block(q1, w, j)[i] == linear_quotient(
                col,
                alpha,
            )[i] by {
                lemma_row_major(w, mr, i, j);
                assert(j * w == w * j) by (nonlinear_arith);
            }
        }
        lemma_linear_division(col, alpha, x);
        let qv = q[j];
        let cv = fa[j];
        lemma_refl(qv);
        lemma_refl(cv);
        lemma_refl(t);
        assert(qv * t + cv == cv + t * qv) by (nonlinear_arith);
        broadcast use group_shadow;

        lemma_shadow_eq(fadd(fmul(qv, t), cv), qv * t + cv, fadd(cv, fmul(t, qv)), cv + t * qv);
    }
    lemma_eval_mix(v, fa, q, t, y);
}

/// The verifier's key that belongs to a grid key.
pub open spec fn key_of(g: int, tau: int, sigma: int, h: int) -> ChopinKey {
    ChopinKey {
        g1_one: grid_base(g, tau, sigma, 0, 0),
        g2_one: h,
        g2_tau: fmul(h, tau),
        g2_sigma: fmul(h, sigma),
    }
}

proof fn lemma_ring_bivariate(
    g: int,
    h: int,
    f: int,
    b1: int,
    q1: int,
    q2: int,
    t: int,
    s: int,
    al: int,
    be: int,
)
    requires
        f == ((q2 * (s - be)) + b1) + (t - al) * q1,
    ensures
        ((0 + (g * f + (g * (1 * 1)) * (-b1)) * h) + (-(g * q1)) * (h * t + h * (-al))) + (-(g
            * q2)) * (h * s + h * (-be)) == 0,
{
    let x = (t - al) * q1;
    let y = q2 * (s - be);
    assert(g * f + (g * (1 * 1)) * (-b1) == g * (x + y)) by (nonlinear_arith)
        requires
            f == (y + b1) + x,
    ;
    assert((g * (x + y)) * h == (g * h) * x + (g * h) * y) by (nonlinear_arith);
    assert((-(g * q1)) * (h * t + h * (-al)) == -((g * h) * ((t - al) * q1))) by (nonlinear_arith);
    assert((-(g * q2)) * (h * s + h * (-be)) == -((g * h) * (q2 * (s - be)))) by (nonlinear_arith);
}

/// The bivariate opening holds for an honest proof.
proof fn lemma_bivariate(
    key: Seq<int>,
    g: int,
    tau: int,
    sigma: int,
    h: int,
    f: Seq<int>,
    ul: Seq<int>,
    ur: Seq<int>,
    c: ChopinChallenges,
)
    requires
        2 <= p2(ul.len() as int),
        2 <= p2(ur.len() as int),
        f.len() == p2(ul.len() as int) * p2(ur.len() as int),
        is_grid_key(key, p2(ul.len() as int), p2(ur.len() as int), g, tau, sigma),
    ensures
        bivariate_holds(
            key_of(g, tau, sigma, h),
            dot(
                key,
                layout(f, p2(ul.len() as int), p2(ur.len() as int)),
                p2(ul.len() as int) * p2(ur.len() as int),
            ),
            honest_values(key, f, ul, ur, c),
            c.alpha,
            c.beta,
        ),
{
    broadcast use group_reduced;

    lemma_modulus();
    let ml = p2(ul.len() as int);
    let mr = p2(ur.len() as int);
    let v = honest_values(key, f, ul, ur, c);
    let vk = key_of(g, tau, sigma, h);
    let com = dot(key, layout(f, ml, mr), ml * mr);
    let al = c.alpha;
    let be = c.beta;
    let fa = block_values(f, ml, mr, al);
    let q1 = quotient_1(f, ml, mr, al);
    let q2 = linear_quotient(fa, be);
    law_table_commitment(key, ml, mr, g, tau, sigma, f);
    law_prefix_commitment(key, ml, mr, g, tau, sigma, q1);
    law_sigma_commitment(key, ml, mr, g, tau, sigma, q2);
    lemma_divide_x(f, ml, mr, al, tau, sigma);
    lemma_linear_division(fa, be, sigma);
    let fv = feval(block_values(f, ml, mr, tau), sigma);
    let q1v = feval(block_values(q1, ml - 1, mr, tau), sigma);
    let q2v = feval(q2, sigma);
    let b1 = v.b1;
    lemma_refl(0);
    lemma_refl(1);
    lemma_refl(g);
    lemma_refl(h);
    lemma_refl(tau);
    lemma_refl(sigma);
    lemma_refl(al);
    lemma_refl(be);
    lemma_refl(q1v);
    lemma_refl(q2v);
    lemma_refl(b1);
    let fi = ((q2v * (sigma - be)) + b1) + (tau - al) * q1v;
    assert(cong(fv, fi)) by {
        broadcast use group_shadow;

    }
    let d = dot(
        seq![fadd(com, fmul(vk.g1_one, fneg(b1))), fneg(v.pi_biv_x), fneg(v.pi_biv_y)],
        seq![
            vk.g2_one,
            fadd(vk.g2_tau, fmul(vk.g2_one, fneg(al))),
            fadd(vk.g2_sigma, fmul(vk.g2_one, fneg(be))),
        ],
        3,
    );
    reveal_with_fuel(dot, 4);
    let ta = fadd(fmul(h, tau), fmul(h, fneg(al)));
    let sb = fadd(fmul(h, sigma), fmul(h, fneg(be)));
    assert(d == fadd(
        fadd(
            fadd(0, fmul(fadd(fmul(g, fv), fmul(fmul(g, fmul(1, 1)), fneg(b1))), h)),
            fmul(fneg(fmul(g, q1v)), ta),
        ),
        fmul(fneg(fmul(g, q2v)), sb),
    ));
    let l = ((0 + (g * fi + (g * (1 * 1)) * (-b1)) * h) + (-(g * q1v)) * (h * tau + h * (-al))) + (
    -(g * q2v)) * (h * sigma + h * (-be));
    lemma_bivariate_shadow(d, g, h, fv, fi, b1, q1v, q2v, tau, sigma, al, be);
    lemma_ring_bivariate(g, h, fi, b1, q1v, q2v, tau, sigma, al, be);
    lemma_shadow_eq(d, l, 0, 0);
}

proof fn lemma_bivariate_shadow(
    d: int,
    g: int,
    h: int,
    fv: int,
    fi: int,
    b1: int,
    q1: int,
    q2: int,
    t: int,
    s: int,
    al: int,
    be: int,
)
    requires
        cong(fv, fi),
        d == fadd(
            fadd(
                fadd(0, fmul(fadd(fmul(g, fv), fmul(fmul(g, fmul(1, 1)), fneg(b1))), h)),
                fmul(fneg(fmul(g, q1)), fadd(fmul(h, t), fmul(h, fneg(al)))),
            ),
            fmul(fneg(fmul(g, q2)), fadd(fmul(h, s), fmul(h, fneg(be)))),
        ),
    ensures
        cong(
            d,
            ((0 + (g * fi + (g * (1 * 1)) * (-b1)) * h) + (-(g * q1)) * (h * t + h * (-al))) + (-(g
                * q2)) * (h * s + h * (-be)),
        ),
{
    lemma_refl(0);
    lemma_refl(1);
    lemma_refl(g);
    lemma_refl(h);
    lemma_refl(b1);
    lemma_refl(q1);
    lemma_refl(q2);
    lemma_refl(t);
    lemma_refl(s);
    lemma_refl(al);
    lemma_refl(be);
    broadcast use group_shadow;

}

proof fn lemma_ring_batch(
    g: int,
    p0: int,
    p1: int,
    p2_: int,
    c0: int,
    c1: int,
    c2: int,
    k: int,
    z: int,
    w: int,
    zt: int,
    wp: int,
)
    ensures
        0 + (g * p0) * c0 + (g * p1) * c1 + (g * p2_) * c2 + (g * (1 * 1)) * (-k) + (g * w) * (-zt)
            + (g * wp) * z == g * (((((0 + c0 * p0 + c1 * p1 + c2 * p2_) - k) + (-zt) * w) + z
            * wp)),
{
    assert((g * p0) * c0 == g * (c0 * p0)) by (nonlinear_arith);
    assert((g * p1) * c1 == g * (c1 * p1)) by (nonlinear_arith);
    assert((g * p2_) * c2 == g * (c2 * p2_)) by (nonlinear_arith);
    assert((g * (1 * 1)) * (-k) == g * (-k)) by (nonlinear_arith);
    assert((g * w) * (-zt) == g * ((-zt) * w)) by (nonlinear_arith);
    assert((g * wp) * z == g * (z * wp)) by (nonlinear_arith);
    let a = c0 * p0;
    let b = c1 * p1;
    let c = c2 * p2_;
    let d = (-zt) * w;
    let e = z * wp;
    assert(g * a + g * b + g * c + g * (-k) + g * d + g * e == g * ((((0 + a + b + c) - k) + d)
        + e)) by (nonlinear_arith);
}

/// The commitments of an honest proof evaluate its polynomials.
proof fn lemma_honest_commitments(
    key: Seq<int>,
    g: int,
    tau: int,
    sigma: int,
    f: Seq<int>,
    ul: Seq<int>,
    ur: Seq<int>,
    y: int,
    c: ChopinChallenges,
)
    requires
        honest_setting(f, ul, ur, y, c),
        is_grid_key(key, p2(ul.len() as int), p2(ur.len() as int), g, tau, sigma),
    ensures
        ({
            let p = honest_proof(key, f, ul, ur, c);
            let cs = honest_claims(key, f, ul, ur, c);
            &&& p.comm_f_zr == fmul(g, feval(cs[0].poly, tau))
            &&& p.comm_f_alpha == fmul(g, feval(cs[1].poly, tau))
            &&& p.comm_s == fmul(g, feval(cs[2].poly, tau))
            &&& p.batch_w == fmul(g, feval(batch_quotient(cs, c.rho), tau))
            &&& p.batch_w_prime == fmul(g, feval(batch_opening(cs, c.rho, c.z), tau))
        }),
{
    let ml = p2(ul.len() as int);
    let mr = p2(ur.len() as int);
    let v = honest_values(key, f, ul, ur, c);
    let fz = right_restriction(f, ul, ur);
    let fa = alpha_restriction(f, ul, ur, c.alpha);
    let s = s_poly(fz, fa, ul, ur, c.gamma);
    let cs = honest_claims(key, f, ul, ur, c);
    law_batch_lengths(fz, fa, s, v, c);
    law_tau_commitment(key, ml, mr, g, tau, sigma, fz);
    law_tau_commitment(key, ml, mr, g, tau, sigma, fa);
    law_tau_commitment(key, ml, mr, g, tau, sigma, s);
    law_tau_commitment(key, ml, mr, g, tau, sigma, batch_quotient(cs, c.rho));
    law_tau_commitment(key, ml, mr, g, tau, sigma, batch_opening(cs, c.rho, c.z));
}

/// The batch opening holds for an honest proof.
#[verifier::spinoff_prover]
proof fn lemma_batch(
    key: Seq<int>,
    g: int,
    tau: int,
    sigma: int,
    h: int,
    f: Seq<int>,
    ul: Seq<int>,
    ur: Seq<int>,
    y: int,
    c: ChopinChallenges,
)
    requires
        honest_setting(f, ul, ur, y, c),
        is_grid_key(key, p2(ul.len() as int), p2(ur.len() as int), g, tau, sigma),
    ensures
        batch_holds(key_of(g, tau, sigma, h), honest_proof(key, f, ul, ur, c), c),
{
    let p = honest_proof(key, f, ul, ur, c);
    let v = honest_values(key, f, ul, ur, c);
    let fz = right_restriction(f, ul, ur);
    let fa = alpha_restriction(f, ul, ur, c.alpha);
    let s = s_poly(fz, fa, ul, ur, c.gamma);
    let claims = honest_claims(key, f, ul, ur, c);
    lemma_honest_commitments(key, g, tau, sigma, f, ul, ur, y, c);
    lemma_union(fz, fa, s, v, c);
    lemma_claims_divide(fz, fa, s, v, c);
    assert(claims == claims_of(fz, fa, s, v, c));
    let e = Seq::<int>::empty();
    let bare = claims_of(e, e, e, p, c);
    assert(claim_sets(bare) =~= claim_sets(claims));
    assert(claim_values(bare) =~= claim_values(claims));
    lemma_batch_pairing(g, tau, h, claims, p, c, grid_base(g, tau, sigma, 0, 0));
}

/// The batch check holds for commitments that evaluate the claims' polynomials
/// and the two witnesses.
#[verifier::spinoff_prover]
proof fn lemma_batch_pairing(
    g: int,
    tau: int,
    h: int,
    claims: Seq<Claim>,
    p: ChopinModel,
    c: ChopinChallenges,
    one: int,
)
    requires
        claims.len() == 3,
        one == fmul(g, fmul(1, 1)),
        p.comm_f_zr == fmul(g, feval(claims[0].poly, tau)),
        p.comm_f_alpha == fmul(g, feval(claims[1].poly, tau)),
        p.comm_s == fmul(g, feval(claims[2].poly, tau)),
        p.batch_w == fmul(g, feval(batch_quotient(claims, c.rho), tau)),
        p.batch_w_prime == fmul(g, feval(batch_opening(claims, c.rho, c.z), tau)),
        ({
            let u = union_of(claim_sets(claims), 3);
            chain_exact(numerator(claims, u, c.rho, 3), u, u.len() as int)
        }),
    ensures
        ({
            let sets = claim_sets(claims);
            let u = union_of(sets, 3);
            let combined = dot(
                seq![p.comm_f_zr, p.comm_f_alpha, p.comm_s, one, p.batch_w, p.batch_w_prime],
                seq![
                    commit_scalar(sets, u, c.rho, c.z, 0),
                    commit_scalar(sets, u, c.rho, c.z, 1),
                    commit_scalar(sets, u, c.rho, c.z, 2),
                    fneg(const_term(sets, claim_values(claims), u, c.rho, c.z, 3)),
                    fneg(feval(p_vanishing(u, u.len() as int), c.z)),
                    c.z,
                ],
                6,
            );
            dot(seq![combined, fneg(p.batch_w_prime)], seq![h, fmul(h, tau)], 2) == 0
        }),
{
    let sets = claim_sets(claims);
    let u = union_of(sets, 3);
    law_verifier_equation(claims, c.rho, c.z, tau);
    let c0 = commit_scalar(sets, u, c.rho, c.z, 0);
    let c1 = commit_scalar(sets, u, c.rho, c.z, 1);
    let c2 = commit_scalar(sets, u, c.rho, c.z, 2);
    let k = const_term(sets, claim_values(claims), u, c.rho, c.z, 3);
    let zt = feval(p_vanishing(u, u.len() as int), c.z);
    let v0 = feval(claims[0].poly, tau);
    let v1 = feval(claims[1].poly, tau);
    let v2 = feval(claims[2].poly, tau);
    let wv = feval(batch_quotient(claims, c.rho), tau);
    let wpv = feval(batch_opening(claims, c.rho, c.z), tau);
    let cc = combined_commitments(claims, u, c.rho, c.z, tau, 3);
    assert(cc == fadd(fadd(fadd(0, fmul(c0, v0)), fmul(c1, v1)), fmul(c2, v2))) by {
        reveal_with_fuel(combined_commitments, 4);
    }
    let a6 = seq![p.comm_f_zr, p.comm_f_alpha, p.comm_s, one, p.batch_w, p.batch_w_prime];
    let b6 = seq![c0, c1, c2, fneg(k), fneg(zt), c.z];
    let combined = dot(a6, b6, 6);
    assert(combined == fadd(
        fadd(
            fadd(
                fadd(
                    fadd(fadd(0, fmul(fmul(g, v0), c0)), fmul(fmul(g, v1), c1)),
                    fmul(fmul(g, v2), c2),
                ),
                fmul(fmul(g, fmul(1, 1)), fneg(k)),
            ),
            fmul(fmul(g, wv), fneg(zt)),
        ),
        fmul(fmul(g, wpv), c.z),
    )) by {
        reveal_with_fuel(dot, 7);
    }
    lemma_combined_six(combined, g, v0, v1, v2, c0, c1, c2, k, c.z, wv, zt, wpv);
    assert(combined == fmul(g, fmul(tau, wpv)));
    let d = dot(seq![combined, fneg(p.batch_w_prime)], seq![h, fmul(h, tau)], 2);
    assert(d == fadd(
        fadd(0, fmul(fmul(g, fmul(tau, wpv)), h)),
        fmul(fneg(fmul(g, wpv)), fmul(h, tau)),
    )) by {
        reveal_with_fuel(dot, 3);
    }
    lemma_two_term(d, g, h, tau, wpv);
}

/// The combination of six commitments over one point.
proof fn lemma_combined_six(
    combined: int,
    g: int,
    v0: int,
    v1: int,
    v2: int,
    c0: int,
    c1: int,
    c2: int,
    k: int,
    z: int,
    wv: int,
    zt: int,
    wpv: int,
)
    requires
        combined == fadd(
            fadd(
                fadd(
                    fadd(
                        fadd(fadd(0, fmul(fmul(g, v0), c0)), fmul(fmul(g, v1), c1)),
                        fmul(fmul(g, v2), c2),
                    ),
                    fmul(fmul(g, fmul(1, 1)), fneg(k)),
                ),
                fmul(fmul(g, wv), fneg(zt)),
            ),
            fmul(fmul(g, wpv), z),
        ),
    ensures
        combined == fmul(
            g,
            fadd(
                fadd(
                    fsub(
                        fadd(fadd(fadd(0, fmul(c0, v0)), fmul(c1, v1)), fmul(c2, v2)),
                        k,
                    ),
                    fmul(fneg(zt), wv),
                ),
                fmul(z, wpv),
            ),
        ),
{
    broadcast use group_reduced;

    lemma_refl(0);
    lemma_refl(1);
    lemma_refl(g);
    lemma_refl(c0);
    lemma_refl(c1);
    lemma_refl(c2);
    lemma_refl(k);
    lemma_refl(zt);
    lemma_refl(z);
    lemma_refl(v0);
    lemma_refl(v1);
    lemma_refl(v2);
    lemma_refl(wv);
    lemma_refl(wpv);
    lemma_ring_batch(g, v0, v1, v2, c0, c1, c2, k, z, wv, zt, wpv);
    let l = 0 + (g * v0) * c0 + (g * v1) * c1 + (g * v2) * c2 + (g * (1 * 1)) * (-k) + (g * wv) * (
    -zt) + (g * wpv) * z;
    let r = g * (((((0 + c0 * v0 + c1 * v1 + c2 * v2) - k) + (-zt) * wv) + z * wpv));
    let rhs = fmul(
        g,
        fadd(
            fadd(
                fsub(fadd(fadd(fadd(0, fmul(c0, v0)), fmul(c1, v1)), fmul(c2, v2)), k),
                fmul(fneg(zt), wv),
            ),
            fmul(z, wpv),
        ),
    );
    assert(cong(combined, l)) by {
        broadcast use group_shadow;

    }
    assert(cong(rhs, r)) by {
        broadcast use group_shadow;

    }
    lemma_shadow_eq(combined, l, rhs, r);
}

/// The two-term pairing check of a batch opening.
proof fn lemma_two_term(d: int, g: int, h: int, tau: int, w: int)
    requires
        d == fadd(
            fadd(0, fmul(fmul(g, fmul(tau, w)), h)),
            fmul(fneg(fmul(g, w)), fmul(h, tau)),
        ),
    ensures
        d == 0,
{
    broadcast use group_reduced;

    lemma_modulus();
    lemma_refl(0);
    lemma_refl(g);
    lemma_refl(h);
    lemma_refl(tau);
    lemma_refl(w);
    assert((0 + (g * (tau * w)) * h) + (-(g * w)) * (h * tau) == 0) by (nonlinear_arith);
    broadcast use group_shadow;

    lemma_shadow_eq(d, (0 + (g * (tau * w)) * h) + (-(g * w)) * (h * tau), 0, 0);
}

/// Completeness: for every table, every point and every usable choice of the
/// challenges, a verifier whose key belongs to the prover's grid key accepts
/// what an honest prover sends.
pub proof fn law_completeness(
    key: Seq<int>,
    g: int,
    tau: int,
    sigma: int,
    h: int,
    f: Seq<int>,
    ul: Seq<int>,
    ur: Seq<int>,
    y: int,
    c: ChopinChallenges,
)
    requires
        honest_setting(f, ul, ur, y, c),
        is_grid_key(key, p2(ul.len() as int), p2(ur.len() as int), g, tau, sigma),
    ensures
        accepts(
            key_of(g, tau, sigma, h),
            dot(
                key,
                layout(f, p2(ul.len() as int), p2(ur.len() as int)),
                p2(ul.len() as int) * p2(ur.len() as int),
            ),
            ul,
            ur,
            y,
            honest_proof(key, f, ul, ur, c),
            c,
        ),
{
    lemma_identity(key, f, ul, ur, y, c);
    lemma_bivariate(key, g, tau, sigma, h, f, ul, ur, c);
    lemma_batch(key, g, tau, sigma, h, f, ul, ur, y, c);
}

/// What an honest prover sends in a run is accepted in the same run: the
/// verifier who replays the transcript draws the same challenges and says yes.
pub proof fn law_honest_run_is_accepted(
    start: Seq<Entry>,
    key: Seq<int>,
    g: int,
    tau: int,
    sigma: int,
    h: int,
    f: Seq<int>,
    u: Seq<int>,
    p: ChopinModel,
    c: ChopinChallenges,
    run: ChopinRun,
)
    requires
        2 <= u.len(),
        f.len() == p2(u.len() as int),
        is_grid_key(
            key,
            p2(split(u.len() as int).0),
            p2(split(u.len() as int).1),
            g,
            tau,
            sigma,
        ),
        is_honest_run(start, key, f, u, p, c, run),
    ensures
        is_verdict(
            start,
            run_end(p, run),
            key_of(g, tau, sigma, h),
            dot(
                key,
                layout(f, p2(split(u.len() as int).0), p2(split(u.len() as int).1)),
                p2(u.len() as int),
            ),
            u,
            mle_eval(f, u),
            p,
            true,
            c,
            run,
        ),
{
    let mu = u.len() as int;
    let ul = left_part(u);
    let ur = right_part(u);
    lemma_split(mu);
    lemma_pow2_mono(1, split(mu).0);
    lemma_pow2_mono(1, split(mu).1);
    vstd::arithmetic::power2::lemma2_to64();
    assert(ul + ur =~= u);
    let nb = run.after_beta.len() as int - 1;
    assert(run.after_beta[nb] == Entry::Challenge("beta"@, c.beta));
    assert(usable_beta(c.alpha)(c.beta));
    let nr = run.after_rho.len() as int - 1;
    assert(run.after_rho[nr] == Entry::Challenge("rho"@, c.rho));
    assert(nonzero()(c.rho));
    assert(c.beta != finv(c.beta));
    law_completeness(key, g, tau, sigma, h, f, ul, ur, mle_eval(f, u), c);
}

/// A proof determines the value: for given challenges at most one value is
/// accepted.
pub proof fn law_value_is_unique(
    vk: ChopinKey,
    com: int,
    ul: Seq<int>,
    ur: Seq<int>,
    y: int,
    v: int,
    p: ChopinModel,
    c: ChopinChallenges,
)
    requires
        reduced(y),
        reduced(v),
        accepts(vk, com, ul, ur, y, p, c),
        accepts(vk, com, ul, ur, v, p, c),
    ensures
        y == v,
{
    broadcast use {group_reduced, group_shadow};

    let a = fmul(c.gamma, p.a);
    let b1 = fmul(c.beta, p.s1);
    let b2 = fmul(finv(c.beta), p.s2);
    let wy = fadd(y, a);
    let wv = fadd(v, a);
    lemma_refl(a);
    lemma_refl(b1);
    lemma_refl(b2);
    lemma_refl(y);
    lemma_refl(v);
    lemma_refl(fadd(wy, wy));
    lemma_refl(fadd(wv, wv));
    let sy = fadd(wy, wy);
    let sv = fadd(wv, wv);
    lemma_shadow_eq(fadd(fadd(sy, b1), b2), (sy + b1) + b2, fadd(fadd(b1, b2), sy), (b1 + b2) + sy);
    lemma_shadow_eq(fadd(fadd(sv, b1), b2), (sv + b1) + b2, fadd(fadd(b1, b2), sv), (b1 + b2) + sv);
    lemma_add_cancel(fadd(b1, b2), sy, sv);
    lemma_double_cancel(wy, wv);
    lemma_shadow_eq(fadd(y, a), y + a, fadd(a, y), a + y);
    lemma_shadow_eq(fadd(v, a), v + a, fadd(a, v), a + v);
    lemma_add_cancel(a, y, v);
}

} // verus!
