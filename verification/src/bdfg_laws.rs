//! What the batched openings promise: consistent claims divide without
//! remainder, and the two witnesses satisfy the equation that the verifier
//! checks in the exponent.

use crate::bdfg::{
    chain_exact, claim_sets, combined_at, commit_scalar, complement_of, const_term, is_combination,
    is_first_round, is_second_round, l_poly, linq, numerator, outside_poly, outside_product,
    poly_views, quotient_chain, union_into, union_of, BdfgFirstRound, BdfgSecondRound,
    BdfgVerifierCombination, Claim,
};
use crate::errors::PCSError;
use crate::field::{
    cong, fadd, finv, fmul, fneg, fpow, fsub, group_reduced, group_shadow, is_inverse,
    lemma_cong_eq, lemma_cong_mul, lemma_cong_symm, lemma_cong_trans, lemma_inverse_unique,
    lemma_modulus, lemma_refl, lemma_shadow_eq, reduced, vals,
};
use crate::poly::{
    all_reduced, basis_den, feval, interp, invertible, lemma_eval_add_scaled, lemma_eval_mul,
    lemma_eval_sub, lemma_eval_sub_const, lemma_eval_vanishing, lemma_interp_eval,
    lemma_linear_division, lemma_tail_reduced, lemma_vanishing_vanishes, nodes_ok, p_add_scaled,
    p_mul, p_sub, p_vanishing, root_product,
};
use vstd::prelude::*;

verus! {

/// Exact division by linear factors: the polynomial is the product of the
/// quotient with the vanishing polynomial of the roots.
pub proof fn lemma_chain_product(p: Seq<int>, roots: Seq<int>, x: int, n: int)
    requires
        0 <= n <= roots.len(),
        chain_exact(p, roots, n),
    ensures
        feval(p, x) == fmul(root_product(roots, x, n), feval(quotient_chain(p, roots, n), x)),
    decreases n,
{
    broadcast use group_reduced;

    let e = feval(p, x);
    lemma_tail_reduced(p, x, 0);
    if n == 0 {
        broadcast use group_shadow;

        lemma_refl(1);
        lemma_refl(e);
        lemma_shadow_eq(fmul(1, e), 1 * e, e, e);
    } else {
        lemma_chain_product(p, roots, x, n - 1);
        let c = quotient_chain(p, roots, n - 1);
        let q = quotient_chain(p, roots, n);
        let r = roots[n - 1];
        let w = root_product(roots, x, n - 1);
        let cv = feval(c, x);
        let qv = feval(q, x);
        assert(feval(c, r) == 0);
        if c.len() > 0 {
            lemma_linear_division(c, r, x);
        }
        assert(cv == fadd(fmul(qv, fsub(x, r)), 0)) by {
            if c.len() == 0 {
                assert(qv == 0 && cv == 0);
                broadcast use group_shadow;

                lemma_modulus();
                lemma_refl(0);
                lemma_refl(x);
                lemma_refl(r);
                assert(0 * (x - r) + 0 == 0) by (nonlinear_arith);
                lemma_shadow_eq(fadd(fmul(0, fsub(x, r)), 0), 0 * (x - r) + 0, 0, 0);
            }
        }
        broadcast use group_shadow;

        lemma_refl(w);
        lemma_refl(qv);
        lemma_refl(x);
        lemma_refl(r);
        lemma_refl(0);
        assert(w * (qv * (x - r) + 0) == (w * (x - r)) * qv) by (nonlinear_arith);
        lemma_shadow_eq(
            fmul(w, fadd(fmul(qv, fsub(x, r)), 0)),
            w * (qv * (x - r) + 0),
            fmul(fmul(w, fsub(x, r)), qv),
            (w * (x - r)) * qv,
        );
    }
}

/// A product with an invertible factor is zero only where the other is.
pub proof fn lemma_cancel(a: int, b: int)
    requires
        invertible(a),
        fmul(a, b) == 0,
        reduced(b),
    ensures
        b == 0,
{
    broadcast use group_reduced;

    let i = finv(a);
    lemma_modulus();
    lemma_refl(a);
    lemma_refl(b);
    lemma_refl(i);
    lemma_refl(0);
    assert(cong(fmul(a, b), a * b) && cong(fmul(a, i), a * i)) by {
        broadcast use group_shadow;

    }
    // b = (a i) b = i (a b) = 0
    lemma_cong_mul(1, a * i, b, b);
    lemma_cong_mul(i, i, 0, a * b);
    assert((a * i) * b == i * (a * b)) by (nonlinear_arith);
    assert(i * 0 == 0) by (nonlinear_arith);
    lemma_cong_symm(0, i * (a * b));
    lemma_cong_trans(1 * b, (a * i) * b, 0);
    lemma_cong_eq(b, 0);
}

/// A polynomial that vanishes at all roots divides without remainder, where
/// each root differs invertibly from those before it.
pub proof fn lemma_chain_exact(p: Seq<int>, roots: Seq<int>, n: int)
    requires
        0 <= n <= roots.len(),
        forall|k: int| 0 <= k < n ==> feval(p, #[trigger] roots[k]) == 0,
        forall|k: int| 0 <= k < n ==> invertible(root_product(roots, #[trigger] roots[k], k)),
    ensures
        chain_exact(p, roots, n),
    decreases n,
{
    if n > 0 {
        lemma_chain_exact(p, roots, n - 1);
        let r = roots[n - 1];
        lemma_chain_product(p, roots, r, n - 1);
        assert(feval(p, roots[n - 1]) == 0);
        assert(invertible(root_product(roots, roots[n - 1], n - 1)));
        lemma_tail_reduced(quotient_chain(p, roots, n - 1), r, 0);
        lemma_cancel(
            root_product(roots, r, n - 1),
            feval(quotient_chain(p, roots, n - 1), r),
        );
    }
}

/// Whether the values of a claim are those of its polynomial.
pub open spec fn consistent(c: Claim) -> bool {
    &&& c.points.len() == c.values.len()
    &&& nodes_ok(c.points)
    &&& forall|k: int|
        0 <= k < c.points.len() ==> feval(c.poly, #[trigger] c.points[k]) == c.values[k]
}

/// Value at `x` of the numerator of the first `n` claims.
pub open spec fn numerator_value(
    claims: Seq<Claim>,
    union: Seq<int>,
    rho: int,
    x: int,
    n: int,
) -> int
    decreases n,
{
    if n <= 0 {
        0
    } else {
        let c = claims[n - 1];
        fadd(
            numerator_value(claims, union, rho, x, n - 1),
            fmul(
                fpow(rho, (n - 1) as nat),
                fmul(
                    outside_product(union, c.points, x),
                    fsub(feval(c.poly, x), feval(interp(c.points, c.values), x)),
                ),
            ),
        )
    }
}

pub proof fn lemma_numerator_value(claims: Seq<Claim>, union: Seq<int>, rho: int, x: int, n: int)
    requires
        0 <= n <= claims.len(),
    ensures
        feval(numerator(claims, union, rho, n), x) == numerator_value(claims, union, rho, x, n),
    decreases n,
{
    if n > 0 {
        lemma_numerator_value(claims, union, rho, x, n - 1);
        let c = claims[n - 1];
        let comp = complement_of(union, c.points, union.len() as int);
        let z = outside_poly(union, c.points);
        let d = p_sub(c.poly, interp(c.points, c.values));
        lemma_eval_add_scaled(
            numerator(claims, union, rho, n - 1),
            p_mul(z, d),
            fpow(rho, (n - 1) as nat),
            x,
        );
        lemma_eval_mul(z, d, x);
        lemma_eval_vanishing(comp, comp.len() as int, x);
        lemma_eval_sub(c.poly, interp(c.points, c.values), x);
    }
}

proof fn lemma_complement_contains(u: Seq<int>, points: Seq<int>, n: int, k: int)
    requires
        0 <= k < n <= u.len(),
        !points.contains(u[k]),
    ensures
        complement_of(u, points, n).contains(u[k]),
    decreases n,
{
    let c = complement_of(u, points, n - 1);
    if k == n - 1 {
        assert(c.push(u[k])[c.len() as int] == u[k]);
    } else {
        lemma_complement_contains(u, points, n - 1, k);
        let j = choose|j: int| 0 <= j < c.len() && c[j] == u[k];
        assert(complement_of(u, points, n)[j] == u[k]);
    }
}

/// The numerator of consistent claims vanishes on the union of their points.
pub proof fn lemma_numerator_vanishes(
    claims: Seq<Claim>,
    union: Seq<int>,
    rho: int,
    n: int,
    k: int,
)
    requires
        0 <= n <= claims.len(),
        0 <= k < union.len(),
        forall|t: int| 0 <= t < claims.len() ==> consistent(#[trigger] claims[t]) && all_reduced(
            claims[t].values,
        ),
    ensures
        numerator_value(claims, union, rho, union[k], n) == 0,
    decreases n,
{
    broadcast use group_reduced;

    lemma_modulus();
    if n > 0 {
        lemma_numerator_vanishes(claims, union, rho, n - 1, k);
        let c = claims[n - 1];
        let x = union[k];
        let o = outside_product(union, c.points, x);
        let pv = feval(c.poly, x);
        let iv = feval(interp(c.points, c.values), x);
        let w = fpow(rho, (n - 1) as nat);
        if c.points.contains(x) {
            let j = choose|j: int| 0 <= j < c.points.len() && c.points[j] == x;
            lemma_interp_eval(c.points, c.values, j);
            assert(feval(c.poly, c.points[j]) == c.values[j]);
            assert(pv == iv);
        } else {
            let comp = complement_of(union, c.points, union.len() as int);
            lemma_complement_contains(union, c.points, union.len() as int, k);
            let j = choose|j: int| 0 <= j < comp.len() && comp[j] == x;
            lemma_vanishing_vanishes(comp, comp.len() as int, j);
            assert(o == 0);
        }
        assert(o * (pv - iv) == 0) by (nonlinear_arith)
            requires
                o == 0 || pv == iv,
        ;
        assert(0 + w * (o * (pv - iv)) == 0) by (nonlinear_arith)
            requires
                o * (pv - iv) == 0,
        ;
        broadcast use group_shadow;

        lemma_refl(0);
        lemma_refl(w);
        lemma_refl(o);
        lemma_refl(pv);
        lemma_refl(iv);
        lemma_shadow_eq(
            fadd(0, fmul(w, fmul(o, fsub(pv, iv)))),
            0 + w * (o * (pv - iv)),
            0,
            0,
        );
    }
}

/// First round: consistent claims leave no remainder, so that the prover's
/// check cannot fail on them.
pub proof fn law_first_round_succeeds(claims: Seq<Claim>, rho: int)
    requires
        forall|t: int| 0 <= t < claims.len() ==> consistent(#[trigger] claims[t]) && all_reduced(
            claims[t].values,
        ),
        ({
            let u = union_of(claim_sets(claims), claims.len() as int);
            forall|k: int| 0 <= k < u.len() ==> invertible(root_product(u, #[trigger] u[k], k))
        }),
    ensures
        ({
            let u = union_of(claim_sets(claims), claims.len() as int);
            chain_exact(numerator(claims, u, rho, claims.len() as int), u, u.len() as int)
        }),
{
    let n = claims.len() as int;
    let u = union_of(claim_sets(claims), n);
    let m = numerator(claims, u, rho, n);
    assert forall|k: int| 0 <= k < u.len() implies feval(m, #[trigger] u[k]) == 0 by {
        lemma_numerator_value(claims, u, rho, u[k], n);
        lemma_numerator_vanishes(claims, u, rho, n, k);
    }
    lemma_chain_exact(m, u, u.len() as int);
}

/// The witness `W` of the first round satisfies `m = Z_T W`.
pub proof fn law_first_round_identity(claims: Seq<Claim>, rho: int, x: int)
    requires
        ({
            let u = union_of(claim_sets(claims), claims.len() as int);
            chain_exact(numerator(claims, u, rho, claims.len() as int), u, u.len() as int)
        }),
    ensures
        ({
            let u = union_of(claim_sets(claims), claims.len() as int);
            let m = numerator(claims, u, rho, claims.len() as int);
            feval(m, x) == fmul(
                feval(p_vanishing(u, u.len() as int), x),
                feval(quotient_chain(m, u, u.len() as int), x),
            )
        }),
{
    let u = union_of(claim_sets(claims), claims.len() as int);
    let m = numerator(claims, u, rho, claims.len() as int);
    lemma_chain_product(m, u, x, u.len() as int);
    lemma_eval_vanishing(u, u.len() as int, x);
}

/// The interpolants of a sequence of claims.
pub open spec fn interpolants_of(claims: Seq<Claim>) -> Seq<Seq<int>> {
    Seq::new(claims.len(), |t: int| interp(claims[t].points, claims[t].values))
}

/// The first witness `W` of a batch of claims.
pub open spec fn batch_quotient(claims: Seq<Claim>, rho: int) -> Seq<int> {
    let n = claims.len() as int;
    let u = union_of(claim_sets(claims), n);
    quotient_chain(numerator(claims, u, rho, n), u, u.len() as int)
}

/// The second witness `W'` of a batch of claims.
pub open spec fn batch_opening(claims: Seq<Claim>, rho: int, z: int) -> Seq<int> {
    let n = claims.len() as int;
    let u = union_of(claim_sets(claims), n);
    linq(l_poly(claims, u, interpolants_of(claims), batch_quotient(claims, rho), rho, z), z)
}

/// The values of a sequence of claims.
pub open spec fn claim_values(claims: Seq<Claim>) -> Seq<Seq<int>> {
    Seq::new(claims.len(), |t: int| claims[t].values)
}

/// Sum of the first `n` commitments under the verifier's scalars, for
/// commitments that evaluate the polynomials at `x`.
pub open spec fn combined_commitments(
    claims: Seq<Claim>,
    union: Seq<int>,
    rho: int,
    z: int,
    x: int,
    n: int,
) -> int
    decreases n,
{
    if n <= 0 {
        0
    } else {
        fadd(
            combined_commitments(claims, union, rho, z, x, n - 1),
            fmul(
                commit_scalar(claim_sets(claims), union, rho, z, n - 1),
                feval(claims[n - 1].poly, x),
            ),
        )
    }
}

proof fn lemma_combined_value(claims: Seq<Claim>, union: Seq<int>, rho: int, z: int, x: int, n: int)
    requires
        0 <= n <= claims.len(),
    ensures
        feval(combined_at(claims, union, interpolants_of(claims), rho, z, n), x) == fsub(
            combined_commitments(claims, union, rho, z, x, n),
            const_term(claim_sets(claims), claim_values(claims), union, rho, z, n),
        ),
    decreases n,
{
    broadcast use group_reduced;

    let its = interpolants_of(claims);
    lemma_modulus();
    if n == 0 {
        assert(feval(Seq::<int>::empty(), x) == 0);
        broadcast use group_shadow;

        lemma_refl(0);
        lemma_shadow_eq(0, 0, fsub(0, 0), 0 - 0);
    } else {
        lemma_combined_value(claims, union, rho, z, x, n - 1);
        let c = claims[n - 1];
        let w = fmul(fpow(rho, (n - 1) as nat), feval(outside_poly(union, c.points), z));
        assert(w == commit_scalar(claim_sets(claims), union, rho, z, n - 1));
        let prev = combined_at(claims, union, its, rho, z, n - 1);
        let ez = feval(its[n - 1], z);
        lemma_eval_add_scaled(prev, c.poly, w, x);
        lemma_eval_sub_const(p_add_scaled(prev, c.poly, w), fmul(w, ez), x);
        let a = combined_commitments(claims, union, rho, z, x, n - 1);
        let b = const_term(claim_sets(claims), claim_values(claims), union, rho, z, n - 1);
        let pv = feval(c.poly, x);
        broadcast use group_shadow;

        lemma_refl(a);
        lemma_refl(b);
        lemma_refl(w);
        lemma_refl(pv);
        lemma_refl(ez);
        lemma_shadow_eq(
            fsub(fadd(fsub(a, b), fmul(w, pv)), fmul(w, ez)),
            ((a - b) + w * pv) - w * ez,
            fsub(fadd(a, fmul(w, pv)), fadd(b, fmul(w, ez))),
            (a + w * pv) - (b + w * ez),
        );
    }
}

/// At `x = z` the combination is the numerator's value.
proof fn lemma_combined_at_z(claims: Seq<Claim>, union: Seq<int>, rho: int, z: int, n: int)
    requires
        0 <= n <= claims.len(),
    ensures
        fsub(
            combined_commitments(claims, union, rho, z, z, n),
            const_term(claim_sets(claims), claim_values(claims), union, rho, z, n),
        ) == numerator_value(claims, union, rho, z, n),
    decreases n,
{
    broadcast use group_reduced;

    lemma_modulus();
    if n == 0 {
        broadcast use group_shadow;

        lemma_refl(0);
        lemma_shadow_eq(0, 0, fsub(0, 0), 0 - 0);
    } else {
        lemma_combined_at_z(claims, union, rho, z, n - 1);
        let c = claims[n - 1];
        let comp = complement_of(union, c.points, union.len() as int);
        lemma_eval_vanishing(comp, comp.len() as int, z);
        let o = outside_product(union, c.points, z);
        let rp = fpow(rho, (n - 1) as nat);
        let a = combined_commitments(claims, union, rho, z, z, n - 1);
        let b = const_term(claim_sets(claims), claim_values(claims), union, rho, z, n - 1);
        let v = numerator_value(claims, union, rho, z, n - 1);
        let pv = feval(c.poly, z);
        let iv = feval(interp(c.points, c.values), z);
        assert(commit_scalar(claim_sets(claims), union, rho, z, n - 1) == fmul(rp, o));
        broadcast use group_shadow;

        lemma_refl(a);
        lemma_refl(b);
        lemma_refl(rp);
        lemma_refl(o);
        lemma_refl(pv);
        lemma_refl(iv);
        assert(cong(v, a - b));
        assert((a + (rp * o) * pv) - (b + (rp * o) * iv) == (a - b) + rp * (o * (pv - iv)))
            by (nonlinear_arith);
        lemma_shadow_eq(
            fsub(fadd(a, fmul(fmul(rp, o), pv)), fadd(b, fmul(fmul(rp, o), iv))),
            (a + (rp * o) * pv) - (b + (rp * o) * iv),
            fadd(v, fmul(rp, fmul(o, fsub(pv, iv)))),
            (a - b) + rp * (o * (pv - iv)),
        );
    }
}

/// Value of `L` at a point.
proof fn lemma_l_value(claims: Seq<Claim>, rho: int, z: int, x: int)
    ensures
        ({
            let n = claims.len() as int;
            let u = union_of(claim_sets(claims), n);
            let w = quotient_chain(numerator(claims, u, rho, n), u, u.len() as int);
            feval(l_poly(claims, u, interpolants_of(claims), w, rho, z), x) == fadd(
                fsub(
                    combined_commitments(claims, u, rho, z, x, n),
                    const_term(claim_sets(claims), claim_values(claims), u, rho, z, n),
                ),
                fmul(fneg(feval(p_vanishing(u, u.len() as int), z)), feval(w, x)),
            )
        }),
{
    let n = claims.len() as int;
    let u = union_of(claim_sets(claims), n);
    let w = quotient_chain(numerator(claims, u, rho, n), u, u.len() as int);
    let its = interpolants_of(claims);
    lemma_combined_value(claims, u, rho, z, x, n);
    lemma_eval_add_scaled(
        combined_at(claims, u, its, rho, z, n),
        w,
        fneg(feval(p_vanishing(u, u.len() as int), z)),
        x,
    );
}

/// Second round: after an exact first round, `L` vanishes at `z`, so that the
/// prover's second check cannot fail.
pub proof fn law_second_round_succeeds(claims: Seq<Claim>, rho: int, z: int)
    requires
        ({
            let u = union_of(claim_sets(claims), claims.len() as int);
            chain_exact(numerator(claims, u, rho, claims.len() as int), u, u.len() as int)
        }),
    ensures
        ({
            let n = claims.len() as int;
            let u = union_of(claim_sets(claims), n);
            let w = quotient_chain(numerator(claims, u, rho, n), u, u.len() as int);
            feval(l_poly(claims, u, interpolants_of(claims), w, rho, z), z) == 0
        }),
{
    broadcast use group_reduced;

    let n = claims.len() as int;
    let u = union_of(claim_sets(claims), n);
    let m = numerator(claims, u, rho, n);
    let w = quotient_chain(m, u, u.len() as int);
    lemma_l_value(claims, rho, z, z);
    lemma_combined_at_z(claims, u, rho, z, n);
    lemma_numerator_value(claims, u, rho, z, n);
    law_first_round_identity(claims, rho, z);
    let a = feval(p_vanishing(u, u.len() as int), z);
    let b = feval(w, z);
    lemma_modulus();
    broadcast use group_shadow;

    lemma_refl(a);
    lemma_refl(b);
    lemma_refl(0);
    assert(a * b + (-a) * b == 0) by (nonlinear_arith);
    lemma_shadow_eq(fadd(fmul(a, b), fmul(fneg(a), b)), a * b + (-a) * b, 0, 0);
}

/// The verifier's equation: with commitments that evaluate at `tau`, the
/// reconstructed `C_s + z W'` is `tau W'`.
pub proof fn law_verifier_equation(claims: Seq<Claim>, rho: int, z: int, tau: int)
    requires
        ({
            let u = union_of(claim_sets(claims), claims.len() as int);
            chain_exact(numerator(claims, u, rho, claims.len() as int), u, u.len() as int)
        }),
    ensures
        ({
            let n = claims.len() as int;
            let u = union_of(claim_sets(claims), n);
            let w = quotient_chain(numerator(claims, u, rho, n), u, u.len() as int);
            let wp = linq(l_poly(claims, u, interpolants_of(claims), w, rho, z), z);
            fadd(
                fadd(
                    fsub(
                        combined_commitments(claims, u, rho, z, tau, n),
                        const_term(claim_sets(claims), claim_values(claims), u, rho, z, n),
                    ),
                    fmul(fneg(feval(p_vanishing(u, u.len() as int), z)), feval(w, tau)),
                ),
                fmul(z, feval(wp, tau)),
            ) == fmul(tau, feval(wp, tau))
        }),
{
    broadcast use group_reduced;

    let n = claims.len() as int;
    let u = union_of(claim_sets(claims), n);
    let w = quotient_chain(numerator(claims, u, rho, n), u, u.len() as int);
    let l = l_poly(claims, u, interpolants_of(claims), w, rho, z);
    let wp = linq(l, z);
    lemma_l_value(claims, rho, z, tau);
    law_second_round_succeeds(claims, rho, z);
    let lv = feval(l, tau);
    let v = feval(wp, tau);
    lemma_modulus();
    assert(lv == fadd(fmul(v, fsub(tau, z)), 0)) by {
        if l.len() > 0 {
            lemma_linear_division(l, z, tau);
        } else {
            assert(lv == 0 && v == 0);
            broadcast use group_shadow;

            lemma_refl(0);
            lemma_refl(tau);
            lemma_refl(z);
            assert(0 * (tau - z) + 0 == 0) by (nonlinear_arith);
            lemma_shadow_eq(fadd(fmul(0, fsub(tau, z)), 0), 0 * (tau - z) + 0, 0, 0);
        }
    }
    broadcast use group_shadow;

    lemma_refl(v);
    lemma_refl(tau);
    lemma_refl(z);
    lemma_refl(0);
    assert((v * (tau - z) + 0) + z * v == tau * v) by (nonlinear_arith);
    lemma_shadow_eq(
        fadd(lv, fmul(z, v)),
        (v * (tau - z) + 0) + z * v,
        fmul(tau, v),
        tau * v,
    );
}

/// `sum_t s_t p_t(x)` over the first `n` claims.
pub open spec fn scaled_values(scalars: Seq<int>, claims: Seq<Claim>, x: int, n: int) -> int
    decreases n,
{
    if n <= 0 {
        0
    } else {
        fadd(
            scaled_values(scalars, claims, x, n - 1),
            fmul(scalars[n - 1], feval(claims[n - 1].poly, x)),
        )
    }
}

proof fn lemma_scaled_values(
    scalars: Seq<int>,
    claims: Seq<Claim>,
    rho: int,
    z: int,
    x: int,
    n: int,
)
    requires
        0 <= n <= claims.len() == scalars.len(),
        ({
            let u = union_of(claim_sets(claims), claims.len() as int);
            forall|t: int|
                0 <= t < claims.len() ==> #[trigger] scalars[t] == commit_scalar(
                    claim_sets(claims),
                    u,
                    rho,
                    z,
                    t,
                )
        }),
    ensures
        scaled_values(scalars, claims, x, n) == combined_commitments(
            claims,
            union_of(claim_sets(claims), claims.len() as int),
            rho,
            z,
            x,
            n,
        ),
    decreases n,
{
    if n > 0 {
        lemma_scaled_values(scalars, claims, rho, z, x, n - 1);
    }
}

/// What the two rounds and the verifier's combination come to together: where
/// both rounds succeeded, the combination of the same points and values succeeds,
/// with one scalar per claim, and the witnesses `W` and `W'` satisfy
/// `sum_t s_t p_t(x) - c - Z_T(z) W(x) == (x - z) W'(x)` at every `x`.
pub proof fn law_rounds_meet_combination(
    claims: Seq<Claim>,
    rho: int,
    z: int,
    first: BdfgFirstRound,
    second: BdfgSecondRound,
    r: Result<BdfgVerifierCombination, PCSError>,
    x: int,
)
    requires
        is_first_round(claims, rho, Ok(first)),
        is_second_round(claims, &first, rho, z, Ok(second)),
        is_combination(claim_sets(claims), claim_values(claims), rho, z, r),
    ensures
        r is Ok,
        r->Ok_0.commit_scalars@.len() == claims.len(),
        fsub(
            fsub(
                scaled_values(
                    vals(r->Ok_0.commit_scalars@),
                    claims,
                    x,
                    claims.len() as int,
                ),
                r->Ok_0.const_scalar@,
            ),
            fmul(r->Ok_0.z_t_z@, feval(vals(first.quot_m@), x)),
        ) == fmul(fsub(x, z), feval(vals(second.quot_l@), x)),
{
    broadcast use group_reduced;

    let n = claims.len() as int;
    let sets = claim_sets(claims);
    let values = claim_values(claims);
    assert forall|t: int| 0 <= t < sets.len() implies (#[trigger] sets[t]).len()
        == values[t].len() && sets[t].len() > 0 by {
        assert(claims[t].points.len() == claims[t].values.len());
    }
    let v = r->Ok_0;
    assert(poly_views(first.interpolants@) =~= interpolants_of(claims));
    lemma_scaled_values(vals(v.commit_scalars@), claims, rho, z, x, n);
    lemma_l_value(claims, rho, z, x);
    law_second_round_succeeds(claims, rho, z);
    let l = vals(second.l@);
    let lv = feval(l, x);
    let s = scaled_values(vals(v.commit_scalars@), claims, x, n);
    let c = v.const_scalar@;
    let a = v.z_t_z@;
    let w = feval(vals(first.quot_m@), x);
    let y = feval(vals(second.quot_l@), x);
    lemma_modulus();
    assert(lv == fadd(fmul(y, fsub(x, z)), 0)) by {
        if l.len() > 0 {
            lemma_linear_division(l, z, x);
        } else {
            assert(lv == 0 && y == 0);
            broadcast use group_shadow;

            lemma_refl(0);
            lemma_refl(x);
            lemma_refl(z);
            assert(0 * (x - z) + 0 == 0) by (nonlinear_arith);
            lemma_shadow_eq(fadd(fmul(0, fsub(x, z)), 0), 0 * (x - z) + 0, 0, 0);
        }
    }
    broadcast use group_shadow;

    lemma_refl(s);
    lemma_refl(c);
    lemma_refl(a);
    lemma_refl(w);
    lemma_refl(y);
    lemma_refl(x);
    lemma_refl(z);
    lemma_refl(0);
    assert((s - c) - a * w == (s - c) + (-a) * w) by (nonlinear_arith);
    lemma_shadow_eq(
        fsub(fsub(s, c), fmul(a, w)),
        (s - c) - a * w,
        fadd(fsub(s, c), fmul(fneg(a), w)),
        (s - c) + (-a) * w,
    );
    assert(y * (x - z) + 0 == (x - z) * y) by (nonlinear_arith);
    lemma_shadow_eq(
        fadd(fmul(y, fsub(x, z)), 0),
        y * (x - z) + 0,
        fmul(fsub(x, z), y),
        (x - z) * y,
    );
}

/// The union keeps what it holds and gains every point of the set.
proof fn lemma_union_into_contains(u: Seq<int>, set: Seq<int>, n: int, y: int)
    requires
        0 <= n <= set.len(),
        u.contains(y) || set.take(n).contains(y),
    ensures
        union_into(u, set, n).contains(y),
    decreases n,
{
    if n > 0 {
        let v = union_into(u, set, n - 1);
        let r = union_into(u, set, n);
        if y == set[n - 1] {
            if !v.contains(y) {
                assert(v.push(y)[v.len() as int] == y);
            }
        } else {
            assert(u.contains(y) || set.take(n - 1).contains(y)) by {
                if !u.contains(y) {
                    let j = choose|j: int| 0 <= j < set.take(n).len() && set.take(n)[j] == y;
                    assert(set.take(n - 1)[j] == y);
                }
            }
            lemma_union_into_contains(u, set, n - 1, y);
            let j = choose|j: int| 0 <= j < v.len() && v[j] == y;
            assert(r[j] == y);
        }
    } else {
        assert(set.take(0) =~= Seq::<int>::empty());
    }
}

/// Every point of a set is in the union.
pub proof fn law_union_contains(sets: Seq<Seq<int>>, n: int, t: int, y: int)
    requires
        0 <= t < n <= sets.len(),
        sets[t].contains(y),
    ensures
        union_of(sets, n).contains(y),
    decreases n,
{
    let s = sets[n - 1];
    assert(s.take(s.len() as int) =~= s);
    if t < n - 1 {
        law_union_contains(sets, n - 1, t, y);
    }
    lemma_union_into_contains(union_of(sets, n - 1), s, s.len() as int, y);
}

proof fn lemma_union_into_distinct(u: Seq<int>, set: Seq<int>, n: int)
    requires
        0 <= n <= set.len(),
        crate::poly::distinct(u),
    ensures
        crate::poly::distinct(union_into(u, set, n)),
    decreases n,
{
    if n > 0 {
        lemma_union_into_distinct(u, set, n - 1);
        let v = union_into(u, set, n - 1);
        if !v.contains(set[n - 1]) {
            let r = v.push(set[n - 1]);
            assert forall|i: int, j: int| 0 <= i < j < r.len() implies #[trigger] r[i] != #[trigger] r[j] by {
                if j == v.len() {
                    assert(v[i] != set[n - 1]);
                }
            }
        }
    }
}

/// No point occurs twice in a union.
pub proof fn law_union_distinct(sets: Seq<Seq<int>>, n: int)
    requires
        0 <= n <= sets.len(),
    ensures
        crate::poly::distinct(union_of(sets, n)),
    decreases n,
{
    if n > 0 {
        law_union_distinct(sets, n - 1);
        lemma_union_into_distinct(union_of(sets, n - 1), sets[n - 1], sets[n - 1].len() as int);
    }
}

/// A factor of an invertible element is invertible.
pub proof fn lemma_invertible_factor(a: int, b: int)
    requires
        invertible(fmul(a, b)),
    ensures
        invertible(a),
{
    broadcast use group_reduced;

    let c = finv(fmul(a, b));
    let d = fmul(b, c);
    lemma_refl(a);
    lemma_refl(b);
    lemma_refl(c);
    assert(a * (b * c) == (a * b) * c) by (nonlinear_arith);
    lemma_shadow_factor(a, b, c);
    assert(is_inverse(a, d));
    lemma_inverse_unique(a, d);
}

proof fn lemma_shadow_factor(a: int, b: int, c: int)
    ensures
        fmul(a, fmul(b, c)) == fmul(fmul(a, b), c),
{
    broadcast use group_reduced;

    lemma_refl(a);
    lemma_refl(b);
    lemma_refl(c);
    assert(a * (b * c) == (a * b) * c) by (nonlinear_arith);
    broadcast use group_shadow;

    lemma_shadow_eq(fmul(a, fmul(b, c)), a * (b * c), fmul(fmul(a, b), c), (a * b) * c);
}

proof fn lemma_den_prefix(xs: Seq<int>, i: int, n: int)
    requires
        0 <= i < n,
        invertible(basis_den(xs, i, n)),
    ensures
        invertible(basis_den(xs, i, i)),
    decreases n,
{
    if n - 1 > i {
        lemma_invertible_factor(basis_den(xs, i, n - 1), fsub(xs[i], xs[n - 1]));
        lemma_den_prefix(xs, i, n - 1);
    }
}

proof fn lemma_den_is_product(xs: Seq<int>, i: int, n: int)
    requires
        0 <= n <= i,
    ensures
        basis_den(xs, i, n) == root_product(xs, xs[i], n),
    decreases n,
{
    if n > 0 {
        lemma_den_is_product(xs, i, n - 1);
    }
}

/// Nodes that can be interpolated differ invertibly from those before them.
pub proof fn lemma_nodes_prefix(xs: Seq<int>, k: int)
    requires
        nodes_ok(xs),
        0 <= k < xs.len(),
    ensures
        invertible(root_product(xs, xs[k], k)),
{
    lemma_den_prefix(xs, k, xs.len() as int);
    lemma_den_is_product(xs, k, k);
}

/// The product of `x - xs[i]` over the first `n` entries, as an integer.
pub open spec fn int_roots(xs: Seq<int>, x: int, n: int) -> int
    decreases n,
{
    if n <= 0 {
        1
    } else {
        int_roots(xs, x, n - 1) * (x - xs[n - 1])
    }
}

/// A product of differences names the same element as that of integers.
pub proof fn lemma_roots_shadow(xs: Seq<int>, x: int, n: int)
    ensures
        cong(root_product(xs, x, n), int_roots(xs, x, n)),
    decreases n,
{
    if n <= 0 {
        lemma_refl(1);
    } else {
        lemma_roots_shadow(xs, x, n - 1);
        lemma_refl(x);
        lemma_refl(xs[n - 1]);
        broadcast use group_shadow;

        assert(cong(fsub(x, xs[n - 1]), x - xs[n - 1]));
    }
}

/// The value of the vanishing polynomial of what a set leaves of the union.
pub proof fn lemma_outside_shadow(union: Seq<int>, points: Seq<int>, comp: Seq<int>, x: int)
    requires
        complement_of(union, points, union.len() as int) == comp,
    ensures
        cong(feval(outside_poly(union, points), x), int_roots(comp, x, comp.len() as int)),
{
    lemma_eval_vanishing(comp, comp.len() as int, x);
    lemma_roots_shadow(comp, x, comp.len() as int);
}

/// What the subsets of three points leave of them.
pub proof fn lemma_complements(a: int, b: int, c: int)
    requires
        a != b,
        a != c,
        b != c,
    ensures
        complement_of(seq![a, b, c], seq![a, b, c], 3) == Seq::<int>::empty(),
        complement_of(seq![a, b, c], seq![a, b], 3) == seq![c],
        complement_of(seq![a, b, c], seq![b, c], 3) == seq![a],
        complement_of(seq![a, b, c], seq![a], 3) == seq![b, c],
{
    let u = seq![a, b, c];
    reveal_with_fuel(complement_of, 4);
    assert(u.contains(u[0]) && u.contains(u[1]) && u.contains(u[2]));
    let v = seq![a, b];
    assert(v.contains(v[0]) && v.contains(v[1]) && !v.contains(c));
    let w = seq![b, c];
    assert(w.contains(w[0]) && w.contains(w[1]) && !w.contains(a));
    let x = seq![a];
    assert(x.contains(x[0]) && !x.contains(b) && !x.contains(c));
    assert(complement_of(u, u, 3) =~= Seq::<int>::empty());
    assert(complement_of(u, v, 3) =~= seq![c]);
    assert(complement_of(u, w, 3) =~= seq![a]);
    assert(complement_of(u, x, 3) =~= seq![b, c]);
}

/// Whether a polynomial is the one of least degree that takes the values at the
/// points.
pub open spec fn interpolates(r: Seq<int>, xs: Seq<int>, ys: Seq<int>) -> bool {
    &&& r.len() == xs.len()
    &&& forall|k: int| 0 <= k < xs.len() ==> feval(r, #[trigger] xs[k]) == ys[k]
}

/// The interpolant of a claim interpolates.
pub proof fn lemma_interpolates(xs: Seq<int>, ys: Seq<int>)
    requires
        xs.len() == ys.len(),
        nodes_ok(xs),
        all_reduced(ys),
    ensures
        interpolates(interp(xs, ys), xs, ys),
{
    assert forall|k: int| 0 <= k < xs.len() implies feval(interp(xs, ys), #[trigger] xs[k])
        == ys[k] by {
        lemma_interp_eval(xs, ys, k);
    }
}

} // verus!
