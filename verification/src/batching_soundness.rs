//! What the weights of a batch are: products of the challenges and their
//! complements, one factor for each bit of a claim's position, so that the claimed
//! sum tells any two lists of values apart.

use crate::batching::{
    aggregate_scalars, batch_ok, batched, claims_ok, distinct_points, is_batch, is_plan, merged,
    tables, weighted_sum, with_claims, with_draws, with_evals, with_points, BatchPlan,
};
use crate::batching_laws::{
    is_batch_of, law_aggregated_commitment, law_eq_pair, law_plan_aggregates, law_sumcheck_claim,
    lemma_dot_swap, sumcheck_sum,
};
use crate::bdfg::poly_views;
use crate::field::{
    cong, fmul, fsub, group_shadow, lemma_modulus, lemma_refl, lemma_shadow_eq, modulus, reduced,
    vals, Scalar,
};
use crate::group::G1;
use crate::poly::{dot, int_dot, lemma_dot_shadow};
use crate::tensor::{
    eq_at, eq_vec, lemma_eq_at_reduced, lemma_p2_step, lemma_p2_zero, mle_eval, p2, Mle,
};
use crate::transcript::Entry;
use vstd::prelude::*;

verus! {

/// Bit `k` of `i`.
pub open spec fn bit(i: int, k: int) -> int {
    (i / p2(k)) % 2
}

/// The product over the first `n` bits `k` of `i` of `t_k` where the bit is set and
/// `1 - t_k` where it is not.
pub open spec fn bit_product(t: Seq<int>, i: int, n: int) -> int
    decreases n,
{
    if n <= 0 {
        1
    } else {
        bit_product(t, i, n - 1) * (if bit(i, n - 1) == 1 {
            t[n - 1]
        } else {
            1 - t[n - 1]
        })
    }
}

/// Whether `w` holds a product for each position that the challenges `t` tell apart.
pub open spec fn weighs(w: Seq<int>, t: Seq<int>) -> bool {
    &&& w.len() == p2(t.len() as int)
    &&& forall|i: int|
        0 <= i < w.len() ==> reduced(#[trigger] w[i]) && cong(
            w[i],
            bit_product(t, i, t.len() as int),
        )
}

/// Whether the history `end` goes on from `start` with the points, the values and the
/// challenges of a batch, in this order.
pub open spec fn is_batch_history(
    start: Seq<Entry>,
    end: Seq<Entry>,
    pts: Seq<Seq<int>>,
    ys: Seq<int>,
    t: Seq<int>,
) -> bool {
    end == start + Seq::new(pts.len(), |i: int| Entry::Fields("eval_point"@, pts[i])) + Seq::new(
        ys.len(),
        |i: int| Entry::Field("eval"@, ys[i]),
    ) + Seq::new(t.len(), |i: int| Entry::Challenge("t"@, t[i]))
}

proof fn lemma_low_bits(i: int, n: int, m: int)
    requires
        0 <= m < n,
        0 <= i,
    ensures
        bit(i + p2(n), m) == bit(i, m),
{
    vstd::arithmetic::power2::lemma_pow2_pos(m as nat);
    vstd::arithmetic::power2::lemma_pow2_adds(m as nat, (n - m) as nat);
    lemma_p2_step(n - m);
    let d = p2(m);
    let q = p2(n - m);
    assert(i + p2(n) == d * q + i);
    vstd::arithmetic::div_mod::lemma_div_multiples_vanish_fancy(q, 0, d);
    assert((d * q + i) / d == q + i / d) by {
        vstd::arithmetic::div_mod::lemma_hoist_over_denominator(i, q, d as nat);
        assert(d * q + i == i + q * d) by (nonlinear_arith);
    }
    assert((q + i / d) % 2 == (i / d) % 2);
}

proof fn lemma_low_product(t: Seq<int>, i: int, n: int, m: int)
    requires
        m <= n,
        0 <= i,
    ensures
        bit_product(t, i + p2(n), m) == bit_product(t, i, m),
    decreases m,
{
    if m > 0 {
        lemma_low_product(t, i, n, m - 1);
        lemma_low_bits(i, n, m - 1);
    }
}

/// The entries of the eq vector are the products over the bits of their positions.
pub proof fn law_eq_entries(t: Seq<int>, i: int, n: int)
    requires
        0 <= n <= t.len(),
        0 <= i < p2(n),
    ensures
        cong(eq_at(t, i, n), bit_product(t, i, n)),
    decreases n,
{
    if n == 0 {
        lemma_refl(1);
    } else {
        lemma_p2_step(n);
        let h = p2(n - 1);
        let u = t[n - 1];
        if i < h {
            law_eq_entries(t, i, n - 1);
            assert(i / h == 0) by (nonlinear_arith)
                requires
                    0 <= i < h,
            ;
            assert(bit(i, n - 1) == 0);
            assert(cong(
                fmul(eq_at(t, i, n - 1), fsub(1, u)),
                bit_product(t, i, n - 1) * (1 - u),
            )) by {
                lemma_refl(1);
                lemma_refl(u);
                broadcast use group_shadow;

            }
        } else {
            law_eq_entries(t, i - h, n - 1);
            lemma_low_product(t, i - h, n - 1, n - 1);
            assert(i / h == 1) by (nonlinear_arith)
                requires
                    h <= i < 2 * h,
            ;
            assert(bit(i, n - 1) == 1);
            assert(cong(fmul(eq_at(t, i - h, n - 1), u), bit_product(t, i - h, n - 1) * u)) by {
                lemma_refl(u);
                broadcast use group_shadow;

            }
        }
    }
}

proof fn lemma_points(log: Seq<Entry>, pts: Seq<Seq<int>>, n: int)
    requires
        0 <= n <= pts.len(),
    ensures
        with_points(log, pts, n) == log + Seq::new(
            n as nat,
            |i: int| Entry::Fields("eval_point"@, pts[i]),
        ),
    decreases n,
{
    if n > 0 {
        lemma_points(log, pts, n - 1);
    }
    assert(with_points(log, pts, n) =~= log + Seq::new(
        n as nat,
        |i: int| Entry::Fields("eval_point"@, pts[i]),
    ));
}

proof fn lemma_evals(log: Seq<Entry>, ys: Seq<int>, n: int)
    requires
        0 <= n <= ys.len(),
    ensures
        with_evals(log, ys, n) == log + Seq::new(n as nat, |i: int| Entry::Field("eval"@, ys[i])),
    decreases n,
{
    if n > 0 {
        lemma_evals(log, ys, n - 1);
    }
    assert(with_evals(log, ys, n) =~= log + Seq::new(
        n as nat,
        |i: int| Entry::Field("eval"@, ys[i]),
    ));
}

proof fn lemma_draws(log: Seq<Entry>, t: Seq<int>, n: int)
    requires
        0 <= n <= t.len(),
    ensures
        with_draws(log, t, n) == log + Seq::new(n as nat, |i: int| Entry::Challenge("t"@, t[i])),
    decreases n,
{
    if n > 0 {
        lemma_draws(log, t, n - 1);
    }
    assert(with_draws(log, t, n) =~= log + Seq::new(
        n as nat,
        |i: int| Entry::Challenge("t"@, t[i]),
    ));
}

/// The weight of each claim of a batch is the product over the bits of its position of
/// the challenge of the bit or its complement to one. The challenges are as few as tell
/// the claims apart, and stand in the history behind the points and the values.
pub proof fn law_batch_weights(
    start: Seq<Entry>,
    end: Seq<Entry>,
    pts: Seq<Seq<int>>,
    ys: Seq<int>,
    w: Seq<int>,
)
    requires
        batched(start, end, pts, ys, w),
    ensures
        exists|t: Seq<int>| #[trigger]
            weighs(w, t) && is_batch_history(start, end, pts, ys, t) && pts.len() <= p2(
                t.len() as int,
            ) && (t.len() > 0 ==> p2(t.len() - 1) < pts.len()),
{
    let t = choose|t: Seq<int>| #[trigger] is_batch(start, end, pts, ys, w, t);
    assert(is_batch(start, end, pts, ys, w, t));
    let n = t.len() as int;
    assert forall|i: int| 0 <= i < w.len() implies reduced(#[trigger] w[i]) && cong(
        w[i],
        bit_product(t, i, n),
    ) by {
        lemma_eq_at_reduced(t, i, n);
        law_eq_entries(t, i, n);
    }
    lemma_points(start, pts, pts.len() as int);
    lemma_evals(with_points(start, pts, pts.len() as int), ys, ys.len() as int);
    lemma_draws(with_claims(start, pts, ys), t, n);
    assert(weighs(w, t));
}

/// The claimed sum of a batch is the sum of the values, each times its weight.
pub proof fn law_claimed_sum(
    start: Seq<Entry>,
    end: Seq<Entry>,
    pts: Seq<Seq<int>>,
    ys: Seq<int>,
    w: Seq<int>,
    sum: int,
)
    requires
        ys.len() <= pts.len(),
        batched(start, end, pts, ys, w),
        sum == weighted_sum(w, ys, ys.len() as int),
    ensures
        exists|t: Seq<int>| #[trigger]
            is_batch_history(start, end, pts, ys, t) && pts.len() <= p2(t.len() as int) && cong(
                sum,
                int_dot(
                    Seq::new(ys.len(), |i: int| bit_product(t, i, t.len() as int)),
                    ys,
                    ys.len() as int,
                ),
            ),
{
    law_batch_weights(start, end, pts, ys, w);
    let t = choose|t: Seq<int>| #[trigger]
        weighs(w, t) && is_batch_history(start, end, pts, ys, t) && pts.len() <= p2(
            t.len() as int,
        ) && (t.len() > 0 ==> p2(t.len() - 1) < pts.len());
    assert(weighs(w, t) && is_batch_history(start, end, pts, ys, t));
    let x = Seq::new(ys.len(), |i: int| bit_product(t, i, t.len() as int));
    assert forall|i: int| 0 <= i < ys.len() implies cong(#[trigger] w[i], x[i]) by {}
    assert forall|i: int| 0 <= i < ys.len() implies cong(#[trigger] ys[i], ys[i]) by {
        lemma_refl(ys[i]);
    }
    lemma_dot_shadow(w, x, ys, ys, ys.len() as int);
}

/// The point whose coordinates are the bits of `i`.
pub open spec fn bits_of(i: int, n: int) -> Seq<int> {
    Seq::new(n as nat, |k: int| bit(i, k))
}

proof fn lemma_product_at_bits(i: int, j: int, n: int, m: int)
    requires
        0 <= m <= n,
        0 <= i,
        0 <= j,
    ensures
        bit_product(bits_of(i, n), j, m) == if i % p2(m) == j % p2(m) {
            1int
        } else {
            0
        },
    decreases m,
{
    if m == 0 {
        lemma_p2_zero();
    } else {
        lemma_product_at_bits(i, j, n, m - 1);
        lemma_p2_step(m);
        let h = p2(m - 1);
        vstd::arithmetic::div_mod::lemma_mod_breakdown(i, h, 2);
        vstd::arithmetic::div_mod::lemma_mod_breakdown(j, h, 2);
        assert(h * 2 == p2(m));
        let (a, b) = (bit(i, m - 1), bit(j, m - 1));
        assert(0 <= a < 2 && 0 <= b < 2);
        assert(0 <= i % h < h && 0 <= j % h < h) by (nonlinear_arith)
            requires
                h >= 1,
        ;
        assert(i % p2(m) == h * a + i % h);
        assert(j % p2(m) == h * b + j % h);
        let f = if b == 1 {
            a
        } else {
            1 - a
        };
        assert(bits_of(i, n)[m - 1] == a);
        let p = bit_product(bits_of(i, n), j, m - 1);
        assert(f == if a == b {
            1int
        } else {
            0
        });
        assert(p * 1 == p && p * 0 == 0);
        assert(h * 0 == 0 && h * 1 == h);
    }
}

proof fn lemma_dot_indicator(w: Seq<int>, ys: Seq<int>, i: int, m: int)
    requires
        0 <= m,
        forall|j: int|
            0 <= j < m ==> #[trigger] w[j] == (if i == j {
                1int
            } else {
                0
            }),
        forall|j: int| 0 <= j < m ==> reduced(#[trigger] ys[j]),
    ensures
        dot(w, ys, m) == (if 0 <= i < m {
            ys[i]
        } else {
            0
        }),
    decreases m,
{
    if m > 0 {
        lemma_dot_indicator(w, ys, i, m - 1);
        lemma_modulus();
        let y = ys[m - 1];
        assert(w[m - 1] * y == if i == m - 1 {
            y
        } else {
            0
        });
        vstd::arithmetic::div_mod::lemma_small_mod(y as nat, modulus() as nat);
        vstd::arithmetic::div_mod::lemma_small_mod(0, modulus() as nat);
        let s = dot(w, ys, m - 1);
        assert(reduced(s));
        vstd::arithmetic::div_mod::lemma_small_mod(s as nat, modulus() as nat);
    }
}

/// Where the challenges are the bits of a position, the claimed sum is the value
/// claimed there.
pub proof fn law_sum_at_bits(w: Seq<int>, ys: Seq<int>, i: int, n: int)
    requires
        0 <= i < ys.len() <= p2(n),
        0 <= n,
        weighs(w, bits_of(i, n)),
        forall|j: int| 0 <= j < ys.len() ==> reduced(#[trigger] ys[j]),
    ensures
        weighted_sum(w, ys, ys.len() as int) == ys[i],
{
    let t = bits_of(i, n);
    assert forall|j: int| 0 <= j < ys.len() implies #[trigger] w[j] == (if i == j {
        1int
    } else {
        0
    }) by {
        lemma_product_at_bits(i, j, n, n);
        assert(t.len() == n);
        assert(0 <= j < w.len());
        vstd::arithmetic::div_mod::lemma_small_mod(i as nat, p2(n) as nat);
        vstd::arithmetic::div_mod::lemma_small_mod(j as nat, p2(n) as nat);
        let b = bit_product(t, j, n);
        assert(reduced(w[j]) && cong(w[j], b));
        assert(i % p2(n) == i && j % p2(n) == j);
        assert(b == if i == j {
            1int
        } else {
            0
        });
        lemma_modulus();
        lemma_refl(b);
        lemma_shadow_eq(w[j], b, b, b);
    }
    lemma_dot_indicator(w, ys, i, ys.len() as int);
}

/// Whether for the challenges `t` two lists of values have different sums.
pub open spec fn tells_apart(t: Seq<int>, ys: Seq<int>, zs: Seq<int>) -> bool {
    forall|w: Seq<int>| #[trigger]
        weighs(w, t) ==> weighted_sum(w, ys, ys.len() as int) != weighted_sum(
            w,
            zs,
            zs.len() as int,
        )
}

/// The claimed sum tells two lists of values apart: for some challenges the sums of the
/// two differ.
pub proof fn law_sum_tells_apart(ys: Seq<int>, zs: Seq<int>, n: int)
    requires
        0 <= n,
        ys.len() == zs.len(),
        ys.len() <= p2(n),
        ys != zs,
        forall|j: int| 0 <= j < ys.len() ==> reduced(#[trigger] ys[j]),
        forall|j: int| 0 <= j < zs.len() ==> reduced(#[trigger] zs[j]),
    ensures
        exists|t: Seq<int>| t.len() == n && #[trigger] tells_apart(t, ys, zs),
{
    if forall|i: int| 0 <= i < ys.len() ==> ys[i] == zs[i] {
        assert(ys =~= zs);
    }
    let i = choose|i: int| 0 <= i < ys.len() && ys[i] != zs[i];
    let t = bits_of(i, n);
    assert forall|w: Seq<int>| #[trigger] weighs(w, t) implies weighted_sum(
        w,
        ys,
        ys.len() as int,
    ) != weighted_sum(w, zs, zs.len() as int) by {
        law_sum_at_bits(w, ys, i, n);
        law_sum_at_bits(w, zs, i, n);
    }
    assert(t.len() == n && tells_apart(t, ys, zs));
}

/// Claims are served however many there are: polynomials in the same number of
/// variables, with a point of that dimension and a value for each, make a batch for the
/// prover, and their commitments make one for the verifier.
pub proof fn law_claims_are_served(
    polys: Seq<Mle>,
    coms: Seq<G1>,
    points: Seq<Vec<Scalar>>,
    evals: Seq<Scalar>,
    num_var: int,
)
    requires
        polys.len() > 0,
        coms.len() == polys.len(),
        points.len() == polys.len(),
        evals.len() == polys.len(),
        forall|i: int| 0 <= i < polys.len() ==> (#[trigger] polys[i]).num_vars == num_var,
        forall|i: int| 0 <= i < points.len() ==> (#[trigger] points[i])@.len() == num_var,
    ensures
        batch_ok(polys, points, evals),
        claims_ok(coms, points, evals, num_var),
{
}

/// Where the coordinates are the bits of a position, the extension of a table takes the
/// entry there.
pub proof fn law_extension_at_bits(f: Seq<int>, i: int, n: int)
    requires
        0 <= n,
        f.len() == p2(n),
        0 <= i < f.len(),
        forall|j: int| 0 <= j < f.len() ==> reduced(#[trigger] f[j]),
    ensures
        mle_eval(f, bits_of(i, n)) == f[i],
{
    let t = bits_of(i, n);
    let w = eq_vec(t, n);
    assert forall|j: int| 0 <= j < w.len() implies reduced(#[trigger] w[j]) && cong(
        w[j],
        bit_product(t, j, n),
    ) by {
        lemma_eq_at_reduced(t, j, n);
        law_eq_entries(t, j, n);
    }
    assert(weighs(w, t));
    law_sum_at_bits(w, f, i, n);
    lemma_dot_swap(f, w, p2(n));
}

/// The tables of a plan are those of the sumcheck that proves the claims: the products of
/// the merged and the eq polynomials sum, over all points and the hypercube, to the
/// weighted sum of the values of the polynomials.
pub proof fn law_plan_proves_claims(
    plan: &BatchPlan,
    polys: Seq<Seq<int>>,
    pts: Seq<Seq<int>>,
    nv: int,
)
    requires
        0 <= nv,
        is_plan(plan, polys, pts, nv),
        pts.len() == polys.len(),
        pts.len() <= plan.weights@.len(),
        forall|i: int| 0 <= i < polys.len() ==> (#[trigger] polys[i]).len() == p2(nv),
        forall|i: int| 0 <= i < pts.len() ==> (#[trigger] pts[i]).len() == nv,
    ensures
        plan.merged@.len() == plan.eqs@.len(),
        sumcheck_sum(
            tables(plan.merged@),
            tables(plan.eqs@),
            p2(nv) as nat,
            plan.merged@.len() as int,
        ) == weighted_sum(
            vals(plan.weights@),
            Seq::new(pts.len(), |i: int| mle_eval(polys[i], pts[i])),
            pts.len() as int,
        ),
{
    let d = distinct_points(pts, pts.len() as int);
    let w = vals(plan.weights@);
    let len = p2(nv) as nat;
    let ms = Seq::new(d.len(), |i: int| merged(polys, pts, w, d[i], len, pts.len() as int));
    let es = Seq::new(d.len(), |i: int| eq_vec(d[i], nv));
    assert forall|i: int| 0 <= i < d.len() implies tables(plan.merged@)[i] == #[trigger] ms[i] by {
        assert(plan.merged@[i].table() == ms[i]);
    }
    assert forall|i: int| 0 <= i < d.len() implies tables(plan.eqs@)[i] == #[trigger] es[i] by {
        assert(plan.eqs@[i].table() == es[i]);
    }
    assert(tables(plan.merged@) =~= ms);
    assert(tables(plan.eqs@) =~= es);
    law_sumcheck_claim(polys, pts, w, nv);
}

/// The aggregated polynomial takes at the final point of the sumcheck the sum of the
/// values of the polynomials there, each times its weight and the eq of the final point
/// and its own.
pub proof fn law_aggregate_takes(
    plan: &BatchPlan,
    polys: Seq<Mle>,
    points: Seq<Vec<Scalar>>,
    a: Seq<Scalar>,
    g: &Mle,
    values: Seq<int>,
)
    requires
        is_batch_of(plan, polys, points, a, g),
        values == Seq::new(polys.len(), |i: int| mle_eval(polys[i].table(), vals(a))),
    ensures
        mle_eval(g.table(), vals(a)) == dot(
            values,
            Seq::new(
                polys.len(),
                |i: int|
                    fmul(
                        dot(
                            eq_vec(vals(points[i]@), a.len() as int),
                            eq_vec(vals(a), a.len() as int),
                            p2(a.len() as int),
                        ),
                        plan.weights@[i]@,
                    ),
            ),
            polys.len() as int,
        ),
{
    let u = vals(a);
    let n = a.len() as int;
    let fs = tables(polys);
    let pts = poly_views(points);
    let w = vals(plan.weights@);
    let key = eq_vec(u, n);
    law_plan_aggregates(plan, fs, pts, a, g);
    assert forall|i: int| 0 <= i < fs.len() implies (#[trigger] fs[i]).len() == p2(n) by {
        assert(polys[i].wf());
    }
    assert forall|i: int| 0 <= i < pts.len() implies (#[trigger] pts[i]).len() == n by {
        assert(points[i]@.len() == n);
    }
    assert forall|i: int| 0 <= i < values.len() implies #[trigger] values[i] == dot(
        key,
        fs[i],
        p2(n),
    ) by {
        lemma_dot_swap(fs[i], key, p2(n));
    }
    law_aggregated_commitment(key, fs, pts, w, u, values);
    lemma_dot_swap(key, g.table(), p2(n));
    let want = Seq::new(
        polys.len(),
        |i: int|
            fmul(
                dot(eq_vec(vals(points[i]@), n), eq_vec(u, n), p2(n)),
                plan.weights@[i]@,
            ),
    );
    assert forall|i: int| 0 <= i < polys.len() implies aggregate_scalars(w, u, pts)[i]
        == #[trigger] want[i] by {
        assert(points[i]@.len() == n);
        law_eq_pair(u, pts[i], n);
    }
    assert(aggregate_scalars(w, u, pts) =~= want);
}

/// Claims are refused where there are none, where their parts differ in number, or where
/// a point or a polynomial has another number of variables.
pub proof fn law_claims_are_refused(
    polys: Seq<Mle>,
    coms: Seq<G1>,
    points: Seq<Vec<Scalar>>,
    evals: Seq<Scalar>,
    num_var: int,
    i: int,
)
    ensures
        polys.len() == 0 || polys.len() != points.len() || polys.len() != evals.len()
            ==> !batch_ok(polys, points, evals),
        0 <= i < polys.len() && (polys[i].num_vars != polys[0].num_vars || points[i]@.len()
            != polys[0].num_vars) ==> !batch_ok(polys, points, evals),
        coms.len() == 0 || coms.len() != points.len() || coms.len() != evals.len() ==> !claims_ok(
            coms,
            points,
            evals,
            num_var,
        ),
        0 <= i < points.len() && points[i]@.len() != num_var ==> !claims_ok(
            coms,
            points,
            evals,
            num_var,
        ),
{
}

} // verus!
