//! Laws of batched openings: the sum that the sumcheck proves is that of the
//! weighted claims, and prover and verifier agree on the weights and on the
//! aggregated polynomial.

use crate::batching::{
    aggregate_scalars, aggregated, batched, distinct_points, eq_pair, eq_values, is_aggregate,
    is_batch, is_plan, lemma_distinct_members, merged, tables, weighted_sum, with_claims,
    with_draws, zeros, BatchPlan,
};
use crate::bdfg::poly_views;
use crate::dims::lemma_pow2_mono;
use crate::field::{
    fadd, fmul, fsub, group_reduced, group_shadow, lemma_modulus, lemma_refl, lemma_shadow_eq,
    reduced, vals, Scalar,
};
use crate::grid::{combine, lemma_combine_dot, lemma_dot_split, lemma_dot_zero};
use crate::group::{logs, G1};
use crate::poly::{dot, lemma_dot_reduced};
use crate::tensor::{eq_vec, lemma_p2_step, lemma_p2_zero, mle_eval, p2, Mle};
use crate::transcript::{answer, is_course, lemma_course_challenge, Entry};
use vstd::prelude::*;

verus! {

/// The sum over the first `m` points of `c` times the inner product of the
/// merged table with `e`.
pub open spec fn grouped(
    polys: Seq<Seq<int>>,
    pts: Seq<Seq<int>>,
    w: Seq<int>,
    d: Seq<Seq<int>>,
    c: spec_fn(Seq<int>) -> int,
    e: spec_fn(Seq<int>) -> Seq<int>,
    len: nat,
    n: int,
    m: int,
) -> int
    decreases m,
{
    if m <= 0 {
        0
    } else {
        fadd(
            grouped(polys, pts, w, d, c, e, len, n, m - 1),
            fmul(
                c(d[m - 1]),
                dot(merged(polys, pts, w, d[m - 1], len, n), e(d[m - 1]), len as int),
            ),
        )
    }
}

/// The term of one claim.
pub open spec fn claim_term(
    polys: Seq<Seq<int>>,
    pts: Seq<Seq<int>>,
    w: Seq<int>,
    c: spec_fn(Seq<int>) -> int,
    e: spec_fn(Seq<int>) -> Seq<int>,
    len: nat,
    i: int,
) -> int {
    fmul(c(pts[i]), fmul(w[i], dot(polys[i], e(pts[i]), len as int)))
}

/// The sum of the terms of the first `n` claims.
pub open spec fn ungrouped(
    polys: Seq<Seq<int>>,
    pts: Seq<Seq<int>>,
    w: Seq<int>,
    c: spec_fn(Seq<int>) -> int,
    e: spec_fn(Seq<int>) -> Seq<int>,
    len: nat,
    n: int,
) -> int
    decreases n,
{
    if n <= 0 {
        0
    } else {
        fadd(
            ungrouped(polys, pts, w, c, e, len, n - 1),
            claim_term(polys, pts, w, c, e, len, n - 1),
        )
    }
}

pub proof fn lemma_merged_len(
    polys: Seq<Seq<int>>,
    pts: Seq<Seq<int>>,
    w: Seq<int>,
    p: Seq<int>,
    len: nat,
    n: int,
)
    ensures
        merged(polys, pts, w, p, len, n).len() == len,
    decreases n,
{
    if n > 0 {
        lemma_merged_len(polys, pts, w, p, len, n - 1);
    }
}

/// One more claim adds its term at its point alone.
proof fn lemma_grouped_step(
    polys: Seq<Seq<int>>,
    pts: Seq<Seq<int>>,
    w: Seq<int>,
    d: Seq<Seq<int>>,
    c: spec_fn(Seq<int>) -> int,
    e: spec_fn(Seq<int>) -> Seq<int>,
    len: nat,
    n: int,
    m: int,
    j: int,
)
    requires
        0 < n,
        0 <= m <= d.len(),
        0 <= j < d.len(),
        d[j] == pts[n - 1],
        d.no_duplicates(),
        polys[n - 1].len() == len,
    ensures
        grouped(polys, pts, w, d, c, e, len, n, m) == (if j < m {
            fadd(
                grouped(polys, pts, w, d, c, e, len, n - 1, m),
                claim_term(polys, pts, w, c, e, len, n - 1),
            )
        } else {
            grouped(polys, pts, w, d, c, e, len, n - 1, m)
        }),
    decreases m,
{
    broadcast use group_reduced;

    if m > 0 {
        lemma_grouped_step(polys, pts, w, d, c, e, len, n, m - 1, j);
        let p = d[m - 1];
        let before = grouped(polys, pts, w, d, c, e, len, n - 1, m - 1);
        let a = dot(merged(polys, pts, w, p, len, n - 1), e(p), len as int);
        let cp = c(p);
        lemma_refl(before);
        lemma_refl(cp);
        lemma_refl(a);
        if j == m - 1 {
            let t = polys[n - 1];
            let b = dot(t, e(p), len as int);
            let x = w[n - 1];
            lemma_merged_len(polys, pts, w, p, len, n - 1);
            lemma_combine_dot(
                merged(polys, pts, w, p, len, n - 1),
                t,
                x,
                e(p),
                len as int,
            );
            lemma_refl(b);
            lemma_refl(x);
            broadcast use group_shadow;

            assert(cp * (a + x * b) == cp * a + cp * (x * b)) by (nonlinear_arith);
            lemma_shadow_eq(
                fadd(before, fmul(cp, fadd(a, fmul(x, b)))),
                before + cp * (a + x * b),
                fadd(fadd(before, fmul(cp, a)), fmul(cp, fmul(x, b))),
                (before + cp * a) + cp * (x * b),
            );
        } else {
            assert(pts[n - 1] != p) by {
                assert(d[j] != d[m - 1]);
            }
            if j < m - 1 {
                let term = claim_term(polys, pts, w, c, e, len, n - 1);
                lemma_refl(term);
                broadcast use group_shadow;

                lemma_shadow_eq(
                    fadd(fadd(before, term), fmul(cp, a)),
                    (before + term) + cp * a,
                    fadd(fadd(before, fmul(cp, a)), term),
                    (before + cp * a) + term,
                );
            }
        }
    }
}

proof fn lemma_grouped_empty(
    polys: Seq<Seq<int>>,
    pts: Seq<Seq<int>>,
    w: Seq<int>,
    d: Seq<Seq<int>>,
    c: spec_fn(Seq<int>) -> int,
    e: spec_fn(Seq<int>) -> Seq<int>,
    len: nat,
    m: int,
)
    ensures
        grouped(polys, pts, w, d, c, e, len, 0, m) == 0,
    decreases m,
{
    broadcast use group_reduced;

    if m > 0 {
        lemma_grouped_empty(polys, pts, w, d, c, e, len, m - 1);
        let p = d[m - 1];
        lemma_dot_zero(zeros(len), e(p), len as int);
        let cp = c(p);
        lemma_refl(cp);
        lemma_refl(0);
        broadcast use group_shadow;

        assert(cp * 0 == 0) by (nonlinear_arith);
        lemma_shadow_eq(fadd(0, fmul(cp, 0)), 0 + cp * 0, 0, 0);
    }
}

/// Merging by points changes no sum over the claims.
pub proof fn law_grouping(
    polys: Seq<Seq<int>>,
    pts: Seq<Seq<int>>,
    w: Seq<int>,
    d: Seq<Seq<int>>,
    c: spec_fn(Seq<int>) -> int,
    e: spec_fn(Seq<int>) -> Seq<int>,
    len: nat,
    n: int,
)
    requires
        0 <= n <= pts.len(),
        n <= polys.len(),
        forall|i: int| 0 <= i < n ==> (#[trigger] polys[i]).len() == len,
        d.no_duplicates(),
        forall|i: int| 0 <= i < n ==> d.contains(#[trigger] pts[i]),
    ensures
        grouped(polys, pts, w, d, c, e, len, n, d.len() as int) == ungrouped(
            polys,
            pts,
            w,
            c,
            e,
            len,
            n,
        ),
    decreases n,
{
    if n == 0 {
        lemma_grouped_empty(polys, pts, w, d, c, e, len, d.len() as int);
    } else {
        law_grouping(polys, pts, w, d, c, e, len, n - 1);
        assert(d.contains(pts[n - 1]));
        let j = choose|j: int| 0 <= j < d.len() && d[j] == pts[n - 1];
        lemma_grouped_step(polys, pts, w, d, c, e, len, n, d.len() as int, j);
    }
}

/// The value of the sumcheck polynomial summed over the hypercube: over the
/// first `m` points, the inner product of the merged table with the eq table.
pub open spec fn sumcheck_sum(ms: Seq<Seq<int>>, eqs: Seq<Seq<int>>, len: nat, m: int) -> int
    decreases m,
{
    if m <= 0 {
        0
    } else {
        fadd(sumcheck_sum(ms, eqs, len, m - 1), dot(ms[m - 1], eqs[m - 1], len as int))
    }
}

proof fn lemma_times_one(a: int)
    requires
        reduced(a),
    ensures
        fmul(1, a) == a,
{
    broadcast use group_reduced;

    lemma_refl(1);
    lemma_refl(a);
    broadcast use group_shadow;

    lemma_shadow_eq(fmul(1, a), 1 * a, a, a);
}

proof fn lemma_sum_as_groups(
    polys: Seq<Seq<int>>,
    pts: Seq<Seq<int>>,
    w: Seq<int>,
    d: Seq<Seq<int>>,
    nv: int,
    m: int,
)
    requires
        0 <= m <= d.len(),
    ensures
        sumcheck_sum(
            Seq::new(
                d.len(),
                |i: int| merged(polys, pts, w, d[i], p2(nv) as nat, pts.len() as int),
            ),
            Seq::new(d.len(), |i: int| eq_vec(d[i], nv)),
            p2(nv) as nat,
            m,
        ) == grouped(
            polys,
            pts,
            w,
            d,
            |p: Seq<int>| 1int,
            |p: Seq<int>| eq_vec(p, nv),
            p2(nv) as nat,
            pts.len() as int,
            m,
        ),
    decreases m,
{
    if m > 0 {
        lemma_sum_as_groups(polys, pts, w, d, nv, m - 1);
        let a = merged(polys, pts, w, d[m - 1], p2(nv) as nat, pts.len() as int);
        lemma_dot_reduced(a, eq_vec(d[m - 1], nv), p2(nv));
        lemma_times_one(dot(a, eq_vec(d[m - 1], nv), p2(nv)));
    }
}

proof fn lemma_claims_as_sum(
    polys: Seq<Seq<int>>,
    pts: Seq<Seq<int>>,
    w: Seq<int>,
    nv: int,
    n: int,
)
    requires
        0 <= n <= pts.len(),
        pts.len() <= polys.len(),
        n <= w.len(),
        forall|i: int| 0 <= i < n ==> (#[trigger] pts[i]).len() == nv,
    ensures
        ungrouped(
            polys,
            pts,
            w,
            |p: Seq<int>| 1int,
            |p: Seq<int>| eq_vec(p, nv),
            p2(nv) as nat,
            n,
        ) == dot(w, Seq::new(pts.len(), |i: int| mle_eval(polys[i], pts[i])), n),
    decreases n,
{
    broadcast use group_reduced;

    if n > 0 {
        lemma_claims_as_sum(polys, pts, w, nv, n - 1);
        assert(pts[n - 1].len() == nv);
        lemma_times_one(fmul(w[n - 1], dot(polys[n - 1], eq_vec(pts[n - 1], nv), p2(nv))));
    }
}

/// The sumcheck polynomial of a batch sums, over the hypercube, to the weighted
/// sum of the values of the polynomials at their points.
pub proof fn law_sumcheck_claim(
    polys: Seq<Seq<int>>,
    pts: Seq<Seq<int>>,
    w: Seq<int>,
    nv: int,
)
    requires
        pts.len() == polys.len(),
        pts.len() <= w.len(),
        forall|i: int| 0 <= i < polys.len() ==> (#[trigger] polys[i]).len() == p2(nv),
        forall|i: int| 0 <= i < pts.len() ==> (#[trigger] pts[i]).len() == nv,
    ensures
        ({
            let d = distinct_points(pts, pts.len() as int);
            sumcheck_sum(
                Seq::new(
                    d.len(),
                    |i: int| merged(polys, pts, w, d[i], p2(nv) as nat, pts.len() as int),
                ),
                Seq::new(d.len(), |i: int| eq_vec(d[i], nv)),
                p2(nv) as nat,
                d.len() as int,
            )
        }) == weighted_sum(
            w,
            Seq::new(pts.len(), |i: int| mle_eval(polys[i], pts[i])),
            pts.len() as int,
        ),
{
    let d = distinct_points(pts, pts.len() as int);
    lemma_distinct_members(pts, pts.len() as int, nv);
    lemma_sum_as_groups(polys, pts, w, d, nv, d.len() as int);
    lemma_claims_as_sum(polys, pts, w, nv, pts.len() as int);
    law_grouping(
        polys,
        pts,
        w,
        d,
        |p: Seq<int>| 1int,
        |p: Seq<int>| eq_vec(p, nv),
        p2(nv) as nat,
        pts.len() as int,
    );
}

pub proof fn lemma_aggregated_len(ms: Seq<Seq<int>>, e: Seq<int>, len: nat, n: int)
    ensures
        aggregated(ms, e, len, n).len() == len,
    decreases n,
{
    if n > 0 {
        lemma_aggregated_len(ms, e, len, n - 1);
    }
}

/// Any inner product of the aggregated table, by groups.
proof fn lemma_aggregated_dot(
    polys: Seq<Seq<int>>,
    pts: Seq<Seq<int>>,
    w: Seq<int>,
    d: Seq<Seq<int>>,
    a: Seq<int>,
    v: Seq<int>,
    len: nat,
    m: int,
)
    requires
        0 <= m <= d.len(),
    ensures
        dot(
            aggregated(
                Seq::new(d.len(), |i: int| merged(polys, pts, w, d[i], len, pts.len() as int)),
                eq_values(a, d),
                len,
                m,
            ),
            v,
            len as int,
        ) == grouped(
            polys,
            pts,
            w,
            d,
            |p: Seq<int>| eq_pair(a, p, a.len() as int),
            |p: Seq<int>| v,
            len,
            pts.len() as int,
            m,
        ),
    decreases m,
{
    let ms = Seq::new(d.len(), |i: int| merged(polys, pts, w, d[i], len, pts.len() as int));
    let e = eq_values(a, d);
    if m == 0 {
        lemma_dot_zero(zeros(len), v, len as int);
    } else {
        lemma_aggregated_dot(polys, pts, w, d, a, v, len, m - 1);
        lemma_aggregated_len(ms, e, len, m - 1);
        lemma_merged_len(polys, pts, w, d[m - 1], len, pts.len() as int);
        lemma_combine_dot(aggregated(ms, e, len, m - 1), ms[m - 1], e[m - 1], v, len as int);
    }
}

/// The aggregated table of a batch.
pub open spec fn batch_table(
    polys: Seq<Seq<int>>,
    pts: Seq<Seq<int>>,
    w: Seq<int>,
    a: Seq<int>,
) -> Seq<int> {
    let d = distinct_points(pts, pts.len() as int);
    let len = p2(a.len() as int) as nat;
    aggregated(
        Seq::new(d.len(), |i: int| merged(polys, pts, w, d[i], len, pts.len() as int)),
        eq_values(a, d),
        len,
        d.len() as int,
    )
}

/// The order of the factors of an inner product does not matter.
pub proof fn lemma_dot_swap(a: Seq<int>, b: Seq<int>, n: int)
    ensures
        dot(a, b, n) == dot(b, a, n),
    decreases n,
{
    if n > 0 {
        lemma_dot_swap(a, b, n - 1);
        assert(fmul(a[n - 1], b[n - 1]) == fmul(b[n - 1], a[n - 1])) by {
            assert(a[n - 1] * b[n - 1] == b[n - 1] * a[n - 1]) by (nonlinear_arith);
        }
    }
}

proof fn lemma_commitments_as_claims(
    key: Seq<int>,
    polys: Seq<Seq<int>>,
    pts: Seq<Seq<int>>,
    w: Seq<int>,
    a: Seq<int>,
    coms: Seq<int>,
    len: nat,
    n: int,
)
    requires
        0 <= n <= pts.len(),
        pts.len() == polys.len(),
        coms.len() == polys.len(),
        n <= w.len(),
        forall|i: int|
            0 <= i < coms.len() ==> #[trigger] coms[i] == dot(key, polys[i], len as int),
    ensures
        dot(coms, aggregate_scalars(w, a, pts), n) == ungrouped(
            polys,
            pts,
            w,
            |p: Seq<int>| eq_pair(a, p, a.len() as int),
            |p: Seq<int>| key,
            len,
            n,
        ),
    decreases n,
{
    broadcast use group_reduced;

    if n > 0 {
        lemma_commitments_as_claims(key, polys, pts, w, a, coms, len, n - 1);
        let e = eq_pair(a, pts[n - 1], a.len() as int);
        let x = w[n - 1];
        let y = dot(polys[n - 1], key, len as int);
        lemma_dot_swap(key, polys[n - 1], len as int);
        assert(coms[n - 1] == y);
        lemma_refl(e);
        lemma_refl(x);
        lemma_refl(y);
        broadcast use group_shadow;

        assert(y * (e * x) == e * (x * y)) by (nonlinear_arith);
        lemma_shadow_eq(fmul(y, fmul(e, x)), y * (e * x), fmul(e, fmul(x, y)), e * (x * y));
    }
}

/// The verifier's aggregated commitment is the commitment to the prover's
/// aggregated table.
pub proof fn law_aggregated_commitment(
    key: Seq<int>,
    polys: Seq<Seq<int>>,
    pts: Seq<Seq<int>>,
    w: Seq<int>,
    a: Seq<int>,
    coms: Seq<int>,
)
    requires
        pts.len() == polys.len(),
        coms.len() == polys.len(),
        pts.len() <= w.len(),
        forall|i: int|
            0 <= i < polys.len() ==> (#[trigger] polys[i]).len() == p2(a.len() as int),
        forall|i: int| 0 <= i < pts.len() ==> (#[trigger] pts[i]).len() == a.len(),
        forall|i: int|
            0 <= i < coms.len() ==> #[trigger] coms[i] == dot(key, polys[i], p2(a.len() as int)),
    ensures
        dot(coms, aggregate_scalars(w, a, pts), coms.len() as int) == dot(
            key,
            batch_table(polys, pts, w, a),
            p2(a.len() as int),
        ),
{
    let d = distinct_points(pts, pts.len() as int);
    let len = p2(a.len() as int) as nat;
    lemma_distinct_members(pts, pts.len() as int, a.len() as int);
    lemma_aggregated_dot(polys, pts, w, d, a, key, len, d.len() as int);
    lemma_dot_swap(key, batch_table(polys, pts, w, a), len as int);
    law_grouping(
        polys,
        pts,
        w,
        d,
        |p: Seq<int>| eq_pair(a, p, a.len() as int),
        |p: Seq<int>| key,
        len,
        pts.len() as int,
    );
    lemma_commitments_as_claims(key, polys, pts, w, a, coms, len, pts.len() as int);
}

/// A table in another order, of length `n`: the entry at `p` is that at `at(p)`,
/// or zero where the table has none.
pub open spec fn reordered(f: Seq<int>, n: nat, at: spec_fn(int) -> int) -> Seq<int> {
    Seq::new(
        n,
        |p: int| if 0 <= at(p) < f.len() {
            f[at(p)]
        } else {
            0
        },
    )
}

/// Tables in another order.
pub open spec fn all_reordered(
    polys: Seq<Seq<int>>,
    n: nat,
    at: spec_fn(int) -> int,
) -> Seq<Seq<int>> {
    Seq::new(polys.len(), |i: int| reordered(polys[i], n, at))
}

proof fn lemma_reordered_combine(
    f: Seq<int>,
    g: Seq<int>,
    x: int,
    n: nat,
    at: spec_fn(int) -> int,
)
    requires
        f.len() == g.len(),
    ensures
        reordered(combine(f, g, x), n, at) == combine(
            reordered(f, n, at),
            reordered(g, n, at),
            x,
        ),
{
    assert(fadd(0, fmul(x, 0)) == 0) by {
        broadcast use {group_reduced, group_shadow};

        lemma_modulus();
        lemma_refl(x);
        lemma_refl(0);
        assert(x * 0 == 0) by (nonlinear_arith);
        lemma_shadow_eq(fadd(0, fmul(x, 0)), 0 + x * 0, 0, 0);
    }
    assert(reordered(combine(f, g, x), n, at) =~= combine(
        reordered(f, n, at),
        reordered(g, n, at),
        x,
    ));
}

proof fn lemma_reordered_merged(
    polys: Seq<Seq<int>>,
    pts: Seq<Seq<int>>,
    w: Seq<int>,
    p: Seq<int>,
    len: nat,
    k: int,
    n: nat,
    at: spec_fn(int) -> int,
)
    requires
        0 <= k <= polys.len(),
        forall|i: int| 0 <= i < polys.len() ==> (#[trigger] polys[i]).len() == len,
    ensures
        reordered(merged(polys, pts, w, p, len, k), n, at) == merged(
            all_reordered(polys, n, at),
            pts,
            w,
            p,
            n,
            k,
        ),
    decreases k,
{
    if k == 0 {
        assert(reordered(zeros(len), n, at) =~= zeros(n));
    } else {
        lemma_reordered_merged(polys, pts, w, p, len, k - 1, n, at);
        lemma_merged_len(polys, pts, w, p, len, k - 1);
        assert(polys[k - 1].len() == len);
        lemma_reordered_combine(
            merged(polys, pts, w, p, len, k - 1),
            polys[k - 1],
            w[k - 1],
            n,
            at,
        );
        assert(all_reordered(polys, n, at)[k - 1] == reordered(polys[k - 1], n, at));
    }
}

proof fn lemma_reordered_aggregated(
    ms: Seq<Seq<int>>,
    e: Seq<int>,
    len: nat,
    k: int,
    n: nat,
    at: spec_fn(int) -> int,
)
    requires
        0 <= k <= ms.len(),
        forall|i: int| 0 <= i < ms.len() ==> (#[trigger] ms[i]).len() == len,
    ensures
        reordered(aggregated(ms, e, len, k), n, at) == aggregated(
            all_reordered(ms, n, at),
            e,
            n,
            k,
        ),
    decreases k,
{
    if k == 0 {
        assert(reordered(zeros(len), n, at) =~= zeros(n));
    } else {
        lemma_reordered_aggregated(ms, e, len, k - 1, n, at);
        lemma_aggregated_len(ms, e, len, k - 1);
        assert(ms[k - 1].len() == len);
        lemma_reordered_combine(aggregated(ms, e, len, k - 1), ms[k - 1], e[k - 1], n, at);
        assert(all_reordered(ms, n, at)[k - 1] == reordered(ms[k - 1], n, at));
    }
}

/// The verifier's aggregated commitment is the commitment to the prover's
/// aggregated table, also where tables are committed to in another order.
pub proof fn law_reordered_commitment(
    key: Seq<int>,
    polys: Seq<Seq<int>>,
    pts: Seq<Seq<int>>,
    w: Seq<int>,
    a: Seq<int>,
    coms: Seq<int>,
    n: nat,
    at: spec_fn(int) -> int,
)
    requires
        pts.len() == polys.len(),
        coms.len() == polys.len(),
        pts.len() <= w.len(),
        forall|i: int|
            0 <= i < polys.len() ==> (#[trigger] polys[i]).len() == p2(a.len() as int),
        forall|i: int| 0 <= i < pts.len() ==> (#[trigger] pts[i]).len() == a.len(),
        forall|i: int|
            0 <= i < coms.len() ==> #[trigger] coms[i] == dot(
                key,
                reordered(polys[i], n, at),
                n as int,
            ),
    ensures
        dot(coms, aggregate_scalars(w, a, pts), coms.len() as int) == dot(
            key,
            reordered(batch_table(polys, pts, w, a), n, at),
            n as int,
        ),
{
    let d = distinct_points(pts, pts.len() as int);
    let len = p2(a.len() as int) as nat;
    let k = pts.len() as int;
    let others = all_reordered(polys, n, at);
    let ms = Seq::new(d.len(), |i: int| merged(polys, pts, w, d[i], len, k));
    let others_ms = Seq::new(d.len(), |i: int| merged(others, pts, w, d[i], n, k));
    lemma_distinct_members(pts, k, a.len() as int);
    assert forall|i: int| 0 <= i < ms.len() implies (#[trigger] ms[i]).len() == len by {
        lemma_merged_len(polys, pts, w, d[i], len, k);
    }
    assert(all_reordered(ms, n, at) =~= others_ms) by {
        assert forall|i: int| 0 <= i < d.len() implies all_reordered(ms, n, at)[i]
            == #[trigger] others_ms[i] by {
            lemma_reordered_merged(polys, pts, w, d[i], len, k, n, at);
        }
    }
    lemma_reordered_aggregated(ms, eq_values(a, d), len, d.len() as int, n, at);
    lemma_aggregated_dot(others, pts, w, d, a, key, n, d.len() as int);
    lemma_dot_swap(key, reordered(batch_table(polys, pts, w, a), n, at), n as int);
    law_grouping(
        others,
        pts,
        w,
        d,
        |p: Seq<int>| eq_pair(a, p, a.len() as int),
        |p: Seq<int>| key,
        n,
        k,
    );
    assert forall|i: int| 0 <= i < coms.len() implies #[trigger] coms[i] == dot(
        key,
        others[i],
        n as int,
    ) by {
        assert(others[i] == reordered(polys[i], n, at));
    }
    lemma_commitments_as_claims(key, others, pts, w, a, coms, n, k);
}

/// What the stages of a batched opening aggregate is the table of the batch.
pub proof fn law_plan_aggregates(
    plan: &BatchPlan,
    polys: Seq<Seq<int>>,
    pts: Seq<Seq<int>>,
    a: Seq<Scalar>,
    g: &Mle,
)
    requires
        is_plan(plan, polys, pts, a.len() as int),
        is_aggregate(plan, a, g),
    ensures
        g.table() == batch_table(polys, pts, vals(plan.weights@), vals(a)),
{
    let d = distinct_points(pts, pts.len() as int);
    let w = vals(plan.weights@);
    let len = p2(a.len() as int) as nat;
    let ms = Seq::new(d.len(), |i: int| merged(polys, pts, w, d[i], len, pts.len() as int));
    assert(tables(plan.merged@) =~= ms) by {
        assert forall|i: int| 0 <= i < d.len() implies tables(plan.merged@)[i] == #[trigger] ms[i]
            by {
            assert(plan.merged@[i].table() == ms[i]);
        }
    }
}

/// Whether a plan is that of polynomials with a point each, and `g` aggregates
/// them for the final point of the sumcheck.
pub open spec fn is_batch_of(
    plan: &BatchPlan,
    polys: Seq<Mle>,
    points: Seq<Vec<Scalar>>,
    a: Seq<Scalar>,
    g: &Mle,
) -> bool {
    &&& polys.len() == points.len()
    &&& polys.len() <= plan.weights@.len()
    &&& forall|i: int|
        0 <= i < polys.len() ==> (#[trigger] polys[i]).wf() && polys[i].num_vars == a.len()
    &&& forall|i: int| 0 <= i < points.len() ==> (#[trigger] points[i])@.len() == a.len()
    &&& is_plan(plan, tables(polys), poly_views(points), a.len() as int)
    &&& is_aggregate(plan, a, g)
}

/// The commitment that a verifier combines for the aggregated polynomial.
pub open spec fn combined_commitment(
    weights: Seq<Scalar>,
    coms: Seq<G1>,
    points: Seq<Vec<Scalar>>,
    a: Seq<Scalar>,
) -> int {
    dot(
        logs(coms),
        aggregate_scalars(vals(weights), vals(a), poly_views(points)),
        coms.len() as int,
    )
}

/// For commitments under one key the combined commitment of a batch is the
/// commitment to the aggregated polynomial.
pub proof fn law_batch_commitment(
    key: Seq<int>,
    plan: &BatchPlan,
    polys: Seq<Mle>,
    points: Seq<Vec<Scalar>>,
    a: Seq<Scalar>,
    g: &Mle,
    coms: Seq<G1>,
)
    requires
        is_batch_of(plan, polys, points, a, g),
        coms.len() == polys.len(),
        forall|i: int|
            0 <= i < coms.len() ==> (#[trigger] coms[i])@ == dot(
                key,
                polys[i].table(),
                p2(a.len() as int),
            ),
    ensures
        combined_commitment(plan.weights@, coms, points, a) == dot(
            key,
            g.table(),
            p2(a.len() as int),
        ),
{
    let fs = tables(polys);
    let pts = poly_views(points);
    law_plan_aggregates(plan, fs, pts, a, g);
    lemma_batch_shape(plan, polys, points, a, g);
    assert forall|i: int| 0 <= i < logs(coms).len() implies #[trigger] logs(coms)[i] == dot(
        key,
        fs[i],
        p2(vals(a).len() as int),
    ) by {
        assert(logs(coms)[i] == coms[i]@);
    }
    law_aggregated_commitment(key, fs, pts, vals(plan.weights@), vals(a), logs(coms));
}

proof fn lemma_batch_shape(
    plan: &BatchPlan,
    polys: Seq<Mle>,
    points: Seq<Vec<Scalar>>,
    a: Seq<Scalar>,
    g: &Mle,
)
    requires
        is_batch_of(plan, polys, points, a, g),
    ensures
        forall|i: int|
            0 <= i < polys.len() ==> (#[trigger] tables(polys)[i]).len() == p2(a.len() as int),
        forall|i: int|
            0 <= i < points.len() ==> (#[trigger] poly_views(points)[i]).len() == a.len(),
{
    assert forall|i: int| 0 <= i < polys.len() implies (#[trigger] tables(polys)[i]).len() == p2(
        a.len() as int,
    ) by {
        assert(polys[i].wf());
    }
    assert forall|i: int| 0 <= i < points.len() implies (#[trigger] poly_views(points)[i]).len()
        == a.len() by {
        assert(points[i]@.len() == a.len());
    }
}

/// The same for commitments to tables in another order.
pub proof fn law_reordered_batch_commitment(
    key: Seq<int>,
    plan: &BatchPlan,
    polys: Seq<Mle>,
    points: Seq<Vec<Scalar>>,
    a: Seq<Scalar>,
    g: &Mle,
    coms: Seq<G1>,
    n: nat,
    at: spec_fn(int) -> int,
)
    requires
        is_batch_of(plan, polys, points, a, g),
        coms.len() == polys.len(),
        forall|i: int|
            0 <= i < coms.len() ==> (#[trigger] coms[i])@ == dot(
                key,
                reordered(polys[i].table(), n, at),
                n as int,
            ),
    ensures
        combined_commitment(plan.weights@, coms, points, a) == dot(
            key,
            reordered(g.table(), n, at),
            n as int,
        ),
{
    let fs = tables(polys);
    let pts = poly_views(points);
    law_plan_aggregates(plan, fs, pts, a, g);
    lemma_batch_shape(plan, polys, points, a, g);
    assert forall|i: int| 0 <= i < logs(coms).len() implies #[trigger] logs(coms)[i] == dot(
        key,
        reordered(fs[i], n, at),
        n as int,
    ) by {
        assert(logs(coms)[i] == coms[i]@);
    }
    law_reordered_commitment(key, fs, pts, vals(plan.weights@), vals(a), logs(coms), n, at);
}

/// The value at `a` of `sum_d g_d(X) eq(X; p_d)`, over the first `m` points.
pub open spec fn sumcheck_value(ms: Seq<Seq<int>>, d: Seq<Seq<int>>, a: Seq<int>, m: int) -> int
    decreases m,
{
    if m <= 0 {
        0
    } else {
        fadd(
            sumcheck_value(ms, d, a, m - 1),
            fmul(mle_eval(ms[m - 1], a), eq_pair(a, d[m - 1], a.len() as int)),
        )
    }
}

proof fn lemma_value_from(ms: Seq<Seq<int>>, d: Seq<Seq<int>>, a: Seq<int>, m: int)
    requires
        0 <= m <= d.len(),
        ms.len() == d.len(),
        forall|i: int| 0 <= i < ms.len() ==> (#[trigger] ms[i]).len() == p2(a.len() as int),
    ensures
        mle_eval(aggregated(ms, eq_values(a, d), p2(a.len() as int) as nat, m), a)
            == sumcheck_value(ms, d, a, m),
    decreases m,
{
    let len = p2(a.len() as int) as nat;
    let e = eq_values(a, d);
    let v = eq_vec(a, a.len() as int);
    if m == 0 {
        lemma_dot_zero(zeros(len), v, len as int);
    } else {
        lemma_value_from(ms, d, a, m - 1);
        lemma_aggregated_len(ms, e, len, m - 1);
        assert(ms[m - 1].len() == len);
        lemma_combine_dot(aggregated(ms, e, len, m - 1), ms[m - 1], e[m - 1], v, len as int);
        let x = mle_eval(ms[m - 1], a);
        assert(e[m - 1] * x == x * e[m - 1]) by (nonlinear_arith);
    }
}

/// The aggregated polynomial takes at the final point of the sumcheck the value
/// of the sumcheck polynomial there.
pub proof fn law_aggregated_value(ms: Seq<Seq<int>>, d: Seq<Seq<int>>, a: Seq<int>)
    requires
        ms.len() == d.len(),
        forall|i: int| 0 <= i < ms.len() ==> (#[trigger] ms[i]).len() == p2(a.len() as int),
    ensures
        mle_eval(aggregated(ms, eq_values(a, d), p2(a.len() as int) as nat, ms.len() as int), a)
            == sumcheck_value(ms, d, a, ms.len() as int),
{
    lemma_value_from(ms, d, a, d.len() as int);
}

/// `eq(x; y)` is the value at `x` of the polynomial whose table is the eq
/// vector of `y`.
pub proof fn law_eq_pair(x: Seq<int>, y: Seq<int>, n: int)
    requires
        0 <= n <= x.len(),
        n <= y.len(),
    ensures
        dot(eq_vec(y, n), eq_vec(x, n), p2(n)) == eq_pair(x, y, n),
    decreases n,
{
    broadcast use group_reduced;

    lemma_p2_zero();
    if n == 0 {
        reveal_with_fuel(dot, 2);
        lemma_modulus();
        lemma_refl(1);
        lemma_refl(0);
        broadcast use group_shadow;

        lemma_shadow_eq(fadd(0, fmul(1, 1)), 0 + 1 * 1int, 1, 1);
    } else {
        law_eq_pair(x, y, n - 1);
        lemma_p2_step(n);
        let h = p2(n - 1);
        let ey = eq_vec(y, n);
        let ex = eq_vec(x, n);
        let ey0 = eq_vec(y, n - 1);
        let ex0 = eq_vec(x, n - 1);
        let hy = Seq::new(h as nat, |i: int| ey[h + i]);
        let hx = Seq::new(h as nat, |i: int| ex[h + i]);
        lemma_dot_split(ey, ex, h, hy, hx, h);
        let a = x[n - 1];
        let b = y[n - 1];
        lemma_scaled_dot(ey, ey0, fsub(1, b), ex, ex0, fsub(1, a), h);
        lemma_scaled_dot(hy, ey0, b, hx, ex0, a, h);
        let s = dot(ey0, ex0, h);
        lemma_refl(s);
        lemma_refl(a);
        lemma_refl(b);
        lemma_refl(1);
        broadcast use group_shadow;

        let u = fsub(1, b);
        let v = fsub(1, a);
        assert(s * ((1 - b) * (1 - a)) + s * (b * a) == s * (a * b + (1 - a) * (1 - b)))
            by (nonlinear_arith);
        lemma_shadow_eq(
            fadd(fmul(s, fmul(u, v)), fmul(s, fmul(b, a))),
            s * ((1 - b) * (1 - a)) + s * (b * a),
            fmul(s, fadd(fmul(a, b), fmul(fsub(1, a), fsub(1, b)))),
            s * (a * b + (1 - a) * (1 - b)),
        );
    }
}

/// An inner product of scaled sequences.
proof fn lemma_scaled_dot(
    p: Seq<int>,
    p0: Seq<int>,
    u: int,
    q: Seq<int>,
    q0: Seq<int>,
    v: int,
    n: int,
)
    requires
        forall|i: int| 0 <= i < n ==> #[trigger] p[i] == fmul(p0[i], u),
        forall|i: int| 0 <= i < n ==> #[trigger] q[i] == fmul(q0[i], v),
    ensures
        dot(p, q, n) == fmul(dot(p0, q0, n), fmul(u, v)),
    decreases n,
{
    broadcast use group_reduced;

    lemma_refl(u);
    lemma_refl(v);
    lemma_refl(0);
    if n <= 0 {
        broadcast use group_shadow;

        assert(0 * (u * v) == 0) by (nonlinear_arith);
        lemma_shadow_eq(0, 0, fmul(0, fmul(u, v)), 0 * (u * v));
    } else {
        lemma_scaled_dot(p, p0, u, q, q0, v, n - 1);
        let s = dot(p0, q0, n - 1);
        let a = p0[n - 1];
        let b = q0[n - 1];
        assert(p[n - 1] == fmul(a, u) && q[n - 1] == fmul(b, v));
        lemma_refl(s);
        lemma_refl(a);
        lemma_refl(b);
        assert(s * (u * v) + (a * u) * (b * v) == (s + a * b) * (u * v)) by (nonlinear_arith);
        broadcast use group_shadow;

        lemma_shadow_eq(
            fadd(fmul(s, fmul(u, v)), fmul(fmul(a, u), fmul(b, v))),
            s * (u * v) + (a * u) * (b * v),
            fmul(fadd(s, fmul(a, b)), fmul(u, v)),
            (s + a * b) * (u * v),
        );
    }
}

proof fn lemma_draws_agree(log: Seq<Entry>, t: Seq<int>, s: Seq<int>, n: int)
    requires
        0 <= n <= t.len(),
        n <= s.len(),
        is_course(with_draws(log, t, n)),
        is_course(with_draws(log, s, n)),
    ensures
        with_draws(log, t, n) == with_draws(log, s, n),
        forall|i: int| 0 <= i < n ==> #[trigger] t[i] == s[i],
    decreases n,
{
    if n > 0 {
        let a = with_draws(log, t, n);
        let b = with_draws(log, s, n);
        let a0 = with_draws(log, t, n - 1);
        let b0 = with_draws(log, s, n - 1);
        lemma_course_prefix(a, a0);
        lemma_course_prefix(b, b0);
        lemma_draws_agree(log, t, s, n - 1);
        assert(a.is_prefix_of(a));
        assert(b.is_prefix_of(b));
        lemma_course_challenge(a, a0, "t"@, t[n - 1]);
        lemma_course_challenge(b, b0, "t"@, s[n - 1]);
    }
}

/// What stands before in a course is a course.
proof fn lemma_course_prefix(log: Seq<Entry>, before: Seq<Entry>)
    requires
        is_course(log),
        before.is_prefix_of(log),
    ensures
        is_course(before),
{
    assert forall|i: int| 0 <= i < before.len() implies (
    #[trigger] before[i] matches Entry::Challenge(l, c) ==> c == answer(before.take(i), l)) by {
        assert(before[i] == log[i]);
        assert(before.take(i) =~= log.take(i));
    }
}

/// Prover and verifier use the same weights: two batches of the same claims that
/// go on from the same history have the same weights, and leave the same history.
pub proof fn law_weights_agree(
    start: Seq<Entry>,
    end: Seq<Entry>,
    other: Seq<Entry>,
    pts: Seq<Seq<int>>,
    ys: Seq<int>,
    w: Seq<int>,
    v: Seq<int>,
)
    requires
        is_course(end),
        is_course(other),
        batched(start, end, pts, ys, w),
        batched(start, other, pts, ys, v),
    ensures
        w == v,
        end == other,
{
    let t = choose|t: Seq<int>| #[trigger] is_batch(start, end, pts, ys, w, t);
    let s = choose|s: Seq<int>| #[trigger] is_batch(start, other, pts, ys, v, s);
    assert(is_batch(start, end, pts, ys, w, t));
    assert(is_batch(start, other, pts, ys, v, s));
    let (a, b) = (t.len() as int, s.len() as int);
    if a < b {
        lemma_pow2_mono(a, b - 1);
    }
    if b < a {
        lemma_pow2_mono(b, a - 1);
    }
    lemma_draws_agree(with_claims(start, pts, ys), t, s, a);
    assert(t =~= s);
}

} // verus!
