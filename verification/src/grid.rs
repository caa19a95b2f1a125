//! Bivariate evaluation under grid keys, and the inner products of a table
//! with the eq vector of a point.

use crate::dims::{lemma_pow2_mono, lemma_row_major, padded};
use crate::field::{
    cong, fadd, fmul, fpow, fsub, group_reduced, group_shadow, lemma_modulus, lemma_refl,
    lemma_shadow_eq, vals, Scalar,
};
use crate::poly::{
    at, dot, feval, lemma_dot_ext, lemma_dot_reduced, lemma_eval_cong, lemma_eval_lin,
    lemma_power_key, lemma_tail_reduced, tail,
};
use crate::tensor::{eq_at, eq_vec, lemma_eq_at_reduced, lemma_p2_step, lemma_p2_zero, mle_eval, p2};
use vstd::arithmetic::power2::pow2;
use vstd::prelude::*;

verus! {

/// An inner product in two parts.
pub proof fn lemma_dot_split(
    a: Seq<int>,
    b: Seq<int>,
    n: int,
    a2: Seq<int>,
    b2: Seq<int>,
    k: int,
)
    requires
        0 <= n,
        0 <= k,
        forall|i: int| 0 <= i < k ==> #[trigger] a2[i] == a[n + i],
        forall|i: int| 0 <= i < k ==> #[trigger] b2[i] == b[n + i],
    ensures
        dot(a, b, n + k) == fadd(dot(a, b, n), dot(a2, b2, k)),
    decreases k,
{
    broadcast use group_reduced;

    let d = dot(a, b, n);
    lemma_dot_reduced(a, b, n);
    lemma_refl(d);
    lemma_refl(0);
    if k == 0 {
        broadcast use group_shadow;

        lemma_shadow_eq(d, d, fadd(d, 0), d + 0);
    } else {
        lemma_dot_split(a, b, n, a2, b2, k - 1);
        let e = dot(a2, b2, k - 1);
        let x = a2[k - 1];
        let y = b2[k - 1];
        assert(x == a[n + (k - 1)] && y == b[n + (k - 1)]);
        lemma_refl(e);
        lemma_refl(x);
        lemma_refl(y);
        broadcast use group_shadow;

        lemma_shadow_eq(
            fadd(fadd(d, e), fmul(x, y)),
            (d + e) + x * y,
            fadd(d, fadd(e, fmul(x, y))),
            d + (e + x * y),
        );
    }
}

/// Block `j` of width `w`.
pub open spec fn block(c: Seq<int>, w: int, j: int) -> Seq<int> {
    c.subrange(w * j, w * j + w)
}

/// The values at `x` of the blocks of a sequence.
pub open spec fn block_values(c: Seq<int>, w: int, n: int, x: int) -> Seq<int> {
    Seq::new(n as nat, |j: int| feval(block(c, w, j), x))
}

/// Whether a key holds `g x^i y^j` at position `w j + i`.
pub open spec fn is_block_key(
    key: Seq<int>,
    w: int,
    n: int,
    g: int,
    x: int,
    y: int,
) -> bool {
    forall|i: int, j: int|
        0 <= i < w && 0 <= j < n ==> #[trigger] key[w * j + i] == fmul(
            g,
            fmul(fpow(x, i as nat), fpow(y, j as nat)),
        )
}

proof fn lemma_block_key_partial(
    key: Seq<int>,
    c: Seq<int>,
    w: int,
    n: int,
    g: int,
    x: int,
    y: int,
    j: int,
)
    requires
        0 < w,
        0 <= j <= n,
        c.len() == w * n,
        is_block_key(key, w, n, g, x, y),
    ensures
        fadd(
            dot(key, c, w * j),
            fmul(fmul(g, fpow(y, j as nat)), tail(block_values(c, w, n, x), y, j)),
        ) == fmul(g, feval(block_values(c, w, n, x), y)),
    decreases j,
{
    broadcast use group_reduced;

    let bv = block_values(c, w, n, x);
    lemma_refl(g);
    if j == 0 {
        let e = feval(bv, y);
        assert(w * 0 == 0) by (nonlinear_arith);
        assert(fpow(y, 0) == 1);
        lemma_refl(0);
        lemma_refl(1);
        lemma_refl(e);
        broadcast use group_shadow;

        assert(0 + (g * 1) * e == g * e) by (nonlinear_arith);
        lemma_shadow_eq(fadd(0, fmul(fmul(g, 1), e)), 0 + (g * 1) * e, fmul(g, e), g * e);
    } else {
        lemma_block_key_partial(key, c, w, n, g, x, y, j - 1);
        let base = w * (j - 1);
        assert(w * j == base + w) by (nonlinear_arith)
            requires
                base == w * (j - 1),
        ;
        assert(0 <= base && base + w <= w * n) by (nonlinear_arith)
            requires
                base == w * (j - 1),
                0 < w,
                1 <= j <= n,
        ;
        let blk = block(c, w, j - 1);
        let yj = fpow(y, (j - 1) as nat);
        let g2 = fmul(g, yj);
        let key2 = Seq::new(w as nat, |i: int| key[base + i]);
        lemma_dot_split(key, c, base, key2, blk, w);
        assert forall|i: int| 0 <= i < blk.len() implies #[trigger] key2[i] == fmul(
            g2,
            fpow(x, i as nat),
        ) by {
            let xi = fpow(x, i as nat);
            assert(key[w * (j - 1) + i] == fmul(g, fmul(xi, yj)));
            lemma_refl(xi);
            lemma_refl(yj);
            broadcast use group_shadow;

            assert(g * (xi * yj) == (g * yj) * xi) by (nonlinear_arith);
            lemma_shadow_eq(
                fmul(g, fmul(xi, yj)),
                g * (xi * yj),
                fmul(fmul(g, yj), xi),
                (g * yj) * xi,
            );
        }
        lemma_power_key(key2, g2, x, blk);
        let d = dot(key, c, base);
        let v = feval(blk, x);
        let t = tail(bv, y, j);
        assert(bv[j - 1] == v);
        assert(tail(bv, y, j - 1) == fadd(fmul(t, y), v));
        assert(fpow(y, j as nat) == fmul(yj, y));
        assert(dot(key, c, w * j) == fadd(d, fmul(fmul(g, yj), v)));
        lemma_refl(d);
        lemma_refl(yj);
        lemma_refl(v);
        lemma_refl(t);
        lemma_refl(y);
        broadcast use group_shadow;

        assert((d + (g * yj) * v) + (g * (yj * y)) * t == d + (g * yj) * (t * y + v))
            by (nonlinear_arith);
        lemma_shadow_eq(
            fadd(fadd(d, fmul(fmul(g, yj), v)), fmul(fmul(g, fmul(yj, y)), t)),
            (d + (g * yj) * v) + (g * (yj * y)) * t,
            fadd(d, fmul(fmul(g, yj), fadd(fmul(t, y), v))),
            d + (g * yj) * (t * y + v),
        );
    }
}

/// A commitment over a block key evaluates the bivariate polynomial whose
/// columns are the blocks.
pub proof fn lemma_block_key(
    key: Seq<int>,
    c: Seq<int>,
    w: int,
    n: int,
    g: int,
    x: int,
    y: int,
)
    requires
        0 < w,
        0 <= n,
        c.len() == w * n,
        is_block_key(key, w, n, g, x, y),
    ensures
        dot(key, c, w * n) == fmul(g, feval(block_values(c, w, n, x), y)),
{
    broadcast use group_reduced;

    lemma_block_key_partial(key, c, w, n, g, x, y, n);
    let d = dot(key, c, w * n);
    let u = fmul(g, fpow(y, n as nat));
    assert(tail(block_values(c, w, n, x), y, n) == 0);
    lemma_dot_reduced(key, c, w * n);
    lemma_refl(d);
    lemma_refl(u);
    lemma_refl(0);
    broadcast use group_shadow;

    assert(d + u * 0 == d) by (nonlinear_arith);
    lemma_shadow_eq(fadd(d, fmul(u, 0)), d + u * 0, d, d);
}

/// The eq vector of a point factors over a split of its variables.
pub proof fn lemma_eq_at_split(u: Seq<int>, ur: Seq<int>, a: int, k: int, i: int, j: int)
    requires
        0 <= a,
        0 <= k <= ur.len(),
        0 <= i < p2(a),
        0 <= j < p2(k),
        forall|t: int| 0 <= t < ur.len() ==> #[trigger] ur[t] == u[a + t],
    ensures
        eq_at(u, p2(a) * j + i, a + k) == fmul(eq_at(u, i, a), eq_at(ur, j, k)),
        0 <= p2(a) * j + i < p2(a + k),
    decreases k,
{
    broadcast use group_reduced;

    let ai = eq_at(u, i, a);
    lemma_eq_at_reduced(u, i, a);
    lemma_refl(ai);
    lemma_refl(1);
    vstd::arithmetic::power2::lemma_pow2_adds(a as nat, k as nat);
    lemma_row_major(p2(a), p2(k), i, j);
    assert(j * p2(a) == p2(a) * j) by (nonlinear_arith);
    if k == 0 {
        lemma_p2_zero();
        assert(p2(a) * 0 == 0) by (nonlinear_arith);
        broadcast use group_shadow;

        lemma_shadow_eq(ai, ai, fmul(ai, 1), ai * 1);
    } else {
        lemma_p2_step(k);
        lemma_p2_step(a + k);
        vstd::arithmetic::power2::lemma_pow2_adds(a as nat, (k - 1) as nat);
        let h = p2(k - 1);
        let ph = p2(a + k - 1);
        assert(ph == p2(a) * h);
        let uk = u[a + k - 1];
        assert(ur[k - 1] == uk);
        lemma_refl(uk);
        if j < h {
            assert(p2(a) * j + i < ph) by (nonlinear_arith)
                requires
                    ph == p2(a) * h,
                    j + 1 <= h,
                    i < p2(a),
            ;
            lemma_eq_at_split(u, ur, a, k - 1, i, j);
            let b = eq_at(ur, j, k - 1);
            lemma_refl(b);
            broadcast use group_shadow;

            assert((ai * b) * (1 - uk) == ai * (b * (1 - uk))) by (nonlinear_arith);
            lemma_shadow_eq(
                fmul(fmul(ai, b), fsub(1, uk)),
                (ai * b) * (1 - uk),
                fmul(ai, fmul(b, fsub(1, uk))),
                ai * (b * (1 - uk)),
            );
        } else {
            assert(p2(a) * j + i >= ph && p2(a) * j + i - ph == p2(a) * (j - h) + i)
                by (nonlinear_arith)
                requires
                    ph == p2(a) * h,
                    j >= h,
                    0 <= i,
                    0 < p2(a),
            ;
            lemma_eq_at_split(u, ur, a, k - 1, i, j - h);
            let b = eq_at(ur, j - h, k - 1);
            lemma_refl(b);
            broadcast use group_shadow;

            assert((ai * b) * uk == ai * (b * uk)) by (nonlinear_arith);
            lemma_shadow_eq(
                fmul(fmul(ai, b), uk),
                (ai * b) * uk,
                fmul(ai, fmul(b, uk)),
                ai * (b * uk),
            );
        }
    }
}

/// The eq vector depends on the variables that it runs over only.
pub proof fn lemma_eq_at_ext(u: Seq<int>, v: Seq<int>, i: int, n: int)
    requires
        forall|t: int| 0 <= t < n ==> u[t] == v[t],
    ensures
        eq_at(u, i, n) == eq_at(v, i, n),
    decreases n,
{
    if n > 0 {
        lemma_eq_at_ext(u, v, i, n - 1);
        lemma_eq_at_ext(u, v, i - p2(n - 1), n - 1);
    }
}

/// `sum_{j < n} F[i, j] psi[j]` for a table with columns of length `ml`.
pub open spec fn row_sum(f: Seq<int>, psi: Seq<int>, ml: int, i: int, n: int) -> int
    decreases n,
{
    if n <= 0 {
        0
    } else {
        fadd(row_sum(f, psi, ml, i, n - 1), fmul(f[ml * (n - 1) + i], psi[n - 1]))
    }
}

/// The sequence `sum_{j < n} F[i, j] psi[j]` over `i`.
pub open spec fn fold_rows(f: Seq<int>, psi: Seq<int>, ml: int, n: int) -> Seq<int> {
    Seq::new(ml as nat, |i: int| row_sum(f, psi, ml, i, n))
}

proof fn lemma_fold_step(
    f: Seq<int>,
    psi: Seq<int>,
    e: Seq<int>,
    ml: int,
    j: int,
    n: int,
)
    requires
        0 <= j,
        0 <= n <= ml,
        0 < ml,
        ml * j + ml <= f.len(),
    ensures
        dot(fold_rows(f, psi, ml, j + 1), e, n) == fadd(
            dot(fold_rows(f, psi, ml, j), e, n),
            fmul(psi[j], dot(block(f, ml, j), e, n)),
        ),
    decreases n,
{
    broadcast use group_reduced;

    lemma_modulus();
    let p = psi[j];
    lemma_refl(p);
    lemma_refl(0);
    if n == 0 {
        broadcast use group_shadow;

        assert(0 + p * 0 == 0) by (nonlinear_arith);
        lemma_shadow_eq(0, 0, fadd(0, fmul(p, 0)), 0 + p * 0);
    } else {
        lemma_fold_step(f, psi, e, ml, j, n - 1);
        let a = dot(fold_rows(f, psi, ml, j), e, n - 1);
        let b = dot(block(f, ml, j), e, n - 1);
        let rs = row_sum(f, psi, ml, n - 1, j);
        assert(0 <= ml * j) by (nonlinear_arith)
            requires
                0 < ml,
                0 <= j,
        ;
        let c = block(f, ml, j)[n - 1];
        assert(c == f[ml * j + (n - 1)]);
        let en = e[n - 1];
        assert(fold_rows(f, psi, ml, j + 1)[n - 1] == fadd(rs, fmul(c, p)));
        lemma_refl(a);
        lemma_refl(b);
        lemma_refl(rs);
        lemma_refl(c);
        lemma_refl(en);
        broadcast use group_shadow;

        assert((a + p * b) + (rs + c * p) * en == (a + rs * en) + p * (b + c * en))
            by (nonlinear_arith);
        lemma_shadow_eq(
            fadd(fadd(a, fmul(p, b)), fmul(fadd(rs, fmul(c, p)), en)),
            (a + p * b) + (rs + c * p) * en,
            fadd(fadd(a, fmul(rs, en)), fmul(p, fadd(b, fmul(c, en)))),
            (a + rs * en) + p * (b + c * en),
        );
    }
}

/// An inner product with a factored eq vector, block by block.
proof fn lemma_block_dot(
    f: Seq<int>,
    ef: Seq<int>,
    e: Seq<int>,
    p: int,
    ml: int,
    j: int,
    n: int,
)
    requires
        0 <= j,
        0 <= n <= ml,
        0 < ml,
        ml * j + ml <= f.len(),
        forall|i: int| 0 <= i < ml ==> #[trigger] ef[ml * j + i] == fmul(e[i], p),
    ensures
        dot(f, ef, ml * j + n) == fadd(dot(f, ef, ml * j), fmul(p, dot(block(f, ml, j), e, n))),
    decreases n,
{
    broadcast use group_reduced;

    lemma_modulus();
    let d = dot(f, ef, ml * j);
    lemma_dot_reduced(f, ef, ml * j);
    lemma_refl(p);
    lemma_refl(0);
    lemma_refl(d);
    assert(0 <= ml * j) by (nonlinear_arith)
        requires
            0 < ml,
            0 <= j,
    ;
    if n == 0 {
        broadcast use group_shadow;

        assert(d + p * 0 == d) by (nonlinear_arith);
        lemma_shadow_eq(d, d, fadd(d, fmul(p, 0)), d + p * 0);
    } else {
        lemma_block_dot(f, ef, e, p, ml, j, n - 1);
        let b = dot(block(f, ml, j), e, n - 1);
        let c = block(f, ml, j)[n - 1];
        assert(c == f[ml * j + (n - 1)]);
        let en = e[n - 1];
        assert(ef[ml * j + (n - 1)] == fmul(en, p));
        lemma_refl(b);
        lemma_refl(c);
        lemma_refl(en);
        broadcast use group_shadow;

        assert((d + p * b) + c * (en * p) == d + p * (b + c * en)) by (nonlinear_arith);
        lemma_shadow_eq(
            fadd(fadd(d, fmul(p, b)), fmul(c, fmul(en, p))),
            (d + p * b) + c * (en * p),
            fadd(d, fmul(p, fadd(b, fmul(c, en)))),
            d + p * (b + c * en),
        );
    }
}

proof fn lemma_fold_value_partial(f: Seq<int>, u: Seq<int>, ul: Seq<int>, ur: Seq<int>, j: int)
    requires
        u.len() == ul.len() + ur.len(),
        forall|t: int| 0 <= t < ul.len() ==> #[trigger] ul[t] == u[t],
        forall|t: int| 0 <= t < ur.len() ==> #[trigger] ur[t] == u[ul.len() + t],
        f.len() == p2(u.len() as int),
        0 <= j <= p2(ur.len() as int),
    ensures
        dot(
            fold_rows(f, eq_vec(ur, ur.len() as int), p2(ul.len() as int), j),
            eq_vec(ul, ul.len() as int),
            p2(ul.len() as int),
        ) == dot(f, eq_vec(u, u.len() as int), p2(ul.len() as int) * j),
    decreases j,
{
    broadcast use group_reduced;

    let a = ul.len() as int;
    let b = ur.len() as int;
    let ml = p2(a);
    let mr = p2(b);
    let el = eq_vec(ul, a);
    let er = eq_vec(ur, b);
    let ef = eq_vec(u, a + b);
    vstd::arithmetic::power2::lemma_pow2_adds(a as nat, b as nat);
    vstd::arithmetic::power2::lemma_pow2_pos(a as nat);
    if j == 0 {
        assert(ml * 0 == 0) by (nonlinear_arith);
        lemma_zero_dot(fold_rows(f, er, ml, 0), el, ml);
    } else {
        lemma_fold_value_partial(f, u, ul, ur, j - 1);
        assert(ml * j == ml * (j - 1) + ml && ml * (j - 1) + ml <= ml * mr) by (nonlinear_arith)
            requires
                1 <= j <= mr,
                0 < ml,
        ;
        lemma_fold_step(f, er, el, ml, j - 1, ml);
        assert forall|i: int| 0 <= i < ml implies #[trigger] ef[ml * (j - 1) + i] == fmul(
            el[i],
            er[j - 1],
        ) by {
            lemma_eq_at_split(u, ur, a, b, i, j - 1);
            lemma_eq_at_ext(u, ul, i, a);
        }
        lemma_block_dot(f, ef, el, er[j - 1], ml, j - 1, ml);
    }
}

proof fn lemma_zero_dot(a: Seq<int>, b: Seq<int>, n: int)
    requires
        forall|i: int| 0 <= i < n ==> #[trigger] a[i] == 0,
    ensures
        dot(a, b, n) == 0,
    decreases n,
{
    broadcast use group_reduced;

    lemma_modulus();
    if n > 0 {
        lemma_zero_dot(a, b, n - 1);
        let y = b[n - 1];
        lemma_refl(0);
        lemma_refl(y);
        broadcast use group_shadow;

        assert(0 + 0 * y == 0) by (nonlinear_arith);
        lemma_shadow_eq(fadd(0, fmul(0, y)), 0 + 0 * y, 0, 0);
    }
}

/// Evaluation in two stages: folding the rows of a table with the eq vector of
/// the high variables and pairing with that of the low ones gives the
/// multilinear evaluation.
pub proof fn law_two_stage_evaluation(f: Seq<int>, u: Seq<int>, ul: Seq<int>, ur: Seq<int>)
    requires
        u =~= ul + ur,
        f.len() == p2(u.len() as int),
    ensures
        dot(
            fold_rows(
                f,
                eq_vec(ur, ur.len() as int),
                p2(ul.len() as int),
                p2(ur.len() as int),
            ),
            eq_vec(ul, ul.len() as int),
            p2(ul.len() as int),
        ) == mle_eval(f, u),
{
    vstd::arithmetic::power2::lemma_pow2_adds(ul.len(), ur.len());
    lemma_fold_value_partial(f, u, ul, ur, p2(ur.len() as int));
}

/// Folding the rows and evaluating commute: `g(x) = <f(x, .), psi>`.
pub proof fn lemma_fold_eval(f: Seq<int>, psi: Seq<int>, ml: int, mr: int, n: int, x: int)
    requires
        0 < ml,
        0 <= n <= mr,
        f.len() == ml * mr,
    ensures
        feval(fold_rows(f, psi, ml, n), x) == dot(block_values(f, ml, mr, x), psi, n),
    decreases n,
{
    broadcast use group_reduced;

    lemma_modulus();
    let r = fold_rows(f, psi, ml, n);
    lemma_tail_reduced(r, x, 0);
    lemma_refl(0);
    if n == 0 {
        assert forall|k: int| 0 <= k implies cong(#[trigger] at(r, k), at(Seq::<int>::empty(), k)) by {}
        lemma_eval_cong(r, Seq::empty(), x);
        assert(feval(Seq::<int>::empty(), x) == 0);
    } else {
        lemma_fold_eval(f, psi, ml, mr, n - 1, x);
        let q = fold_rows(f, psi, ml, n - 1);
        let b = block(f, ml, n - 1);
        let p = psi[n - 1];
        assert(0 <= ml * (n - 1) && ml * (n - 1) + ml <= ml * mr) by (nonlinear_arith)
            requires
                0 < ml,
                1 <= n <= mr,
        ;
        lemma_refl(p);
        assert forall|k: int| 0 <= k implies cong(#[trigger] at(r, k), 1 * at(q, k) + p * at(b, k)) by {
            if k < ml {
                assert(r[k] == fadd(q[k], fmul(b[k], p)));
                lemma_refl(q[k]);
                lemma_refl(b[k]);
                assert(1 * q[k] + p * b[k] == q[k] + b[k] * p) by (nonlinear_arith);
                broadcast use group_shadow;

            } else {
                assert(1int * 0 + p * 0 == 0) by (nonlinear_arith);
            }
        }
        lemma_eval_lin(r, q, b, 1, p, x);
        let qv = feval(q, x);
        let bv = feval(b, x);
        assert(block_values(f, ml, mr, x)[n - 1] == bv);
        lemma_refl(qv);
        lemma_refl(bv);
        assert(1 * qv + p * bv == qv + bv * p) by (nonlinear_arith);
        broadcast use group_shadow;

        lemma_shadow_eq(feval(r, x), 1 * qv + p * bv, fadd(qv, fmul(bv, p)), qv + bv * p);
    }
}

/// Value of a sequence that mixes two others entry by entry.
pub proof fn lemma_eval_mix(v: Seq<int>, a: Seq<int>, b: Seq<int>, t: int, x: int)
    requires
        v.len() == a.len() == b.len(),
        forall|j: int| 0 <= j < v.len() ==> #[trigger] v[j] == fadd(a[j], fmul(t, b[j])),
    ensures
        feval(v, x) == fadd(feval(a, x), fmul(t, feval(b, x))),
{
    broadcast use group_reduced;

    lemma_refl(t);
    lemma_refl(0);
    assert forall|k: int| 0 <= k implies cong(#[trigger] at(v, k), 1 * at(a, k) + t * at(b, k)) by {
        if k < v.len() {
            assert(v[k] == fadd(a[k], fmul(t, b[k])));
            lemma_refl(a[k]);
            lemma_refl(b[k]);
            broadcast use group_shadow;

        } else {
            assert(1int * 0 + t * 0 == 0) by (nonlinear_arith);
        }
    }
    lemma_eval_lin(v, a, b, 1, t, x);
    let av = feval(a, x);
    let bv = feval(b, x);
    lemma_refl(av);
    lemma_refl(bv);
    lemma_tail_reduced(v, x, 0);
    broadcast use group_shadow;

    lemma_shadow_eq(feval(v, x), 1 * av + t * bv, fadd(av, fmul(t, bv)), av + t * bv);
}

/// The sums `sum_j F[i, j] psi[j]` of the rows of a table.
pub fn fold_table(evals: &[Scalar], psi_r: &[Scalar], big_ml: usize, big_mr: usize) -> (g: Vec<
    Scalar,
>)
    requires
        evals@.len() == big_ml * big_mr,
        psi_r@.len() == big_mr,
    ensures
        vals(g@) == fold_rows(vals(evals@), vals(psi_r@), big_ml as int, big_mr as int),
        g@.len() == big_ml,
{
    let total: usize = evals.len();
    let ghost f = vals(evals@);
    let ghost psi = vals(psi_r@);
    let mut g: Vec<Scalar> = Vec::new();
    let mut i: usize = 0;
    while i < big_ml
        invariant
            i <= big_ml,
            evals@.len() == total == big_ml * big_mr,
            psi_r@.len() == big_mr,
            f == vals(evals@),
            psi == vals(psi_r@),
            g@.len() == i,
            forall|k: int|
                0 <= k < i ==> (#[trigger] g@[k])@ == row_sum(
                    f,
                    psi,
                    big_ml as int,
                    k,
                    big_mr as int,
                ),
        decreases big_ml - i,
    {
        let mut acc = Scalar::zero();
        let mut j: usize = 0;
        while j < big_mr
            invariant
                i < big_ml,
                j <= big_mr,
                evals@.len() == total == big_ml * big_mr,
                psi_r@.len() == big_mr,
                f == vals(evals@),
                psi == vals(psi_r@),
                acc@ == row_sum(f, psi, big_ml as int, i as int, j as int),
            decreases big_mr - j,
        {
            proof {
                lemma_row_major(big_ml as int, big_mr as int, i as int, j as int);
                assert(big_ml * j == j * big_ml) by (nonlinear_arith);
            }
            acc = acc.add(evals[i + big_ml * j].mul(psi_r[j]));
            j = j + 1;
        }
        g.push(acc);
        i = i + 1;
    }
    assert(vals(g@) =~= fold_rows(f, psi, big_ml as int, big_mr as int));
    g
}

/// An inner product whose first sequence is zero is zero.
pub proof fn lemma_dot_zero(a: Seq<int>, b: Seq<int>, n: int)
    requires
        forall|i: int| 0 <= i < n ==> #[trigger] a[i] == 0,
    ensures
        dot(a, b, n) == 0,
    decreases n,
{
    broadcast use group_reduced;

    if n > 0 {
        lemma_dot_zero(a, b, n - 1);
        let w = b[n - 1];
        lemma_modulus();
        lemma_refl(0);
        lemma_refl(w);
        assert(a[n - 1] == 0);
        assert(0 + 0 * w == 0) by (nonlinear_arith);
        broadcast use group_shadow;

        lemma_shadow_eq(fadd(0, fmul(0, w)), 0 + 0 * w, 0, 0);
    }
}

/// A polynomial in fewer variables has the same value as its table and the
/// point padded with zeros.
pub proof fn law_padding_keeps_value(f: Seq<int>, u: Seq<int>, k: nat)
    requires
        u.len() <= k,
        f.len() == p2(u.len() as int),
    ensures
        mle_eval(padded(f, pow2(k)), padded(u, k)) == mle_eval(f, u),
{
    let n0 = u.len() as int;
    let fp = padded(f, pow2(k));
    let up = padded(u, k);
    lemma_pow2_mono(n0, k as int);
    assert forall|i: int| 0 <= i < p2(n0) implies eq_vec(up, n0)[i] == eq_vec(u, n0)[i] by {
        lemma_eq_at_ext(up, u, i, n0);
    }
    lemma_dot_ext(fp, f, eq_vec(up, n0), eq_vec(u, n0), p2(n0));
    lemma_padding_steps(f, u, k, k as int);
}

proof fn lemma_padding_steps(f: Seq<int>, u: Seq<int>, k: nat, n: int)
    requires
        u.len() <= n <= k,
        f.len() == p2(u.len() as int),
    ensures
        dot(padded(f, pow2(k)), eq_vec(padded(u, k), n), p2(n)) == dot(
            padded(f, pow2(k)),
            eq_vec(padded(u, k), u.len() as int),
            p2(u.len() as int),
        ),
    decreases n,
{
    broadcast use group_reduced;

    if n > u.len() {
        lemma_padding_steps(f, u, k, n - 1);
        let fp = padded(f, pow2(k));
        let up = padded(u, k);
        let h = p2(n - 1);
        lemma_p2_step(n);
        lemma_pow2_mono(n, k as int);
        lemma_pow2_mono(u.len() as int, n - 1);
        let e = eq_vec(up, n);
        let hi = fp.subrange(h, 2 * h);
        lemma_dot_split(fp, e, h, hi, e.subrange(h, 2 * h), h);
        lemma_dot_zero(hi, e.subrange(h, 2 * h), h);
        assert forall|i: int| 0 <= i < h implies e[i] == eq_vec(up, n - 1)[i] by {
            let w = eq_at(up, i, n - 1);
            lemma_modulus();
            lemma_eq_at_reduced(up, i, n - 1);
            lemma_refl(w);
            lemma_refl(1);
            lemma_refl(0);
            assert(up[n - 1] == 0);
            assert(w * (1 - 0) == w) by (nonlinear_arith);
            broadcast use group_shadow;

            lemma_shadow_eq(fmul(w, fsub(1, 0)), w * (1 - 0), w, w);
        }
        lemma_dot_ext(fp, fp, e, eq_vec(up, n - 1), h);
        let d = dot(fp, eq_vec(up, n - 1), h);
        lemma_dot_reduced(fp, eq_vec(up, n - 1), h);
        lemma_refl(d);
        lemma_refl(0);
        broadcast use group_shadow;

        lemma_shadow_eq(fadd(d, 0), d + 0, d, d);
    }
}

/// `a + lambda b`.
pub open spec fn combine(a: Seq<int>, b: Seq<int>, lambda: int) -> Seq<int> {
    Seq::new(a.len(), |j: int| fadd(a[j], fmul(lambda, b[j])))
}

/// `a + lambda b`, entry by entry.
pub fn combine_scalars(a: &[Scalar], b: &[Scalar], lambda: Scalar) -> (r: Vec<Scalar>)
    requires
        a@.len() == b@.len(),
    ensures
        vals(r@) == combine(vals(a@), vals(b@), lambda@),
        r@.len() == a@.len(),
{
    let mut r: Vec<Scalar> = Vec::new();
    let mut j: usize = 0;
    while j < a.len()
        invariant
            j <= a@.len(),
            a@.len() == b@.len(),
            r@.len() == j,
            forall|k: int|
                0 <= k < j ==> (#[trigger] r@[k])@ == fadd(a@[k]@, fmul(lambda@, b@[k]@)),
        decreases a@.len() - j,
    {
        r.push(a[j].add(lambda.mul(b[j])));
        j = j + 1;
    }
    assert(vals(r@) =~= combine(vals(a@), vals(b@), lambda@));
    r
}

/// An inner product of a combination.
pub proof fn lemma_combine_dot(a: Seq<int>, b: Seq<int>, lambda: int, e: Seq<int>, n: int)
    requires
        0 <= n <= a.len(),
        a.len() == b.len(),
    ensures
        dot(combine(a, b, lambda), e, n) == fadd(dot(a, e, n), fmul(lambda, dot(b, e, n))),
    decreases n,
{
    broadcast use group_reduced;

    lemma_modulus();
    lemma_refl(lambda);
    lemma_refl(0);
    if n == 0 {
        assert(0 + lambda * 0 == 0) by (nonlinear_arith);
        broadcast use group_shadow;

        lemma_shadow_eq(0, 0, fadd(0, fmul(lambda, 0)), 0 + lambda * 0);
    } else {
        lemma_combine_dot(a, b, lambda, e, n - 1);
        let da = dot(a, e, n - 1);
        let db = dot(b, e, n - 1);
        let x = a[n - 1];
        let y = b[n - 1];
        let w = e[n - 1];
        lemma_refl(da);
        lemma_refl(db);
        lemma_refl(x);
        lemma_refl(y);
        lemma_refl(w);
        lemma_ring_combine(da, db, x, y, w, lambda);
        broadcast use group_shadow;

        lemma_shadow_eq(
            fadd(fadd(da, fmul(lambda, db)), fmul(fadd(x, fmul(lambda, y)), w)),
            (da + lambda * db) + (x + lambda * y) * w,
            fadd(fadd(da, fmul(x, w)), fmul(lambda, fadd(db, fmul(y, w)))),
            (da + x * w) + lambda * (db + y * w),
        );
    }
}

proof fn lemma_ring_combine(da: int, db: int, x: int, y: int, w: int, l: int)
    ensures
        (da + l * db) + (x + l * y) * w == (da + x * w) + l * (db + y * w),
{
    assert((x + l * y) * w == x * w + (l * y) * w) by (nonlinear_arith);
    assert(l * (db + y * w) == l * db + l * (y * w)) by (nonlinear_arith);
    assert((l * y) * w == l * (y * w)) by (nonlinear_arith);
}

} // verus!
