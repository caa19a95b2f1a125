//! Folding of a univariate polynomial by a binomial, and the restriction that
//! goes with it.

use crate::dims::{lemma_column, lemma_pow2_mono, lemma_row_major, padded};
use crate::field::{
    cong, fadd, fmul, fpow, fsub, group_reduced, group_shadow, lemma_cong_add, lemma_cong_mul,
    lemma_cong_trans, lemma_fpow_reduced, lemma_modulus, lemma_refl, lemma_shadow_eq, reduced,
};
use crate::grid::{
    block, block_values, combine, fold_rows, law_two_stage_evaluation, lemma_combine_dot,
    lemma_dot_zero, lemma_eval_mix,
};
use crate::laurent::lemma_inverse_pow;
use crate::poly::{
    at, dot, feval, lemma_eval_cong, lemma_eval_const, lemma_eval_split, lemma_linear_division,
    lemma_tail_reduced, linear_quotient, tail,
};
use crate::tensor::{eq_vec, mle_eval, p2, tensor};
use vstd::arithmetic::power2::pow2;
use vstd::prelude::*;

verus! {

/// The part of the fold that comes from the blocks from the `k`-th on:
/// `sum_{j >= k} alpha^{j - k} f_j` over blocks `f_j` of length `b`.
pub open spec fn fold_tail(f: Seq<int>, b: int, n: int, alpha: int, k: int) -> Seq<int>
    decreases n - k,
{
    if k >= n {
        Seq::new(b as nat, |i: int| 0int)
    } else {
        combine(block(f, b, k), fold_tail(f, b, n, alpha, k + 1), alpha)
    }
}

/// The remainder of `f` by `X^b - alpha`.
pub open spec fn fold_remainder(f: Seq<int>, b: int, n: int, alpha: int) -> Seq<int> {
    fold_tail(f, b, n, alpha, 0)
}

/// The quotient of `f` by `X^b - alpha`.
pub open spec fn fold_quotient(f: Seq<int>, b: int, n: int, alpha: int) -> Seq<int> {
    Seq::new(
        (b * (n - 1)) as nat,
        |p: int| fold_tail(f, b, n, alpha, p / b + 1)[p % b],
    )
}

/// The inner products of the blocks with `e`.
pub open spec fn block_dots(f: Seq<int>, e: Seq<int>, b: int, n: int) -> Seq<int> {
    Seq::new(n as nat, |j: int| dot(block(f, b, j), e, b))
}

pub proof fn lemma_fold_tail_len(f: Seq<int>, b: int, n: int, alpha: int, k: int)
    requires
        0 <= b,
        0 <= k,
        f.len() == b * n,
    ensures
        fold_tail(f, b, n, alpha, k).len() == b,
    decreases n - k,
{
    if k < n {
        lemma_column(b, n, k);
        lemma_fold_tail_len(f, b, n, alpha, k + 1);
    }
}

/// Value of a polynomial from the values of its blocks.
pub proof fn lemma_eval_blocks(f: Seq<int>, b: int, n: int, x: int)
    requires
        1 <= b,
        0 <= n,
        f.len() == b * n,
    ensures
        feval(f, x) == feval(block_values(f, b, n, x), fpow(x, b as nat)),
    decreases n,
{
    broadcast use group_reduced;

    let v = block_values(f, b, n, x);
    let y = fpow(x, b as nat);
    if n == 0 {
        assert(b * 0 == 0) by (nonlinear_arith);
    } else {
        lemma_column(b, n, 0);
        assert(b * 0 == 0) by (nonlinear_arith);
        let rest = f.subrange(b, f.len() as int);
        assert(b * n == b + b * (n - 1)) by (nonlinear_arith);
        lemma_eval_split(f, b, x);
        assert(f.subrange(0, b) =~= block(f, b, 0));
        lemma_eval_blocks(rest, b, n - 1, x);
        let w = block_values(rest, b, n - 1, x);
        lemma_eval_split(v, 1, y);
        assert(v.subrange(1, n) =~= w) by {
            assert forall|j: int| 0 <= j < n - 1 implies v.subrange(1, n)[j] == w[j] by {
                lemma_column(b, n - 1, j);
                assert(b * (j + 1) == b * j + b) by (nonlinear_arith);
                assert(block(f, b, j + 1) =~= block(rest, b, j));
            }
        }
        assert(v.subrange(0, 1) =~= seq![v[0]]);
        lemma_eval_const(v[0], y);
        lemma_tail_reduced(block(f, b, 0), x, 0);
        assert(fpow(y, 1) == y) by {
            reveal_with_fuel(fpow, 2);
            lemma_fpow_reduced(x, b as nat);
            lemma_refl(1);
            lemma_refl(y);
            assert(1 * y == y) by (nonlinear_arith);
            broadcast use group_shadow;

            lemma_shadow_eq(fmul(1, y), 1 * y, y, y);
        }
    }
}

/// Value of a partial fold from the values of the blocks.
pub proof fn lemma_fold_tail_eval(f: Seq<int>, b: int, n: int, alpha: int, k: int, x: int)
    requires
        0 <= b,
        0 <= k <= n,
        f.len() == b * n,
    ensures
        feval(fold_tail(f, b, n, alpha, k), x) == tail(block_values(f, b, n, x), alpha, k),
    decreases n - k,
{
    broadcast use group_reduced;

    let v = block_values(f, b, n, x);
    let g = fold_tail(f, b, n, alpha, k);
    if k >= n {
        lemma_modulus();
        let e = Seq::<int>::empty();
        assert forall|i: int| 0 <= i implies cong(#[trigger] at(g, i), at(e, i)) by {
            lemma_refl(0);
        }
        lemma_eval_cong(g, e, x);
    } else {
        lemma_column(b, n, k);
        lemma_fold_tail_len(f, b, n, alpha, k + 1);
        lemma_fold_tail_eval(f, b, n, alpha, k + 1, x);
        let row = block(f, b, k);
        let next = fold_tail(f, b, n, alpha, k + 1);
        lemma_eval_mix(g, row, next, alpha, x);
        let r = feval(row, x);
        let t = feval(next, x);
        lemma_refl(r);
        lemma_refl(t);
        lemma_refl(alpha);
        assert(r + alpha * t == t * alpha + r) by (nonlinear_arith);
        broadcast use group_shadow;

        lemma_shadow_eq(
            fadd(r, fmul(alpha, t)),
            r + alpha * t,
            fadd(fmul(t, alpha), r),
            t * alpha + r,
        );
    }
}

/// Division by a binomial: `f(X) = (X^b - alpha) q(X) + g(X)`.
pub proof fn law_fold(f: Seq<int>, b: int, n: int, alpha: int, x: int)
    requires
        1 <= b,
        1 <= n,
        f.len() == b * n,
    ensures
        feval(f, x) == fadd(
            fmul(fsub(fpow(x, b as nat), alpha), feval(fold_quotient(f, b, n, alpha), x)),
            feval(fold_remainder(f, b, n, alpha), x),
        ),
{
    broadcast use group_reduced;

    let y = fpow(x, b as nat);
    let v = block_values(f, b, n, x);
    let q = fold_quotient(f, b, n, alpha);
    assert(0 <= b * (n - 1)) by (nonlinear_arith)
        requires
            1 <= b,
            1 <= n,
    ;
    lemma_eval_blocks(f, b, n, x);
    lemma_eval_blocks(q, b, n - 1, x);
    let w = block_values(q, b, n - 1, x);
    assert(w =~= linear_quotient(v, alpha)) by {
        assert forall|k: int| 0 <= k < n - 1 implies w[k] == linear_quotient(v, alpha)[k] by {
            lemma_column(b, n - 1, k);
            lemma_fold_tail_len(f, b, n, alpha, k + 1);
            let t = fold_tail(f, b, n, alpha, k + 1);
            assert(block(q, b, k) =~= t) by {
                assert forall|i: int| 0 <= i < b implies block(q, b, k)[i] == t[i] by {
                    lemma_row_major(b, n - 1, i, k);
                    assert(k * b == b * k) by (nonlinear_arith);
                }
            }
            lemma_fold_tail_eval(f, b, n, alpha, k + 1, x);
        }
    }
    lemma_linear_division(v, alpha, y);
    lemma_fold_tail_eval(f, b, n, alpha, 0, x);
    let l = feval(w, y);
    let d = fsub(y, alpha);
    let r = feval(v, alpha);
    lemma_refl(l);
    lemma_refl(d);
    lemma_refl(r);
    assert(l * d + r == d * l + r) by (nonlinear_arith);
    broadcast use group_shadow;

    lemma_shadow_eq(fadd(fmul(l, d), r), l * d + r, fadd(fmul(d, l), r), d * l + r);
}

proof fn lemma_fold_tail_dot(f: Seq<int>, b: int, n: int, alpha: int, e: Seq<int>, k: int)
    requires
        0 <= b,
        0 <= k <= n,
        f.len() == b * n,
    ensures
        dot(fold_tail(f, b, n, alpha, k), e, b) == tail(block_dots(f, e, b, n), alpha, k),
    decreases n - k,
{
    broadcast use group_reduced;

    let v = block_dots(f, e, b, n);
    let g = fold_tail(f, b, n, alpha, k);
    if k >= n {
        lemma_dot_zero(g, e, b);
    } else {
        lemma_column(b, n, k);
        lemma_fold_tail_len(f, b, n, alpha, k + 1);
        lemma_fold_tail_dot(f, b, n, alpha, e, k + 1);
        let row = block(f, b, k);
        let next = fold_tail(f, b, n, alpha, k + 1);
        lemma_combine_dot(row, next, alpha, e, b);
        let r = dot(row, e, b);
        let t = dot(next, e, b);
        lemma_refl(r);
        lemma_refl(t);
        lemma_refl(alpha);
        assert(r + alpha * t == t * alpha + r) by (nonlinear_arith);
        broadcast use group_shadow;

        lemma_shadow_eq(
            fadd(r, fmul(alpha, t)),
            r + alpha * t,
            fadd(fmul(t, alpha), r),
            t * alpha + r,
        );
    }
}

/// The fold and the restriction take the same value: the inner product of the
/// fold at `alpha` with `e` is the restriction by `e` at `alpha`.
pub proof fn law_fold_restriction(f: Seq<int>, b: int, n: int, alpha: int, e: Seq<int>)
    requires
        0 <= b,
        0 <= n,
        f.len() == b * n,
    ensures
        dot(fold_remainder(f, b, n, alpha), e, b) == feval(block_dots(f, e, b, n), alpha),
{
    lemma_fold_tail_dot(f, b, n, alpha, e, 0);
}

/// The order of the two inner products with a table does not matter.
pub proof fn law_exchange(f: Seq<int>, psi: Seq<int>, e: Seq<int>, b: int, n: int, k: int)
    requires
        0 <= b,
        0 <= k <= n,
        f.len() == b * n,
    ensures
        dot(fold_rows(f, psi, b, k), e, b) == dot(block_dots(f, e, b, n), psi, k),
    decreases k,
{
    broadcast use group_reduced;

    let g = fold_rows(f, psi, b, k);
    if k == 0 {
        lemma_dot_zero(g, e, b);
    } else {
        lemma_column(b, n, k - 1);
        law_exchange(f, psi, e, b, n, k - 1);
        let prev = fold_rows(f, psi, b, k - 1);
        let row = block(f, b, k - 1);
        let w = psi[k - 1];
        assert(g =~= combine(prev, row, w)) by {
            assert forall|i: int| 0 <= i < b implies g[i] == combine(prev, row, w)[i] by {
                assert(row[i] == f[b * (k - 1) + i]);
                assert(row[i] * w == w * row[i]) by (nonlinear_arith);
            }
        }
        lemma_combine_dot(prev, row, w, e, b);
        let r = dot(row, e, b);
        assert(w * r == r * w) by (nonlinear_arith);
    }
}

/// The restriction by the first part of a point, evaluated at the rest, is the
/// value at the point.
pub proof fn law_restriction_value(f: Seq<int>, u1: Seq<int>, u2: Seq<int>)
    requires
        f.len() == p2((u1 + u2).len() as int),
    ensures
        dot(
            block_dots(
                f,
                eq_vec(u1, u1.len() as int),
                p2(u1.len() as int),
                p2(u2.len() as int),
            ),
            eq_vec(u2, u2.len() as int),
            p2(u2.len() as int),
        ) == mle_eval(f, u1 + u2),
{
    let b = p2(u1.len() as int);
    let n = p2(u2.len() as int);
    vstd::arithmetic::power2::lemma_pow2_adds(u1.len(), u2.len());
    lemma_pow2_mono(0, u1.len() as int);
    lemma_pow2_mono(0, u2.len() as int);
    law_two_stage_evaluation(f, u1 + u2, u1, u2);
    law_exchange(f, eq_vec(u2, u2.len() as int), eq_vec(u1, u1.len() as int), b, n, n);
}

/// The coefficients in reverse order.
pub open spec fn reversed(g: Seq<int>) -> Seq<int> {
    Seq::new(g.len(), |i: int| g[g.len() - 1 - i])
}

/// `D(x) = x^{b - 1} g(1/x)` for the reversed coefficients.
pub proof fn law_reversed(g: Seq<int>, x: int, y: int)
    requires
        g.len() >= 1,
        fmul(x, y) == 1,
    ensures
        feval(reversed(g), x) == fmul(fpow(x, (g.len() - 1) as nat), feval(g, y)),
    decreases g.len(),
{
    broadcast use group_reduced;

    lemma_modulus();
    let n = g.len() as int;
    if n == 1 {
        assert(reversed(g) =~= g);
        assert(g =~= seq![g[0]]);
        lemma_eval_const(g[0], x);
        lemma_eval_const(g[0], y);
        let v = feval(g, y);
        lemma_tail_reduced(g, y, 0);
        lemma_refl(1);
        lemma_refl(v);
        assert(1 * v == v) by (nonlinear_arith);
        broadcast use group_shadow;

        lemma_shadow_eq(fmul(1, v), 1 * v, v, v);
    } else {
        let h = g.subrange(0, n - 1);
        let top = g[n - 1];
        law_reversed(h, x, y);
        let r = reversed(g);
        lemma_eval_split(r, 1, x);
        assert(r.subrange(0, 1) =~= seq![top]);
        assert(r.subrange(1, n) =~= reversed(h));
        lemma_eval_const(top, x);
        lemma_eval_split(g, n - 1, y);
        assert(g.subrange(n - 1, n) =~= seq![top]);
        lemma_eval_const(top, y);
        let a = feval(h, y);
        let xn = fpow(x, (n - 2) as nat);
        let yn = fpow(y, (n - 1) as nat);
        lemma_inverse_pow(x, y, (n - 1) as nat);
        let t = fadd(0, top);
        assert(fpow(x, 1) == fmul(1, x)) by {
            reveal_with_fuel(fpow, 2);
        }
        assert(fpow(x, (n - 1) as nat) == fmul(xn, x));
        lemma_reversed_step(a, xn, yn, x, t);
    }
}

proof fn lemma_reversed_step(a: int, xn: int, yn: int, x: int, t: int)
    requires
        fmul(fmul(xn, x), yn) == 1,
    ensures
        fadd(t, fmul(fmul(1, x), fmul(xn, a))) == fmul(fmul(xn, x), fadd(a, fmul(yn, t))),
{
    broadcast use group_reduced;

    lemma_refl(1);
    lemma_refl(a);
    lemma_refl(xn);
    lemma_refl(yn);
    lemma_refl(x);
    lemma_refl(t);
    let lhs = fadd(t, fmul(fmul(1, x), fmul(xn, a)));
    let rhs = fmul(fmul(xn, x), fadd(a, fmul(yn, t)));
    let l = t + (1 * x) * (xn * a);
    let r = (xn * x) * (a + yn * t);
    assert(cong(lhs, l)) by {
        broadcast use group_shadow;

    }
    assert(cong(rhs, r)) by {
        broadcast use group_shadow;

    }
    let one = (xn * x) * yn;
    assert(cong(1, one)) by {
        broadcast use group_shadow;

        assert(cong(fmul(fmul(xn, x), yn), one));
    }
    assert(r == (xn * x) * a + one * t) by (nonlinear_arith)
        requires
            r == (xn * x) * (a + yn * t),
            one == (xn * x) * yn,
    ;
    assert((1 * x) * (xn * a) == (xn * x) * a) by (nonlinear_arith);
    lemma_cong_mul(1, one, t, t);
    lemma_refl((xn * x) * a);
    lemma_cong_add((xn * x) * a, (xn * x) * a, 1 * t, one * t);
    assert(cong(l, r));
    lemma_cong_trans(lhs, l, r);
    lemma_shadow_eq(lhs, r, rhs, r);
}

/// Zeros at the end of a point do not change its tensor polynomial.
pub proof fn lemma_tensor_padded(u: Seq<int>, k: nat, x: int, n: int)
    requires
        u.len() <= n <= k,
    ensures
        tensor(padded(u, k), x, n) == tensor(u, x, u.len() as int),
    decreases n,
{
    broadcast use group_reduced;

    lemma_modulus();
    let up = padded(u, k);
    if n == u.len() {
        lemma_tensor_ext(up, u, x, n);
    } else {
        lemma_tensor_padded(u, k, x, n - 1);
        let a = tensor(up, x, n - 1);
        let p = fpow(x, pow2((n - 1) as nat));
        lemma_refl(a);
        lemma_refl(0);
        lemma_refl(1);
        lemma_refl(p);
        assert(up[n - 1] == 0);
        lemma_tensor_reduced(up, x, n - 1);
        assert(a * ((1 - 0) + 0 * p) == a) by (nonlinear_arith);
        broadcast use group_shadow;

        lemma_shadow_eq(fmul(a, fadd(fsub(1, 0), fmul(0, p))), a * ((1 - 0) + 0 * p), a, a);
    }
}

proof fn lemma_tensor_ext(u: Seq<int>, v: Seq<int>, x: int, n: int)
    requires
        forall|i: int| 0 <= i < n ==> u[i] == v[i],
    ensures
        tensor(u, x, n) == tensor(v, x, n),
    decreases n,
{
    if n > 0 {
        lemma_tensor_ext(u, v, x, n - 1);
    }
}

proof fn lemma_tensor_reduced(u: Seq<int>, x: int, n: int)
    ensures
        reduced(tensor(u, x, n)),
{
    broadcast use group_reduced;

    lemma_modulus();
}

} // verus!
