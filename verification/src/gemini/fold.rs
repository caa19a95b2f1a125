//! Folding of a table by one variable after the other.
//!
//! Read as coefficients, a table splits into its even and its odd part. The
//! fold by `u` is `(1 - u)` times the even part plus `u` times the odd part:
//! the table of the polynomial with its first variable set to `u`.

use crate::bdfg::poly_views;
use crate::dims::copy_scalars;
use crate::field::{
    cong, fadd, fmul, fneg, fsub, group_reduced, group_shadow, lemma_refl, lemma_shadow_eq, vals,
    Scalar,
};
use crate::grid::block;
use crate::mercury::fold::{block_dots, law_restriction_value};
use crate::poly::{at, dot, feval, lemma_eval_lin, lemma_tail_reduced, tail};
use crate::tensor::{eq_at, eq_vec, lemma_p2_step, lemma_p2_zero, mle_eval, p2};
use vstd::prelude::*;

verus! {

/// The table with its first variable set to `u`.
pub open spec fn folded(c: Seq<int>, u: int) -> Seq<int> {
    Seq::new(c.len() / 2, |i: int| fadd(fmul(fsub(1, u), c[2 * i]), fmul(u, c[2 * i + 1])))
}

/// The table with its first `k` variables set.
pub open spec fn folds(f: Seq<int>, u: Seq<int>, k: int) -> Seq<int>
    decreases k,
{
    if k <= 0 {
        f
    } else {
        folded(folds(f, u, k - 1), u[k - 1])
    }
}

/// The table and its folds, `n` tables in all.
pub open spec fn fold_list(f: Seq<int>, u: Seq<int>, n: nat) -> Seq<Seq<int>> {
    Seq::new(n, |k: int| folds(f, u, k))
}

/// Coefficients of the even powers.
pub open spec fn even_part(c: Seq<int>) -> Seq<int> {
    Seq::new(c.len() / 2, |i: int| c[2 * i])
}

/// Coefficients of the odd powers.
pub open spec fn odd_part(c: Seq<int>) -> Seq<int> {
    Seq::new(c.len() / 2, |i: int| c[2 * i + 1])
}

/// The table with its first variable set to `u`.
pub fn fold_polynomial(coeffs: &[Scalar], u: Scalar) -> (r: Vec<Scalar>)
    ensures
        vals(r@) == folded(vals(coeffs@), u@),
{
    let total: usize = coeffs.len();
    let half: usize = total / 2;
    let rest = Scalar::one().sub(u);
    let mut r: Vec<Scalar> = Vec::new();
    let mut i: usize = 0;
    while i < half
        invariant
            total == coeffs@.len(),
            half == total / 2,
            i <= half,
            rest@ == fsub(1, u@),
            r@.len() == i,
            forall|k: int|
                0 <= k < i ==> (#[trigger] r@[k])@ == folded(vals(coeffs@), u@)[k],
        decreases half - i,
    {
        r.push(rest.mul(coeffs[2 * i]).add(u.mul(coeffs[2 * i + 1])));
        i = i + 1;
    }
    assert(vals(r@) =~= folded(vals(coeffs@), u@));
    r
}

/// The table and its folds by all variables but the last.
pub fn fold_all(evals: &[Scalar], point: &[Scalar]) -> (r: Vec<Vec<Scalar>>)
    requires
        point@.len() >= 1,
    ensures
        poly_views(r@) == fold_list(vals(evals@), vals(point@), point@.len()),
{
    let ghost f = vals(evals@);
    let ghost u = vals(point@);
    let mut r: Vec<Vec<Scalar>> = Vec::new();
    r.push(copy_scalars(evals));
    let mut i: usize = 0;
    while i < point.len() - 1
        invariant
            0 < point@.len(),
            i < point@.len(),
            f == vals(evals@),
            u == vals(point@),
            r@.len() == i + 1,
            forall|k: int| 0 <= k <= i ==> vals((#[trigger] r@[k])@) == folds(f, u, k),
        decreases point@.len() - i,
    {
        let next = fold_polynomial(r[i].as_slice(), point[i]);
        r.push(next);
        i = i + 1;
    }
    assert(poly_views(r@) =~= fold_list(f, u, point@.len()));
    r
}

/// Lengths of the folds.
pub proof fn lemma_folds_len(f: Seq<int>, u: Seq<int>, mu: int, k: int)
    requires
        0 <= k <= mu,
        f.len() == p2(mu),
    ensures
        folds(f, u, k).len() == p2(mu - k),
    decreases k,
{
    if k > 0 {
        lemma_folds_len(f, u, mu, k - 1);
        lemma_p2_step(mu - k + 1);
    }
}

proof fn lemma_ring_parts(e: int, o: int, x: int, c0: int, c1: int)
    ensures
        ((e + x * o) * x + c1) * x + c0 == (e * (x * x) + c0) + x * (o * (x * x) + c1),
{
    assert(((e + x * o) * x + c1) * x == e * (x * x) + x * (o * (x * x)) + c1 * x)
        by (nonlinear_arith);
    assert(x * (o * (x * x) + c1) == x * (o * (x * x)) + c1 * x) by (nonlinear_arith);
}

proof fn lemma_parts_from(c: Seq<int>, x: int, i: int)
    requires
        c.len() % 2 == 0,
        0 <= i <= c.len() / 2,
    ensures
        tail(c, x, 2 * i) == fadd(
            tail(even_part(c), fmul(x, x), i),
            fmul(x, tail(odd_part(c), fmul(x, x), i)),
        ),
    decreases c.len() / 2 - i,
{
    broadcast use group_reduced;

    let y = fmul(x, x);
    let ev = even_part(c);
    let od = odd_part(c);
    lemma_refl(x);
    lemma_refl(0);
    if i == c.len() / 2 {
        broadcast use group_shadow;

        assert(x * 0 == 0) by (nonlinear_arith);
        lemma_shadow_eq(0, 0, fadd(0, fmul(x, 0)), 0 + x * 0);
    } else {
        lemma_parts_from(c, x, i + 1);
        reveal_with_fuel(tail, 3);
        let e = tail(ev, y, i + 1);
        let o = tail(od, y, i + 1);
        let c0 = c[2 * i];
        let c1 = c[2 * i + 1];
        assert(tail(c, x, 2 * i) == fadd(fmul(fadd(fmul(tail(c, x, 2 * i + 2), x), c1), x), c0));
        lemma_refl(e);
        lemma_refl(o);
        lemma_refl(c0);
        lemma_refl(c1);
        lemma_ring_parts(e, o, x, c0, c1);
        broadcast use group_shadow;

        lemma_shadow_eq(
            tail(c, x, 2 * i),
            ((e + x * o) * x + c1) * x + c0,
            fadd(fadd(fmul(e, y), c0), fmul(x, fadd(fmul(o, y), c1))),
            (e * (x * x) + c0) + x * (o * (x * x) + c1),
        );
    }
}

/// A polynomial from its even and its odd part.
pub proof fn law_even_odd(c: Seq<int>, x: int)
    requires
        c.len() % 2 == 0,
    ensures
        feval(c, x) == fadd(
            feval(even_part(c), fmul(x, x)),
            fmul(x, feval(odd_part(c), fmul(x, x))),
        ),
{
    lemma_parts_from(c, x, 0);
}

proof fn lemma_fold_eval(c: Seq<int>, u: int, y: int)
    ensures
        feval(folded(c, u), y) == fadd(
            fmul(fsub(1, u), feval(even_part(c), y)),
            fmul(u, feval(odd_part(c), y)),
        ),
{
    broadcast use group_reduced;

    let f = folded(c, u);
    let ev = even_part(c);
    let od = odd_part(c);
    let v = fsub(1, u);
    lemma_refl(u);
    lemma_refl(v);
    lemma_refl(0);
    assert forall|k: int| 0 <= k implies cong(#[trigger] at(f, k), v * at(ev, k) + u * at(od, k)) by {
        if k < c.len() / 2 {
            lemma_refl(c[2 * k]);
            lemma_refl(c[2 * k + 1]);
            assert(at(f, k) == fadd(fmul(v, c[2 * k]), fmul(u, c[2 * k + 1])));
            broadcast use group_shadow;

        } else {
            assert(v * 0 + u * 0 == 0) by (nonlinear_arith);
        }
    }
    lemma_eval_lin(f, ev, od, v, u, y);
    let e = feval(ev, y);
    let o = feval(od, y);
    lemma_refl(e);
    lemma_refl(o);
    lemma_tail_reduced(f, y, 0);
    broadcast use group_shadow;

    lemma_shadow_eq(feval(f, y), v * e + u * o, fadd(fmul(v, e), fmul(u, o)), v * e + u * o);
}

/// What the verifier asks of the values of a table and of its fold.
pub open spec fn fold_relation(r: int, u: int, pos: int, neg: int, next: int) -> bool {
    fmul(fmul(2, r), next) == fadd(
        fmul(fmul(fsub(1, u), r), fadd(pos, neg)),
        fmul(u, fsub(pos, neg)),
    )
}

proof fn lemma_ring_fold(r: int, u: int, e: int, o: int)
    ensures
        (2 * r) * ((1 - u) * e + u * o) == ((1 - u) * r) * ((e + r * o) + (e + (-r) * o)) + u * ((e
            + r * o) - (e + (-r) * o)),
{
    assert((e + r * o) + (e + (-r) * o) == 2 * e) by (nonlinear_arith);
    assert((e + r * o) - (e + (-r) * o) == 2 * (r * o)) by (nonlinear_arith);
    assert(((1 - u) * r) * (2 * e) == (2 * r) * ((1 - u) * e)) by (nonlinear_arith);
    assert(u * (2 * (r * o)) == (2 * r) * (u * o)) by (nonlinear_arith);
    assert((2 * r) * ((1 - u) * e + u * o) == (2 * r) * ((1 - u) * e) + (2 * r) * (u * o))
        by (nonlinear_arith);
}

/// The values of a table at `r` and `-r` and of its fold at `r^2` satisfy the
/// fold relation.
pub proof fn law_fold_relation(c: Seq<int>, u: int, r: int)
    requires
        c.len() % 2 == 0,
    ensures
        fold_relation(
            r,
            u,
            feval(c, r),
            feval(c, fneg(r)),
            feval(folded(c, u), fmul(r, r)),
        ),
{
    broadcast use group_reduced;

    let y = fmul(r, r);
    let m = fneg(r);
    lemma_refl(r);
    lemma_refl(u);
    lemma_refl(1);
    lemma_refl(2);
    assert(fmul(m, m) == y) by {
        broadcast use group_shadow;

        assert((-r) * (-r) == r * r) by (nonlinear_arith);
        lemma_shadow_eq(fmul(m, m), (-r) * (-r), y, r * r);
    }
    law_even_odd(c, r);
    law_even_odd(c, m);
    lemma_fold_eval(c, u, y);
    let e = feval(even_part(c), y);
    let o = feval(odd_part(c), y);
    lemma_refl(e);
    lemma_refl(o);
    lemma_ring_fold(r, u, e, o);
    broadcast use group_shadow;

    let pos = fadd(e, fmul(r, o));
    let neg = fadd(e, fmul(m, o));
    let next = fadd(fmul(fsub(1, u), e), fmul(u, o));
    lemma_shadow_eq(
        fmul(fmul(2, r), next),
        (2 * r) * ((1 - u) * e + u * o),
        fadd(fmul(fmul(fsub(1, u), r), fadd(pos, neg)), fmul(u, fsub(pos, neg))),
        ((1 - u) * r) * ((e + r * o) + (e + (-r) * o)) + u * ((e + r * o) - (e + (-r) * o)),
    );
}

/// The fold by the first variable, evaluated at the others, is the value at
/// the point.
pub proof fn law_fold_value(f: Seq<int>, u: Seq<int>)
    requires
        u.len() >= 1,
        f.len() == p2(u.len() as int),
    ensures
        mle_eval(folded(f, u[0]), u.skip(1)) == mle_eval(f, u),
{
    broadcast use group_reduced;

    let u1 = seq![u[0]];
    let u2 = u.skip(1);
    let n = p2(u2.len() as int);
    assert(u1 + u2 =~= u);
    law_restriction_value(f, u1, u2);
    lemma_p2_zero();
    lemma_p2_step(1);
    lemma_p2_step(u.len() as int);
    let e = eq_vec(u1, 1);
    let h = block_dots(f, e, 2, n);
    let c = folded(f, u[0]);
    assert(c.len() == n);
    assert forall|j: int| 0 <= j < n implies h[j] == #[trigger] c[j] by {
        let a = f[2 * j];
        let b = f[2 * j + 1];
        let bl = block(f, 2, j);
        assert(bl[0] == a && bl[1] == b);
        reveal_with_fuel(dot, 3);
        reveal_with_fuel(eq_at, 2);
        assert(e[0] == fmul(1, fsub(1, u[0])));
        assert(e[1] == fmul(1, u[0]));
        lemma_refl(a);
        lemma_refl(b);
        lemma_refl(u[0]);
        lemma_refl(1);
        lemma_refl(0);
        let x = u[0];
        assert((0 + a * (1 * (1 - x))) + b * (1 * x) == (1 - x) * a + x * b) by (nonlinear_arith);
        broadcast use group_shadow;

        lemma_shadow_eq(
            fadd(fadd(0, fmul(a, fmul(1, fsub(1, x)))), fmul(b, fmul(1, x))),
            (0 + a * (1 * (1 - x))) + b * (1 * x),
            c[j],
            (1 - x) * a + x * b,
        );
    }
    assert(h =~= c);
}

/// The folds by the first `k` variables, evaluated at the others, are the value
/// at the point.
pub proof fn law_folds_value(f: Seq<int>, u: Seq<int>, k: int)
    requires
        0 <= k <= u.len(),
        f.len() == p2(u.len() as int),
    ensures
        mle_eval(folds(f, u, k), u.skip(k)) == mle_eval(f, u),
    decreases k,
{
    if k == 0 {
        assert(u.skip(0) =~= u);
    } else {
        law_folds_value(f, u, k - 1);
        lemma_folds_len(f, u, u.len() as int, k - 1);
        let v = u.skip(k - 1);
        law_fold_value(folds(f, u, k - 1), v);
        assert(v.skip(1) =~= u.skip(k));
        assert(v[0] == u[k - 1]);
    }
}

/// The last fold has two coefficients, and its fold by the last variable is the
/// value at the point.
pub proof fn law_last_fold(f: Seq<int>, u: Seq<int>)
    requires
        u.len() >= 1,
        f.len() == p2(u.len() as int),
    ensures
        folds(f, u, u.len() - 1).len() == 2,
        ({
            let c = folds(f, u, u.len() - 1);
            let x = u[u.len() - 1];
            fadd(fmul(fsub(1, x), c[0]), fmul(x, c[1]))
        }) == mle_eval(f, u),
{
    broadcast use group_reduced;

    let n = u.len() as int;
    lemma_p2_zero();
    lemma_p2_step(1);
    lemma_folds_len(f, u, n, n - 1);
    law_folds_value(f, u, n);
    let c = folds(f, u, n);
    let none = u.skip(n);
    assert(none.len() == 0);
    reveal_with_fuel(dot, 2);
    let v = c[0];
    lemma_refl(v);
    lemma_refl(1);
    lemma_refl(0);
    broadcast use group_shadow;

    lemma_shadow_eq(fadd(0, fmul(v, 1)), 0 + v * 1, v, v);
}

} // verus!
