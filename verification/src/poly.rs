//! Univariate polynomials over the scalar field, as coefficient sequences with
//! the constant term first.

use crate::field::{
    cong, fadd, finv, fmul, fneg, fpow, fsub, group_reduced, group_shadow, is_inverse,
    lemma_cong_add, lemma_cong_eq, lemma_cong_mul, lemma_cong_sub, lemma_cong_symm,
    lemma_cong_trans, lemma_modulus, lemma_refl, lemma_shadow_eq, reduced, vals, Scalar,
};
use vstd::prelude::*;

verus! {

/// Value at `x` of the polynomial whose coefficients are `p[i], p[i + 1], ..`.
pub open spec fn tail(p: Seq<int>, x: int, i: int) -> int
    decreases p.len() - i,
{
    if i >= p.len() {
        0
    } else {
        fadd(fmul(tail(p, x, i + 1), x), p[i])
    }
}

/// Value of a polynomial at a point.
pub open spec fn feval(p: Seq<int>, x: int) -> int {
    tail(p, x, 0)
}

/// Inner product of the first `n` entries of two sequences.
pub open spec fn dot(a: Seq<int>, b: Seq<int>, n: int) -> int
    decreases n,
{
    if n <= 0 {
        0
    } else {
        fadd(dot(a, b, n - 1), fmul(a[n - 1], b[n - 1]))
    }
}

/// The quotient of a polynomial by `X - root`: its `i`-th coefficient is the
/// value at the root of the part of the polynomial above `X^i`.
pub open spec fn linear_quotient(p: Seq<int>, root: int) -> Seq<int> {
    Seq::new((p.len() - 1) as nat, |i: int| tail(p, root, i + 1))
}

proof fn lemma_linear_division_from(p: Seq<int>, root: int, x: int, i: int)
    requires
        0 <= i < p.len(),
    ensures
        tail(p, x, i) == fadd(
            fmul(tail(linear_quotient(p, root), x, i), fsub(x, root)),
            tail(p, root, i),
        ),
    decreases p.len() - i,
{
    broadcast use group_reduced;

    let q = linear_quotient(p, root);
    if i + 1 < p.len() {
        lemma_linear_division_from(p, root, x, i + 1);
        let e = tail(p, x, i + 1);
        let b = tail(p, root, i + 1);
        let c = p[i];
        let t = tail(q, x, i + 1);
        assert(q[i] == b);
        assert(tail(p, x, i) == fadd(fmul(e, x), c));
        assert(tail(p, root, i) == fadd(fmul(b, root), c));
        assert(tail(q, x, i) == fadd(fmul(t, x), b));
        broadcast use group_shadow;

        lemma_refl(x);
        lemma_refl(root);
        lemma_refl(b);
        lemma_refl(c);
        lemma_refl(t);
        assert(cong(e, t * (x - root) + b));
        assert(cong(fadd(fmul(e, x), c), (t * (x - root) + b) * x + c));
        assert(cong(
            fadd(fmul(fadd(fmul(t, x), b), fsub(x, root)), fadd(fmul(b, root), c)),
            (t * x + b) * (x - root) + (b * root + c),
        ));
        assert((t * (x - root) + b) * x + c == (t * x + b) * (x - root) + (b * root + c))
            by (nonlinear_arith);
        lemma_shadow_eq(
            tail(p, x, i),
            (t * (x - root) + b) * x + c,
            fadd(fmul(fadd(fmul(t, x), b), fsub(x, root)), fadd(fmul(b, root), c)),
            (t * x + b) * (x - root) + (b * root + c),
        );
    } else {
        assert(tail(p, x, i + 1) == 0);
        assert(tail(p, root, i + 1) == 0);
        assert(tail(p, x, i) == fadd(fmul(0, x), p[i]));
        assert(tail(p, root, i) == fadd(fmul(0, root), p[i]));
        assert(tail(q, x, i) == 0);
        broadcast use group_shadow;

        lemma_refl(x);
        lemma_refl(root);
        lemma_refl(p[i]);
        lemma_refl(0);
        lemma_shadow_eq(
            fadd(fmul(0, x), p[i]),
            0 * x + p[i],
            fadd(fmul(0, fsub(x, root)), fadd(fmul(0, root), p[i])),
            0 * (x - root) + (0 * root + p[i]),
        );
    }
}

/// Division by a linear factor: `p(X) = q(X) (X - root) + p(root)`.
pub proof fn lemma_linear_division(p: Seq<int>, root: int, x: int)
    ensures
        p.len() > 0 ==> feval(p, x) == fadd(
            fmul(feval(linear_quotient(p, root), x), fsub(x, root)),
            feval(p, root),
        ),
{
    if p.len() > 0 {
        lemma_linear_division_from(p, root, x, 0);
    }
}

/// An inner product depends on the entries that it runs over only.
pub proof fn lemma_dot_ext(a: Seq<int>, a2: Seq<int>, b: Seq<int>, b2: Seq<int>, n: int)
    requires
        forall|i: int| 0 <= i < n ==> a[i] == a2[i],
        forall|i: int| 0 <= i < n ==> b[i] == b2[i],
    ensures
        dot(a, b, n) == dot(a2, b2, n),
    decreases n,
{
    if n > 0 {
        lemma_dot_ext(a, a2, b, b2, n - 1);
    }
}

/// Whether every entry is a canonical representative.
pub open spec fn all_reduced(p: Seq<int>) -> bool {
    forall|i: int| 0 <= i < p.len() ==> reduced(#[trigger] p[i])
}

/// Scalars have reduced values.
pub proof fn lemma_vals_reduced(s: Seq<Scalar>)
    ensures
        all_reduced(vals(s)),
{
    broadcast use group_reduced;

}

/// Coefficient of `X^i`, zero outside the sequence.
pub open spec fn at(p: Seq<int>, i: int) -> int {
    if 0 <= i < p.len() {
        p[i]
    } else {
        0
    }
}

pub proof fn lemma_tail_reduced(p: Seq<int>, x: int, i: int)
    ensures
        reduced(tail(p, x, i)),
{
    broadcast use group_reduced;

    lemma_modulus();
}

/// One step of Horner's rule, also beyond the end of the sequence.
pub proof fn lemma_tail_step(p: Seq<int>, x: int, i: int)
    requires
        0 <= i,
    ensures
        tail(p, x, i) == fadd(fmul(tail(p, x, i + 1), x), at(p, i)),
        cong(tail(p, x, i), tail(p, x, i + 1) * x + at(p, i)),
{
    broadcast use group_shadow, group_reduced;

    lemma_refl(tail(p, x, i + 1));
    lemma_refl(x);
    lemma_refl(at(p, i));
    if i >= p.len() {
        assert(tail(p, x, i) == 0);
        assert(tail(p, x, i + 1) == 0);
        assert(0 * x + 0 == 0) by (nonlinear_arith);
        lemma_refl(0);
        lemma_modulus();
        lemma_shadow_eq(0, 0, fadd(fmul(0, x), 0), 0 * x + 0);
    }
}

proof fn lemma_tail_lin(
    r: Seq<int>,
    a: Seq<int>,
    b: Seq<int>,
    u: int,
    v: int,
    x: int,
    i: int,
    top: int,
)
    requires
        0 <= i <= top,
        r.len() <= top,
        a.len() <= top,
        b.len() <= top,
        forall|k: int| 0 <= k ==> cong(#[trigger] at(r, k), u * at(a, k) + v * at(b, k)),
    ensures
        cong(tail(r, x, i), u * tail(a, x, i) + v * tail(b, x, i)),
    decreases top - i,
{
    if i == top {
        assert(u * 0 + v * 0 == 0) by (nonlinear_arith);
        lemma_refl(0);
    } else {
        lemma_tail_lin(r, a, b, u, v, x, i + 1, top);
        lemma_tail_step(r, x, i);
        lemma_tail_step(a, x, i);
        lemma_tail_step(b, x, i);
        let r1 = tail(r, x, i + 1);
        let a1 = tail(a, x, i + 1);
        let b1 = tail(b, x, i + 1);
        let ra = at(r, i);
        let aa = at(a, i);
        let ba = at(b, i);
        assert(cong(ra, u * aa + v * ba));
        lemma_refl(x);
        lemma_refl(u);
        lemma_refl(v);
        lemma_cong_mul(r1, u * a1 + v * b1, x, x);
        lemma_cong_add(r1 * x, (u * a1 + v * b1) * x, ra, u * aa + v * ba);
        lemma_cong_trans(tail(r, x, i), r1 * x + ra, (u * a1 + v * b1) * x + (u * aa + v * ba));
        lemma_cong_mul(u, u, tail(a, x, i), a1 * x + aa);
        lemma_cong_mul(v, v, tail(b, x, i), b1 * x + ba);
        lemma_cong_add(
            u * tail(a, x, i),
            u * (a1 * x + aa),
            v * tail(b, x, i),
            v * (b1 * x + ba),
        );
        assert((u * a1 + v * b1) * x + (u * aa + v * ba) == u * (a1 * x + aa) + v * (b1 * x + ba))
            by (nonlinear_arith);
        lemma_cong_symm(
            u * tail(a, x, i) + v * tail(b, x, i),
            u * (a1 * x + aa) + v * (b1 * x + ba),
        );
        lemma_cong_trans(
            tail(r, x, i),
            (u * a1 + v * b1) * x + (u * aa + v * ba),
            u * tail(a, x, i) + v * tail(b, x, i),
        );
    }
}

/// A polynomial whose coefficients are `u a + v b` takes the value
/// `u a(x) + v b(x)`.
pub proof fn lemma_eval_lin(r: Seq<int>, a: Seq<int>, b: Seq<int>, u: int, v: int, x: int)
    requires
        forall|k: int| 0 <= k ==> cong(#[trigger] at(r, k), u * at(a, k) + v * at(b, k)),
    ensures
        cong(feval(r, x), u * feval(a, x) + v * feval(b, x)),
{
    let top = r.len() + a.len() + b.len();
    lemma_tail_lin(r, a, b, u, v, x, 0, top as int);
}

/// Polynomials with congruent coefficients have equal values at congruent
/// points.
pub proof fn lemma_eval_cong(r: Seq<int>, a: Seq<int>, x: int)
    requires
        forall|k: int| 0 <= k ==> cong(#[trigger] at(r, k), at(a, k)),
    ensures
        feval(r, x) == feval(a, x),
{
    assert forall|k: int| 0 <= k implies cong(#[trigger] at(r, k), 1 * at(a, k) + 0 * at(a, k)) by {
        assert(1 * at(a, k) + 0 * at(a, k) == at(a, k)) by (nonlinear_arith);
    }
    lemma_eval_lin(r, a, a, 1, 0, x);
    assert(1 * feval(a, x) + 0 * feval(a, x) == feval(a, x)) by (nonlinear_arith);
    lemma_tail_reduced(r, x, 0);
    lemma_tail_reduced(a, x, 0);
    lemma_cong_eq(feval(r, x), feval(a, x));
}

/// Coefficients of `p(X) (X - root)`, one more than `p` has.
pub open spec fn p_mul_linear(p: Seq<int>, root: int) -> Seq<int> {
    Seq::new(p.len() + 1, |i: int| fsub(at(p, i - 1), fmul(root, at(p, i))))
}

/// Coefficients of `d + c s`; unchanged where `c` is zero.
pub open spec fn p_add_scaled(d: Seq<int>, s: Seq<int>, c: int) -> Seq<int> {
    if c == 0 {
        d
    } else {
        Seq::new(
            if d.len() >= s.len() {
                d.len()
            } else {
                s.len()
            },
            |i: int| if i < s.len() {
                fadd(at(d, i), fmul(c, s[i]))
            } else {
                d[i]
            },
        )
    }
}

/// Coefficients of `p - q`.
pub open spec fn p_sub(p: Seq<int>, q: Seq<int>) -> Seq<int> {
    Seq::new(
        if p.len() >= q.len() {
            p.len()
        } else {
            q.len()
        },
        |i: int| if i < q.len() {
            fsub(at(p, i), q[i])
        } else {
            p[i]
        },
    )
}

/// Coefficients of `d - c` for a constant `c`.
pub open spec fn p_sub_const(d: Seq<int>, c: int) -> Seq<int> {
    if d.len() == 0 {
        seq![fneg(c)]
    } else {
        d.update(0, fsub(d[0], c))
    }
}

/// The vanishing polynomial of the first `n` roots.
pub open spec fn p_vanishing(roots: Seq<int>, n: int) -> Seq<int>
    decreases n,
{
    if n <= 0 {
        seq![1int]
    } else {
        p_mul_linear(p_vanishing(roots, n - 1), roots[n - 1])
    }
}

/// Value at `x` of the vanishing polynomial of the first `n` roots.
pub open spec fn root_product(roots: Seq<int>, x: int, n: int) -> int
    decreases n,
{
    if n <= 0 {
        1
    } else {
        fmul(root_product(roots, x, n - 1), fsub(x, roots[n - 1]))
    }
}

proof fn lemma_tail_mul_linear(p: Seq<int>, root: int, x: int, i: int)
    requires
        1 <= i <= p.len() + 1,
    ensures
        cong(tail(p_mul_linear(p, root), x, i), tail(p, x, i - 1) - root * tail(p, x, i)),
    decreases p.len() + 1 - i,
{
    let r = p_mul_linear(p, root);
    let n: int = p.len() as int;
    if i == n + 1 {
        assert(tail(p, x, n) == 0);
        assert(tail(p, x, n + 1) == 0);
        assert(tail(r, x, i) == 0);
        assert(0 - root * 0 == 0) by (nonlinear_arith);
        lemma_refl(0);
    } else {
        lemma_tail_mul_linear(p, root, x, i + 1);
        lemma_tail_step(r, x, i);
        lemma_tail_step(p, x, i);
        lemma_tail_step(p, x, i - 1);
        let t0 = tail(p, x, i - 1);
        let t1 = tail(p, x, i);
        let t2 = tail(p, x, i + 1);
        let c0 = at(p, i - 1);
        let c1 = at(p, i);
        assert(at(r, i) == fsub(c0, fmul(root, c1)));
        assert(cong(at(r, i), c0 - root * c1)) by {
            broadcast use group_shadow;

            lemma_refl(c0);
            lemma_refl(root);
            lemma_refl(c1);
        }
        lemma_refl(x);
        lemma_refl(root);
        let r1 = tail(r, x, i + 1);
        lemma_cong_mul(r1, t1 - root * t2, x, x);
        lemma_cong_add(r1 * x, (t1 - root * t2) * x, at(r, i), c0 - root * c1);
        lemma_cong_trans(
            tail(r, x, i),
            r1 * x + at(r, i),
            (t1 - root * t2) * x + (c0 - root * c1),
        );
        // t0 - root t1 is congruent to (t1 x + c0) - root (t2 x + c1)
        lemma_cong_mul(root, root, t1, t2 * x + c1);
        lemma_cong_sub(t0, t1 * x + c0, root * t1, root * (t2 * x + c1));
        assert((t1 - root * t2) * x + (c0 - root * c1) == (t1 * x + c0) - root * (t2 * x + c1))
            by (nonlinear_arith);
        lemma_cong_symm(t0 - root * t1, (t1 * x + c0) - root * (t2 * x + c1));
        lemma_cong_trans(
            tail(r, x, i),
            (t1 - root * t2) * x + (c0 - root * c1),
            t0 - root * t1,
        );
    }
}

/// Multiplication by a linear factor multiplies values by `x - root`.
pub proof fn lemma_eval_mul_linear(p: Seq<int>, root: int, x: int)
    ensures
        feval(p_mul_linear(p, root), x) == fmul(feval(p, x), fsub(x, root)),
{
    broadcast use group_reduced;

    let r = p_mul_linear(p, root);
    lemma_tail_mul_linear(p, root, x, 1);
    lemma_tail_step(r, x, 0);
    lemma_tail_step(p, x, 0);
    let t0 = tail(p, x, 0);
    let t1 = tail(p, x, 1);
    let c = at(p, 0);
    let r1 = tail(r, x, 1);
    assert(at(r, 0) == fsub(0, fmul(root, c)));
    assert(cong(at(r, 0), 0 - root * c)) by {
        broadcast use group_shadow;

        lemma_refl(0);
        lemma_refl(root);
        lemma_refl(c);
    }
    lemma_refl(x);
    lemma_refl(root);
    lemma_refl(t0);
    lemma_cong_mul(r1, t0 - root * t1, x, x);
    lemma_cong_add(r1 * x, (t0 - root * t1) * x, at(r, 0), 0 - root * c);
    lemma_cong_trans(tail(r, x, 0), r1 * x + at(r, 0), (t0 - root * t1) * x + (0 - root * c));
    lemma_cong_mul(root, root, t0, t1 * x + c);
    lemma_refl(t0 * x);
    lemma_cong_sub(t0 * x, t0 * x, root * t0, root * (t1 * x + c));
    lemma_cong_symm(t0 * x - root * t0, t0 * x - root * (t1 * x + c));
    assert((t0 - root * t1) * x + (0 - root * c) == t0 * x - root * (t1 * x + c))
        by (nonlinear_arith);
    lemma_cong_trans(
        tail(r, x, 0),
        t0 * x - root * (t1 * x + c),
        t0 * x - root * t0,
    );
    assert(cong(fmul(t0, fsub(x, root)), t0 * (x - root))) by {
        broadcast use group_shadow;

    }
    assert(t0 * (x - root) == t0 * x - root * t0) by (nonlinear_arith);
    lemma_tail_reduced(r, x, 0);
    lemma_shadow_eq(
        feval(r, x),
        t0 * x - root * t0,
        fmul(t0, fsub(x, root)),
        t0 * (x - root),
    );
}

/// Multiplying by a linear factor and dividing it out again gives the polynomial
/// back, without a remainder.
pub proof fn law_multiply_then_divide(p: Seq<int>, root: int)
    requires
        p.len() > 0,
        all_reduced(p),
    ensures
        linear_quotient(p_mul_linear(p, root), root) == p,
        feval(p_mul_linear(p, root), root) == 0,
{
    let r = p_mul_linear(p, root);
    let q = linear_quotient(r, root);
    assert forall|i: int| 0 <= i < p.len() implies #[trigger] q[i] == p[i] by {
        let t0 = tail(p, root, i);
        let t1 = tail(p, root, i + 1);
        lemma_tail_mul_linear(p, root, root, i + 1);
        lemma_tail_step(p, root, i);
        lemma_refl(root * t1);
        lemma_cong_sub(t0, t1 * root + p[i], root * t1, root * t1);
        assert(t1 * root + p[i] - root * t1 == p[i]) by (nonlinear_arith);
        lemma_cong_trans(q[i], t0 - root * t1, p[i]);
        lemma_tail_reduced(r, root, i + 1);
        lemma_cong_eq(q[i], p[i]);
    }
    assert(q =~= p);
    lemma_eval_mul_linear(p, root, root);
    let v = feval(p, root);
    broadcast use group_shadow, group_reduced;

    lemma_modulus();
    lemma_refl(v);
    lemma_refl(root);
    lemma_refl(0);
    assert(v * (root - root) == 0) by (nonlinear_arith);
    lemma_shadow_eq(fmul(v, fsub(root, root)), v * (root - root), 0, 0);
}

/// Division by a linear factor: the quotient has one coefficient less, and
/// `p(X) - p(root)` is `(X - root)` times the quotient, in every coefficient and
/// so at every point.
pub proof fn law_linear_division(p: Seq<int>, root: int, x: int)
    requires
        p.len() > 0,
        all_reduced(p),
    ensures
        linear_quotient(p, root).len() == p.len() - 1,
        p_sub_const(p, feval(p, root)) == p_mul_linear(linear_quotient(p, root), root),
        feval(p, x) == fadd(
            fmul(feval(linear_quotient(p, root), x), fsub(x, root)),
            feval(p, root),
        ),
{
    let q = linear_quotient(p, root);
    let m = p_mul_linear(q, root);
    let d = p_sub_const(p, feval(p, root));
    lemma_linear_division(p, root, x);
    assert forall|i: int| 0 <= i < p.len() implies #[trigger] m[i] == d[i] by {
        let t0 = tail(p, root, i);
        let t1 = tail(p, root, i + 1);
        assert(at(q, i) == t1);
        lemma_tail_step(p, root, i);
        lemma_refl(root * t1);
        lemma_cong_sub(t0, t1 * root + p[i], root * t1, root * t1);
        assert(t1 * root + p[i] - root * t1 == p[i]) by (nonlinear_arith);
        broadcast use group_shadow, group_reduced;

        lemma_refl(0);
        lemma_refl(root);
        lemma_refl(t1);
        lemma_refl(t0);
        lemma_refl(p[i]);
        if i > 0 {
            assert(at(q, i - 1) == t0);
            lemma_cong_trans(fsub(t0, fmul(root, t1)), t0 - root * t1, p[i]);
            lemma_cong_eq(m[i], p[i]);
        } else {
            lemma_cong_sub(p[0], p[0], t0, t1 * root + p[0]);
            assert(p[0] - (t1 * root + p[0]) == 0 - root * t1) by (nonlinear_arith);
            lemma_cong_trans(fsub(p[0], t0), p[0] - t0, 0 - root * t1);
            lemma_shadow_eq(m[0], 0 - root * t1, d[0], 0 - root * t1);
        }
    }
    assert(m =~= d);
}

/// Value of a scaled sum.
pub proof fn lemma_eval_add_scaled(d: Seq<int>, s: Seq<int>, c: int, x: int)
    ensures
        feval(p_add_scaled(d, s, c), x) == fadd(feval(d, x), fmul(c, feval(s, x))),
{
    broadcast use group_reduced;

    let r = p_add_scaled(d, s, c);
    let dv = feval(d, x);
    let sv = feval(s, x);
    assert forall|k: int| 0 <= k implies cong(#[trigger] at(r, k), 1 * at(d, k) + c * at(s, k)) by {
        broadcast use group_shadow;

        lemma_refl(at(d, k));
        lemma_refl(at(s, k));
        lemma_refl(c);
        if c == 0 || k >= s.len() {
            assert(c * at(s, k) == 0) by (nonlinear_arith)
                requires
                    c == 0 || at(s, k) == 0,
            ;
        }
    }
    lemma_eval_lin(r, d, s, 1, c, x);
    lemma_tail_reduced(r, x, 0);
    assert(cong(fadd(dv, fmul(c, sv)), dv + c * sv)) by {
        broadcast use group_shadow;

        lemma_refl(dv);
        lemma_refl(c);
        lemma_refl(sv);
    }
    lemma_shadow_eq(feval(r, x), 1 * dv + c * sv, fadd(dv, fmul(c, sv)), dv + c * sv);
}

/// Value of a difference.
pub proof fn lemma_eval_sub(p: Seq<int>, q: Seq<int>, x: int)
    ensures
        feval(p_sub(p, q), x) == fsub(feval(p, x), feval(q, x)),
{
    broadcast use group_reduced;

    let r = p_sub(p, q);
    let pv = feval(p, x);
    let qv = feval(q, x);
    assert forall|k: int| 0 <= k implies cong(#[trigger] at(r, k), 1 * at(p, k) + (-1) * at(q, k)) by {
        broadcast use group_shadow;

        lemma_refl(at(p, k));
        lemma_refl(at(q, k));
    }
    lemma_eval_lin(r, p, q, 1, -1, x);
    lemma_tail_reduced(r, x, 0);
    assert(cong(fsub(pv, qv), pv - qv)) by {
        broadcast use group_shadow;

        lemma_refl(pv);
        lemma_refl(qv);
    }
    lemma_shadow_eq(feval(r, x), 1 * pv + (-1) * qv, fsub(pv, qv), pv - qv);
}

/// Value of a polynomial less a constant.
pub proof fn lemma_eval_sub_const(d: Seq<int>, c: int, x: int)
    ensures
        feval(p_sub_const(d, c), x) == fsub(feval(d, x), c),
{
    broadcast use group_reduced;

    let r = p_sub_const(d, c);
    let k1 = seq![c];
    let dv = feval(d, x);
    assert forall|k: int| 0 <= k implies cong(#[trigger] at(r, k), 1 * at(d, k) + (-1) * at(k1, k)) by {
        broadcast use group_shadow;

        lemma_refl(at(d, k));
        lemma_refl(c);
    }
    lemma_eval_lin(r, d, k1, 1, -1, x);
    lemma_tail_reduced(r, x, 0);
    assert(tail(k1, x, 1) == 0);
    assert(feval(k1, x) == fadd(fmul(0, x), c));
    assert(cong(feval(r, x), dv - c)) by {
        lemma_refl(0);
        lemma_refl(x);
        lemma_refl(c);
        lemma_refl(dv);
        assert(cong(fadd(fmul(0, x), c), 0 * x + c)) by {
            broadcast use group_shadow;

        }
        lemma_cong_sub(dv, dv, feval(k1, x), 0 * x + c);
        lemma_cong_trans(feval(r, x), dv - feval(k1, x), dv - (0 * x + c));
    }
    assert(cong(fsub(dv, c), dv - c)) by {
        broadcast use group_shadow;

        lemma_refl(dv);
        lemma_refl(c);
    }
    lemma_shadow_eq(feval(r, x), dv - c, fsub(dv, c), dv - c);
}

/// Value of a constant polynomial.
pub proof fn lemma_eval_const(c: int, x: int)
    ensures
        feval(seq![c], x) == fadd(0, c),
        reduced(c) ==> feval(seq![c], x) == c,
{
    broadcast use group_reduced;

    let k1 = seq![c];
    assert(tail(k1, x, 1) == 0);
    assert(feval(k1, x) == fadd(fmul(0, x), c));
    broadcast use group_shadow;

    lemma_refl(0);
    lemma_refl(x);
    lemma_refl(c);
    assert(0 * x == 0) by (nonlinear_arith);
    lemma_shadow_eq(fadd(fmul(0, x), c), 0 * x + c, fadd(0, c), 0 + c);
    if reduced(c) {
        lemma_shadow_eq(fadd(0, c), 0 + c, c, c);
    }
}

/// Value and length of a vanishing polynomial.
pub proof fn lemma_eval_vanishing(roots: Seq<int>, n: int, x: int)
    requires
        0 <= n <= roots.len(),
    ensures
        feval(p_vanishing(roots, n), x) == root_product(roots, x, n),
        p_vanishing(roots, n).len() == n + 1,
    decreases n,
{
    if n == 0 {
        lemma_modulus();
        lemma_eval_const(1, x);
    } else {
        lemma_eval_vanishing(roots, n - 1, x);
        lemma_eval_mul_linear(p_vanishing(roots, n - 1), roots[n - 1], x);
    }
}

/// A vanishing polynomial vanishes at each of its roots.
pub proof fn lemma_vanishing_vanishes(roots: Seq<int>, n: int, k: int)
    requires
        0 <= k < n <= roots.len(),
    ensures
        root_product(roots, roots[k], n) == 0,
    decreases n,
{
    broadcast use group_reduced;

    let x = roots[k];
    lemma_modulus();
    if k == n - 1 {
        let a = root_product(roots, x, n - 1);
        broadcast use group_shadow;

        lemma_refl(a);
        lemma_refl(x);
        lemma_refl(0);
        assert(a * (x - x) == 0) by (nonlinear_arith);
        lemma_shadow_eq(fmul(a, fsub(x, x)), a * (x - x), 0, 0);
    } else {
        lemma_vanishing_vanishes(roots, n - 1, k);
        let b = fsub(x, roots[n - 1]);
        broadcast use group_shadow;

        lemma_refl(0);
        lemma_refl(b);
        assert(0 * b == 0) by (nonlinear_arith);
        lemma_shadow_eq(fmul(0, b), 0 * b, 0, 0);
    }
}

/// A commitment key of powers evaluates: the inner product of `g x^i` with
/// the coefficients of a polynomial is `g` times the value at `x`.
pub proof fn lemma_power_key_eval(key: Seq<int>, g: int, x: int, c: Seq<int>, n: int)
    requires
        0 <= n <= c.len(),
        forall|i: int| 0 <= i < c.len() ==> #[trigger] key[i] == fmul(g, fpow(x, i as nat)),
    ensures
        fadd(dot(key, c, n), fmul(fmul(g, fpow(x, n as nat)), tail(c, x, n))) == fmul(
            g,
            feval(c, x),
        ),
    decreases n,
{
    broadcast use group_reduced;

    if n == 0 {
        let e = feval(c, x);
        assert(fpow(x, 0) == 1);
        broadcast use group_shadow;

        lemma_refl(0);
        lemma_refl(g);
        lemma_refl(1);
        lemma_refl(e);
        assert(0 + (g * 1) * e == g * e) by (nonlinear_arith);
        lemma_shadow_eq(fadd(0, fmul(fmul(g, 1), e)), 0 + (g * 1) * e, fmul(g, e), g * e);
    } else {
        lemma_power_key_eval(key, g, x, c, n - 1);
        let d = dot(key, c, n - 1);
        let w = fpow(x, (n - 1) as nat);
        let t = tail(c, x, n);
        let k = c[n - 1];
        assert(fpow(x, n as nat) == fmul(w, x));
        assert(tail(c, x, n - 1) == fadd(fmul(t, x), k));
        assert(dot(key, c, n) == fadd(d, fmul(fmul(g, w), k)));
        broadcast use group_shadow;

        lemma_refl(d);
        lemma_refl(g);
        lemma_refl(w);
        lemma_refl(t);
        lemma_refl(k);
        lemma_refl(x);
        assert((d + (g * w) * k) + (g * (w * x)) * t == d + (g * w) * (t * x + k))
            by (nonlinear_arith);
        lemma_shadow_eq(
            fadd(fadd(d, fmul(fmul(g, w), k)), fmul(fmul(g, fmul(w, x)), t)),
            (d + (g * w) * k) + (g * (w * x)) * t,
            fadd(d, fmul(fmul(g, w), fadd(fmul(t, x), k))),
            d + (g * w) * (t * x + k),
        );
    }
}

/// Commitment to a polynomial under a key of powers.
pub proof fn lemma_power_key(key: Seq<int>, g: int, x: int, c: Seq<int>)
    requires
        forall|i: int| 0 <= i < c.len() ==> #[trigger] key[i] == fmul(g, fpow(x, i as nat)),
    ensures
        dot(key, c, c.len() as int) == fmul(g, feval(c, x)),
{
    broadcast use group_reduced;

    let n = c.len() as int;
    lemma_power_key_eval(key, g, x, c, n);
    let d = dot(key, c, n);
    let w = fmul(g, fpow(x, n as nat));
    assert(tail(c, x, n) == 0);
    lemma_dot_reduced(key, c, n);
    broadcast use group_shadow;

    lemma_refl(d);
    lemma_refl(w);
    lemma_refl(0);
    assert(d + w * 0 == d) by (nonlinear_arith);
    lemma_shadow_eq(fadd(d, fmul(w, 0)), d + w * 0, d, d);
}

/// Inner product of integers.
pub open spec fn int_dot(a: Seq<int>, b: Seq<int>, n: int) -> int
    decreases n,
{
    if n <= 0 {
        0
    } else {
        int_dot(a, b, n - 1) + a[n - 1] * b[n - 1]
    }
}

/// An inner product names the same element as that of integers which name the
/// entries.
pub proof fn lemma_dot_shadow(a: Seq<int>, x: Seq<int>, b: Seq<int>, y: Seq<int>, n: int)
    requires
        forall|i: int| 0 <= i < n ==> cong(#[trigger] a[i], x[i]),
        forall|i: int| 0 <= i < n ==> cong(#[trigger] b[i], y[i]),
    ensures
        cong(dot(a, b, n), int_dot(x, y, n)),
    decreases n,
{
    if n <= 0 {
        lemma_refl(0);
    } else {
        lemma_dot_shadow(a, x, b, y, n - 1);
        broadcast use group_shadow;

        assert(cong(a[n - 1], x[n - 1]));
        assert(cong(b[n - 1], y[n - 1]));
        assert(cong(fmul(a[n - 1], b[n - 1]), x[n - 1] * y[n - 1]));
    }
}

pub proof fn lemma_dot_reduced(a: Seq<int>, b: Seq<int>, n: int)
    ensures
        reduced(dot(a, b, n)),
{
    broadcast use group_reduced;

    lemma_modulus();
}

/// Coefficient of `X^k` in the product of the first `n` terms of `a` with `b`.
pub open spec fn conv(a: Seq<int>, b: Seq<int>, k: int, n: int) -> int
    decreases n,
{
    if n <= 0 {
        0
    } else if 0 <= k - (n - 1) < b.len() {
        fadd(conv(a, b, k, n - 1), fmul(a[n - 1], b[k - (n - 1)]))
    } else {
        conv(a, b, k, n - 1)
    }
}

/// Coefficients of the product of two polynomials; empty where one of them is.
pub open spec fn p_mul(a: Seq<int>, b: Seq<int>) -> Seq<int> {
    if a.len() == 0 || b.len() == 0 {
        Seq::empty()
    } else {
        Seq::new((a.len() + b.len() - 1) as nat, |k: int| conv(a, b, k, a.len() as int))
    }
}

/// Coefficients of `X^n b(X)`, cut at the given length.
pub open spec fn shifted(b: Seq<int>, n: int, len: nat) -> Seq<int> {
    Seq::new(len, |k: int| at(b, k - n))
}

proof fn lemma_tail_shifted(b: Seq<int>, n: int, len: nat, x: int, i: int)
    requires
        0 <= n,
        n + b.len() <= len,
        0 <= i,
    ensures
        i >= n ==> tail(shifted(b, n, len), x, i) == tail(b, x, i - n),
        i < n ==> tail(shifted(b, n, len), x, i) == fmul(fpow(x, (n - i) as nat), feval(b, x)),
    decreases n + len - i,
{
    broadcast use group_reduced;

    let s = shifted(b, n, len);
    if i >= len {
        assert(tail(s, x, i) == 0);
        if i < n {
            assert(b.len() == 0);
        }
    } else {
        lemma_tail_shifted(b, n, len, x, i + 1);
        lemma_tail_step(s, x, i);
        if i >= n {
            lemma_tail_step(b, x, i - n);
        } else {
            assert(at(s, i) == 0);
            let e = feval(b, x);
            let t = tail(s, x, i + 1);
            if i + 1 == n {
                assert(t == e);
                assert(fpow(x, 0) == 1);
                assert(fpow(x, 1) == fmul(1, x));
                broadcast use group_shadow;

                lemma_refl(e);
                lemma_refl(x);
                lemma_refl(0);
                lemma_refl(1);
                assert(e * x + 0 == (1 * x) * e) by (nonlinear_arith);
                lemma_shadow_eq(
                    fadd(fmul(e, x), 0),
                    e * x + 0,
                    fmul(fmul(1, x), e),
                    (1 * x) * e,
                );
            } else {
                let w = fpow(x, (n - i - 1) as nat);
                assert(t == fmul(w, e));
                assert(fpow(x, (n - i) as nat) == fmul(w, x));
                broadcast use group_shadow;

                lemma_refl(e);
                lemma_refl(x);
                lemma_refl(0);
                lemma_refl(w);
                assert((w * e) * x + 0 == (w * x) * e) by (nonlinear_arith);
                lemma_shadow_eq(
                    fadd(fmul(fmul(w, e), x), 0),
                    (w * e) * x + 0,
                    fmul(fmul(w, x), e),
                    (w * x) * e,
                );
            }
        }
    }
}

proof fn lemma_eval_mul_partial(a: Seq<int>, b: Seq<int>, x: int, n: int, len: nat)
    requires
        0 < a.len(),
        0 < b.len(),
        len == a.len() + b.len() - 1,
        0 <= n <= a.len(),
    ensures
        fadd(
            feval(Seq::new(len, |k: int| conv(a, b, k, n)), x),
            fmul(fmul(fpow(x, n as nat), tail(a, x, n)), feval(b, x)),
        ) == fmul(feval(a, x), feval(b, x)),
    decreases n,
{
    broadcast use group_reduced;

    let r = Seq::new(len, |k: int| conv(a, b, k, n));
    let bv = feval(b, x);
    let av = feval(a, x);
    lemma_tail_reduced(r, x, 0);
    if n == 0 {
        assert forall|k: int| 0 <= k implies cong(#[trigger] at(r, k), at(Seq::<int>::empty(), k)) by {
            lemma_refl(0);
        }
        lemma_eval_cong(r, Seq::empty(), x);
        assert(feval(Seq::<int>::empty(), x) == 0);
        assert(fpow(x, 0) == 1);
        broadcast use group_shadow;

        lemma_refl(0);
        lemma_refl(1);
        lemma_refl(av);
        lemma_refl(bv);
        assert(0 + (1 * av) * bv == av * bv) by (nonlinear_arith);
        lemma_shadow_eq(
            fadd(0, fmul(fmul(1, av), bv)),
            0 + (1 * av) * bv,
            fmul(av, bv),
            av * bv,
        );
    } else {
        lemma_eval_mul_partial(a, b, x, n - 1, len);
        let q = Seq::new(len, |k: int| conv(a, b, k, n - 1));
        let s = shifted(b, n - 1, len);
        let c = a[n - 1];
        assert forall|k: int| 0 <= k implies cong(#[trigger] at(r, k), 1 * at(q, k) + c * at(s, k)) by {
            broadcast use group_shadow;

            lemma_refl(at(q, k));
            lemma_refl(c);
            lemma_refl(at(s, k));
            if k < len {
                if !(0 <= k - (n - 1) < b.len()) {
                    assert(at(s, k) == 0);
                    assert(c * at(s, k) == 0) by (nonlinear_arith)
                        requires
                            at(s, k) == 0,
                    ;
                }
            } else {
                assert(c * 0 == 0) by (nonlinear_arith);
                lemma_refl(0);
            }
        }
        lemma_eval_lin(r, q, s, 1, c, x);
        lemma_tail_shifted(b, n - 1, len, x, 0);
        let w = fpow(x, (n - 1) as nat);
        let sv = feval(s, x);
        assert(cong(sv, w * bv)) by {
            broadcast use group_shadow;

            lemma_refl(w);
            lemma_refl(bv);
            if n == 1 {
                assert(w == 1);
                assert(sv == bv);
                assert(w * bv == bv) by (nonlinear_arith)
                    requires
                        w == 1,
                ;
            }
        }
        let qv = feval(q, x);
        let t = tail(a, x, n);
        assert(tail(a, x, n - 1) == fadd(fmul(t, x), c));
        assert(fpow(x, n as nat) == fmul(w, x));
        lemma_refl(c);
        lemma_refl(qv);
        lemma_cong_mul(c, c, sv, w * bv);
        lemma_cong_add(1 * qv, qv, c * sv, c * (w * bv));
        lemma_cong_trans(feval(r, x), 1 * qv + c * sv, qv + c * (w * bv));
        let rv = feval(r, x);
        broadcast use group_shadow;

        lemma_refl(w);
        lemma_refl(x);
        lemma_refl(t);
        lemma_refl(bv);
        assert((qv + c * (w * bv)) + ((w * x) * t) * bv == qv + (w * (t * x + c)) * bv)
            by (nonlinear_arith);
        lemma_shadow_eq(
            fadd(rv, fmul(fmul(fmul(w, x), t), bv)),
            (qv + c * (w * bv)) + ((w * x) * t) * bv,
            fadd(qv, fmul(fmul(w, fadd(fmul(t, x), c)), bv)),
            qv + (w * (t * x + c)) * bv,
        );
    }
}

/// Value of a product.
pub proof fn lemma_eval_mul(a: Seq<int>, b: Seq<int>, x: int)
    ensures
        feval(p_mul(a, b), x) == fmul(feval(a, x), feval(b, x)),
{
    broadcast use group_reduced;

    let av = feval(a, x);
    let bv = feval(b, x);
    lemma_modulus();
    if a.len() == 0 || b.len() == 0 {
        assert(feval(p_mul(a, b), x) == 0);
        broadcast use group_shadow;

        lemma_refl(av);
        lemma_refl(bv);
        lemma_refl(0);
        assert(av * bv == 0) by (nonlinear_arith)
            requires
                av == 0 || bv == 0,
        ;
        lemma_shadow_eq(fmul(av, bv), av * bv, 0, 0);
    } else {
        let n = a.len() as int;
        let len = (a.len() + b.len() - 1) as nat;
        lemma_eval_mul_partial(a, b, x, n, len);
        let r = Seq::new(len, |k: int| conv(a, b, k, n));
        assert(r =~= p_mul(a, b));
        let rv = feval(r, x);
        let w = fpow(x, n as nat);
        assert(tail(a, x, n) == 0);
        lemma_tail_reduced(r, x, 0);
        broadcast use group_shadow;

        lemma_refl(rv);
        lemma_refl(w);
        lemma_refl(0);
        lemma_refl(bv);
        assert(rv + (w * 0) * bv == rv) by (nonlinear_arith);
        lemma_shadow_eq(fadd(rv, fmul(fmul(w, 0), bv)), rv + (w * 0) * bv, rv, rv);
    }
}

/// Whether an element has an inverse.
pub open spec fn invertible(a: int) -> bool {
    is_inverse(a, finv(a))
}

/// The product of `X - xs[j]` over the first `n` nodes but the `i`-th.
pub open spec fn basis_num(xs: Seq<int>, i: int, n: int) -> Seq<int>
    decreases n,
{
    if n <= 0 {
        seq![1int]
    } else if n - 1 == i {
        basis_num(xs, i, n - 1)
    } else {
        p_mul_linear(basis_num(xs, i, n - 1), xs[n - 1])
    }
}

/// The product of `xs[i] - xs[j]` over the first `n` nodes but the `i`-th.
pub open spec fn basis_den(xs: Seq<int>, i: int, n: int) -> int
    decreases n,
{
    if n <= 0 {
        1
    } else if n - 1 == i {
        basis_den(xs, i, n - 1)
    } else {
        fmul(basis_den(xs, i, n - 1), fsub(xs[i], xs[n - 1]))
    }
}

/// Weight of the `i`-th basis polynomial.
pub open spec fn basis_scale(xs: Seq<int>, ys: Seq<int>, i: int) -> int {
    fmul(ys[i], finv(basis_den(xs, i, xs.len() as int)))
}

/// Sum of the first `n` weighted basis polynomials.
pub open spec fn interp_partial(xs: Seq<int>, ys: Seq<int>, n: int) -> Seq<int>
    decreases n,
{
    if n <= 0 {
        Seq::new(xs.len(), |k: int| 0int)
    } else {
        Seq::new(
            xs.len(),
            |k: int|
                fadd(
                    interp_partial(xs, ys, n - 1)[k],
                    fmul(basis_scale(xs, ys, n - 1), basis_num(xs, n - 1, xs.len() as int)[k]),
                ),
        )
    }
}

/// The interpolant of degree below the number of nodes.
pub open spec fn interp(xs: Seq<int>, ys: Seq<int>) -> Seq<int> {
    interp_partial(xs, ys, xs.len() as int)
}

/// Whether every basis polynomial of the nodes can be normalised, which holds
/// where the nodes are distinct.
pub open spec fn nodes_ok(xs: Seq<int>) -> bool {
    forall|i: int|
        0 <= i < xs.len() ==> invertible(#[trigger] basis_den(xs, i, xs.len() as int))
}

/// Whether the entries are pairwise distinct.
pub open spec fn distinct(xs: Seq<int>) -> bool {
    forall|i: int, j: int| 0 <= i < j < xs.len() ==> #[trigger] xs[i] != #[trigger] xs[j]
}

pub proof fn lemma_basis_num_len(xs: Seq<int>, i: int, n: int)
    requires
        0 <= i < xs.len(),
        0 <= n <= xs.len(),
    ensures
        basis_num(xs, i, n).len() == if i < n {
            n
        } else {
            n + 1
        },
    decreases n,
{
    if n > 0 {
        lemma_basis_num_len(xs, i, n - 1);
    }
}

/// Value of a basis polynomial at its own node.
proof fn lemma_basis_at_own(xs: Seq<int>, i: int, n: int)
    requires
        0 <= i < xs.len(),
        0 <= n <= xs.len(),
    ensures
        feval(basis_num(xs, i, n), xs[i]) == basis_den(xs, i, n),
    decreases n,
{
    if n <= 0 {
        lemma_modulus();
        lemma_eval_const(1, xs[i]);
    } else {
        lemma_basis_at_own(xs, i, n - 1);
        if n - 1 != i {
            lemma_eval_mul_linear(basis_num(xs, i, n - 1), xs[n - 1], xs[i]);
        }
    }
}

/// Value of a basis polynomial at another node.
proof fn lemma_basis_at_other(xs: Seq<int>, i: int, k: int, n: int)
    requires
        0 <= i < xs.len(),
        0 <= k < n <= xs.len(),
        k != i,
    ensures
        feval(basis_num(xs, i, n), xs[k]) == 0,
    decreases n,
{
    broadcast use group_reduced;

    lemma_modulus();
    if n - 1 == i {
        lemma_basis_at_other(xs, i, k, n - 1);
    } else {
        let b = basis_num(xs, i, n - 1);
        let x = xs[k];
        lemma_eval_mul_linear(b, xs[n - 1], x);
        let e = feval(b, x);
        let d = fsub(x, xs[n - 1]);
        if n - 1 != k {
            lemma_basis_at_other(xs, i, k, n - 1);
        }
        broadcast use group_shadow;

        lemma_refl(e);
        lemma_refl(x);
        lemma_refl(xs[n - 1]);
        assert(e * (x - xs[n - 1]) == 0) by (nonlinear_arith)
            requires
                e == 0 || x == xs[n - 1],
        ;
        lemma_refl(0);
        lemma_shadow_eq(fmul(e, d), e * (x - xs[n - 1]), 0, 0);
    }
}

proof fn lemma_interp_partial_eval(xs: Seq<int>, ys: Seq<int>, n: int, k: int)
    requires
        xs.len() == ys.len(),
        0 <= n <= xs.len(),
        0 <= k < xs.len(),
        nodes_ok(xs),
        all_reduced(ys),
    ensures
        feval(interp_partial(xs, ys, n), xs[k]) == if k < n {
            ys[k]
        } else {
            0
        },
        interp_partial(xs, ys, n).len() == xs.len(),
    decreases n,
{
    broadcast use group_reduced;

    let x = xs[k];
    let len = xs.len() as int;
    let r = interp_partial(xs, ys, n);
    lemma_modulus();
    lemma_tail_reduced(r, x, 0);
    if n == 0 {
        assert forall|m: int| 0 <= m implies cong(#[trigger] at(r, m), at(Seq::<int>::empty(), m)) by {
            lemma_refl(0);
        }
        lemma_eval_cong(r, Seq::empty(), x);
        assert(feval(Seq::<int>::empty(), x) == 0);
    } else {
        lemma_interp_partial_eval(xs, ys, n - 1, k);
        let q = interp_partial(xs, ys, n - 1);
        let b = basis_num(xs, n - 1, len);
        let s = basis_scale(xs, ys, n - 1);
        lemma_basis_num_len(xs, n - 1, len);
        assert forall|m: int| 0 <= m implies cong(#[trigger] at(r, m), 1 * at(q, m) + s * at(b, m)) by {
            broadcast use group_shadow;

            lemma_refl(at(q, m));
            lemma_refl(s);
            lemma_refl(at(b, m));
            if m >= len {
                assert(s * 0 == 0) by (nonlinear_arith);
                lemma_refl(0);
            }
        }
        lemma_eval_lin(r, q, b, 1, s, x);
        let qv = feval(q, x);
        let bv = feval(b, x);
        let rv = feval(r, x);
        if k == n - 1 {
            lemma_basis_at_own(xs, k, len);
            let d = basis_den(xs, k, len);
            let e = finv(d);
            let y = ys[k];
            assert(invertible(d));
            assert(qv == 0);
            // rv is congruent to s d, with s = y e and d e = 1
            lemma_refl(y);
            lemma_refl(e);
            lemma_refl(d);
            assert(cong(s, y * e) && cong(1, d * e)) by {
                broadcast use group_shadow;

            }
            lemma_cong_mul(s, y * e, d, d);
            lemma_cong_mul(y, y, 1, d * e);
            assert((y * e) * d == y * (d * e)) by (nonlinear_arith);
            lemma_cong_symm(y * 1, y * (d * e));
            lemma_cong_trans(s * d, (y * e) * d, y * 1);
            assert(1 * qv + s * bv == s * d);
            lemma_cong_trans(rv, s * d, y);
            assert(reduced(ys[k]));
            lemma_cong_eq(rv, y);
        } else {
            lemma_basis_at_other(xs, n - 1, k, len);
            assert(s * 0 == 0) by (nonlinear_arith);
            lemma_tail_reduced(q, x, 0);
            lemma_cong_eq(rv, qv);
        }
    }
}

/// An interpolant takes the given values at the nodes.
pub proof fn lemma_interp_eval(xs: Seq<int>, ys: Seq<int>, k: int)
    requires
        xs.len() == ys.len(),
        0 <= k < xs.len(),
        nodes_ok(xs),
        all_reduced(ys),
    ensures
        feval(interp(xs, ys), xs[k]) == ys[k],
{
    lemma_interp_partial_eval(xs, ys, xs.len() as int, k);
}

/// Value of `X^n b(X)`.
pub proof fn lemma_eval_shifted(b: Seq<int>, n: int, len: nat, x: int)
    requires
        0 <= n,
        n + b.len() <= len,
    ensures
        feval(shifted(b, n, len), x) == fmul(fpow(x, n as nat), feval(b, x)),
{
    broadcast use group_reduced;

    lemma_tail_shifted(b, n, len, x, 0);
    if n == 0 {
        let e = feval(b, x);
        lemma_tail_reduced(b, x, 0);
        broadcast use group_shadow;

        lemma_refl(1);
        lemma_refl(e);
        lemma_shadow_eq(fmul(1, e), 1 * e, e, e);
    }
}

/// Value of a polynomial from those of its lower and upper part.
pub proof fn lemma_eval_split(p: Seq<int>, w: int, x: int)
    requires
        0 <= w <= p.len(),
    ensures
        feval(p, x) == fadd(
            feval(p.subrange(0, w), x),
            fmul(fpow(x, w as nat), feval(p.subrange(w, p.len() as int), x)),
        ),
{
    broadcast use group_reduced;

    let lo = p.subrange(0, w);
    let hi = p.subrange(w, p.len() as int);
    let s = shifted(hi, w, p.len());
    lemma_refl(0);
    assert forall|k: int| 0 <= k implies cong(#[trigger] at(p, k), 1 * at(lo, k) + 1 * at(s, k)) by {
        lemma_refl(at(p, k));
        if k < w {
            assert(at(s, k) == 0);
        } else if k < p.len() {
            assert(at(s, k) == hi[k - w]);
        }
    }
    lemma_eval_lin(p, lo, s, 1, 1, x);
    lemma_eval_shifted(hi, w, p.len(), x);
    let a = feval(lo, x);
    let b = feval(s, x);
    lemma_refl(a);
    lemma_refl(b);
    lemma_tail_reduced(p, x, 0);
    broadcast use group_shadow;

    lemma_shadow_eq(feval(p, x), 1 * a + 1 * b, fadd(a, b), a + b);
}

/// Value of a polynomial of two coefficients.
pub proof fn lemma_eval_two(c: Seq<int>, x: int)
    requires
        c.len() == 2,
    ensures
        feval(c, x) == fadd(c[0], fmul(c[1], x)),
{
    broadcast use group_reduced;

    reveal_with_fuel(tail, 3);
    lemma_refl(0);
    lemma_refl(x);
    lemma_refl(c[0]);
    lemma_refl(c[1]);
    broadcast use group_shadow;

    let a = c[0];
    let b = c[1];
    assert((0 * x + b) * x + a == a + b * x) by (nonlinear_arith);
    lemma_shadow_eq(
        fadd(fmul(fadd(fmul(0, x), b), x), a),
        (0 * x + b) * x + a,
        fadd(a, fmul(b, x)),
        a + b * x,
    );
}

} // verus!
