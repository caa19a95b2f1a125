//! Division by `X^2 - p X + 1`, whose roots are a point and its inverse, and
//! the interpolants of degree one that go with it.

use crate::bdfg::lemma_fsub_zero;
use crate::bdfg_laws::lemma_cancel;
use crate::errors::{invalid_proof, PCSError};
use crate::field::{
    cong, fadd, finv, fmul, fsub, group_reduced, group_shadow, lemma_cong_add, lemma_cong_mul,
    lemma_cong_sub, lemma_cong_symm, lemma_cong_trans, lemma_modulus, lemma_refl, lemma_shadow_eq,
    reduced, vals, Scalar,
};
use crate::poly::{at, feval, invertible, lemma_tail_reduced, lemma_tail_step, tail};
use vstd::prelude::*;

verus! {

/// Slope of the line through `(x0, y0)` and `(x1, y1)`.
pub open spec fn line_slope(x0: int, y0: int, x1: int, y1: int) -> int {
    fmul(fsub(y1, y0), finv(fsub(x1, x0)))
}

/// Value at zero of the line through `(x0, y0)` and `(x1, y1)`.
pub open spec fn line_offset(x0: int, y0: int, x1: int, y1: int) -> int {
    fsub(y0, fmul(line_slope(x0, y0, x1, y1), x0))
}

/// The interpolant `[constant, linear]` through two points; an error where
/// the abscissae coincide.
pub fn two_point_remainder(x0: Scalar, y0: Scalar, x1: Scalar, y1: Scalar) -> (r: Result<
    [Scalar; 2],
    PCSError,
>)
    ensures
        r is Ok <==> x0@ != x1@,
        r matches Err(e) ==> e is InvalidProof,
        r matches Ok(b) ==> {
            &&& b@[0]@ == line_offset(x0@, y0@, x1@, y1@)
            &&& b@[1]@ == line_slope(x0@, y0@, x1@, y1@)
            &&& invertible(fsub(x1@, x0@))
        },
{
    let denom = x1.sub(x0);
    proof {
        x0.lemma_view_reduced();
        x1.lemma_view_reduced();
        lemma_fsub_zero(x1@, x0@);
    }
    match denom.inverse() {
        None => Err(invalid_proof("duplicate interpolation points (degenerate divisor)")),
        Some(inv) => {
            let b1 = y1.sub(y0).mul(inv);
            let b0 = y0.sub(b1.mul(x0));
            Ok([b0, b1])
        },
    }
}

/// What [`law_line`] says of the coefficients, as integers.
pub proof fn lemma_line_names(x0: int, y0: int, x1: int, y1: int)
    requires
        invertible(fsub(x1, x0)),
        reduced(y0),
        reduced(y1),
    ensures
        ({
            let b = line_offset(x0, y0, x1, y1);
            let m = line_slope(x0, y0, x1, y1);
            cong(b + m * x0, y0) && cong(b + m * x1, y1)
        }),
{
    let b = line_offset(x0, y0, x1, y1);
    let m = line_slope(x0, y0, x1, y1);
    law_line(x0, y0, x1, y1);
    lemma_refl(b);
    lemma_refl(m);
    lemma_refl(x0);
    lemma_refl(x1);
    broadcast use group_shadow;

    assert(cong(fadd(b, fmul(m, x0)), b + m * x0));
    assert(cong(fadd(b, fmul(m, x1)), b + m * x1));
    lemma_cong_symm(y0, b + m * x0);
    lemma_cong_symm(y1, b + m * x1);
}

/// The line goes through its two points.
pub proof fn law_line(x0: int, y0: int, x1: int, y1: int)
    requires
        invertible(fsub(x1, x0)),
        reduced(y0),
        reduced(y1),
    ensures
        fadd(line_offset(x0, y0, x1, y1), fmul(line_slope(x0, y0, x1, y1), x0)) == y0,
        fadd(line_offset(x0, y0, x1, y1), fmul(line_slope(x0, y0, x1, y1), x1)) == y1,
{
    broadcast use group_reduced;

    let b1 = line_slope(x0, y0, x1, y1);
    let b0 = line_offset(x0, y0, x1, y1);
    let i = finv(fsub(x1, x0));
    lemma_refl(b1);
    lemma_refl(x0);
    lemma_refl(x1);
    lemma_refl(y0);
    lemma_refl(y1);
    lemma_refl(i);
    assert(fadd(b0, fmul(b1, x0)) == y0) by {
        broadcast use group_shadow;

        lemma_shadow_eq(fadd(b0, fmul(b1, x0)), (y0 - b1 * x0) + b1 * x0, y0, y0);
    }
    assert(cong(b1, (y1 - y0) * i) && cong(1, (x1 - x0) * i)) by {
        assert(cong(fmul(fsub(y1, y0), i), (y1 - y0) * i)) by {
            broadcast use group_shadow;

        }
        assert(cong(fmul(fsub(x1, x0), i), (x1 - x0) * i)) by {
            broadcast use group_shadow;

        }
    }
    assert(cong(fadd(b0, fmul(b1, x1)), (y0 - b1 * x0) + b1 * x1)) by {
        broadcast use group_shadow;

    }
    // b1 (x1 - x0) ~ (y1 - y0) i (x1 - x0) ~ y1 - y0
    let d = x1 - x0;
    let e = y1 - y0;
    lemma_refl(d);
    lemma_refl(e);
    lemma_cong_mul(b1, e * i, d, d);
    lemma_cong_mul(e, e, 1, d * i);
    assert((e * i) * d == e * (d * i)) by (nonlinear_arith);
    lemma_cong_symm(e * 1, e * (d * i));
    lemma_cong_trans(b1 * d, (e * i) * d, e * 1);
    lemma_cong_add(y0, y0, b1 * d, e * 1);
    assert((y0 - b1 * x0) + b1 * x1 == y0 + b1 * d) by (nonlinear_arith)
        requires
            d == x1 - x0,
    ;
    lemma_cong_trans(fadd(b0, fmul(b1, x1)), y0 + b1 * d, y0 + e * 1);
    lemma_shadow_eq(fadd(b0, fmul(b1, x1)), y0 + e * 1, y1, y1);
}

/// Coefficient `i` of the quotient of `c` by `X^2 - p X + 1`.
pub open spec fn quad_at(c: Seq<int>, p: int, i: int) -> int
    decreases c.len() - i,
{
    if i + 2 >= c.len() {
        0
    } else {
        fsub(fadd(c[i + 2], fmul(p, quad_at(c, p, i + 1))), quad_at(c, p, i + 2))
    }
}

/// The quotient of `c` by `X^2 - p X + 1`.
pub open spec fn quad_quotient(c: Seq<int>, p: int) -> Seq<int> {
    Seq::new(
        if c.len() >= 2 {
            (c.len() - 2) as nat
        } else {
            0
        },
        |i: int| quad_at(c, p, i),
    )
}

/// Constant coefficient of the remainder.
pub open spec fn quad_rem0(c: Seq<int>, p: int) -> int {
    fsub(at(c, 0), quad_at(c, p, 0))
}

/// Linear coefficient of the remainder.
pub open spec fn quad_rem1(c: Seq<int>, p: int) -> int {
    fsub(fadd(at(c, 1), fmul(p, quad_at(c, p, 0))), quad_at(c, p, 1))
}

/// Quotient and remainder by `X^2 - p X + 1`.
pub fn div_by_monic_quadratic(c: &[Scalar], p: Scalar) -> (r: (Vec<Scalar>, [Scalar; 2]))
    ensures
        vals(r.0@) == quad_quotient(vals(c@), p@),
        r.0@.len() == (if c@.len() >= 2 { c@.len() - 2 } else { 0 }),
        r.1@[0]@ == quad_rem0(vals(c@), p@),
        r.1@[1]@ == quad_rem1(vals(c@), p@),
{
    let ghost cv = vals(c@);
    let d: usize = c.len();
    let m: usize = if d >= 2 { d - 2 } else { 0 };
    let mut q: Vec<Scalar> = Vec::new();
    let mut z: usize = 0;
    while z < m
        invariant
            z <= m,
            q@.len() == z,
        decreases m - z,
    {
        q.push(Scalar::zero());
        z = z + 1;
    }
    let mut q1 = Scalar::zero();
    let mut q2 = Scalar::zero();
    let mut i: usize = m;
    while i > 0
        invariant
            i <= m == (if d >= 2 { d - 2 } else { 0 }),
            d == c@.len(),
            cv == vals(c@),
            q@.len() == m,
            q1@ == quad_at(cv, p@, i as int),
            q2@ == quad_at(cv, p@, i + 1),
            forall|k: int| i <= k < m ==> (#[trigger] q@[k])@ == quad_at(cv, p@, k),
        decreases i,
    {
        i = i - 1;
        let cur = c[i + 2].add(p.mul(q1)).sub(q2);
        q.set(i, cur);
        q2 = q1;
        q1 = cur;
    }
    assert(vals(q@) =~= quad_quotient(cv, p@));
    let c0 = if d > 0 { c[0] } else { Scalar::zero() };
    let c1 = if d > 1 { c[1] } else { Scalar::zero() };
    let r0 = c0.sub(q1);
    let r1 = c1.add(p.mul(q1)).sub(q2);
    (q, [r0, r1])
}

/// `C_{k+2} = Q_k - p Q_{k+1} + Q_{k+2}` for the tails of dividend and
/// quotient.
proof fn lemma_quad_tails(c: Seq<int>, p: int, x: int, k: int)
    requires
        0 <= k,
    ensures
        tail(c, x, k + 2) == fadd(
            fsub(
                tail(quad_quotient(c, p), x, k),
                fmul(p, tail(quad_quotient(c, p), x, k + 1)),
            ),
            tail(quad_quotient(c, p), x, k + 2),
        ),
    decreases c.len() - k,
{
    broadcast use group_reduced;

    lemma_modulus();
    let q = quad_quotient(c, p);
    lemma_refl(p);
    lemma_refl(0);
    lemma_refl(x);
    if k >= c.len() {
        broadcast use group_shadow;

        assert((0 - p * 0) + 0 == 0) by (nonlinear_arith);
        lemma_shadow_eq(0, 0, fadd(fsub(0, fmul(p, 0)), 0), (0 - p * 0) + 0);
    } else {
        lemma_quad_tails(c, p, x, k + 1);
        lemma_tail_step(c, x, k + 2);
        lemma_tail_step(q, x, k);
        lemma_tail_step(q, x, k + 1);
        lemma_tail_step(q, x, k + 2);
        let t0 = tail(q, x, k);
        let t1 = tail(q, x, k + 1);
        let t2 = tail(q, x, k + 2);
        let t3 = tail(q, x, k + 3);
        let a0 = at(q, k);
        let a1 = at(q, k + 1);
        let a2 = at(q, k + 2);
        let cc = at(c, k + 2);
        // a0 = cc + p a1 - a2
        assert(a0 == quad_at(c, p, k));
        assert(a1 == quad_at(c, p, k + 1));
        assert(a2 == quad_at(c, p, k + 2));
        assert(cong(a0, (cc + p * a1) - a2)) by {
            lemma_refl(cc);
            lemma_refl(a1);
            lemma_refl(a2);
            if k + 2 < c.len() {
                broadcast use group_shadow;

            } else {
                assert(cc == 0 && a0 == 0 && a1 == 0 && a2 == 0);
                assert((0 + p * 0) - 0 == 0) by (nonlinear_arith);
            }
        }
        let c3 = tail(c, x, k + 3);
        assert(c3 == fadd(fsub(t1, fmul(p, t2)), t3));
        assert(tail(c, x, k + 2) == fadd(fmul(c3, x), cc));
        // everything in terms of t3, a0, a1, a2, cc
        lemma_refl(t3);
        lemma_refl(a1);
        lemma_refl(a2);
        lemma_refl(cc);
        let s2 = t3 * x + a2;
        let s1 = s2 * x + a1;
        let s0 = s1 * x + ((cc + p * a1) - a2);
        assert(cong(t2, s2)) by {
            broadcast use group_shadow;

        }
        assert(cong(t1, s1)) by {
            broadcast use group_shadow;

        }
        assert(cong(t0, s0)) by {
            broadcast use group_shadow;

        }
        assert(cong(c3, (s1 - p * s2) + t3)) by {
            broadcast use group_shadow;

        }
        assert(cong(tail(c, x, k + 2), ((s1 - p * s2) + t3) * x + cc)) by {
            broadcast use group_shadow;

        }
        assert(cong(fadd(fsub(t0, fmul(p, t1)), t2), (s0 - p * s1) + s2)) by {
            broadcast use group_shadow;

        }
        assert(((s1 - p * s2) + t3) * x + cc == (s0 - p * s1) + s2) by (nonlinear_arith)
            requires
                s2 == t3 * x + a2,
                s1 == s2 * x + a1,
                s0 == s1 * x + ((cc + p * a1) - a2),
        ;
        lemma_shadow_eq(
            tail(c, x, k + 2),
            ((s1 - p * s2) + t3) * x + cc,
            fadd(fsub(t0, fmul(p, t1)), t2),
            (s0 - p * s1) + s2,
        );
    }
}

/// The divisor `X^2 - p X + 1` at `x`.
pub open spec fn quad_divisor(p: int, x: int) -> int {
    fadd(fsub(fmul(x, x), fmul(p, x)), 1)
}

/// Division by the quadratic:
/// `c(X) = (X^2 - p X + 1) q(X) + r_0 + r_1 X`.
pub proof fn law_quadratic_division(c: Seq<int>, p: int, x: int)
    ensures
        feval(c, x) == fadd(
            fmul(quad_divisor(p, x), feval(quad_quotient(c, p), x)),
            fadd(quad_rem0(c, p), fmul(quad_rem1(c, p), x)),
        ),
{
    broadcast use group_reduced;

    lemma_modulus();
    let q = quad_quotient(c, p);
    lemma_quad_tails(c, p, x, 0);
    lemma_tail_step(c, x, 0);
    lemma_tail_step(c, x, 1);
    lemma_tail_step(q, x, 0);
    lemma_tail_step(q, x, 1);
    let t0 = tail(q, x, 0);
    let t1 = tail(q, x, 1);
    let t2 = tail(q, x, 2);
    let a0 = at(q, 0);
    let a1 = at(q, 1);
    let c0 = at(c, 0);
    let c1 = at(c, 1);
    assert(a0 == quad_at(c, p, 0));
    assert(a1 == quad_at(c, p, 1));
    lemma_refl(t2);
    lemma_refl(a0);
    lemma_refl(a1);
    lemma_refl(c0);
    lemma_refl(c1);
    lemma_refl(p);
    lemma_refl(x);
    lemma_refl(1);
    let s1 = t2 * x + a1;
    let s0 = s1 * x + a0;
    assert(cong(t1, s1)) by {
        broadcast use group_shadow;

    }
    assert(cong(t0, s0)) by {
        broadcast use group_shadow;

    }
    let cc = tail(c, x, 2);
    assert(cong(cc, (s0 - p * s1) + t2)) by {
        broadcast use group_shadow;

    }
    let sc = (s0 - p * s1) + t2;
    let d1 = tail(c, x, 1);
    assert(cong(d1, sc * x + c1)) by {
        broadcast use group_shadow;

    }
    assert(cong(feval(c, x), (sc * x + c1) * x + c0)) by {
        broadcast use group_shadow;

    }
    let r0 = quad_rem0(c, p);
    let r1 = quad_rem1(c, p);
    assert(cong(
        fadd(fmul(quad_divisor(p, x), t0), fadd(r0, fmul(r1, x))),
        ((x * x - p * x) + 1) * s0 + ((c0 - a0) + ((c1 + p * a0) - a1) * x),
    )) by {
        broadcast use group_shadow;

    }
    assert((sc * x + c1) * x + c0 == ((x * x - p * x) + 1) * s0 + ((c0 - a0) + ((c1 + p * a0) - a1)
        * x)) by (nonlinear_arith)
        requires
            s1 == t2 * x + a1,
            s0 == s1 * x + a0,
            sc == (s0 - p * s1) + t2,
    ;
    lemma_tail_reduced(c, x, 0);
    lemma_shadow_eq(
        feval(c, x),
        (sc * x + c1) * x + c0,
        fadd(fmul(quad_divisor(p, x), t0), fadd(r0, fmul(r1, x))),
        ((x * x - p * x) + 1) * s0 + ((c0 - a0) + ((c1 + p * a0) - a1) * x),
    );
}

/// The divisor vanishes at a point and at its inverse.
pub proof fn lemma_divisor_roots(x: int, y: int)
    requires
        fmul(x, y) == 1,
    ensures
        quad_divisor(fadd(x, y), x) == 0,
        quad_divisor(fadd(x, y), y) == 0,
{
    broadcast use group_reduced;

    lemma_modulus();
    lemma_refl(x);
    lemma_refl(y);
    lemma_refl(1);
    lemma_refl(0);
    assert(cong(1, x * y)) by {
        assert(cong(fmul(x, y), x * y)) by {
            broadcast use group_shadow;

        }
    }
    lemma_refl(x * y);
    lemma_cong_sub(x * y, x * y, 1, x * y);
    assert(cong(quad_divisor(fadd(x, y), x), (x * x - (x + y) * x) + 1)) by {
        broadcast use group_shadow;

    }
    assert(cong(quad_divisor(fadd(x, y), y), (y * y - (x + y) * y) + 1)) by {
        broadcast use group_shadow;

    }
    assert((x * x - (x + y) * x) + 1 == 1 - x * y) by (nonlinear_arith);
    assert((y * y - (x + y) * y) + 1 == 1 - x * y) by (nonlinear_arith);
    lemma_cong_sub(1, x * y, x * y, x * y);
    lemma_cong_trans(quad_divisor(fadd(x, y), x), 1 - x * y, 0);
    lemma_cong_trans(quad_divisor(fadd(x, y), y), 1 - x * y, 0);
    lemma_shadow_eq(quad_divisor(fadd(x, y), x), 0, 0, 0);
    lemma_shadow_eq(quad_divisor(fadd(x, y), y), 0, 0, 0);
}

/// A linear polynomial that vanishes at two points is zero.
pub proof fn lemma_line_zero(a: int, b: int, x: int, y: int)
    requires
        invertible(fsub(y, x)),
        reduced(a),
        reduced(b),
        fadd(a, fmul(b, x)) == 0,
        fadd(a, fmul(b, y)) == 0,
    ensures
        a == 0,
        b == 0,
{
    broadcast use group_reduced;

    lemma_modulus();
    lemma_refl(a);
    lemma_refl(b);
    lemma_refl(x);
    lemma_refl(y);
    lemma_refl(0);
    assert(cong(0, a + b * x)) by {
        assert(cong(fadd(a, fmul(b, x)), a + b * x)) by {
            broadcast use group_shadow;

        }
    }
    assert(cong(0, a + b * y)) by {
        assert(cong(fadd(a, fmul(b, y)), a + b * y)) by {
            broadcast use group_shadow;

        }
    }
    lemma_cong_sub(0, a + b * y, 0, a + b * x);
    assert(cong(fmul(fsub(y, x), b), (y - x) * b)) by {
        broadcast use group_shadow;

    }
    assert((a + b * y) - (a + b * x) == (y - x) * b) by (nonlinear_arith);
    lemma_cong_symm(0, (y - x) * b);
    lemma_cong_trans(fmul(fsub(y, x), b), (y - x) * b, 0);
    lemma_shadow_eq(fmul(fsub(y, x), b), 0, 0, 0);
    lemma_cancel(fsub(y, x), b);
    assert(0 * x == 0) by (nonlinear_arith);
    lemma_cong_symm(0, a + 0 * x);
    lemma_shadow_eq(a, 0, 0, 0);
}

/// A polynomial that vanishes at a point and at its inverse divides without
/// remainder.
pub proof fn law_quadratic_exact(c: Seq<int>, x: int, y: int)
    requires
        fmul(x, y) == 1,
        invertible(fsub(y, x)),
        feval(c, x) == 0,
        feval(c, y) == 0,
    ensures
        quad_rem0(c, fadd(x, y)) == 0,
        quad_rem1(c, fadd(x, y)) == 0,
{
    broadcast use group_reduced;

    lemma_modulus();
    let p = fadd(x, y);
    let r0 = quad_rem0(c, p);
    let r1 = quad_rem1(c, p);
    law_quadratic_division(c, p, x);
    law_quadratic_division(c, p, y);
    lemma_divisor_roots(x, y);
    let q = quad_quotient(c, p);
    lemma_drop_zero_term(feval(q, x), fadd(r0, fmul(r1, x)));
    lemma_drop_zero_term(feval(q, y), fadd(r0, fmul(r1, y)));
    lemma_line_zero(r0, r1, x, y);
}

proof fn lemma_drop_zero_term(q: int, r: int)
    requires
        reduced(r),
    ensures
        fadd(fmul(0, q), r) == r,
{
    broadcast use group_reduced;

    lemma_refl(0);
    lemma_refl(q);
    lemma_refl(r);
    assert(0 * q + r == r) by (nonlinear_arith);
    broadcast use group_shadow;

    lemma_shadow_eq(fadd(fmul(0, q), r), 0 * q + r, r, r);
}

} // verus!
