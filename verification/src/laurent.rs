//! The symmetric-Laurent kernel: the product of a polynomial with the
//! reciprocal `T_r(1/X)` of a tensor polynomial, and the witness of an inner
//! product that it yields.

use crate::dims::{lemma_pow2_mono, pow2_usize};
use crate::field::{
    cong, fadd, fmul, fpow, fsub, group_reduced, group_shadow, lemma_cong_add, lemma_cong_eq,
    lemma_cong_mul, lemma_cong_symm, lemma_cong_trans, lemma_modulus, lemma_refl, lemma_shadow_eq,
    reduced, vals, Scalar,
};
use crate::poly::{
    at, dot, feval, lemma_eval_lin, lemma_eval_shifted, lemma_power_key_eval, lemma_tail_reduced,
    lemma_tail_step, shifted, tail,
};
use crate::tensor::{eq_at, eq_vec, lemma_p2_step, lemma_p2_zero, mle_eval, p2, tensor};
use vstd::prelude::*;

verus! {

/// Index of the constant coefficient in a Laurent buffer: `2^m - 1`.
pub fn laurent_offset(m: usize) -> (r: usize)
    requires
        m < usize::BITS,
    ensures
        r == p2(m as int) - 1,
{
    pow2_usize(m) - 1
}

/// Coefficient of `X^d` in `a(X) T(1/X)`, over the first `n` coefficients `e`
/// of `T`.
pub open spec fn laurent_at(a: Seq<int>, e: Seq<int>, d: int, n: int) -> int
    decreases n,
{
    if n <= 0 {
        0
    } else {
        fadd(laurent_at(a, e, d, n - 1), fmul(e[n - 1], at(a, d + (n - 1))))
    }
}

/// The Laurent buffer of `a(X) T_r(1/X)` for the first `k` variables of `r`:
/// entry `2^m - 1 + d` holds the coefficient of `X^d`.
pub open spec fn laurent(a: Seq<int>, r: Seq<int>, m: int, k: int) -> Seq<int> {
    Seq::new(
        (2 * p2(m) - 1) as nat,
        |i: int| laurent_at(a, eq_vec(r, k), i - (p2(m) - 1), p2(k)),
    )
}

pub proof fn lemma_laurent_at_zero(a: Seq<int>, e: Seq<int>, d: int, n: int)
    requires
        0 <= n,
        d >= a.len() || d + n <= 0,
    ensures
        laurent_at(a, e, d, n) == 0,
    decreases n,
{
    broadcast use group_reduced;

    lemma_modulus();
    if n > 0 {
        lemma_laurent_at_zero(a, e, d, n - 1);
        let c = e[n - 1];
        assert(at(a, d + (n - 1)) == 0);
        broadcast use group_shadow;

        lemma_refl(0);
        lemma_refl(c);
        assert(0 + c * 0 == 0) by (nonlinear_arith);
        lemma_shadow_eq(fadd(0, fmul(c, 0)), 0 + c * 0, 0, 0);
    }
}

pub proof fn lemma_laurent_at_reduced(a: Seq<int>, e: Seq<int>, d: int, n: int)
    ensures
        reduced(laurent_at(a, e, d, n)),
{
    broadcast use group_reduced;

    lemma_modulus();
}

/// Splitting off the top variable, for the lower half of the eq vector.
proof fn lemma_laurent_low(a: Seq<int>, r: Seq<int>, k: int, d: int, n: int)
    requires
        0 <= k,
        0 <= n <= p2(k),
    ensures
        laurent_at(a, eq_vec(r, k + 1), d, n) == fmul(
            fsub(1, r[k]),
            laurent_at(a, eq_vec(r, k), d, n),
        ),
    decreases n,
{
    broadcast use group_reduced;

    lemma_modulus();
    let om = fsub(1, r[k]);
    lemma_refl(om);
    lemma_refl(0);
    if n == 0 {
        broadcast use group_shadow;

        assert(om * 0 == 0) by (nonlinear_arith);
        lemma_shadow_eq(0, 0, fmul(om, 0), om * 0);
    } else {
        lemma_laurent_low(a, r, k, d, n - 1);
        lemma_p2_step(k + 1);
        let prev = laurent_at(a, eq_vec(r, k), d, n - 1);
        let c = eq_at(r, n - 1, k);
        let v = at(a, d + (n - 1));
        assert(eq_vec(r, k + 1)[n - 1] == fmul(c, om));
        assert(eq_vec(r, k)[n - 1] == c);
        broadcast use group_shadow;

        lemma_refl(prev);
        lemma_refl(c);
        lemma_refl(v);
        assert(om * prev + (c * om) * v == om * (prev + c * v)) by (nonlinear_arith);
        lemma_shadow_eq(
            fadd(fmul(om, prev), fmul(fmul(c, om), v)),
            om * prev + (c * om) * v,
            fmul(om, fadd(prev, fmul(c, v))),
            om * (prev + c * v),
        );
    }
}

/// Splitting off the top variable, for the upper half of the eq vector.
proof fn lemma_laurent_high(a: Seq<int>, r: Seq<int>, k: int, d: int, n: int)
    requires
        0 <= k,
        0 <= n <= p2(k),
    ensures
        laurent_at(a, eq_vec(r, k + 1), d, p2(k) + n) == fadd(
            laurent_at(a, eq_vec(r, k + 1), d, p2(k)),
            fmul(r[k], laurent_at(a, eq_vec(r, k), d + p2(k), n)),
        ),
    decreases n,
{
    broadcast use group_reduced;

    lemma_modulus();
    let h = p2(k);
    let rk = r[k];
    let base = laurent_at(a, eq_vec(r, k + 1), d, h);
    lemma_laurent_at_reduced(a, eq_vec(r, k + 1), d, h);
    lemma_refl(rk);
    lemma_refl(0);
    lemma_refl(base);
    if n == 0 {
        broadcast use group_shadow;

        assert(base + rk * 0 == base) by (nonlinear_arith);
        lemma_shadow_eq(base, base, fadd(base, fmul(rk, 0)), base + rk * 0);
    } else {
        lemma_laurent_high(a, r, k, d, n - 1);
        lemma_p2_step(k + 1);
        let prev = laurent_at(a, eq_vec(r, k), d + h, n - 1);
        let c = eq_at(r, n - 1, k);
        let v = at(a, d + h + (n - 1));
        assert(eq_vec(r, k + 1)[h + n - 1] == fmul(c, rk));
        assert(eq_vec(r, k)[n - 1] == c);
        assert(d + (h + n - 1) == d + h + (n - 1));
        broadcast use group_shadow;

        lemma_refl(prev);
        lemma_refl(c);
        lemma_refl(v);
        assert((base + rk * prev) + (c * rk) * v == base + rk * (prev + c * v))
            by (nonlinear_arith);
        lemma_shadow_eq(
            fadd(fadd(base, fmul(rk, prev)), fmul(fmul(c, rk), v)),
            (base + rk * prev) + (c * rk) * v,
            fadd(base, fmul(rk, fadd(prev, fmul(c, v)))),
            base + rk * (prev + c * v),
        );
    }
}

/// One pass of the structured multiplication.
pub proof fn lemma_laurent_step(a: Seq<int>, r: Seq<int>, k: int, d: int)
    requires
        0 <= k,
    ensures
        laurent_at(a, eq_vec(r, k + 1), d, p2(k + 1)) == fadd(
            fmul(fsub(1, r[k]), laurent_at(a, eq_vec(r, k), d, p2(k))),
            fmul(r[k], laurent_at(a, eq_vec(r, k), d + p2(k), p2(k))),
        ),
{
    lemma_p2_step(k + 1);
    lemma_laurent_low(a, r, k, d, p2(k));
    lemma_laurent_high(a, r, k, d, p2(k));
}

/// The buffer before any pass.
pub proof fn lemma_laurent_start(a: Seq<int>, r: Seq<int>, d: int)
    requires
        forall|i: int| 0 <= i < a.len() ==> reduced(#[trigger] a[i]),
    ensures
        laurent_at(a, eq_vec(r, 0), d, p2(0)) == at(a, d),
{
    broadcast use group_reduced;

    lemma_p2_zero();
    lemma_modulus();
    let v = at(a, d);
    assert(eq_vec(r, 0)[0] == 1);
    assert(laurent_at(a, eq_vec(r, 0), d, 1) == fadd(0, fmul(1, at(a, d + 0)))) by {
        reveal_with_fuel(laurent_at, 2);
    }
    broadcast use group_shadow;

    lemma_refl(0);
    lemma_refl(1);
    lemma_refl(v);
    lemma_shadow_eq(fadd(0, fmul(1, v)), 0 + 1 * v, v, v);
}

/// The Laurent buffer of `coeffs(X) T_r(1/X)`; of `coeffs` the first `2^m`
/// entries are read, of `r` the first `m`.
pub fn mul_by_reciprocal_tensor(coeffs: &[Scalar], m: usize, r: &[Scalar]) -> (buf: Vec<Scalar>)
    requires
        m < usize::BITS,
        2 * p2(m as int) <= usize::MAX,
        p2(m as int) <= coeffs@.len(),
        m <= r@.len(),
    ensures
        vals(buf@) == laurent(vals(coeffs@).take(p2(m as int)), vals(r@), m as int, m as int),
        buf@.len() == 2 * p2(m as int) - 1,
{
    broadcast use group_reduced;

    let n: usize = pow2_usize(m);
    let offset: usize = n - 1;
    let len: usize = 2 * n - 1;
    let ghost a = vals(coeffs@).take(n as int);
    let ghost rv = vals(r@);
    let mut buf: Vec<Scalar> = Vec::new();
    let mut i: usize = 0;
    while i < len
        invariant
            i <= len == 2 * n - 1,
            offset == n - 1,
            n <= coeffs@.len(),
            a == vals(coeffs@).take(n as int),
            buf@.len() == i,
            forall|q: int| 0 <= q < i ==> (#[trigger] buf@[q])@ == at(a, q - offset),
        decreases len - i,
    {
        if i >= offset {
            buf.push(coeffs[i - offset]);
        } else {
            buf.push(Scalar::zero());
        }
        i = i + 1;
    }
    proof {
        assert forall|q: int| 0 <= q < len implies (#[trigger] buf@[q])@ == laurent_at(
            a,
            eq_vec(rv, 0),
            q - offset,
            p2(0),
        ) by {
            lemma_laurent_start(a, rv, q - offset);
        }
    }
    let mut k: usize = 0;
    while k < m
        invariant
            k <= m < usize::BITS,
            m <= r@.len(),
            n == p2(m as int),
            offset == n - 1,
            len == 2 * n - 1,
            a.len() == n,
            rv == vals(r@),
            buf@.len() == len,
            forall|q: int|
                0 <= q < len ==> (#[trigger] buf@[q])@ == laurent_at(
                    a,
                    eq_vec(rv, k as int),
                    q - offset,
                    p2(k as int),
                ),
        decreases m - k,
    {
        let s: usize = pow2_usize(k);
        proof {
            lemma_pow2_mono(k as int, m as int);
        }
        let rk = r[k];
        let omrk = Scalar::one().sub(rk);
        let mut next: Vec<Scalar> = Vec::new();
        let mut i: usize = 0;
        while i < len
            invariant
                i <= len == 2 * n - 1,
                offset == n - 1,
                0 < s == p2(k as int) <= n,
                k < r@.len(),
                a.len() == n,
                rv == vals(r@),
                rk@ == rv[k as int],
                omrk@ == fsub(1, rk@),
                buf@.len() == len,
                forall|q: int|
                    0 <= q < len ==> (#[trigger] buf@[q])@ == laurent_at(
                        a,
                        eq_vec(rv, k as int),
                        q - offset,
                        p2(k as int),
                    ),
                next@.len() == i,
                forall|q: int|
                    0 <= q < i ==> (#[trigger] next@[q])@ == laurent_at(
                        a,
                        eq_vec(rv, k + 1),
                        q - offset,
                        p2(k + 1),
                    ),
            decreases len - i,
        {
            let hi = if s < len - i { buf[i + s] } else { Scalar::zero() };
            let v = omrk.mul(buf[i]).add(rk.mul(hi));
            proof {
                let d = i - offset;
                lemma_laurent_step(a, rv, k as int, d);
                if s < len - i {
                    assert(buf@[i + s]@ == laurent_at(
                        a,
                        eq_vec(rv, k as int),
                        i + s - offset,
                        p2(k as int),
                    ));
                    assert(i + s - offset == d + s);
                } else {
                    lemma_laurent_at_zero(a, eq_vec(rv, k as int), d + s, p2(k as int));
                }
            }
            next.push(v);
            i = i + 1;
        }
        buf = next;
        k = k + 1;
    }
    assert(vals(buf@) =~= laurent(a, rv, m as int, m as int));
    buf
}

/// The constant coefficient of `a(X) T_r(1/X)` is the multilinear evaluation
/// of the table `a` at `r`.
pub proof fn law_constant_coefficient(a: Seq<int>, r: Seq<int>)
    requires
        a.len() == p2(r.len() as int),
    ensures
        laurent(a, r, r.len() as int, r.len() as int)[p2(r.len() as int) - 1] == mle_eval(a, r),
{
    let m = r.len() as int;
    lemma_pow2_mono(0, m);
    lemma_p2_zero();
    lemma_constant_is_dot(a, r, m, p2(m));
}

/// A polynomial whose first `s` coefficients vanish.
proof fn lemma_low_zero(p: Seq<int>, x: int, s: int)
    requires
        0 <= s <= p.len(),
        forall|i: int| 0 <= i < s ==> #[trigger] p[i] == 0,
    ensures
        feval(p, x) == fmul(fpow(x, s as nat), tail(p, x, s)),
    decreases s,
{
    broadcast use group_reduced;

    lemma_modulus();
    let t = tail(p, x, s);
    lemma_tail_reduced(p, x, s);
    lemma_refl(t);
    lemma_refl(1);
    lemma_refl(x);
    lemma_refl(0);
    if s == 0 {
        broadcast use group_shadow;

        lemma_shadow_eq(t, t, fmul(1, t), 1 * t);
    } else {
        lemma_low_zero(p, x, s - 1);
        lemma_tail_step(p, x, s - 1);
        let w = fpow(x, (s - 1) as nat);
        assert(at(p, s - 1) == 0);
        lemma_refl(w);
        broadcast use group_shadow;

        assert(w * (t * x + 0) == (w * x) * t) by (nonlinear_arith);
        lemma_shadow_eq(
            fmul(w, fadd(fmul(t, x), 0)),
            w * (t * x + 0),
            fmul(fmul(w, x), t),
            (w * x) * t,
        );
    }
}

/// The value of a tail as that of the sequence that remains.
pub proof fn lemma_tail_skip(p: Seq<int>, q: Seq<int>, x: int, s: int, i: int)
    requires
        0 <= s,
        0 <= i,
        forall|k: int| 0 <= k ==> #[trigger] at(q, k) == at(p, k + s),
    ensures
        tail(q, x, i) == tail(p, x, i + s),
    decreases p.len() + q.len() - i,
{
    if i >= p.len() + q.len() {
    } else {
        lemma_tail_skip(p, q, x, s, i + 1);
        lemma_tail_step(q, x, i);
        lemma_tail_step(p, x, i + s);
        assert(at(q, i) == at(p, i + s));
    }
}

/// Powers of inverse elements are inverse.
pub proof fn lemma_inverse_pow(x: int, y: int, n: nat)
    requires
        fmul(x, y) == 1,
    ensures
        fmul(fpow(x, n), fpow(y, n)) == 1,
    decreases n,
{
    broadcast use group_reduced;

    lemma_modulus();
    lemma_refl(1);
    if n == 0 {
        broadcast use group_shadow;

        lemma_shadow_eq(fmul(1, 1), 1int * 1int, 1, 1);
    } else {
        lemma_inverse_pow(x, y, (n - 1) as nat);
        let a = fpow(x, (n - 1) as nat);
        let b = fpow(y, (n - 1) as nat);
        lemma_refl(a);
        lemma_refl(b);
        lemma_refl(x);
        lemma_refl(y);
        assert(cong(fmul(fmul(a, x), fmul(b, y)), (a * x) * (b * y)) && cong(1, a * b) && cong(
            1,
            x * y,
        )) by {
            broadcast use group_shadow;

        }
        lemma_cong_mul(1, a * b, 1, x * y);
        assert((a * b) * (x * y) == (a * x) * (b * y)) by (nonlinear_arith);
        lemma_shadow_eq_via(
            fmul(fmul(a, x), fmul(b, y)),
            (a * x) * (b * y),
            1,
        );
    }
}

/// Equality from two congruences to the same integer.
proof fn lemma_shadow_eq_via(a: int, s: int, b: int)
    requires
        cong(a, s),
        cong(b * b, s),
        b == 1,
        reduced(a),
    ensures
        a == b,
{
    lemma_modulus();
    lemma_cong_symm(b * b, s);
    lemma_cong_trans(a, s, b * b);
    lemma_cong_eq(a, b);
}

/// Value of the Laurent buffer after `k` passes: `x^{2^m - 1} a(x) T_k(1/x)`.
proof fn lemma_laurent_value(a: Seq<int>, r: Seq<int>, m: int, k: int, x: int, xi: int)
    requires
        0 <= k <= m,
        m <= r.len(),
        a.len() == p2(m),
        forall|i: int| 0 <= i < a.len() ==> reduced(#[trigger] a[i]),
        fmul(x, xi) == 1,
    ensures
        feval(laurent(a, r, m, k), x) == fmul(
            fmul(fpow(x, (p2(m) - 1) as nat), feval(a, x)),
            tensor(r, xi, k),
        ),
    decreases k,
{
    broadcast use group_reduced;

    lemma_modulus();
    lemma_pow2_mono(0, m);
    lemma_p2_zero();
    let off = p2(m) - 1;
    let len = (2 * p2(m) - 1) as nat;
    let w = laurent(a, r, m, k);
    let pa = fmul(fpow(x, off as nat), feval(a, x));
    lemma_refl(pa);
    lemma_refl(1);
    lemma_tail_reduced(w, x, 0);
    if k == 0 {
        let s = shifted(a, off, len);
        assert forall|i: int| 0 <= i < len implies w[i] == s[i] by {
            lemma_laurent_start(a, r, i - off);
        }
        assert(w =~= s);
        lemma_eval_shifted(a, off, len, x);
        broadcast use group_shadow;

        lemma_shadow_eq(pa, pa, fmul(pa, 1), pa * 1);
    } else {
        lemma_laurent_value(a, r, m, k - 1, x, xi);
        let v = laurent(a, r, m, k - 1);
        let h = p2(k - 1);
        lemma_p2_step(k);
        lemma_pow2_mono(k, m);
        let rk = r[k - 1];
        let om = fsub(1, rk);
        let q = Seq::new((len - h) as nat, |i: int| v[i + h]);
        assert forall|i: int| 0 <= i implies cong(
            #[trigger] at(w, i),
            om * at(v, i) + rk * at(q, i),
        ) by {
            if i < len {
                lemma_laurent_step(a, r, k - 1, i - off);
                let lo = laurent_at(a, eq_vec(r, k - 1), i - off, h);
                let hi = laurent_at(a, eq_vec(r, k - 1), i - off + h, h);
                assert(w[i] == fadd(fmul(om, lo), fmul(rk, hi)));
                assert(v[i] == lo);
                if i + h < len {
                    assert(v[i + h] == laurent_at(a, eq_vec(r, k - 1), i + h - off, h));
                    assert(i + h - off == i - off + h);
                    assert(q[i] == hi);
                } else {
                    lemma_laurent_at_zero(a, eq_vec(r, k - 1), i - off + h, h);
                }
                assert(at(q, i) == hi);
                lemma_refl(om);
                lemma_refl(rk);
                lemma_refl(lo);
                lemma_refl(hi);
                broadcast use group_shadow;

            } else {
                assert(om * 0 + rk * 0 == 0) by (nonlinear_arith);
                lemma_refl(0);
            }
        }
        lemma_eval_lin(w, v, q, om, rk, x);
        // The first h entries of v vanish, so that q(x) = (1/x)^h v(x).
        assert forall|i: int| 0 <= i < h implies #[trigger] v[i] == 0 by {
            lemma_laurent_at_zero(a, eq_vec(r, k - 1), i - off, h);
        }
        lemma_low_zero(v, x, h);
        assert forall|i: int| 0 <= i implies #[trigger] at(q, i) == at(v, i + h) by {}
        lemma_tail_skip(v, q, x, h, 0);
        lemma_inverse_pow(x, xi, h as nat);
        let xh = fpow(x, h as nat);
        let yh = fpow(xi, h as nat);
        let qv = feval(q, x);
        let vv = feval(v, x);
        let t = tensor(r, xi, k - 1);
        assert(vv == fmul(xh, qv));
        assert(cong(qv, yh * vv)) by {
            lemma_refl(xh);
            lemma_refl(yh);
            lemma_refl(qv);
            lemma_tail_reduced(q, x, 0);
            assert(cong(vv, xh * qv) && cong(1, xh * yh)) by {
                broadcast use group_shadow;

            }
            lemma_cong_mul(yh, yh, vv, xh * qv);
            lemma_cong_mul(1, xh * yh, qv, qv);
            assert(yh * (xh * qv) == (xh * yh) * qv) by (nonlinear_arith);
            lemma_cong_symm(yh * vv, yh * (xh * qv));
            lemma_cong_trans(1 * qv, (xh * yh) * qv, yh * vv);
        }
        lemma_refl(t);
        lemma_refl(yh);
        lemma_refl(rk);
        lemma_refl(om);
        assert(cong(vv, pa * t)) by {
            broadcast use group_shadow;

        }
        lemma_cong_mul(om, om, vv, pa * t);
        lemma_cong_mul(yh, yh, vv, pa * t);
        lemma_cong_trans(qv, yh * vv, yh * (pa * t));
        lemma_cong_mul(rk, rk, qv, yh * (pa * t));
        lemma_cong_add(om * vv, om * (pa * t), rk * qv, rk * (yh * (pa * t)));
        lemma_cong_trans(
            feval(w, x),
            om * vv + rk * qv,
            om * (pa * t) + rk * (yh * (pa * t)),
        );
        assert(cong(
            fmul(pa, fmul(t, fadd(om, fmul(rk, yh)))),
            pa * (t * (om + rk * yh)),
        )) by {
            broadcast use group_shadow;

        }
        assert(om * (pa * t) + rk * (yh * (pa * t)) == pa * (t * (om + rk * yh)))
            by (nonlinear_arith);
        lemma_shadow_eq(
            feval(w, x),
            om * (pa * t) + rk * (yh * (pa * t)),
            fmul(pa, fmul(t, fadd(om, fmul(rk, yh)))),
            pa * (t * (om + rk * yh)),
        );
    }
}

/// Whether every entry of a sequence is a canonical representative.
pub open spec fn entries_reduced(a: Seq<int>) -> bool {
    forall|i: int| 0 <= i < a.len() ==> reduced(#[trigger] a[i])
}

/// The first `n` entries in reverse order.
spec fn reversed(w: Seq<int>, n: int) -> Seq<int> {
    Seq::new(n as nat, |i: int| w[n - 1 - i])
}

spec fn unit_key(x: int, n: nat) -> Seq<int> {
    Seq::new(n, |i: int| fmul(1, fpow(x, i as nat)))
}

proof fn lemma_ring_reversed(a: int, y: int, d: int, b: int, c: int)
    ensures
        (a * y) * (d + (1 * b) * c) == y * (a * d) + (y * c) * (b * a),
{
    assert((a * y) * (d + (1 * b) * c) == (a * y) * d + (a * y) * (b * c)) by (nonlinear_arith);
    assert((a * y) * d == y * (a * d)) by (nonlinear_arith);
    assert((a * y) * (b * c) == (y * c) * (b * a)) by (nonlinear_arith);
}

/// `y^n sum_{i < n} w_i x^i = y rev(w)(y)` where `x y = 1`.
proof fn lemma_reversed(w: Seq<int>, x: int, y: int, n: int)
    requires
        0 <= n <= w.len(),
        fmul(x, y) == 1,
    ensures
        fmul(fpow(y, n as nat), dot(unit_key(x, w.len()), w, n)) == fmul(
            y,
            feval(reversed(w, n), y),
        ),
    decreases n,
{
    broadcast use group_reduced;

    lemma_modulus();
    let key = unit_key(x, w.len());
    lemma_refl(y);
    lemma_refl(0);
    lemma_refl(1);
    if n == 0 {
        assert(feval(reversed(w, 0), y) == 0);
        broadcast use group_shadow;

        assert(1 * 0 == y * 0) by (nonlinear_arith);
        lemma_shadow_eq(fmul(1, 0), 1int * 0int, fmul(y, 0), y * 0);
    } else {
        lemma_reversed(w, x, y, n - 1);
        let r0 = reversed(w, n - 1);
        let r1 = reversed(w, n);
        let rest = Seq::new((n - 1) as nat, |i: int| r1[i + 1]);
        assert(rest =~= r0);
        assert forall|k: int| 0 <= k implies #[trigger] at(r0, k) == at(r1, k + 1) by {
            if k < n - 1 {
                assert(rest[k] == r1[k + 1]);
            }
        }
        lemma_tail_skip(r1, r0, y, 1, 0);
        lemma_tail_step(r1, y, 0);
        let c = w[n - 1];
        assert(at(r1, 0) == c);
        let e = feval(r0, y);
        assert(feval(r1, y) == fadd(fmul(e, y), c));
        let yw = fpow(y, (n - 1) as nat);
        let xw = fpow(x, (n - 1) as nat);
        lemma_inverse_pow(x, y, (n - 1) as nat);
        let d = dot(key, w, n - 1);
        assert(dot(key, w, n) == fadd(d, fmul(fmul(1, xw), c)));
        assert(fpow(y, n as nat) == fmul(yw, y));
        lemma_refl(c);
        lemma_refl(e);
        lemma_refl(yw);
        lemma_refl(xw);
        lemma_refl(d);
        assert(cong(1, xw * yw) && cong(fmul(y, e), yw * d)) by {
            assert(cong(fmul(xw, yw), xw * yw)) by {
                broadcast use group_shadow;

            }
            assert(cong(fmul(yw, d), yw * d)) by {
                broadcast use group_shadow;

            }
        }
        assert(cong(fmul(y, e), y * e)) by {
            broadcast use group_shadow;

        }
        lemma_cong_symm(fmul(y, e), yw * d);
        lemma_cong_trans(yw * d, fmul(y, e), y * e);
        // left: (yw y)(d + (1 xw) c) = y (yw d) + y (xw yw) c
        assert(cong(
            fmul(fmul(yw, y), fadd(d, fmul(fmul(1, xw), c))),
            (yw * y) * (d + (1 * xw) * c),
        )) by {
            broadcast use group_shadow;

        }
        lemma_ring_reversed(yw, y, d, xw, c);
        lemma_cong_mul(y, y, yw * d, y * e);
        lemma_refl(y * c);
        lemma_cong_mul(y * c, y * c, 1, xw * yw);
        lemma_cong_symm((y * c) * 1, (y * c) * (xw * yw));
        lemma_cong_add(y * (yw * d), y * (y * e), (y * c) * (xw * yw), (y * c) * 1);
        lemma_cong_trans(
            fmul(fmul(yw, y), fadd(d, fmul(fmul(1, xw), c))),
            y * (yw * d) + (y * c) * (xw * yw),
            y * (y * e) + (y * c) * 1,
        );
        assert(cong(fmul(y, fadd(fmul(e, y), c)), y * (e * y + c))) by {
            broadcast use group_shadow;

        }
        assert(y * (y * e) + (y * c) * 1 == y * (e * y + c)) by (nonlinear_arith);
        lemma_shadow_eq(
            fmul(fmul(yw, y), fadd(d, fmul(fmul(1, xw), c))),
            y * (y * e) + (y * c) * 1,
            fmul(y, fadd(fmul(e, y), c)),
            y * (e * y + c),
        );
    }
}

/// The part of a Laurent buffer above the constant coefficient.
spec fn upper(w: Seq<int>, off: int) -> Seq<int> {
    Seq::new(off as nat, |i: int| w[off + 1 + i])
}

/// The witness of an inner product: the sums of the coefficients of `X^{i+1}`
/// and `X^{-(i+1)}` of a Laurent buffer.
pub open spec fn witness_of(w: Seq<int>, off: int) -> Seq<int> {
    Seq::new(off as nat, |i: int| fadd(w[off + 1 + i], w[off - 1 - i]))
}

/// The witness of the inner product of `a` with the eq vector of `r`.
pub open spec fn sym_witness(a: Seq<int>, r: Seq<int>, m: int) -> Seq<int> {
    witness_of(laurent(a, r, m, m), p2(m) - 1)
}

/// `a(x) T(1/x)` by the parts of the Laurent buffer.
proof fn lemma_half_identity(a: Seq<int>, r: Seq<int>, m: int, x: int, y: int)
    requires
        0 <= m <= r.len(),
        a.len() == p2(m),
        entries_reduced(a),
        fmul(x, y) == 1,
    ensures
        ({
            let w = laurent(a, r, m, m);
            let off = p2(m) - 1;
            fmul(feval(a, x), tensor(r, y, m)) == fadd(
                w[off],
                fadd(
                    fmul(x, feval(upper(w, off), x)),
                    fmul(y, feval(reversed(w, off), y)),
                ),
            )
        }),
{
    broadcast use group_reduced;

    lemma_modulus();
    lemma_pow2_mono(0, m);
    lemma_p2_zero();
    let w = laurent(a, r, m, m);
    let off = p2(m) - 1;
    let up = upper(w, off);
    lemma_laurent_value(a, r, m, m, x, y);
    let key = unit_key(x, w.len());
    lemma_power_key_eval(key, 1, x, w, off);
    lemma_reversed(w, x, y, off);
    lemma_tail_step(w, x, off);
    assert forall|k: int| 0 <= k implies #[trigger] at(up, k) == at(w, k + (off + 1)) by {}
    lemma_tail_skip(w, up, x, off + 1, 0);
    lemma_inverse_pow(x, y, off as nat);
    let xo = fpow(x, off as nat);
    let yo = fpow(y, off as nat);
    let av = feval(a, x);
    let t = tensor(r, y, m);
    let d = dot(key, w, off);
    let tl = tail(w, x, off);
    let hv = feval(up, x);
    let rv = feval(reversed(w, off), y);
    let c = w[off];
    let wv = feval(w, x);
    assert(tl == fadd(fmul(hv, x), c));
    assert(wv == fmul(fmul(xo, av), t));
    lemma_refl(xo);
    lemma_refl(yo);
    lemma_refl(av);
    lemma_refl(t);
    lemma_refl(d);
    lemma_refl(hv);
    lemma_refl(rv);
    lemma_refl(c);
    lemma_refl(x);
    lemma_refl(y);
    lemma_refl(1);
    // y^off w(x) in two ways
    assert(cong(1, xo * yo)) by {
        assert(cong(fmul(xo, yo), xo * yo)) by {
            broadcast use group_shadow;

        }
    }
    assert(cong(wv, (xo * av) * t)) by {
        broadcast use group_shadow;

    }
    assert(cong(fmul(1, wv), d + (1 * xo) * (hv * x + c))) by {
        assert(cong(fadd(d, fmul(fmul(1, xo), fadd(fmul(hv, x), c))), d + (1 * xo) * (hv * x + c)))
            by {
            broadcast use group_shadow;

        }
    }
    assert(fmul(1, wv) == wv) by {
        lemma_tail_reduced(w, x, 0);
        lemma_refl(wv);
        assert(cong(fmul(1, wv), 1 * wv)) by {
            broadcast use group_shadow;

        }
        lemma_cong_eq(fmul(1, wv), wv);
    }
    assert(cong(yo * d, y * rv)) by {
        assert(cong(fmul(yo, d), yo * d)) by {
            broadcast use group_shadow;

        }
        assert(cong(fmul(y, rv), y * rv)) by {
            broadcast use group_shadow;

        }
        lemma_cong_symm(fmul(yo, d), yo * d);
        lemma_cong_trans(yo * d, fmul(yo, d), y * rv);
    }
    // yo wv ~ (xo yo) (av t) ~ av t
    lemma_cong_mul(yo, yo, wv, (xo * av) * t);
    assert(yo * ((xo * av) * t) == (xo * yo) * (av * t)) by (nonlinear_arith);
    lemma_refl(av * t);
    lemma_cong_mul(1, xo * yo, av * t, av * t);
    lemma_cong_symm(1 * (av * t), (xo * yo) * (av * t));
    lemma_cong_trans(yo * wv, (xo * yo) * (av * t), av * t);
    // yo wv ~ yo d + (xo yo)(hv x + c) ~ y rv + (hv x + c)
    let z = hv * x + c;
    lemma_cong_mul(yo, yo, wv, d + (1 * xo) * z);
    assert(yo * (d + (1 * xo) * z) == yo * d + (xo * yo) * z) by (nonlinear_arith);
    lemma_refl(z);
    lemma_cong_mul(1, xo * yo, z, z);
    lemma_cong_symm(1 * z, (xo * yo) * z);
    lemma_cong_add(yo * d, y * rv, (xo * yo) * z, 1 * z);
    lemma_cong_trans(yo * wv, yo * d + (xo * yo) * z, y * rv + 1 * z);
    lemma_cong_symm(yo * wv, av * t);
    lemma_cong_trans(av * t, yo * wv, y * rv + 1 * z);
    assert(cong(fmul(av, t), av * t)) by {
        broadcast use group_shadow;

    }
    lemma_cong_trans(fmul(av, t), av * t, y * rv + 1 * z);
    assert(cong(fadd(c, fadd(fmul(x, hv), fmul(y, rv))), c + (x * hv + y * rv))) by {
        broadcast use group_shadow;

    }
    assert(y * rv + 1 * z == c + (x * hv + y * rv)) by (nonlinear_arith)
        requires
            z == hv * x + c,
    ;
    lemma_shadow_eq(
        fmul(av, t),
        y * rv + 1 * z,
        fadd(c, fadd(fmul(x, hv), fmul(y, rv))),
        c + (x * hv + y * rv),
    );
}

/// The symmetric identity of the witness `S` of the inner product
/// `y = <a, eq(r)>`:
/// `a(x) T_r(1/x) + a(1/x) T_r(x) = 2 y + x S(x) + (1/x) S(1/x)`.
pub proof fn law_symmetric_witness(a: Seq<int>, r: Seq<int>, m: int, x: int, y: int)
    requires
        0 <= m <= r.len(),
        a.len() == p2(m),
        entries_reduced(a),
        fmul(x, y) == 1,
    ensures
        ({
            let s = sym_witness(a, r, m);
            let v = dot(a, eq_vec(r, m), p2(m));
            fadd(
                fmul(feval(a, x), tensor(r, y, m)),
                fmul(feval(a, y), tensor(r, x, m)),
            ) == fadd(fadd(v, v), fadd(fmul(x, feval(s, x)), fmul(y, feval(s, y))))
        }),
{
    broadcast use group_reduced;

    lemma_modulus();
    lemma_pow2_mono(0, m);
    lemma_p2_zero();
    assert(fmul(y, x) == 1) by {
        assert(x * y == y * x) by (nonlinear_arith);
    }
    lemma_half_identity(a, r, m, x, y);
    lemma_half_identity(a, r, m, y, x);
    let w = laurent(a, r, m, m);
    let off = p2(m) - 1;
    let s = sym_witness(a, r, m);
    let up = upper(w, off);
    let lo = reversed(w, off);
    lemma_eval_sum(s, up, lo, x);
    lemma_eval_sum(s, up, lo, y);
    lemma_constant_is_dot(a, r, m, p2(m));
    let c = w[off];
    assert(c == dot(a, eq_vec(r, m), p2(m)));
    let hx = feval(up, x);
    let lx = feval(lo, x);
    let hy = feval(up, y);
    let ly = feval(lo, y);
    lemma_refl(c);
    lemma_refl(hx);
    lemma_refl(lx);
    lemma_refl(hy);
    lemma_refl(ly);
    lemma_refl(x);
    lemma_refl(y);
    broadcast use group_shadow;

    assert((c + (x * hx + y * ly)) + (c + (y * hy + x * lx)) == (c + c) + (x * (hx + lx) + y * (hy
        + ly))) by (nonlinear_arith);
    lemma_shadow_eq(
        fadd(
            fadd(c, fadd(fmul(x, hx), fmul(y, ly))),
            fadd(c, fadd(fmul(y, hy), fmul(x, lx))),
        ),
        (c + (x * hx + y * ly)) + (c + (y * hy + x * lx)),
        fadd(fadd(c, c), fadd(fmul(x, fadd(hx, lx)), fmul(y, fadd(hy, ly)))),
        (c + c) + (x * (hx + lx) + y * (hy + ly)),
    );
}

proof fn lemma_eval_sum(s: Seq<int>, a: Seq<int>, b: Seq<int>, x: int)
    requires
        s.len() == a.len() == b.len(),
        forall|i: int| 0 <= i < s.len() ==> #[trigger] s[i] == fadd(a[i], b[i]),
    ensures
        feval(s, x) == fadd(feval(a, x), feval(b, x)),
{
    broadcast use group_reduced;

    assert forall|k: int| 0 <= k implies cong(#[trigger] at(s, k), 1 * at(a, k) + 1 * at(b, k)) by {
        lemma_refl(at(a, k));
        lemma_refl(at(b, k));
        lemma_refl(0);
        if k < s.len() {
            assert(s[k] == fadd(a[k], b[k]));
            broadcast use group_shadow;

        }
    }
    lemma_eval_lin(s, a, b, 1, 1, x);
    let av = feval(a, x);
    let bv = feval(b, x);
    lemma_refl(av);
    lemma_refl(bv);
    lemma_tail_reduced(s, x, 0);
    broadcast use group_shadow;

    lemma_shadow_eq(feval(s, x), 1 * av + 1 * bv, fadd(av, bv), av + bv);
}

/// The constant coefficient as an inner product, for the first `m` variables.
proof fn lemma_constant_is_dot(a: Seq<int>, r: Seq<int>, m: int, n: int)
    requires
        0 <= n <= a.len(),
        n <= p2(m),
    ensures
        laurent_at(a, eq_vec(r, m), 0, n) == dot(a, eq_vec(r, m), n),
    decreases n,
{
    if n > 0 {
        lemma_constant_is_dot(a, r, m, n - 1);
        let e = eq_vec(r, m)[n - 1];
        assert(at(a, 0 + (n - 1)) == a[n - 1]);
        assert(e * a[n - 1] == a[n - 1] * e) by (nonlinear_arith);
    }
}

/// The witness `S` of the inner product of `a` with the eq vector of `p`.
pub fn symmetric_witness(a: &[Scalar], p: &[Scalar], m: usize) -> (s: Vec<Scalar>)
    requires
        m < usize::BITS,
        2 * p2(m as int) <= usize::MAX,
        a@.len() == p2(m as int),
        m <= p@.len(),
    ensures
        vals(s@) == sym_witness(vals(a@), vals(p@), m as int),
        s@.len() == p2(m as int) - 1,
{
    let w = mul_by_reciprocal_tensor(a, m, p);
    let ghost wv = laurent(vals(a@), vals(p@), m as int, m as int);
    assert(vals(a@).take(p2(m as int)) =~= vals(a@));
    assert(vals(w@) == wv);
    let offset: usize = a.len() - 1;
    let mut s: Vec<Scalar> = Vec::new();
    let mut i: usize = 0;
    while i < offset
        invariant
            i <= offset,
            w@.len() == 2 * offset + 1,
            2 * offset + 1 <= usize::MAX,
            vals(w@) == wv,
            s@.len() == i,
            forall|k: int|
                0 <= k < i ==> (#[trigger] s@[k])@ == fadd(
                    wv[offset + 1 + k],
                    wv[offset - 1 - k],
                ),
        decreases offset - i,
    {
        assert(vals(w@)[offset + 1 + i] == w@[offset + 1 + i]@);
        assert(vals(w@)[offset - 1 - i] == w@[offset - 1 - i]@);
        s.push(w[offset + 1 + i].add(w[offset - 1 - i]));
        i = i + 1;
    }
    assert(vals(s@) =~= sym_witness(vals(a@), vals(p@), m as int));
    s
}

} // verus!
