//! The Claymore identity
//! `gamma^{N-1} hbar(z) - hbar(gamma z) = z^{N-1} (f(z) T(1/z) - y)`.

use crate::bdfg::lemma_fsub_zero;
use crate::dims::lemma_pow2_mono;
use crate::field::{
    cong, fadd, finv, finv_or_zero, fmul, fpow, fsub, group_reduced, group_shadow, lemma_cong_add,
    lemma_cong_mul, lemma_cong_symm, lemma_cong_trans, lemma_modulus, lemma_refl, lemma_shadow_eq,
    reduced,
};
use crate::laurent::{
    laurent_at, law_constant_coefficient, lemma_inverse_pow, lemma_laurent_at_zero,
    lemma_laurent_start, lemma_laurent_step,
};
use crate::mulcs::division::lemma_scaled_const;
use crate::mulcs::util::{
    claymore_h, claymore_h_bar, lemma_structured_len, structured, times_binomial,
};
use crate::poly::{
    all_reduced, at, feval, invertible, lemma_dot_reduced, lemma_eval_lin, lemma_eval_shifted,
    lemma_tail_reduced, shifted, tail,
};
use crate::tensor::{eq_vec, lemma_fpow_add, lemma_p2_step, lemma_p2_zero, mle_eval, p2, tensor};
use vstd::arithmetic::power2::pow2;
use vstd::prelude::*;

verus! {

/// `prod_k (r_k + (1 - r_k) x^{2^k})` over the first `k` variables.
pub open spec fn reversed_tensor(r: Seq<int>, x: int, k: int) -> int
    decreases k,
{
    if k <= 0 {
        1
    } else {
        fmul(
            reversed_tensor(r, x, k - 1),
            fadd(r[k - 1], fmul(fsub(1, r[k - 1]), fpow(x, pow2((k - 1) as nat)))),
        )
    }
}

/// Value of a product with a binomial.
pub proof fn law_binomial_value(p: Seq<int>, s: int, a: int, b: int, x: int)
    requires
        0 <= s,
    ensures
        feval(times_binomial(p, s, a, b), x) == fmul(
            feval(p, x),
            fadd(b, fmul(a, fpow(x, s as nat))),
        ),
{
    broadcast use group_reduced;

    let t = times_binomial(p, s, a, b);
    let sh = shifted(p, s, t.len());
    lemma_refl(0);
    lemma_refl(a);
    lemma_refl(b);
    assert forall|k: int| 0 <= k implies cong(#[trigger] at(t, k), b * at(p, k) + a * at(sh, k)) by {
        if k < t.len() {
            let u = at(p, k);
            let v = at(p, k - s);
            assert(at(sh, k) == v);
            lemma_refl(u);
            lemma_refl(v);
            assert(u * b + v * a == b * u + a * v) by (nonlinear_arith);
            broadcast use group_shadow;

            assert(cong(fadd(fmul(u, b), fmul(v, a)), u * b + v * a));
        } else {
            assert(b * 0 + a * 0 == 0) by (nonlinear_arith);
        }
    }
    lemma_eval_lin(t, p, sh, b, a, x);
    lemma_eval_shifted(p, s, t.len(), x);
    let pv = feval(p, x);
    let w = fpow(x, s as nat);
    let sv = feval(sh, x);
    lemma_refl(pv);
    lemma_refl(w);
    lemma_tail_reduced(t, x, 0);
    assert(cong(sv, w * pv)) by {
        broadcast use group_shadow;

        assert(cong(fmul(w, pv), w * pv));
    }
    lemma_refl(b * pv);
    lemma_cong_mul(a, a, sv, w * pv);
    lemma_cong_add(b * pv, b * pv, a * sv, a * (w * pv));
    lemma_cong_trans(feval(t, x), b * pv + a * sv, b * pv + a * (w * pv));
    assert(b * pv + a * (w * pv) == pv * (b + a * w)) by (nonlinear_arith);
    broadcast use group_shadow;

    lemma_shadow_eq(
        feval(t, x),
        b * pv + a * (w * pv),
        fmul(pv, fadd(b, fmul(a, w))),
        pv * (b + a * w),
    );
}

/// Value of a product with the structured factors.
pub proof fn law_structured_value(p: Seq<int>, r: Seq<int>, x: int, k: int)
    requires
        0 <= k,
    ensures
        feval(structured(p, r, k), x) == fmul(feval(p, x), reversed_tensor(r, x, k)),
    decreases k,
{
    broadcast use group_reduced;

    let pv = feval(p, x);
    lemma_refl(pv);
    lemma_refl(1);
    if k == 0 {
        lemma_tail_reduced(p, x, 0);
        broadcast use group_shadow;

        lemma_shadow_eq(pv, pv, fmul(pv, 1), pv * 1);
    } else {
        law_structured_value(p, r, x, k - 1);
        let c = r[k - 1];
        law_binomial_value(structured(p, r, k - 1), p2(k - 1), fsub(1, c), c, x);
        let t = reversed_tensor(r, x, k - 1);
        let u = fadd(c, fmul(fsub(1, c), fpow(x, pow2((k - 1) as nat))));
        lemma_refl(t);
        lemma_refl(u);
        assert((pv * t) * u == pv * (t * u)) by (nonlinear_arith);
        broadcast use group_shadow;

        lemma_shadow_eq(fmul(fmul(pv, t), u), (pv * t) * u, fmul(pv, fmul(t, u)), pv * (t * u));
    }
}

proof fn lemma_ring_tensor(m: int, t: int, w: int, v: int, c: int)
    ensures
        (m * t) * (c * (w * v) + (1 - c) * w) == (m * w) * (t * ((1 - c) + c * v)),
{
    assert(c * (w * v) + (1 - c) * w == w * ((1 - c) + c * v)) by (nonlinear_arith);
    let q = (1 - c) + c * v;
    assert((m * t) * (w * q) == (m * w) * (t * q)) by (nonlinear_arith);
}

/// The structured factors at `x` are `x^{2^k - 1}` times the tensor polynomial
/// at the inverse of `x`.
pub proof fn law_reversed_tensor(r: Seq<int>, x: int, y: int, k: int)
    requires
        0 <= k,
        fmul(x, y) == 1,
    ensures
        reversed_tensor(r, x, k) == fmul(fpow(x, (p2(k) - 1) as nat), tensor(r, y, k)),
    decreases k,
{
    broadcast use group_reduced;

    lemma_p2_zero();
    lemma_modulus();
    lemma_refl(1);
    if k == 0 {
        broadcast use group_shadow;

        lemma_shadow_eq(1, 1, fmul(1, 1), 1 * 1int);
    } else {
        law_reversed_tensor(r, x, y, k - 1);
        lemma_p2_step(k);
        let h = pow2((k - 1) as nat);
        let c = r[k - 1];
        let w = fpow(x, h);
        let v = fpow(y, h);
        let m = fpow(x, (h - 1) as nat);
        let t = tensor(r, y, k - 1);
        lemma_inverse_pow(x, y, h);
        lemma_fpow_add(x, (h - 1) as nat, h);
        assert(p2(k) - 1 == (h - 1) + h);
        assert(fpow(x, (p2(k) - 1) as nat) == fmul(m, w));
        lemma_refl(c);
        lemma_refl(w);
        lemma_refl(v);
        lemma_refl(m);
        lemma_refl(t);
        // c ~ c (w v)
        assert(cong(c * (w * v), c)) by {
            assert(cong(w * v, 1)) by {
                assert(cong(fmul(w, v), w * v)) by {
                    broadcast use group_shadow;

                }
                lemma_cong_symm(fmul(w, v), w * v);
            }
            lemma_cong_mul(c, c, w * v, 1);
        }
        let left = fmul(fmul(m, t), fadd(c, fmul(fsub(1, c), w)));
        assert(cong(left, (m * t) * (c + (1 - c) * w))) by {
            broadcast use group_shadow;

        }
        lemma_cong_symm(c * (w * v), c);
        lemma_refl((1 - c) * w);
        lemma_refl(m * t);
        lemma_cong_add(c, c * (w * v), (1 - c) * w, (1 - c) * w);
        lemma_cong_mul(m * t, m * t, c + (1 - c) * w, c * (w * v) + (1 - c) * w);
        lemma_cong_trans(
            left,
            (m * t) * (c + (1 - c) * w),
            (m * t) * (c * (w * v) + (1 - c) * w),
        );
        lemma_ring_tensor(m, t, w, v, c);
        broadcast use group_shadow;

        lemma_shadow_eq(
            left,
            (m * t) * (c * (w * v) + (1 - c) * w),
            fmul(fmul(m, w), fmul(t, fadd(fsub(1, c), fmul(c, v)))),
            (m * w) * (t * ((1 - c) + c * v)),
        );
    }
}

/// A coefficient of the product with the structured factors, as a Laurent
/// coefficient.
proof fn lemma_structured_at(f: Seq<int>, r: Seq<int>, k: int, i: int)
    requires
        0 <= k,
        all_reduced(f),
    ensures
        at(structured(f, r, k), i) == laurent_at(f, eq_vec(r, k), i - (p2(k) - 1), p2(k)),
    decreases k,
{
    broadcast use group_reduced;

    lemma_p2_zero();
    if k == 0 {
        lemma_laurent_start(f, r, i);
    } else {
        lemma_p2_step(k);
        let h = p2(k - 1);
        let s = structured(f, r, k - 1);
        lemma_structured_len(f, r, k - 1);
        lemma_structured_len(f, r, k);
        lemma_structured_at(f, r, k - 1, i);
        lemma_structured_at(f, r, k - 1, i - h);
        let d = i - (p2(k) - 1);
        lemma_laurent_step(f, r, k - 1, d);
        if 0 <= i < structured(f, r, k).len() {
            let c = r[k - 1];
            let u = at(s, i);
            let v = at(s, i - h);
            assert(u == laurent_at(f, eq_vec(r, k - 1), d + h, h));
            assert(v == laurent_at(f, eq_vec(r, k - 1), d, h));
            lemma_refl(c);
            lemma_refl(u);
            lemma_refl(v);
            lemma_refl(1);
            assert(u * c + v * (1 - c) == (1 - c) * v + c * u) by (nonlinear_arith);
            broadcast use group_shadow;

            lemma_shadow_eq(
                fadd(fmul(u, c), fmul(v, fsub(1, c))),
                u * c + v * (1 - c),
                fadd(fmul(fsub(1, c), v), fmul(c, u)),
                (1 - c) * v + c * u,
            );
        } else {
            lemma_laurent_at_zero(f, eq_vec(r, k), d, p2(k));
        }
    }
}

/// The coefficient of `X^{N - 1}` of the product with the structured factors is
/// the value of the table at the point.
pub proof fn law_middle_coefficient(f: Seq<int>, r: Seq<int>)
    requires
        f.len() == p2(r.len() as int),
        all_reduced(f),
    ensures
        structured(f, r, r.len() as int).len() == 2 * f.len() - 1,
        structured(f, r, r.len() as int)[f.len() - 1] == mle_eval(f, r),
{
    let mu = r.len() as int;
    lemma_structured_len(f, r, mu);
    lemma_pow2_mono(0, mu);
    lemma_p2_zero();
    lemma_structured_at(f, r, mu, f.len() - 1);
    law_constant_coefficient(f, r);
}

/// `h` has no term in `X^{N - 1}` if and only if `y` is the value of the table
/// at the point.
pub proof fn law_h_middle(f: Seq<int>, r: Seq<int>, y: int)
    requires
        f.len() == p2(r.len() as int),
        all_reduced(f),
        reduced(y),
    ensures
        claymore_h(f, r, r.len() as int, y)[f.len() - 1] == 0 <==> y == mle_eval(f, r),
        claymore_h(f, r, r.len() as int, y).len() == 2 * f.len() - 1,
{
    law_middle_coefficient(f, r);
    lemma_pow2_mono(0, r.len() as int);
    lemma_dot_reduced(f, eq_vec(r, r.len() as int), p2(r.len() as int));
    lemma_fsub_zero(mle_eval(f, r), y);
}

/// Value of `h`.
pub proof fn law_h_value(f: Seq<int>, r: Seq<int>, y: int, x: int)
    requires
        f.len() == p2(r.len() as int),
        all_reduced(f),
    ensures
        feval(claymore_h(f, r, r.len() as int, y), x) == fsub(
            fmul(feval(f, x), reversed_tensor(r, x, r.len() as int)),
            fmul(fpow(x, (f.len() - 1) as nat), y),
        ),
{
    broadcast use group_reduced;

    let mu = r.len() as int;
    let n = f.len() as int;
    let s = structured(f, r, mu);
    let h = claymore_h(f, r, mu, y);
    lemma_structured_len(f, r, mu);
    lemma_pow2_mono(0, mu);
    law_structured_value(f, r, x, mu);
    let c = shifted(seq![y], n - 1, n as nat);
    lemma_refl(0);
    lemma_refl(y);
    assert forall|k: int| 0 <= k implies cong(#[trigger] at(h, k), 1 * at(s, k) + (-1) * at(c, k)) by {
        lemma_refl(at(s, k));
        if k == n - 1 {
            assert(at(c, k) == y);
            broadcast use group_shadow;

            assert(cong(fsub(s[k], y), s[k] - y));
        } else {
            assert(at(c, k) == 0);
            assert(at(h, k) == at(s, k));
        }
    }
    lemma_eval_lin(h, s, c, 1, -1, x);
    lemma_eval_shifted(seq![y], n - 1, n as nat, x);
    lemma_scaled_const(fpow(x, (n - 1) as nat), y, x);
    let a = feval(s, x);
    let b = feval(c, x);
    lemma_refl(a);
    lemma_refl(b);
    lemma_tail_reduced(h, x, 0);
    broadcast use group_shadow;

    lemma_shadow_eq(feval(h, x), 1 * a + (-1) * b, fsub(a, b), a - b);
}

/// The polynomial `p(g X)`.
pub open spec fn dilated(p: Seq<int>, g: int) -> Seq<int> {
    Seq::new(p.len(), |i: int| fmul(p[i], fpow(g, i as nat)))
}

proof fn lemma_ring_dilated(t: int, x: int, c: int, w: int, g: int)
    ensures
        ((w * g) * t) * x + c * w == w * (t * (g * x) + c),
{
    assert(((w * g) * t) * x == w * (t * (g * x))) by (nonlinear_arith);
    assert(w * (t * (g * x) + c) == w * (t * (g * x)) + w * c) by (nonlinear_arith);
    assert(c * w == w * c) by (nonlinear_arith);
}

proof fn lemma_dilated_from(p: Seq<int>, g: int, x: int, i: int)
    requires
        0 <= i <= p.len(),
    ensures
        tail(dilated(p, g), x, i) == fmul(fpow(g, i as nat), tail(p, fmul(g, x), i)),
    decreases p.len() - i,
{
    broadcast use group_reduced;

    let w = fpow(g, i as nat);
    lemma_refl(w);
    lemma_refl(0);
    if i == p.len() {
        broadcast use group_shadow;

        assert(w * 0 == 0) by (nonlinear_arith);
        lemma_shadow_eq(0, 0, fmul(w, 0), w * 0);
    } else {
        lemma_dilated_from(p, g, x, i + 1);
        let t = tail(p, fmul(g, x), i + 1);
        let c = p[i];
        lemma_refl(t);
        lemma_refl(c);
        lemma_refl(g);
        lemma_refl(x);
        assert(fpow(g, (i + 1) as nat) == fmul(w, g));
        lemma_ring_dilated(t, x, c, w, g);
        broadcast use group_shadow;

        lemma_shadow_eq(
            fadd(fmul(fmul(fmul(w, g), t), x), fmul(c, w)),
            ((w * g) * t) * x + c * w,
            fmul(w, fadd(fmul(t, fmul(g, x)), c)),
            w * (t * (g * x) + c),
        );
    }
}

/// Value of `p(g X)`.
pub proof fn law_dilated(p: Seq<int>, g: int, x: int)
    ensures
        feval(dilated(p, g), x) == feval(p, fmul(g, x)),
{
    broadcast use group_reduced;

    lemma_dilated_from(p, g, x, 0);
    let v = feval(p, fmul(g, x));
    lemma_tail_reduced(p, fmul(g, x), 0);
    lemma_refl(1);
    lemma_refl(v);
    broadcast use group_shadow;

    lemma_shadow_eq(fmul(1, v), 1 * v, v, v);
}

/// Whether `gamma^{n - 1}` differs, invertibly, from every other power of
/// `gamma` below `len`.
pub open spec fn powers_apart(gamma: int, n: int, len: int) -> bool {
    forall|i: int|
        0 <= i < len && i != n - 1 ==> invertible(
            fsub(fpow(gamma, (n - 1) as nat), #[trigger] fpow(gamma, i as nat)),
        )
}

proof fn lemma_h_bar_coefficient(h: int, top: int, w: int)
    requires
        invertible(fsub(top, w)),
        reduced(h),
    ensures
        ({
            let hb = fmul(h, finv_or_zero(fsub(top, w)));
            fsub(fmul(top, hb), fmul(hb, w))
        }) == h,
{
    broadcast use group_reduced;

    let d = fsub(top, w);
    let i = finv(d);
    lemma_modulus();
    lemma_refl(0);
    lemma_refl(i);
    if d == 0 {
        broadcast use group_shadow;

        assert(0 * i == 0) by (nonlinear_arith);
        lemma_shadow_eq(fmul(0, i), 0 * i, 0, 0);
    }
    let hb = fmul(h, i);
    lemma_refl(h);
    lemma_refl(top);
    lemma_refl(w);
    assert(cong((top - w) * i, 1)) by {
        broadcast use group_shadow;

        assert(cong(fmul(d, i), (top - w) * i));
        lemma_cong_symm(fmul(d, i), (top - w) * i);
    }
    lemma_cong_mul(h, h, (top - w) * i, 1);
    assert(top * (h * i) - (h * i) * w == h * ((top - w) * i)) by (nonlinear_arith);
    broadcast use group_shadow;

    let left = fsub(fmul(top, hb), fmul(hb, w));
    assert(cong(left, top * (h * i) - (h * i) * w));
    lemma_cong_trans(left, h * ((top - w) * i), h * 1);
    lemma_shadow_eq(left, h * 1, h, h);
}

proof fn lemma_h_bar_middle(top: int, delta: int)
    ensures
        fsub(fmul(top, delta), fmul(delta, top)) == 0,
{
    broadcast use group_reduced;

    lemma_modulus();
    lemma_refl(top);
    lemma_refl(delta);
    lemma_refl(0);
    assert(top * delta - delta * top == 0) by (nonlinear_arith);
    broadcast use group_shadow;

    lemma_shadow_eq(fsub(fmul(top, delta), fmul(delta, top)), top * delta - delta * top, 0, 0);
}

/// `gamma^{n-1} hbar(z) - hbar(gamma z) = h(z) - h_{n-1} z^{n-1}`.
pub proof fn law_h_bar(h: Seq<int>, gamma: int, n: int, delta: int, z: int)
    requires
        1 <= n <= h.len(),
        all_reduced(h),
        powers_apart(gamma, n, h.len() as int),
    ensures
        ({
            let hb = claymore_h_bar(h, gamma, n, delta);
            fsub(
                fmul(fpow(gamma, (n - 1) as nat), feval(hb, z)),
                feval(hb, fmul(gamma, z)),
            )
        }) == fsub(feval(h, z), fmul(fpow(z, (n - 1) as nat), h[n - 1])),
{
    broadcast use group_reduced;

    let hb = claymore_h_bar(h, gamma, n, delta);
    let top = fpow(gamma, (n - 1) as nat);
    let dl = dilated(hb, gamma);
    // the polynomial gamma^{n-1} hbar(X) - hbar(gamma X)
    let left = Seq::new(h.len(), |i: int| fsub(fmul(top, hb[i]), dl[i]));
    let m = h[n - 1];
    let c = shifted(seq![m], n - 1, n as nat);
    lemma_refl(0);
    lemma_refl(top);
    assert forall|k: int| 0 <= k implies cong(#[trigger] at(left, k), top * at(hb, k) + (-1) * at(
        dl,
        k,
    )) by {
        if k < h.len() {
            lemma_refl(hb[k]);
            lemma_refl(dl[k]);
            broadcast use group_shadow;

            assert(cong(fsub(fmul(top, hb[k]), dl[k]), top * hb[k] - dl[k]));
        } else {
            assert(top * 0 + (-1) * 0 == 0) by (nonlinear_arith);
        }
    }
    assert forall|k: int| 0 <= k implies cong(#[trigger] at(left, k), 1 * at(h, k) + (-1) * at(
        c,
        k,
    )) by {
        if k == n - 1 {
            lemma_h_bar_middle(top, delta);
            assert(at(c, k) == m);
            assert(at(left, k) == 0);
        } else if k < h.len() {
            assert(invertible(fsub(top, fpow(gamma, k as nat))));
            lemma_h_bar_coefficient(h[k], top, fpow(gamma, k as nat));
            assert(at(left, k) == h[k]);
            assert(at(c, k) == 0);
            lemma_refl(h[k]);
        } else {
            assert(at(c, k) == 0);
        }
    }
    lemma_eval_lin(left, hb, dl, top, -1, z);
    lemma_eval_lin(left, h, c, 1, -1, z);
    law_dilated(hb, gamma, z);
    lemma_eval_shifted(seq![m], n - 1, n as nat, z);
    lemma_scaled_const(fpow(z, (n - 1) as nat), m, z);
    let lv = feval(left, z);
    let a = feval(hb, z);
    let b = feval(hb, fmul(gamma, z));
    let hv = feval(h, z);
    let cv = feval(c, z);
    lemma_refl(a);
    lemma_refl(b);
    lemma_refl(hv);
    lemma_refl(cv);
    lemma_tail_reduced(left, z, 0);
    broadcast use group_shadow;

    lemma_shadow_eq(lv, top * a + (-1) * b, fsub(fmul(top, a), b), top * a - b);
    lemma_shadow_eq(lv, 1 * hv + (-1) * cv, fsub(hv, cv), hv - cv);
}

/// What the verifier asks of the values at `z` and `gamma z`.
pub open spec fn claymore_holds(
    gamma: int,
    n: int,
    z: int,
    y_f: int,
    y_hbar: int,
    y_hbar_prime: int,
    u: Seq<int>,
    y: int,
) -> bool {
    fsub(fmul(fpow(gamma, (n - 1) as nat), y_hbar), y_hbar_prime) == fmul(
        fpow(z, (n - 1) as nat),
        fsub(fmul(y_f, tensor(u, finv(z), u.len() as int)), y),
    )
}

/// The Claymore identity holds of the helper polynomial of a table and its
/// value at a point.
pub proof fn law_claymore(f: Seq<int>, u: Seq<int>, gamma: int, delta: int, z: int)
    requires
        f.len() == p2(u.len() as int),
        all_reduced(f),
        powers_apart(gamma, f.len() as int, 2 * f.len() - 1),
        invertible(z),
    ensures
        ({
            let n = f.len() as int;
            let y = mle_eval(f, u);
            let hb = claymore_h_bar(claymore_h(f, u, u.len() as int, y), gamma, n, delta);
            claymore_holds(
                gamma,
                n,
                z,
                feval(f, z),
                feval(hb, z),
                feval(hb, fmul(gamma, z)),
                u,
                y,
            )
        }),
{
    broadcast use group_reduced;

    let mu = u.len() as int;
    let n = f.len() as int;
    let y = mle_eval(f, u);
    let zi = finv(z);
    let h = claymore_h(f, u, mu, y);
    lemma_pow2_mono(0, mu);
    lemma_dot_reduced(f, eq_vec(u, mu), p2(mu));
    law_h_middle(f, u, y);
    law_h_value(f, u, y, z);
    lemma_h_reduced(f, u, y);
    law_h_bar(h, gamma, n, delta, z);
    law_reversed_tensor(u, z, zi, mu);
    let w = fpow(z, (n - 1) as nat);
    let t = tensor(u, zi, mu);
    let fv = feval(f, z);
    lemma_refl(w);
    lemma_refl(t);
    lemma_refl(fv);
    lemma_refl(y);
    lemma_refl(0);
    assert((fv * (w * t) - w * y) - w * 0 == w * (fv * t - y)) by (nonlinear_arith);
    broadcast use group_shadow;

    lemma_shadow_eq(
        fsub(fsub(fmul(fv, fmul(w, t)), fmul(w, y)), fmul(w, 0)),
        (fv * (w * t) - w * y) - w * 0,
        fmul(w, fsub(fmul(fv, t), y)),
        w * (fv * t - y),
    );
}

proof fn lemma_h_reduced(f: Seq<int>, u: Seq<int>, y: int)
    requires
        f.len() == p2(u.len() as int),
        all_reduced(f),
    ensures
        all_reduced(claymore_h(f, u, u.len() as int, y)),
{
    broadcast use group_reduced;

    let mu = u.len() as int;
    lemma_structured_len(f, u, mu);
    lemma_pow2_mono(0, mu);
    lemma_structured_reduced(f, u, mu);
}

proof fn lemma_structured_reduced(f: Seq<int>, u: Seq<int>, k: int)
    requires
        all_reduced(f),
    ensures
        all_reduced(structured(f, u, k)),
    decreases k,
{
    broadcast use group_reduced;

    if k > 0 {
        lemma_structured_reduced(f, u, k - 1);
    }
}

} // verus!
