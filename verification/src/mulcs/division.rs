//! Long division of polynomials.

use crate::bdfg::poly_sub;
use crate::dims::copy_scalars;
use crate::field::{
    cong, fadd, finv, fmul, fpow, fsub, group_reduced, group_shadow, is_inverse, lemma_cong_add,
    lemma_cong_mul, lemma_cong_of_eq, lemma_cong_symm, lemma_cong_trans, lemma_refl,
    lemma_shadow_eq, vals, Scalar,
};
use crate::poly::{
    at, feval, invertible, lemma_eval_const, lemma_eval_lin, lemma_eval_shifted, lemma_eval_split,
    lemma_tail_reduced, p_sub, shifted, tail,
};
use vstd::prelude::*;

verus! {

/// `a` less `c X^s b`, without its highest coefficient.
pub open spec fn reduced_top(a: Seq<int>, b: Seq<int>, c: int) -> Seq<int> {
    let s = a.len() - b.len();
    Seq::new(
        (a.len() - 1) as nat,
        |i: int| if i < s {
            a[i]
        } else {
            fsub(a[i], fmul(c, b[i - s]))
        },
    )
}

/// The quotient of the highest coefficients.
pub open spec fn top_quotient(a: Seq<int>, b: Seq<int>) -> int {
    fmul(a[a.len() - 1], finv(b[b.len() - 1]))
}

/// Coefficients of the quotient of `a` by `b`.
pub open spec fn p_div(a: Seq<int>, b: Seq<int>) -> Seq<int>
    decreases a.len(),
{
    if b.len() == 0 || a.len() < b.len() {
        Seq::empty()
    } else {
        let c = top_quotient(a, b);
        p_div(reduced_top(a, b, c), b).push(c)
    }
}

/// Coefficients of the remainder of `a` by `b`.
pub open spec fn p_rem(a: Seq<int>, b: Seq<int>) -> Seq<int>
    decreases a.len(),
{
    if b.len() == 0 || a.len() < b.len() {
        a
    } else {
        p_rem(reduced_top(a, b, top_quotient(a, b)), b)
    }
}

pub proof fn lemma_div_len(a: Seq<int>, b: Seq<int>)
    requires
        b.len() > 0,
    ensures
        p_div(a, b).len() == (if a.len() < b.len() {
            0
        } else {
            a.len() - b.len() + 1
        }),
        p_rem(a, b).len() == (if a.len() < b.len() {
            a.len() as int
        } else {
            b.len() - 1
        }),
    decreases a.len(),
{
    if a.len() >= b.len() {
        lemma_div_len(reduced_top(a, b, top_quotient(a, b)), b);
    }
}

/// Quotient of `a` by `b`, whose highest coefficient must not be zero.
pub fn poly_div(a: &[Scalar], b: &[Scalar]) -> (q: Vec<Scalar>)
    requires
        b@.len() >= 1,
        b@[b@.len() - 1]@ != 0,
    ensures
        vals(q@) == p_div(vals(a@), vals(b@)),
        invertible(b@[b@.len() - 1]@),
{
    let ghost bv = vals(b@);
    let lb: usize = b.len();
    let inv = b[lb - 1].inverse().unwrap();
    let mut rem = copy_scalars(a);
    // the coefficients of the quotient from the highest down
    let mut high: Vec<Scalar> = Vec::new();
    let ghost av = vals(a@);
    while rem.len() >= lb
        invariant
            lb == b@.len(),
            lb >= 1,
            bv == vals(b@),
            inv@ == finv(bv[lb - 1]),
            is_inverse(bv[lb - 1], inv@),
            p_div(av, bv) == p_div(vals(rem@), bv) + vals(high@).reverse(),
        decreases rem@.len(),
    {
        let ghost r0 = vals(rem@);
        let n: usize = rem.len();
        let c = rem[n - 1].mul(inv);
        let shift: usize = n - lb;
        let mut j: usize = 0;
        while j < lb
            invariant
                j <= lb == b@.len(),
                lb <= n == rem@.len(),
                shift == n - lb,
                bv == vals(b@),
                r0.len() == n,
                forall|i: int|
                    0 <= i < n ==> (#[trigger] rem@[i])@ == (if shift <= i < shift + j {
                        fsub(r0[i], fmul(c@, bv[i - shift]))
                    } else {
                        r0[i]
                    }),
            decreases lb - j,
        {
            let v = rem[shift + j].sub(c.mul(b[j]));
            rem.set(shift + j, v);
            j = j + 1;
        }
        let top = rem.pop();
        let ghost h0 = vals(high@);
        high.push(c);
        proof {
            assert(vals(rem@) =~= reduced_top(r0, bv, c@));
            assert(vals(high@).reverse() =~= seq![c@] + h0.reverse());
            assert(p_div(r0, bv) + h0.reverse() =~= p_div(vals(rem@), bv) + vals(
                high@,
            ).reverse());
        }
    }
    let mut q: Vec<Scalar> = Vec::new();
    let m: usize = high.len();
    let mut k: usize = 0;
    while k < m
        invariant
            k <= m == high@.len(),
            q@.len() == k,
            forall|i: int| 0 <= i < k ==> #[trigger] q@[i] == high@[m - 1 - i],
        decreases m - k,
    {
        q.push(high[m - 1 - k]);
        k = k + 1;
    }
    assert(vals(q@) =~= vals(high@).reverse());
    assert(vals(q@) =~= p_div(av, bv));
    q
}

/// Quotient by `z` of `f` less `r`.
pub fn poly_sub_div(f: &[Scalar], r: &[Scalar], z: &[Scalar]) -> (q: Vec<Scalar>)
    requires
        r@.len() <= f@.len(),
        z@.len() >= 1,
        z@[z@.len() - 1]@ != 0,
    ensures
        vals(q@) == p_div(p_sub(vals(f@), vals(r@)), vals(z@)),
        invertible(z@[z@.len() - 1]@),
{
    let difference = poly_sub(f, r);
    poly_div(difference.as_slice(), z)
}

proof fn lemma_ring_division(c: int, b: int, x: int, q: int, r: int)
    ensures
        (q * b + r) + (c * x) * b == (q + x * c) * b + r,
{
    assert((q + x * c) * b == q * b + (c * x) * b) by (nonlinear_arith);
}

/// Value of a polynomial with one more coefficient.
proof fn lemma_eval_push(p: Seq<int>, c: int, x: int)
    ensures
        feval(p.push(c), x) == fadd(feval(p, x), fmul(fpow(x, p.len()), c)),
{
    broadcast use group_reduced;

    let q = p.push(c);
    let n = p.len() as int;
    lemma_eval_split(q, n, x);
    assert(q.subrange(0, n) =~= p);
    let top = q.subrange(n, q.len() as int);
    assert(top =~= seq![c]);
    lemma_eval_const(c, x);
    lemma_scaled_const(fpow(x, p.len()), c, x);
}

pub proof fn lemma_scaled_const(w: int, c: int, x: int)
    ensures
        fmul(w, feval(seq![c], x)) == fmul(w, c),
{
    broadcast use group_reduced;

    reveal_with_fuel(tail, 2);
    lemma_refl(w);
    lemma_refl(c);
    lemma_refl(x);
    lemma_refl(0);
    broadcast use group_shadow;

    assert(0 * x + c == c) by (nonlinear_arith);
    lemma_shadow_eq(fmul(w, fadd(fmul(0, x), c)), w * (0 * x + c), fmul(w, c), w * c);
}

/// `a` from what remains after the highest coefficient is reduced.
proof fn lemma_top_value(a: Seq<int>, b: Seq<int>, x: int)
    requires
        0 < b.len() <= a.len(),
        invertible(b[b.len() - 1]),
    ensures
        feval(a, x) == fadd(
            feval(reduced_top(a, b, top_quotient(a, b)), x),
            fmul(
                fmul(top_quotient(a, b), fpow(x, (a.len() - b.len()) as nat)),
                feval(b, x),
            ),
        ),
{
    broadcast use group_reduced;

    let c = top_quotient(a, b);
    let s = a.len() - b.len();
    let t = reduced_top(a, b, c);
    let sh = shifted(b, s, a.len());
    lemma_refl(0);
    lemma_refl(c);
    assert forall|k: int| 0 <= k implies cong(#[trigger] at(a, k), 1 * at(t, k) + c * at(sh, k)) by {
        if k < s {
            lemma_refl(at(a, k));
            assert(c * 0 == 0) by (nonlinear_arith);
            assert(at(sh, k) == 0);
        } else if k < a.len() - 1 {
            let y = b[k - s];
            assert(at(sh, k) == y);
            lemma_refl(a[k]);
            lemma_refl(y);
            broadcast use group_shadow;

            assert(cong(at(t, k), a[k] - c * y));
            lemma_refl(c * y);
            lemma_cong_add(at(t, k), a[k] - c * y, c * y, c * y);
            lemma_cong_symm(at(t, k) + c * y, a[k]);
        } else if k == a.len() - 1 {
            let y = b[b.len() - 1];
            let i = finv(y);
            let v = a[k];
            assert(at(sh, k) == y);
            assert(at(t, k) == 0);
            lemma_refl(v);
            lemma_refl(y);
            lemma_refl(i);
            assert(cong(c, v * i) && cong(1, y * i)) by {
                broadcast use group_shadow;

                assert(cong(fmul(v, i), v * i));
                assert(cong(fmul(y, i), y * i));
            }
            lemma_cong_mul(c, v * i, y, y);
            lemma_cong_mul(v, v, 1, y * i);
            assert((v * i) * y == v * (y * i)) by (nonlinear_arith);
            lemma_cong_symm(c * y, v * (y * i));
            lemma_cong_trans(v * 1, v * (y * i), c * y);
        } else {
            assert(at(sh, k) == 0 && at(t, k) == 0);
            assert(c * 0 == 0) by (nonlinear_arith);
        }
    }
    lemma_eval_lin(a, t, sh, 1, c, x);
    lemma_eval_shifted(b, s, a.len(), x);
    let tv = feval(t, x);
    let bv = feval(b, x);
    let w = fpow(x, s as nat);
    let sv = feval(sh, x);
    assert(sv == fmul(w, bv));
    lemma_refl(tv);
    lemma_refl(bv);
    lemma_refl(w);
    lemma_refl(sv);
    lemma_tail_reduced(a, x, 0);
    broadcast use group_shadow;

    lemma_cong_of_eq(sv, fmul(w, bv));
    assert(cong(sv, w * bv)) by {
        lemma_cong_trans(sv, fmul(w, bv), w * bv);
    }
    lemma_cong_mul(c, c, sv, w * bv);
    lemma_cong_add(1 * tv, tv, c * sv, c * (w * bv));
    lemma_cong_trans(feval(a, x), 1 * tv + c * sv, tv + c * (w * bv));
    assert(c * (w * bv) == (c * w) * bv) by (nonlinear_arith);
    lemma_shadow_eq(
        feval(a, x),
        tv + c * (w * bv),
        fadd(tv, fmul(fmul(c, w), bv)),
        tv + (c * w) * bv,
    );
}

/// Division with remainder: `a(X) = q(X) b(X) + r(X)`.
pub proof fn law_division(a: Seq<int>, b: Seq<int>, x: int)
    requires
        b.len() > 0,
        invertible(b[b.len() - 1]),
    ensures
        feval(a, x) == fadd(fmul(feval(p_div(a, b), x), feval(b, x)), feval(p_rem(a, b), x)),
    decreases a.len(),
{
    broadcast use group_reduced;

    let bv = feval(b, x);
    lemma_refl(bv);
    lemma_refl(0);
    if a.len() < b.len() {
        let v = feval(a, x);
        lemma_tail_reduced(a, x, 0);
        lemma_refl(v);
        broadcast use group_shadow;

        assert(0 * bv == 0) by (nonlinear_arith);
        lemma_shadow_eq(v, v, fadd(fmul(0, bv), v), 0 * bv + v);
    } else {
        let c = top_quotient(a, b);
        let t = reduced_top(a, b, c);
        law_division(t, b, x);
        lemma_top_value(a, b, x);
        lemma_div_len(t, b);
        let q0 = p_div(t, b);
        assert(q0.len() == a.len() - b.len());
        lemma_eval_push(q0, c, x);
        let q = feval(q0, x);
        let r = feval(p_rem(t, b), x);
        let w = fpow(x, q0.len());
        lemma_refl(q);
        lemma_refl(r);
        lemma_refl(w);
        lemma_refl(c);
        lemma_ring_division(c, bv, w, q, r);
        broadcast use group_shadow;

        lemma_shadow_eq(
            fadd(fadd(fmul(q, bv), r), fmul(fmul(c, w), bv)),
            (q * bv + r) + (c * w) * bv,
            fadd(fmul(fadd(q, fmul(w, c)), bv), r),
            (q + w * c) * bv + r,
        );
    }
}

} // verus!
