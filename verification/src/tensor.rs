//! Multilinear evaluation: the eq vector of a point, the tensor polynomial
//! whose coefficients it is, and dense multilinear extensions.

use ark_bls12_381::Fr;
use ark_ff::{BigInt, PrimeField};
use ark_poly::{DenseMultilinearExtension, MultilinearExtension};
use crate::dims::lemma_pow2_mono;
use crate::field::{
    cong, fadd, fmul, fpow, fsub, group_reduced, group_shadow, lemma_cong_add, lemma_cong_mul,
    lemma_cong_trans, lemma_fpow_reduced, lemma_modulus, lemma_refl, lemma_shadow_eq, reduced, vals,
    Scalar,
};
use crate::poly::{
    at, dot, feval, lemma_eval_const, lemma_eval_lin, lemma_eval_shifted, lemma_tail_reduced,
    shifted,
};
use vstd::arithmetic::power2::pow2;
use vstd::prelude::*;

verus! {

/// `2^n` as an integer.
pub open spec fn p2(n: int) -> int {
    pow2(n as nat) as int
}

pub proof fn lemma_p2_step(n: int)
    requires
        0 < n,
    ensures
        p2(n) == 2 * p2(n - 1),
        p2(n - 1) >= 1,
{
    vstd::arithmetic::power2::lemma_pow2_unfold(n as nat);
    vstd::arithmetic::power2::lemma_pow2_pos((n - 1) as nat);
}

pub proof fn lemma_p2_zero()
    ensures
        p2(0) == 1,
{
    vstd::arithmetic::power2::lemma2_to64();
}

/// The product over the first `n` variables of `u_k` where bit `k` of `i` is
/// set and `1 - u_k` where it is not.
pub open spec fn eq_at(u: Seq<int>, i: int, n: int) -> int
    decreases n,
{
    if n <= 0 {
        1
    } else if i < p2(n - 1) {
        fmul(eq_at(u, i, n - 1), fsub(1, u[n - 1]))
    } else {
        fmul(eq_at(u, i - p2(n - 1), n - 1), u[n - 1])
    }
}

/// The eq vector of the first `n` variables of a point.
pub open spec fn eq_vec(u: Seq<int>, n: int) -> Seq<int> {
    Seq::new(pow2(n as nat), |i: int| eq_at(u, i, n))
}

/// The eq vector of a point, padded with zeros.
pub open spec fn eq_vec_padded(u: Seq<int>, n: int, len: nat) -> Seq<int> {
    Seq::new(
        len,
        |i: int| if i < p2(n) {
            eq_at(u, i, n)
        } else {
            0
        },
    )
}

/// Value of the multilinear extension of a table at a point.
pub open spec fn mle_eval(evals: Seq<int>, u: Seq<int>) -> int {
    dot(evals, eq_vec(u, u.len() as int), p2(u.len() as int))
}

/// The tensor polynomial `prod_k ((1 - u_k) + u_k X^{2^k})` of the first `n`
/// variables at `x`.
pub open spec fn tensor(u: Seq<int>, x: int, n: int) -> int
    decreases n,
{
    if n <= 0 {
        1
    } else {
        fmul(
            tensor(u, x, n - 1),
            fadd(fsub(1, u[n - 1]), fmul(u[n - 1], fpow(x, pow2((n - 1) as nat)))),
        )
    }
}

pub proof fn lemma_eq_at_reduced(u: Seq<int>, i: int, n: int)
    ensures
        reduced(eq_at(u, i, n)),
{
    broadcast use group_reduced;

    lemma_modulus();
}

/// The eq vector is the coefficient sequence of the tensor polynomial.
pub proof fn law_tensor_is_eq_poly(u: Seq<int>, x: int, n: int)
    requires
        0 <= n <= u.len(),
    ensures
        feval(eq_vec(u, n), x) == tensor(u, x, n),
    decreases n,
{
    broadcast use group_reduced;

    lemma_modulus();
    if n == 0 {
        lemma_p2_zero();
        assert(eq_vec(u, 0) =~= seq![1int]);
        lemma_eval_const(1, x);
    } else {
        law_tensor_is_eq_poly(u, x, n - 1);
        lemma_p2_step(n);
        let e = eq_vec(u, n - 1);
        let h = p2(n - 1);
        let r = eq_vec(u, n);
        let s = shifted(e, h, r.len());
        let un = u[n - 1];
        let w = fpow(x, pow2((n - 1) as nat));
        assert forall|k: int| 0 <= k implies cong(
            #[trigger] at(r, k),
            (1 - un) * at(e, k) + un * at(s, k),
        ) by {
            lemma_refl(1);
            lemma_refl(un);
            if k < h {
                let c = eq_at(u, k, n - 1);
                lemma_refl(c);
                assert(at(e, k) == c);
                assert(at(s, k) == 0);
                assert(at(r, k) == fmul(c, fsub(1, un)));
                assert(cong(fmul(c, fsub(1, un)), c * (1 - un))) by {
                    broadcast use group_shadow;

                }
                assert(c * (1 - un) == (1 - un) * c + un * 0) by (nonlinear_arith);
            } else if k < 2 * h {
                let c = eq_at(u, k - h, n - 1);
                lemma_refl(c);
                assert(at(e, k) == 0);
                assert(at(s, k) == c);
                assert(at(r, k) == fmul(c, un));
                assert(cong(fmul(c, un), c * un)) by {
                    broadcast use group_shadow;

                }
                assert(c * un == (1 - un) * 0 + un * c) by (nonlinear_arith);
            } else {
                assert((1 - un) * 0 + un * 0 == 0) by (nonlinear_arith);
                lemma_refl(0);
            }
        }
        lemma_eval_lin(r, e, s, 1 - un, un, x);
        lemma_eval_shifted(e, h, r.len(), x);
        let t = tensor(u, x, n - 1);
        let rv = feval(r, x);
        lemma_tail_reduced(r, x, 0);
        lemma_refl(t);
        lemma_refl(w);
        lemma_refl(un);
        lemma_refl(1);
        lemma_refl(1 - un);
        assert(cong(fmul(w, t), w * t)) by {
            broadcast use group_shadow;

        }
        lemma_cong_mul(un, un, feval(s, x), w * t);
        lemma_cong_mul(1 - un, 1 - un, t, t);
        lemma_cong_add((1 - un) * t, (1 - un) * t, un * feval(s, x), un * (w * t));
        lemma_cong_trans(
            rv,
            (1 - un) * feval(e, x) + un * feval(s, x),
            (1 - un) * t + un * (w * t),
        );
        assert(cong(
            fmul(t, fadd(fsub(1, un), fmul(un, w))),
            t * ((1 - un) + un * w),
        )) by {
            broadcast use group_shadow;

        }
        assert((1 - un) * t + un * (w * t) == t * ((1 - un) + un * w)) by (nonlinear_arith);
        lemma_shadow_eq(
            rv,
            (1 - un) * t + un * (w * t),
            fmul(t, fadd(fsub(1, un), fmul(un, w))),
            t * ((1 - un) + un * w),
        );
    }
}

/// Squaring doubles the exponent.
pub proof fn lemma_fpow_add(x: int, a: nat, b: nat)
    ensures
        fpow(x, a + b) == fmul(fpow(x, a), fpow(x, b)),
    decreases b,
{
    broadcast use group_reduced;

    let pa = fpow(x, a);
    lemma_fpow_reduced(x, a);
    lemma_refl(pa);
    lemma_refl(1);
    lemma_refl(x);
    if b == 0 {
        broadcast use group_shadow;

        lemma_shadow_eq(fmul(pa, 1), pa * 1, pa, pa);
    } else {
        lemma_fpow_add(x, a, (b - 1) as nat);
        let pb = fpow(x, (b - 1) as nat);
        lemma_refl(pb);
        assert(fpow(x, a + b) == fmul(fpow(x, (a + b - 1) as nat), x));
        assert((a + b - 1) as nat == a + (b - 1) as nat);
        broadcast use group_shadow;

        assert((pa * pb) * x == pa * (pb * x)) by (nonlinear_arith);
        lemma_shadow_eq(
            fmul(fmul(pa, pb), x),
            (pa * pb) * x,
            fmul(pa, fmul(pb, x)),
            pa * (pb * x),
        );
    }
}

/// The tensor polynomial of a point at `x`.
pub fn eval_tensor(point: &[Scalar], x: Scalar) -> (r: Scalar)
    ensures
        r@ == tensor(vals(point@), x@, point@.len() as int),
{
    let mut res = Scalar::one();
    let mut xp = x;
    let mut k: usize = 0;
    proof {
        lemma_p2_zero();
        reveal_with_fuel(fpow, 2);
        x.lemma_view_reduced();
        broadcast use group_shadow;

        lemma_refl(x@);
        lemma_refl(1);
        lemma_fpow_reduced(x@, 1);
        assert(fpow(x@, 1) == fmul(1, x@));
        lemma_shadow_eq(fmul(1, x@), 1 * x@, x@, x@);
    }
    while k < point.len()
        invariant
            k <= point@.len(),
            res@ == tensor(vals(point@), x@, k as int),
            xp@ == fpow(x@, pow2(k as nat)),
        decreases point@.len() - k,
    {
        let pk = point[k];
        let factor = Scalar::one().sub(pk).add(pk.mul(xp));
        res = res.mul(factor);
        proof {
            lemma_p2_step(k + 1);
            lemma_fpow_add(x@, pow2(k as nat), pow2(k as nat));
        }
        xp = xp.square();
        k = k + 1;
    }
    res
}

/// The eq vector of a point, padded with zeros to a length.
pub fn build_eq_vec(u: &[Scalar], len: usize) -> (r: Vec<Scalar>)
    requires
        u@.len() < usize::BITS,
        p2(u@.len() as int) <= len,
    ensures
        r@.len() == len,
        vals(r@) == eq_vec_padded(vals(u@), u@.len() as int, len as nat),
{
    let ghost uv = vals(u@);
    let mut eq: Vec<Scalar> = Vec::new();
    eq.push(Scalar::one());
    proof {
        lemma_p2_zero();
        lemma_modulus();
    }
    let mut k: usize = 0;
    while k < u.len()
        invariant
            k <= u@.len() < usize::BITS,
            uv == vals(u@),
            eq@.len() == p2(k as int),
            p2(u@.len() as int) <= len,
            forall|i: int| 0 <= i < eq@.len() ==> (#[trigger] eq@[i])@ == eq_at(uv, i, k as int),
        decreases u@.len() - k,
    {
        let uk = u[k];
        let om = Scalar::one().sub(uk);
        proof {
            lemma_p2_step(k + 1);
            lemma_pow2_mono(k + 1, u@.len() as int);
        }
        let half: usize = eq.len();
        let mut next: Vec<Scalar> = Vec::new();
        let mut i: usize = 0;
        while i < half
            invariant
                i <= half == eq@.len(),
                half == p2(k as int),
                k < u@.len(),
                uv == vals(u@),
                uk@ == uv[k as int],
                om@ == fsub(1, uk@),
                next@.len() == i,
                forall|j: int| 0 <= j < half ==> (#[trigger] eq@[j])@ == eq_at(uv, j, k as int),
                forall|j: int| 0 <= j < i ==> (#[trigger] next@[j])@ == eq_at(uv, j, k + 1),
            decreases half - i,
        {
            next.push(eq[i].mul(om));
            i = i + 1;
        }
        let mut i: usize = 0;
        while i < half
            invariant
                i <= half == eq@.len(),
                half == p2(k as int),
                2 * half <= usize::MAX,
                k < u@.len(),
                uv == vals(u@),
                uk@ == uv[k as int],
                next@.len() == half + i,
                forall|j: int| 0 <= j < half ==> (#[trigger] eq@[j])@ == eq_at(uv, j, k as int),
                forall|j: int| 0 <= j < half + i ==> (#[trigger] next@[j])@ == eq_at(uv, j, k + 1),
            decreases half - i,
        {
            next.push(eq[i].mul(uk));
            i = i + 1;
        }
        eq = next;
        k = k + 1;
    }
    while eq.len() < len
        invariant
            p2(u@.len() as int) <= eq@.len() <= len,
            forall|i: int|
                0 <= i < eq@.len() ==> (#[trigger] eq@[i])@ == (if i < p2(u@.len() as int) {
                    eq_at(uv, i, u@.len() as int)
                } else {
                    0
                }),
        decreases len - eq@.len(),
    {
        eq.push(Scalar::zero());
    }
    assert(vals(eq@) =~= eq_vec_padded(uv, u@.len() as int, len as nat));
    eq
}

/// Inner product of two sequences of the same length.
pub fn inner_product(a: &[Scalar], b: &[Scalar]) -> (r: Scalar)
    requires
        a@.len() <= b@.len(),
    ensures
        r@ == dot(vals(a@), vals(b@), a@.len() as int),
{
    let mut acc = Scalar::zero();
    let mut i: usize = 0;
    while i < a.len()
        invariant
            i <= a@.len() <= b@.len(),
            acc@ == dot(vals(a@), vals(b@), i as int),
        decreases a@.len() - i,
    {
        acc = acc.add(a[i].mul(b[i]));
        i = i + 1;
    }
    acc
}

/// `DenseMultilinearExtension::evaluate` of `ark_poly`: nothing where the point
/// has not one coordinate per variable, else the value of the multilinear
/// extension of the table, with the first variable in the lowest index bit.
#[verifier::external_body]
fn ark_mle_evaluate(num_vars: usize, evals: &[Scalar], point: &[Scalar]) -> (r: Option<Scalar>)
    requires
        num_vars < usize::BITS,
        evals@.len() == p2(num_vars as int),
    ensures
        r is Some <==> point@.len() == num_vars,
        r matches Some(v) ==> v@ == mle_eval(vals(evals@), vals(point@)),
{
    let fr = |s: &Scalar| Fr::from_bigint(BigInt(s.limbs())).unwrap();
    let e: Vec<Fr> = evals.iter().map(fr).collect();
    let p: Vec<Fr> = point.iter().map(fr).collect();
    DenseMultilinearExtension::from_evaluations_vec(num_vars, e)
        .evaluate(&p)
        .map(|v: Fr| Scalar::from_limbs(v.into_bigint().0).unwrap())
}

/// A multilinear polynomial by its table of values on the hypercube.
#[derive(Clone, Debug)]
pub struct Mle {
    pub evaluations: Vec<Scalar>,
    pub num_vars: usize,
}

impl Mle {
    /// The table has one entry per vertex of the hypercube.
    pub open spec fn wf(&self) -> bool {
        &&& self.num_vars < usize::BITS
        &&& self.evaluations@.len() == p2(self.num_vars as int)
    }

    /// The values of the table.
    pub open spec fn table(&self) -> Seq<int> {
        vals(self.evaluations@)
    }

    /// The polynomial with the given table; the table's length has to be the
    /// number of vertices.
    pub fn from_evaluations_vec(num_vars: usize, evaluations: Vec<Scalar>) -> (r: Mle)
        requires
            num_vars < usize::BITS,
            evaluations@.len() == p2(num_vars as int),
        ensures
            r.wf(),
            r.num_vars == num_vars,
            r.table() == vals(evaluations@),
    {
        Mle { evaluations, num_vars }
    }

    /// Value at a point; nothing where the point has the wrong dimension.
    pub fn evaluate(&self, point: &[Scalar]) -> (r: Option<Scalar>)
        requires
            self.wf(),
        ensures
            r is Some <==> point@.len() == self.num_vars,
            r matches Some(v) ==> v@ == mle_eval(self.table(), vals(point@)),
    {
        ark_mle_evaluate(self.num_vars, self.evaluations.as_slice(), point)
    }
}

} // verus!
