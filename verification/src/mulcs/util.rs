//! Univariate polynomials in coefficient form, and the two helper polynomials
//! of the Claymore identity.

use crate::bdfg::poly_eval;
use crate::dims::{
    copy_scalars, lemma_pow2_fits, lemma_pow2_mono, pad_scalars, padded, pow2_usize, power_seq,
    powers,
};
use crate::field::{fadd, finv_or_zero, fmul, fpow, fsub, vals, Scalar};
use crate::poly::{at, feval, lemma_dot_ext};
use crate::tensor::{
    build_eq_vec, eq_vec, inner_product, lemma_p2_step, lemma_p2_zero, mle_eval, p2,
};
use vstd::prelude::*;

verus! {

/// `p(X) (b + a X^s)`.
pub open spec fn times_binomial(p: Seq<int>, s: int, a: int, b: int) -> Seq<int> {
    Seq::new((p.len() + s) as nat, |i: int| fadd(fmul(at(p, i), b), fmul(at(p, i - s), a)))
}

/// `p(X)` times `(1 - r_k) X^{2^k} + r_k` for the first `k` variables.
pub open spec fn structured(p: Seq<int>, r: Seq<int>, k: int) -> Seq<int>
    decreases k,
{
    if k <= 0 {
        p
    } else {
        times_binomial(structured(p, r, k - 1), p2(k - 1), fsub(1, r[k - 1]), r[k - 1])
    }
}

/// `f(X) P(X) - y X^{N - 1}` for the product `P` over all variables.
pub open spec fn claymore_h(f: Seq<int>, r: Seq<int>, mu: int, y: int) -> Seq<int> {
    let h = structured(f, r, mu);
    let n = p2(mu);
    let p = if h.len() > n - 1 {
        h
    } else {
        padded(h, n as nat)
    };
    p.update(n - 1, fsub(p[n - 1], y))
}

/// `h_i / (gamma^{n - 1} - gamma^i)` for every `i` but `n - 1`, where it is
/// `delta`. A quotient by zero is zero.
pub open spec fn claymore_h_bar(h: Seq<int>, gamma: int, n: int, delta: int) -> Seq<int> {
    Seq::new(
        h.len(),
        |i: int| if i == n - 1 {
            delta
        } else {
            fmul(
                h[i],
                finv_or_zero(fsub(fpow(gamma, (n - 1) as nat), fpow(gamma, i as nat))),
            )
        },
    )
}

/// A univariate polynomial `c_0 + c_1 X + ... + c_d X^d`.
#[derive(Clone, Debug)]
pub struct UnivarPoly {
    pub coeffs: Vec<Scalar>,
}

impl View for UnivarPoly {
    type V = Seq<int>;

    open spec fn view(&self) -> Seq<int> {
        vals(self.coeffs@)
    }
}

impl UnivarPoly {
    pub fn new(coeffs: Vec<Scalar>) -> (r: UnivarPoly)
        ensures
            r.coeffs == coeffs,
    {
        UnivarPoly { coeffs }
    }

    /// One less than the number of coefficients; zero where there is none.
    pub fn degree(&self) -> (d: usize)
        ensures
            d == (if self.coeffs@.len() == 0 {
                0
            } else {
                self.coeffs@.len() - 1
            }),
    {
        if self.coeffs.len() == 0 {
            0
        } else {
            self.coeffs.len() - 1
        }
    }

    pub fn evaluate(&self, x: Scalar) -> (v: Scalar)
        ensures
            v@ == feval(self@, x@),
    {
        poly_eval(self.coeffs.as_slice(), x)
    }

    /// `f(X) (b + a X^shift)`.
    fn mul_binomial(&self, shift: usize, a: Scalar, b: Scalar) -> (r: UnivarPoly)
        requires
            self.coeffs@.len() + shift <= usize::MAX,
        ensures
            r@ == times_binomial(self@, shift as int, a@, b@),
    {
        let n: usize = self.coeffs.len();
        let total: usize = n + shift;
        let ghost want = times_binomial(self@, shift as int, a@, b@);
        let zero = Scalar::zero();
        let mut out: Vec<Scalar> = Vec::new();
        let mut i: usize = 0;
        while i < total
            invariant
                i <= total,
                total == n + shift,
                n == self.coeffs@.len(),
                zero@ == 0,
                want == times_binomial(self@, shift as int, a@, b@),
                out@.len() == i,
                forall|k: int| 0 <= k < i ==> (#[trigger] out@[k])@ == want[k],
            decreases total - i,
        {
            let low = if i < n { self.coeffs[i] } else { zero };
            let high = if i >= shift { self.coeffs[i - shift] } else { zero };
            out.push(low.mul(b).add(high.mul(a)));
            i = i + 1;
        }
        assert(vals(out@) =~= want);
        UnivarPoly::new(out)
    }

    /// `f(X) X^shift + r f(X)`.
    pub fn mul_shift_add(&self, shift: usize, r: Scalar) -> (p: UnivarPoly)
        requires
            self.coeffs@.len() + shift <= usize::MAX,
        ensures
            p@ == times_binomial(self@, shift as int, 1, r@),
    {
        self.mul_binomial(shift, Scalar::one(), r)
    }

    /// `prod_k ((1 - r_k) X^{2^k} + r_k)` over `mu` variables.
    pub fn structured_eq_product(mu: usize, r: &[Scalar]) -> (p: UnivarPoly)
        requires
            mu < usize::BITS,
            r@.len() == mu,
        ensures
            p@ == structured(seq![1int], vals(r@), mu as int),
    {
        let mut one: Vec<Scalar> = Vec::new();
        one.push(Scalar::one());
        let start = UnivarPoly::new(one);
        proof {
            assert(start@ =~= seq![1int]);
            lemma_pow2_fits(mu as int);
        }
        start.mul_structured_eq(mu, r)
    }

    /// The polynomial times `prod_k ((1 - r_k) X^{2^k} + r_k)` over `mu`
    /// variables.
    pub fn mul_structured_eq(&self, mu: usize, r: &[Scalar]) -> (p: UnivarPoly)
        requires
            mu < usize::BITS,
            r@.len() == mu,
            self.coeffs@.len() + p2(mu as int) - 1 <= usize::MAX,
        ensures
            p@ == structured(self@, vals(r@), mu as int),
    {
        let ghost rv = vals(r@);
        let one = Scalar::one();
        let mut result = UnivarPoly::new(copy_scalars(self.coeffs.as_slice()));
        let mut k: usize = 0;
        while k < mu
            invariant
                k <= mu < usize::BITS,
                r@.len() == mu,
                rv == vals(r@),
                one@ == 1,
                self.coeffs@.len() + p2(mu as int) - 1 <= usize::MAX,
                result@ == structured(self@, rv, k as int),
            decreases mu - k,
        {
            proof {
                lemma_structured_len(self@, rv, k as int);
                lemma_p2_step(k + 1);
                lemma_pow2_mono(k + 1, mu as int);
                assert(result@.len() == result.coeffs@.len());
            }
            let shift: usize = pow2_usize(k);
            result = result.mul_binomial(shift, one.sub(r[k]), r[k]);
            k = k + 1;
        }
        result
    }

    /// `h(X) = f(X) P(X) - y X^{N - 1}`.
    pub fn compute_h(f_v: &[Scalar], mu: usize, r: &[Scalar], y: Scalar) -> (h: UnivarPoly)
        requires
            mu < usize::BITS,
            r@.len() == mu,
            f_v@.len() + p2(mu as int) - 1 <= usize::MAX,
        ensures
            h@ == claymore_h(vals(f_v@), vals(r@), mu as int, y@),
    {
        let n: usize = pow2_usize(mu);
        let f_poly = UnivarPoly::new(copy_scalars(f_v));
        let product = f_poly.mul_structured_eq(mu, r);
        let ghost h0 = product@;
        let mut coeffs = product.coeffs;
        proof {
            assert(h0.len() == coeffs@.len());
            lemma_pow2_mono(0, mu as int);
            lemma_p2_zero();
        }
        if coeffs.len() <= n - 1 {
            coeffs = pad_scalars(coeffs.as_slice(), n);
        }
        let v = coeffs[n - 1].sub(y);
        coeffs.set(n - 1, v);
        let h = UnivarPoly::new(coeffs);
        assert(h@ =~= claymore_h(vals(f_v@), vals(r@), mu as int, y@));
        h
    }

    /// `h_i / (gamma^{n - 1} - gamma^i)`, with `delta` at `n - 1`.
    pub fn compute_h_bar(h: &UnivarPoly, gamma: Scalar, n: usize, delta: Scalar) -> (r: UnivarPoly)
        requires
            n >= 1,
        ensures
            r@ == claymore_h_bar(h@, gamma@, n as int, delta@),
    {
        let len: usize = h.coeffs.len();
        let max_pow: usize = if len >= n { len } else { n };
        let gamma_pows = powers(gamma, max_pow);
        let gamma_n1 = gamma_pows[n - 1];
        let ghost gp = power_seq(gamma@, max_pow as nat);
        assert(gamma_n1@ == gp[n - 1]);
        let mut denoms: Vec<Scalar> = Vec::new();
        let mut i: usize = 0;
        while i < len
            invariant
                i <= len <= max_pow,
                1 <= n <= max_pow,
                gp == power_seq(gamma@, max_pow as nat),
                vals(gamma_pows@) == gp,
                gamma_n1@ == fpow(gamma@, (n - 1) as nat),
                denoms@.len() == i,
                forall|k: int|
                    0 <= k < i && k != n - 1 ==> (#[trigger] denoms@[k])@ == fsub(
                        fpow(gamma@, (n - 1) as nat),
                        fpow(gamma@, k as nat),
                    ),
            decreases len - i,
        {
            assert(vals(gamma_pows@).len() == gamma_pows@.len());
            assert(vals(gamma_pows@)[i as int] == gp[i as int]);
            if i == n - 1 {
                denoms.push(Scalar::one());
            } else {
                denoms.push(gamma_n1.sub(gamma_pows[i]));
            }
            i = i + 1;
        }
        let inv_denoms = Scalar::batch_inverse(denoms.as_slice());
        let ghost want = claymore_h_bar(h@, gamma@, n as int, delta@);
        let mut coeffs: Vec<Scalar> = Vec::new();
        let mut i: usize = 0;
        while i < len
            invariant
                i <= len == h.coeffs@.len(),
                n >= 1,
                denoms@.len() == len,
                inv_denoms@.len() == len,
                want == claymore_h_bar(h@, gamma@, n as int, delta@),
                forall|k: int|
                    0 <= k < len && k != n - 1 ==> (#[trigger] denoms@[k])@ == fsub(
                        fpow(gamma@, (n - 1) as nat),
                        fpow(gamma@, k as nat),
                    ),
                forall|k: int|
                    0 <= k < len ==> (#[trigger] inv_denoms@[k])@ == finv_or_zero(denoms@[k]@),
                coeffs@.len() == i,
                forall|k: int| 0 <= k < i ==> (#[trigger] coeffs@[k])@ == want[k],
            decreases len - i,
        {
            if i == n - 1 {
                coeffs.push(delta);
            } else {
                assert(denoms@[i as int]@ == fsub(
                    fpow(gamma@, (n - 1) as nat),
                    fpow(gamma@, i as nat),
                ));
                coeffs.push(h.coeffs[i].mul(inv_denoms[i]));
            }
            i = i + 1;
        }
        assert(vals(coeffs@) =~= want);
        UnivarPoly::new(coeffs)
    }
}

pub proof fn lemma_structured_len(p: Seq<int>, r: Seq<int>, k: int)
    requires
        0 <= k,
    ensures
        structured(p, r, k).len() == p.len() + p2(k) - 1,
    decreases k,
{
    lemma_p2_zero();
    if k > 0 {
        lemma_structured_len(p, r, k - 1);
        lemma_p2_step(k);
    }
}

/// Value of a table, read as coefficients over the eq polynomials, at a point.
pub fn eval_multilinear_from_coeffs(coeffs: &[Scalar], point: &[Scalar]) -> (y: Scalar)
    requires
        point@.len() < usize::BITS,
        coeffs@.len() >= p2(point@.len() as int),
    ensures
        y@ == mle_eval(vals(coeffs@), vals(point@)),
{
    let n: usize = pow2_usize(point.len());
    let eq = build_eq_vec(point, n);
    proof {
        let u = vals(point@);
        assert(vals(eq@) =~= eq_vec(u, u.len() as int));
    }
    let table = vstd::slice::slice_subrange(coeffs, 0, n);
    let y = inner_product(table, eq.as_slice());
    proof {
        lemma_dot_ext(
            vals(table@),
            vals(coeffs@),
            vals(eq@),
            vals(eq@),
            n as int,
        );
    }
    y
}

} // verus!
