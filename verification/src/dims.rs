//! Powers of two, rectangular splits and row-major indices.

use crate::field::{fpow, vals, Scalar};
use crate::group::G1;
use vstd::arithmetic::power2::pow2;
use vstd::prelude::*;

verus! {

/// `2^m` as a machine word.
pub fn pow2_usize(m: usize) -> (r: usize)
    requires
        m < usize::BITS,
    ensures
        r == pow2(m as nat),
        r > 0,
{
    proof {
        vstd::arithmetic::power2::lemma_pow2_pos(m as nat);
        vstd::bits::lemma_usize_pow2_no_overflow(m as nat);
        vstd::bits::lemma_usize_shl_is_mul(1, m);
        assert(1 * pow2(m as nat) == pow2(m as nat)) by (nonlinear_arith);
    }
    1usize << m
}

/// The exponents `(ceil(mu / 2), floor(mu / 2))` of the rectangular split.
pub open spec fn split(mu: int) -> (int, int) {
    ((mu + 1) / 2, mu / 2)
}

/// The two sides of the rectangular split multiply to `2^mu`.
pub proof fn lemma_split(mu: int)
    requires
        0 <= mu,
    ensures
        split(mu).0 + split(mu).1 == mu,
        split(mu).1 <= split(mu).0 <= split(mu).1 + 1,
        pow2(split(mu).0 as nat) * pow2(split(mu).1 as nat) == pow2(mu as nat),
        pow2(split(mu).1 as nat) <= pow2(split(mu).0 as nat) <= pow2(mu as nat),
        pow2(split(mu).1 as nat) >= 1,
{
    let (a, b) = split(mu);
    vstd::arithmetic::power2::lemma_pow2_adds(a as nat, b as nat);
    vstd::arithmetic::power2::lemma_pow2_pos(a as nat);
    vstd::arithmetic::power2::lemma_pow2_pos(b as nat);
    if b < a {
        vstd::arithmetic::power2::lemma_pow2_strictly_increases(b as nat, a as nat);
    }
    if a < mu {
        vstd::arithmetic::power2::lemma_pow2_strictly_increases(a as nat, mu as nat);
    }
}

/// Monotonicity of powers of two.
pub proof fn lemma_pow2_mono(a: int, b: int)
    requires
        0 <= a <= b,
    ensures
        1 <= pow2(a as nat) <= pow2(b as nat),
{
    vstd::arithmetic::power2::lemma_pow2_pos(a as nat);
    if a < b {
        vstd::arithmetic::power2::lemma_pow2_strictly_increases(a as nat, b as nat);
    }
}

/// A power of two below the width of a machine word fits into it.
pub proof fn lemma_pow2_fits(m: int)
    requires
        0 <= m < usize::BITS,
    ensures
        pow2(m as nat) <= usize::MAX,
{
    vstd::arithmetic::power2::lemma2_to64();
    vstd::arithmetic::power2::lemma2_to64_rest();
    lemma_pow2_mono(m, usize::BITS - 1);
}

/// A column lies inside the table.
pub proof fn lemma_column(ml: int, mr: int, j: int)
    requires
        0 <= ml,
        0 <= j < mr,
    ensures
        0 <= ml * j,
        ml * j + ml <= ml * mr,
{
    assert(0 <= ml * j && ml * j + ml <= ml * mr) by (nonlinear_arith)
        requires
            0 <= ml,
            0 <= j < mr,
    ;
}

/// A row-major position lies inside its rectangle and determines its row and
/// column.
pub proof fn lemma_row_major(w: int, h: int, i: int, j: int)
    requires
        0 <= i < w,
        0 <= j < h,
    ensures
        0 <= j * w + i < w * h,
        j * w <= j * w + i,
        (j * w + i) % w == i,
        (j * w + i) / w == j,
{
    assert(0 <= j * w) by (nonlinear_arith)
        requires
            0 <= j,
            0 < w,
    ;
    assert(j * w + w <= w * h) by (nonlinear_arith)
        requires
            j + 1 <= h,
            0 < w,
    ;
    vstd::arithmetic::div_mod::lemma_fundamental_div_mod_converse(j * w + i, w, j, i);
}

/// A position of a rectangle is the row-major position of its row and column.
pub proof fn lemma_row_major_inv(w: int, h: int, p: int)
    requires
        0 < w,
        0 <= p < w * h,
    ensures
        0 <= p % w < w,
        0 <= p / w < h,
        (p / w) * w + p % w == p,
{
    vstd::arithmetic::div_mod::lemma_fundamental_div_mod(p, w);
    assert(w * (p / w) == (p / w) * w) by (nonlinear_arith);
    assert(0 <= p / w) by (nonlinear_arith)
        requires
            0 < w,
            0 <= p,
    ;
    if p / w >= h {
        assert((p / w) * w >= h * w) by (nonlinear_arith)
            requires
                p / w >= h,
                0 < w,
        ;
        assert(h * w == w * h) by (nonlinear_arith);
    }
}

/// The powers `1, x, .., x^{n - 1}`.
pub open spec fn power_seq(x: int, n: nat) -> Seq<int> {
    Seq::new(n, |i: int| fpow(x, i as nat))
}

/// The first `n` powers of a scalar.
pub fn powers(x: Scalar, n: usize) -> (r: Vec<Scalar>)
    ensures
        r@.len() == n,
        vals(r@) == power_seq(x@, n as nat),
{
    let mut r: Vec<Scalar> = Vec::new();
    let mut acc = Scalar::one();
    let mut i: usize = 0;
    while i < n
        invariant
            i <= n,
            r@.len() == i,
            acc@ == fpow(x@, i as nat),
            forall|k: int| 0 <= k < i ==> (#[trigger] r@[k])@ == fpow(x@, k as nat),
        decreases n - i,
    {
        r.push(acc);
        acc = acc.mul(x);
        i = i + 1;
    }
    assert(vals(r@) =~= power_seq(x@, n as nat));
    r
}

/// A sequence with zeros at its end up to the length `n`.
pub open spec fn padded(s: Seq<int>, n: nat) -> Seq<int> {
    Seq::new(
        n,
        |i: int| if i < s.len() {
            s[i]
        } else {
            0
        },
    )
}

/// A copy of a sequence of scalars with zeros at its end up to the length `n`.
pub fn pad_scalars(s: &[Scalar], n: usize) -> (r: Vec<Scalar>)
    requires
        s@.len() <= n,
    ensures
        r@.len() == n,
        vals(r@) == padded(vals(s@), n as nat),
{
    let mut r = copy_scalars(s);
    while r.len() < n
        invariant
            s@.len() <= r@.len() <= n,
            forall|k: int| 0 <= k < s@.len() ==> #[trigger] r@[k] == s@[k],
            forall|k: int| s@.len() <= k < r@.len() ==> (#[trigger] r@[k])@ == 0,
        decreases n - r@.len(),
    {
        r.push(Scalar::zero());
    }
    assert(vals(r@) =~= padded(vals(s@), n as nat));
    r
}

/// A copy of a sequence of scalars.
pub fn copy_scalars(s: &[Scalar]) -> (r: Vec<Scalar>)
    ensures
        r@ == s@,
{
    vstd::slice::slice_to_vec(s)
}

/// A copy of a sequence of points.
pub fn copy_points(s: &[G1]) -> (r: Vec<G1>)
    ensures
        r@ == s@,
{
    vstd::slice::slice_to_vec(s)
}

} // verus!
