//! Univariate KZG keys: the powers of a trapdoor in the exponent.

use crate::field::{
    fmul, fpow, group_reduced, group_shadow, lemma_refl, lemma_shadow_eq, vals, Scalar,
};
use crate::group::{logs, G1};
use crate::poly::{dot, feval, lemma_dot_ext, lemma_power_key};
use vstd::prelude::*;

verus! {

/// Number of points that are computed at a time when a key is built.
pub const SRS_GEN_CHUNK: usize = 65536;

/// Whether a key holds `g x^i` at position `i`.
pub open spec fn is_power_key(key: Seq<int>, g: int, x: int) -> bool {
    forall|i: int| 0 <= i < key.len() ==> #[trigger] key[i] == fmul(g, fpow(x, i as nat))
}

/// The key with the first `n` powers of a trapdoor.
pub fn power_key(g: &G1, tau: Scalar, n: usize) -> (r: Vec<G1>)
    ensures
        r@.len() == n,
        is_power_key(logs(r@), g@, tau@),
{
    let mut key: Vec<G1> = Vec::new();
    let mut acc = Scalar::one();
    let mut pos: usize = 0;
    while pos < n
        invariant
            pos <= n,
            key@.len() == pos,
            acc@ == fpow(tau@, pos as nat),
            forall|i: int| 0 <= i < pos ==> (#[trigger] key@[i])@ == fmul(g@, fpow(tau@, i as nat)),
        decreases n - pos,
    {
        let left: usize = n - pos;
        let len: usize = if left < SRS_GEN_CHUNK { left } else { SRS_GEN_CHUNK };
        let mut scalars: Vec<Scalar> = Vec::new();
        let mut k: usize = 0;
        while k < len
            invariant
                k <= len,
                pos + len <= n,
                scalars@.len() == k,
                acc@ == fpow(tau@, (pos + k) as nat),
                forall|i: int|
                    0 <= i < k ==> (#[trigger] scalars@[i])@ == fpow(tau@, (pos + i) as nat),
            decreases len - k,
        {
            scalars.push(acc);
            acc = acc.mul(tau);
            k = k + 1;
        }
        let points = g.multiples(scalars.as_slice());
        let ghost before = key@;
        let mut k: usize = 0;
        while k < len
            invariant
                k <= len,
                pos + len <= n,
                points@.len() == len,
                before.len() == pos,
                key@ =~= before + points@.take(k as int),
            decreases len - k,
        {
            key.push(points[k]);
            k = k + 1;
        }
        proof {
            assert(points@.take(len as int) =~= points@);
            assert forall|i: int| 0 <= i < pos + len implies (#[trigger] key@[i])@ == fmul(
                g@,
                fpow(tau@, i as nat),
            ) by {
                if i < pos {
                    assert(key@[i] == before[i]);
                } else {
                    assert(key@[i] == points@[i - pos]);
                    assert(scalars@[i - pos]@ == fpow(tau@, (pos + (i - pos)) as nat));
                }
            }
        }
        pos = pos + len;
    }
    key
}

/// Commitment over the prefix of a key of the polynomial's length, which must
/// not exceed the key's.
pub fn commit_prefix(key: &[G1], coeffs: &[Scalar]) -> (r: G1)
    requires
        coeffs@.len() <= key@.len(),
    ensures
        r@ == dot(logs(key@), vals(coeffs@), coeffs@.len() as int),
{
    if coeffs.len() == 0 {
        return G1::identity();
    }
    let bases = vstd::slice::slice_subrange(key, 0, coeffs.len());
    proof {
        lemma_dot_ext(
            logs(bases@),
            logs(key@),
            vals(coeffs@),
            vals(coeffs@),
            coeffs@.len() as int,
        );
    }
    G1::msm(bases, coeffs)
}

/// A commitment under a power key evaluates the polynomial at the trapdoor.
pub proof fn law_commitment_evaluates(key: Seq<int>, g: int, x: int, c: Seq<int>)
    requires
        is_power_key(key, g, x),
        c.len() <= key.len(),
    ensures
        dot(key, c, c.len() as int) == fmul(g, feval(c, x)),
{
    lemma_power_key(key, g, x, c);
}

/// A commitment under a power key, over the key's first point.
pub proof fn lemma_commit(key: Seq<int>, g: int, x: int, c: Seq<int>)
    requires
        is_power_key(key, g, x),
        0 < key.len(),
        c.len() <= key.len(),
    ensures
        dot(key, c, c.len() as int) == fmul(key[0], feval(c, x)),
{
    broadcast use group_reduced;

    law_commitment_evaluates(key, g, x, c);
    let v = feval(c, x);
    assert(key[0] == fmul(g, fpow(x, 0)));
    lemma_refl(g);
    lemma_refl(v);
    lemma_refl(1);
    broadcast use group_shadow;

    assert((g * 1) * v == g * v) by (nonlinear_arith);
    lemma_shadow_eq(fmul(g, v), g * v, fmul(fmul(g, 1), v), (g * 1) * v);
}

/// The second point of a power key is the first times the trapdoor.
pub proof fn lemma_second_power(key: Seq<int>, g: int, x: int)
    requires
        is_power_key(key, g, x),
        2 <= key.len(),
    ensures
        key[1] == fmul(key[0], x),
{
    broadcast use group_reduced;

    reveal_with_fuel(fpow, 3);
    assert(key[0] == fmul(g, fpow(x, 0)));
    assert(key[1] == fmul(g, fpow(x, 1)));
    lemma_refl(g);
    lemma_refl(x);
    lemma_refl(1);
    broadcast use group_shadow;

    assert(g * (1 * x) == (g * 1) * x) by (nonlinear_arith);
    lemma_shadow_eq(fmul(g, fmul(1, x)), g * (1 * x), fmul(fmul(g, 1), x), (g * 1) * x);
}

} // verus!
