//! The groups G1 and G2 of BLS12-381 and the pairing check.
//!
//! A point is held by the little-endian limbs of its affine coordinates. Its
//! view is its discrete logarithm to the group's fixed generator: the groups
//! are cyclic of order [`modulus`](crate::field::modulus), so that every
//! operation of the library on points is an operation on logarithms.

use ark_bls12_381::{Bls12_381, Fq, Fq2, Fr, G1Affine, G1Projective, G2Affine};
use ark_ec::{AffineRepr, CurveGroup};
use ark_ec::pairing::Pairing;
use ark_ec::scalar_mul::fixed_base::FixedBase;
use ark_ec::scalar_mul::variable_base::VariableBaseMSM;
use ark_ff::{BigInt, PrimeField, Zero};
use ark_serialize::{CanonicalDeserialize, CanonicalSerialize};
use crate::field::{fadd, fmul, fneg, modulus, vals, Scalar};
use crate::poly::dot;
use vstd::prelude::*;

verus! {

/// A point of G1.
#[derive(Clone, Copy, Debug, PartialEq, Eq)]
pub struct G1 {
    x: [u64; 6],
    y: [u64; 6],
    infinity: bool,
}

/// A point of G2.
#[derive(Clone, Copy, Debug, PartialEq, Eq)]
pub struct G2 {
    x: [[u64; 6]; 2],
    y: [[u64; 6]; 2],
    infinity: bool,
}

/// The discrete logarithm of a point of G1 to `G1Affine::generator()`, from
/// the point's affine coordinates.
pub uninterp spec fn g1_log(x: Seq<u64>, y: Seq<u64>, infinity: bool) -> int;

/// The discrete logarithm of a point of G2 to `G2Affine::generator()`, from
/// the point's affine coordinates.
pub uninterp spec fn g2_log(x: Seq<[u64; 6]>, y: Seq<[u64; 6]>, infinity: bool) -> int;

impl View for G1 {
    type V = int;

    closed spec fn view(&self) -> int {
        g1_log(self.x@, self.y@, self.infinity)
    }
}

impl View for G2 {
    type V = int;

    closed spec fn view(&self) -> int {
        g2_log(self.x@, self.y@, self.infinity)
    }
}

/// The logarithms of a sequence of points of G1.
pub open spec fn logs(s: Seq<G1>) -> Seq<int> {
    Seq::new(s.len(), |i: int| s[i]@)
}

/// The logarithms of a sequence of points of G2.
pub open spec fn logs2(s: Seq<G2>) -> Seq<int> {
    Seq::new(s.len(), |i: int| s[i]@)
}

/// `AffineRepr::generator` on G1: the point whose logarithm is one.
#[verifier::external_body]
fn g1_generator() -> (r: G1)
    ensures
        g1_log(r.x@, r.y@, r.infinity) == 1,
{
    let p = G1Affine::generator();
    G1 { x: p.x.into_bigint().0, y: p.y.into_bigint().0, infinity: p.infinity }
}

/// `AffineRepr::generator` on G2: the point whose logarithm is one.
#[verifier::external_body]
fn g2_generator() -> (r: G2)
    ensures
        g2_log(r.x@, r.y@, r.infinity) == 1,
{
    let p = G2Affine::generator();
    let v = |c: Fq2| [c.c0.into_bigint().0, c.c1.into_bigint().0];
    G2 { x: v(p.x), y: v(p.y), infinity: p.infinity }
}

/// `G1Affine::default`: the neutral element, which is the point at infinity.
#[verifier::external_body]
fn g1_default() -> (r: G1)
    ensures
        r@ == 0,
        r.infinity,
{
    let p = G1Affine::default();
    G1 { x: p.x.into_bigint().0, y: p.y.into_bigint().0, infinity: p.infinity }
}

/// `+` of `ark_bls12_381::G1Projective` with an affine point, and
/// `CurveGroup::into_affine`: the sum of the two points of G1.
#[verifier::external_body]
fn g1_add(a: &G1, b: &G1) -> (r: G1)
    ensures
        r@ == fadd(a@, b@),
{
    let c = |v: [u64; 6]| Fq::new(BigInt(v));
    let p = G1Affine { x: c(a.x), y: c(a.y), infinity: a.infinity };
    let q = G1Affine { x: c(b.x), y: c(b.y), infinity: b.infinity };
    let s = (p.into_group() + q).into_affine();
    G1 { x: s.x.into_bigint().0, y: s.y.into_bigint().0, infinity: s.infinity }
}

/// `*` of `ark_bls12_381::G1Projective` with an `Fr`, and
/// `CurveGroup::into_affine`: the multiple of the point of G1.
#[verifier::external_body]
fn g1_mul(a: &G1, k: &Scalar) -> (r: G1)
    ensures
        r@ == fmul(a@, k@),
{
    let p =
        G1Affine { x: Fq::new(BigInt(a.x)), y: Fq::new(BigInt(a.y)), infinity: a.infinity };
    let s = (p.into_group() * Fr::new(BigInt(k.limbs()))).into_affine();
    G1 { x: s.x.into_bigint().0, y: s.y.into_bigint().0, infinity: s.infinity }
}

/// Unary `-` of `ark_bls12_381::G1Projective`, and `CurveGroup::into_affine`:
/// the opposite of the point of G1.
#[verifier::external_body]
fn g1_neg(a: &G1) -> (r: G1)
    ensures
        r@ == fneg(a@),
{
    let p =
        G1Affine { x: Fq::new(BigInt(a.x)), y: Fq::new(BigInt(a.y)), infinity: a.infinity };
    let s = (-p.into_group()).into_affine();
    G1 { x: s.x.into_bigint().0, y: s.y.into_bigint().0, infinity: s.infinity }
}

/// `VariableBaseMSM::msm_unchecked` on G1: the inner product of the points
/// and the scalars, over the shorter of the two lengths.
#[verifier::external_body]
fn g1_msm(bases: &[G1], scalars: &[Scalar]) -> (r: G1)
    ensures
        r@ == dot(
            logs(bases@),
            vals(scalars@),
            if bases@.len() <= scalars@.len() { bases@.len() as int } else { scalars@.len() as int },
        ),
{
    let c = |v: [u64; 6]| Fq::new(BigInt(v));
    let b: Vec<G1Affine> = bases
        .iter()
        .map(|p| G1Affine { x: c(p.x), y: c(p.y), infinity: p.infinity })
        .collect();
    let k: Vec<Fr> = scalars.iter().map(|s| Fr::new(BigInt(s.limbs()))).collect();
    let s = G1Projective::msm_unchecked(&b, &k).into_affine();
    G1 { x: s.x.into_bigint().0, y: s.y.into_bigint().0, infinity: s.infinity }
}

/// `FixedBase::msm` on G1 with a fresh window table, and
/// `CurveGroup::normalize_batch` on what it returns: the multiples of one
/// point by each of the scalars, in order.
#[verifier::external_body]
fn g1_fixed_base(g: &G1, scalars: &[Scalar]) -> (r: Vec<G1>)
    ensures
        r@.len() == scalars@.len(),
        forall|i: int| 0 <= i < r@.len() ==> (#[trigger] r@[i])@ == fmul(g@, scalars@[i]@),
{
    let p = G1Affine { x: Fq::new(BigInt(g.x)), y: Fq::new(BigInt(g.y)), infinity: g.infinity };
    let bits = Fr::MODULUS_BIT_SIZE as usize;
    let w = FixedBase::get_mul_window_size(scalars.len());
    let table = FixedBase::get_window_table(bits, w, p.into_group());
    let k: Vec<Fr> = scalars.iter().map(|s| Fr::new(BigInt(s.limbs()))).collect();
    let m = FixedBase::msm(bits, w, &table, &k);
    G1Projective::normalize_batch(&m)
        .iter()
        .map(|s| G1 { x: s.x.into_bigint().0, y: s.y.into_bigint().0, infinity: s.infinity })
        .collect()
}

/// `+` of `ark_bls12_381::G2Projective` with an affine point, and
/// `CurveGroup::into_affine`: the sum of the two points of G2.
#[verifier::external_body]
fn g2_add(a: &G2, b: &G2) -> (r: G2)
    ensures
        r@ == fadd(a@, b@),
{
    let f = |v: [[u64; 6]; 2]| Fq2::new(Fq::new(BigInt(v[0])), Fq::new(BigInt(v[1])));
    let p = G2Affine { x: f(a.x), y: f(a.y), infinity: a.infinity };
    let q = G2Affine { x: f(b.x), y: f(b.y), infinity: b.infinity };
    let s = (p.into_group() + q).into_affine();
    let v = |c: Fq2| [c.c0.into_bigint().0, c.c1.into_bigint().0];
    G2 { x: v(s.x), y: v(s.y), infinity: s.infinity }
}

/// `*` of `ark_bls12_381::G2Projective` with an `Fr`, and
/// `CurveGroup::into_affine`: the multiple of the point of G2.
#[verifier::external_body]
fn g2_mul(a: &G2, k: &Scalar) -> (r: G2)
    ensures
        r@ == fmul(a@, k@),
{
    let f = |v: [[u64; 6]; 2]| Fq2::new(Fq::new(BigInt(v[0])), Fq::new(BigInt(v[1])));
    let p = G2Affine { x: f(a.x), y: f(a.y), infinity: a.infinity };
    let s = (p.into_group() * Fr::new(BigInt(k.limbs()))).into_affine();
    let v = |c: Fq2| [c.c0.into_bigint().0, c.c1.into_bigint().0];
    G2 { x: v(s.x), y: v(s.y), infinity: s.infinity }
}

/// `Pairing::multi_pairing` on BLS12-381 against the neutral element of the
/// target group: the pairing is bilinear and not degenerate on groups of prime
/// order, so the product of the pairings is neutral exactly where the inner
/// product of the logarithms is zero.
#[verifier::external_body]
fn multi_pairing_is_one(a: &[G1], b: &[G2]) -> (r: bool)
    requires
        a@.len() == b@.len(),
    ensures
        r == (dot(logs(a@), logs2(b@), a@.len() as int) == 0),
{
    let c = |v: [u64; 6]| Fq::new(BigInt(v));
    let f = |v: [[u64; 6]; 2]| Fq2::new(c(v[0]), c(v[1]));
    let p = a.iter().map(|p| G1Affine { x: c(p.x), y: c(p.y), infinity: p.infinity });
    let q = b.iter().map(|q| G2Affine { x: f(q.x), y: f(q.y), infinity: q.infinity });
    Bls12_381::multi_pairing(p, q).is_zero()
}

/// The compressed encoding of the point of G1 with a given logarithm.
pub uninterp spec fn g1_encoding(log: int) -> Seq<u8>;

/// `CanonicalSerialize::serialize_compressed` of a point of G1: 48 bytes, which
/// depend on the point alone.
#[verifier::external_body]
fn g1_serialize(a: &G1) -> (r: Vec<u8>)
    ensures
        r@ == g1_encoding(a@),
        r@.len() == 48,
{
    let mut bytes = Vec::new();
    G1Affine { x: Fq::new(BigInt(a.x)), y: Fq::new(BigInt(a.y)), infinity: a.infinity }
        .serialize_compressed(&mut bytes)
        .unwrap();
    bytes
}

/// `CanonicalDeserialize::deserialize_compressed` of a point of G1: what was
/// written is read back. Nothing is said of other bytes.
#[verifier::external_body]
fn g1_deserialize(b: &[u8]) -> (r: Option<G1>)
    ensures
        forall|k: int|
            0 <= k < modulus() && b@ == #[trigger] g1_encoding(k) ==> r is Some && r.unwrap()@
                == k,
{
    G1Affine::deserialize_compressed(b).ok().map(
        |p: G1Affine| G1 { x: p.x.into_bigint().0, y: p.y.into_bigint().0, infinity: p.infinity },
    )
}

/// `CanonicalSerialize::compressed_size` of a point of G1: 48 bytes, for the
/// 381-bit coordinate with its flags.
#[verifier::external_body]
fn g1_compressed_size(a: &G1) -> (r: usize)
    ensures
        r == 48,
{
    G1Affine { x: Fq::new(BigInt(a.x)), y: Fq::new(BigInt(a.y)), infinity: a.infinity }
        .compressed_size()
}

impl G1 {
    /// The fixed generator.
    pub fn generator() -> (r: G1)
        ensures
            r@ == 1,
    {
        g1_generator()
    }

    /// Whether the point is the one at infinity.
    pub closed spec fn at_infinity(&self) -> bool {
        self.infinity
    }

    /// The neutral element.
    pub fn identity() -> (r: G1)
        ensures
            r@ == 0,
            r.at_infinity(),
    {
        g1_default()
    }

    pub fn add(&self, other: &G1) -> (r: G1)
        ensures
            r@ == fadd(self@, other@),
    {
        g1_add(self, other)
    }

    pub fn mul(&self, k: &Scalar) -> (r: G1)
        ensures
            r@ == fmul(self@, k@),
    {
        g1_mul(self, k)
    }

    pub fn neg(&self) -> (r: G1)
        ensures
            r@ == fneg(self@),
    {
        g1_neg(self)
    }

    /// Inner product of points and scalars over the shorter of the lengths.
    pub fn msm(bases: &[G1], scalars: &[Scalar]) -> (r: G1)
        ensures
            r@ == dot(
                logs(bases@),
                vals(scalars@),
                if bases@.len() <= scalars@.len() {
                    bases@.len() as int
                } else {
                    scalars@.len() as int
                },
            ),
    {
        g1_msm(bases, scalars)
    }

    /// The multiples of the point by each of the scalars.
    pub fn multiples(&self, scalars: &[Scalar]) -> (r: Vec<G1>)
        ensures
            r@.len() == scalars@.len(),
            forall|i: int| 0 <= i < r@.len() ==> (#[trigger] r@[i])@ == fmul(self@, scalars@[i]@),
    {
        g1_fixed_base(self, scalars)
    }

    /// The compressed encoding of the point.
    pub fn to_bytes(&self) -> (r: Vec<u8>)
        ensures
            r@ == g1_encoding(self@),
            r@.len() == 48,
    {
        g1_serialize(self)
    }

    /// The point that a compressed encoding stands for.
    pub fn from_bytes(b: &[u8]) -> (r: Option<G1>)
        ensures
            forall|k: int|
                0 <= k < modulus() && b@ == #[trigger] g1_encoding(k) ==> r is Some && r.unwrap()@
                    == k,
    {
        g1_deserialize(b)
    }

    /// Size in bytes of the compressed encoding of the point.
    pub fn compressed_size(&self) -> (r: usize)
        ensures
            r == 48,
    {
        g1_compressed_size(self)
    }

    /// The affine coordinates, least significant limb first; nothing for the
    /// point at infinity.
    pub fn coordinates(&self) -> (r: Option<([u64; 6], [u64; 6])>)
        ensures
            r is None <==> self.at_infinity(),
            r matches Some(c) ==> self@ == g1_log(c.0@, c.1@, false),
    {
        if self.infinity {
            None
        } else {
            Some((self.x, self.y))
        }
    }
}

impl G2 {
    /// The fixed generator.
    pub fn generator() -> (r: G2)
        ensures
            r@ == 1,
    {
        g2_generator()
    }

    pub fn add(&self, other: &G2) -> (r: G2)
        ensures
            r@ == fadd(self@, other@),
    {
        g2_add(self, other)
    }

    pub fn mul(&self, k: &Scalar) -> (r: G2)
        ensures
            r@ == fmul(self@, k@),
    {
        g2_mul(self, k)
    }
}

/// Whether the product of the pairings of `a[i]` with `b[i]` is neutral.
pub fn pairing_check(a: &[G1], b: &[G2]) -> (r: bool)
    requires
        a@.len() == b@.len(),
    ensures
        r == (dot(logs(a@), logs2(b@), a@.len() as int) == 0),
{
    multi_pairing_is_one(a, b)
}

} // verus!
