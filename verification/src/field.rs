//! The scalar field of BLS12-381.
//!
//! A [`Scalar`] holds the four little-endian limbs of the canonical
//! representative of a field element; its view is that representative as an
//! integer. The specification side works on integers with the reduced
//! operations [`fadd`], [`fsub`], [`fmul`], [`fneg`].

use ark_bls12_381::Fr;
use ark_ff::{BigInt, Field, PrimeField};
use ark_serialize::CanonicalSerialize;
use vstd::prelude::*;

verus! {

/// The order of the scalar field (and of the groups G1 and G2).
#[verifier::opaque]
pub open spec fn modulus() -> int {
    0x73eda753299d7d483339d80809a1d80553bda402fffe5bfeffffffff00000001int
}

/// Sum of two field elements.
pub open spec fn fadd(a: int, b: int) -> int {
    (a + b) % modulus()
}

/// Difference of two field elements.
pub open spec fn fsub(a: int, b: int) -> int {
    (a - b) % modulus()
}

/// Product of two field elements.
pub open spec fn fmul(a: int, b: int) -> int {
    (a * b) % modulus()
}

/// Negative of a field element.
pub open spec fn fneg(a: int) -> int {
    (-a) % modulus()
}

/// `n`-th power of a field element.
pub open spec fn fpow(a: int, n: nat) -> int
    decreases n,
{
    if n == 0 {
        1
    } else {
        fmul(fpow(a, (n - 1) as nat), a)
    }
}

/// Whether `b` is a reduced inverse of `a`.
pub open spec fn is_inverse(a: int, b: int) -> bool {
    0 <= b < modulus() && fmul(a, b) == 1
}

/// The inverse of a field element that has one.
pub open spec fn finv(a: int) -> int {
    choose|b: int| is_inverse(a, b)
}

/// The inverse of an element; zero for zero.
pub open spec fn finv_or_zero(a: int) -> int {
    if a == 0 {
        0
    } else {
        finv(a)
    }
}

/// Whether two integers name the same field element.
#[verifier::opaque]
pub open spec fn cong(a: int, b: int) -> bool {
    a % modulus() == b % modulus()
}

/// Whether an integer is a canonical representative.
pub open spec fn reduced(a: int) -> bool {
    0 <= a < modulus()
}

pub proof fn lemma_modulus()
    ensures
        modulus() > 0x1_0000_0000_0000_0000int,
        modulus() % 2 == 1,
{
    reveal(modulus);
}

pub broadcast proof fn lemma_fadd_reduced(a: int, b: int)
    ensures
        reduced(#[trigger] fadd(a, b)),
{
    lemma_modulus();
}

pub broadcast proof fn lemma_fsub_reduced(a: int, b: int)
    ensures
        reduced(#[trigger] fsub(a, b)),
{
    lemma_modulus();
}

pub broadcast proof fn lemma_fmul_reduced(a: int, b: int)
    ensures
        reduced(#[trigger] fmul(a, b)),
{
    lemma_modulus();
}

pub broadcast proof fn lemma_fneg_reduced(a: int)
    ensures
        reduced(#[trigger] fneg(a)),
{
    lemma_modulus();
}

pub proof fn lemma_fpow_reduced(a: int, n: nat)
    ensures
        reduced(fpow(a, n)),
{
    lemma_modulus();
    if n > 0 {
        lemma_fmul_reduced(fpow(a, (n - 1) as nat), a);
    }
}

/// Every integer names the element that it reduces to.
pub proof fn lemma_refl(a: int)
    ensures
        cong(a, a),
{
    reveal(cong);
}

pub proof fn lemma_cong_symm(a: int, b: int)
    requires
        cong(a, b),
    ensures
        cong(b, a),
{
    reveal(cong);
}

pub proof fn lemma_cong_trans(a: int, b: int, c: int)
    requires
        cong(a, b),
        cong(b, c),
    ensures
        cong(a, c),
{
    reveal(cong);
}

/// Two canonical representatives of the same element are equal.
pub proof fn lemma_cong_eq(a: int, b: int)
    requires
        cong(a, b),
        reduced(a),
        reduced(b),
    ensures
        a == b,
{
    reveal(cong);
    lemma_modulus();
    vstd::arithmetic::div_mod::lemma_small_mod(a as nat, modulus() as nat);
    vstd::arithmetic::div_mod::lemma_small_mod(b as nat, modulus() as nat);
}

pub broadcast proof fn lemma_cong_fadd(a: int, x: int, b: int, y: int)
    requires
        #[trigger] cong(a, x),
        #[trigger] cong(b, y),
    ensures
        cong(#[trigger] fadd(a, b), x + y),
{
    reveal(cong);
    lemma_modulus();
    let m = modulus();
    vstd::arithmetic::div_mod::lemma_mod_twice(a + b, m);
    vstd::arithmetic::div_mod::lemma_add_mod_noop(a, b, m);
    vstd::arithmetic::div_mod::lemma_add_mod_noop(x, y, m);
}

pub broadcast proof fn lemma_cong_fsub(a: int, x: int, b: int, y: int)
    requires
        #[trigger] cong(a, x),
        #[trigger] cong(b, y),
    ensures
        cong(#[trigger] fsub(a, b), x - y),
{
    reveal(cong);
    lemma_modulus();
    let m = modulus();
    vstd::arithmetic::div_mod::lemma_mod_twice(a - b, m);
    vstd::arithmetic::div_mod::lemma_sub_mod_noop(a, b, m);
    vstd::arithmetic::div_mod::lemma_sub_mod_noop(x, y, m);
}

pub broadcast proof fn lemma_cong_fmul(a: int, x: int, b: int, y: int)
    requires
        #[trigger] cong(a, x),
        #[trigger] cong(b, y),
    ensures
        cong(#[trigger] fmul(a, b), x * y),
{
    reveal(cong);
    lemma_modulus();
    let m = modulus();
    vstd::arithmetic::div_mod::lemma_mod_twice(a * b, m);
    vstd::arithmetic::div_mod::lemma_mul_mod_noop(a, b, m);
    vstd::arithmetic::div_mod::lemma_mul_mod_noop(x, y, m);
}

pub broadcast proof fn lemma_cong_fneg(a: int, x: int)
    requires
        #[trigger] cong(a, x),
    ensures
        cong(#[trigger] fneg(a), -x),
{
    reveal(cong);
    lemma_modulus();
    let m = modulus();
    vstd::arithmetic::div_mod::lemma_mod_twice(-a, m);
    vstd::arithmetic::div_mod::lemma_sub_mod_noop(0, a, m);
    vstd::arithmetic::div_mod::lemma_sub_mod_noop(0, x, m);
}

/// The shadow rules: an expression built from the reduced operations names
/// the same element as the integer expression of the same shape.
pub broadcast group group_shadow {
    lemma_cong_fadd,
    lemma_cong_fsub,
    lemma_cong_fmul,
    lemma_cong_fneg,
}

pub broadcast group group_reduced {
    lemma_fadd_reduced,
    lemma_fsub_reduced,
    lemma_fmul_reduced,
    lemma_fneg_reduced,
    Scalar::lemma_view_reduced,
}

/// Equality of two reduced expressions from the equality of their shadows.
pub proof fn lemma_shadow_eq(a: int, x: int, b: int, y: int)
    requires
        cong(a, x),
        cong(b, y),
        x == y,
        reduced(a),
        reduced(b),
    ensures
        a == b,
{
    lemma_cong_symm(b, y);
    lemma_cong_trans(a, x, b);
    lemma_cong_eq(a, b);
}

/// Integer equality is congruence.
pub proof fn lemma_cong_of_eq(a: int, b: int)
    requires
        a == b,
    ensures
        cong(a, b),
{
    lemma_refl(a);
}

/// Sum of congruent integers.
pub proof fn lemma_cong_add(a: int, x: int, b: int, y: int)
    requires
        cong(a, x),
        cong(b, y),
    ensures
        cong(a + b, x + y),
{
    reveal(cong);
    lemma_modulus();
    let m = modulus();
    vstd::arithmetic::div_mod::lemma_add_mod_noop(a, b, m);
    vstd::arithmetic::div_mod::lemma_add_mod_noop(x, y, m);
}

/// Difference of congruent integers.
pub proof fn lemma_cong_sub(a: int, x: int, b: int, y: int)
    requires
        cong(a, x),
        cong(b, y),
    ensures
        cong(a - b, x - y),
{
    reveal(cong);
    lemma_modulus();
    let m = modulus();
    vstd::arithmetic::div_mod::lemma_sub_mod_noop(a, b, m);
    vstd::arithmetic::div_mod::lemma_sub_mod_noop(x, y, m);
}

/// Product of congruent integers.
pub proof fn lemma_cong_mul(a: int, x: int, b: int, y: int)
    requires
        cong(a, x),
        cong(b, y),
    ensures
        cong(a * b, x * y),
{
    reveal(cong);
    lemma_modulus();
    let m = modulus();
    vstd::arithmetic::div_mod::lemma_mul_mod_noop(a, b, m);
    vstd::arithmetic::div_mod::lemma_mul_mod_noop(x, y, m);
}

/// Two integers whose difference names zero name the same element.
pub proof fn lemma_cong_move(a: int, b: int)
    requires
        cong(0, a - b),
    ensures
        cong(a, b),
{
    lemma_refl(b);
    lemma_cong_add(0, a - b, b, b);
    lemma_cong_symm(b, a);
}

/// The difference of integers that name the same element names zero.
pub proof fn lemma_cong_apart(a: int, b: int)
    requires
        cong(a, b),
    ensures
        cong(0, a - b),
        cong(a - b, 0),
{
    lemma_refl(b);
    lemma_cong_sub(a, b, b, b);
    lemma_cong_symm(a - b, 0);
}

/// A factor that names an invertible element can be cancelled from zero.
pub proof fn lemma_cong_cancel(a: int, i: int, d: int)
    requires
        cong(a * i, 1),
        cong(a * d, 0),
    ensures
        cong(d, 0),
{
    lemma_refl(d);
    lemma_refl(i);
    lemma_cong_mul(a * i, 1, d, d);
    lemma_cong_mul(a * d, 0, i, i);
    assert((a * i) * d == (a * d) * i) by (nonlinear_arith);
    assert(0 * i == 0 && 1 * d == d) by (nonlinear_arith);
    lemma_cong_symm((a * i) * d, d);
    lemma_cong_trans(d, (a * d) * i, 0);
}

/// An inverse of the reduced operations is one of the integers.
pub proof fn lemma_cong_inverse(a: int, b: int)
    requires
        fmul(a, b) == 1,
    ensures
        cong(a * b, 1),
{
    lemma_refl(a);
    lemma_refl(b);
    broadcast use group_shadow;

    assert(cong(fmul(a, b), a * b));
    lemma_cong_symm(1, a * b);
}

/// An element has at most one reduced inverse.
pub proof fn lemma_inverse_unique(a: int, b: int)
    requires
        is_inverse(a, b),
    ensures
        finv(a) == b,
        is_inverse(a, finv(a)),
{
    broadcast use group_reduced;

    let c = finv(a);
    assert(is_inverse(a, c));
    assert(b == c) by {
        broadcast use group_shadow;

        lemma_refl(a);
        lemma_refl(b);
        lemma_refl(c);
        assert(cong(fmul(a, b), a * b));
        assert(cong(fmul(a, c), a * c));
        lemma_cong_symm(1, a * b);
        lemma_cong_symm(1, a * c);
        assert(cong(fmul(a * c, b), 1 * b));
        assert(cong(fmul(a * b, c), 1 * c));
        assert((a * c) * b == (a * b) * c) by (nonlinear_arith);
        lemma_cong_symm(fmul(a * c, b), 1 * b);
        lemma_cong_trans(b, fmul(a * c, b), c);
        lemma_cong_eq(b, c);
    }
}

/// Two is invertible: the order of the field is odd.
pub proof fn lemma_two_invertible()
    ensures
        fadd(1, 1) == 2,
        is_inverse(2, finv(2)),
{
    broadcast use group_reduced;

    reveal(modulus);
    lemma_modulus();
    let h = (modulus() + 1) / 2;
    assert(2 * h == modulus() + 1);
    vstd::arithmetic::div_mod::lemma_mod_multiples_vanish(1, 1, modulus());
    vstd::arithmetic::div_mod::lemma_small_mod(1, modulus() as nat);
    vstd::arithmetic::div_mod::lemma_small_mod(2, modulus() as nat);
    assert(fmul(2, h) == 1);
    assert(is_inverse(2, h));
    lemma_inverse_unique(2, h);
}

/// A summand can be cancelled.
pub proof fn lemma_add_cancel(a: int, b: int, c: int)
    requires
        reduced(b),
        reduced(c),
        fadd(a, b) == fadd(a, c),
    ensures
        b == c,
{
    broadcast use {group_reduced, group_shadow};

    lemma_refl(a);
    lemma_refl(b);
    lemma_refl(c);
    lemma_shadow_eq(fsub(fadd(a, b), a), (a + b) - a, b, b);
    lemma_shadow_eq(fsub(fadd(a, c), a), (a + c) - a, c, c);
}

/// A factor with an inverse can be cancelled.
pub proof fn lemma_mul_cancel(a: int, ai: int, b: int, c: int)
    requires
        reduced(b),
        reduced(c),
        fmul(a, ai) == 1,
        fmul(a, b) == fmul(a, c),
    ensures
        b == c,
{
    broadcast use group_reduced;

    lemma_refl(a);
    lemma_refl(ai);
    lemma_refl(b);
    lemma_refl(c);
    lemma_refl(1);
    assert((a * ai) * b == ai * (a * b)) by (nonlinear_arith);
    assert((a * ai) * c == ai * (a * c)) by (nonlinear_arith);
    broadcast use group_shadow;

    lemma_shadow_eq(fmul(fmul(a, ai), b), (a * ai) * b, fmul(ai, fmul(a, b)), ai * (a * b));
    lemma_shadow_eq(fmul(fmul(a, ai), c), (a * ai) * c, fmul(ai, fmul(a, c)), ai * (a * c));
    lemma_shadow_eq(fmul(1, b), 1 * b, b, b);
    lemma_shadow_eq(fmul(1, c), 1 * c, c, c);
}

/// Doubling is injective: the order of the field is odd.
pub proof fn lemma_double_cancel(a: int, b: int)
    requires
        reduced(a),
        reduced(b),
        fadd(a, a) == fadd(b, b),
    ensures
        a == b,
{
    broadcast use {group_reduced, group_shadow};

    lemma_two_invertible();
    lemma_refl(a);
    lemma_refl(b);
    lemma_refl(2);
    lemma_shadow_eq(fmul(2, a), 2 * a, fadd(a, a), a + a);
    lemma_shadow_eq(fmul(2, b), 2 * b, fadd(b, b), b + b);
    lemma_mul_cancel(2, finv(2), a, b);
}

/// Value of four little-endian 64-bit limbs.
pub open spec fn limbs_value(l: Seq<u64>) -> int {
    l[0] + l[1] * 0x1_0000_0000_0000_0000int + l[2]
        * 0x1_0000_0000_0000_0000_0000_0000_0000_0000int + l[3]
        * 0x1_0000_0000_0000_0000_0000_0000_0000_0000_0000_0000_0000_0000int
}

/// An element of the scalar field.
#[derive(Clone, Copy, Debug)]
pub struct Scalar {
    limbs: [u64; 4],
}

impl View for Scalar {
    type V = int;

    closed spec fn view(&self) -> int {
        limbs_value(self.limbs@) % modulus()
    }
}

/// The views of a sequence of scalars.
pub open spec fn vals(s: Seq<Scalar>) -> Seq<int> {
    Seq::new(s.len(), |i: int| s[i]@)
}

/// Addition in `ark_bls12_381::Fr`: the sum of the two elements.
#[verifier::external_body]
fn fr_add(a: Scalar, b: Scalar) -> (r: Scalar)
    ensures
        r@ == fadd(a@, b@),
{
    let x = Fr::from_bigint(BigInt(a.limbs)).unwrap();
    let y = Fr::from_bigint(BigInt(b.limbs)).unwrap();
    Scalar { limbs: (x + y).into_bigint().0 }
}

/// Subtraction in `ark_bls12_381::Fr`: the difference of the two elements.
#[verifier::external_body]
fn fr_sub(a: Scalar, b: Scalar) -> (r: Scalar)
    ensures
        r@ == fsub(a@, b@),
{
    let x = Fr::from_bigint(BigInt(a.limbs)).unwrap();
    let y = Fr::from_bigint(BigInt(b.limbs)).unwrap();
    Scalar { limbs: (x - y).into_bigint().0 }
}

/// Multiplication in `ark_bls12_381::Fr`: the product of the two elements,
/// which is zero only where one of them is (the order of the field is prime).
#[verifier::external_body]
fn fr_mul(a: Scalar, b: Scalar) -> (r: Scalar)
    ensures
        r@ == fmul(a@, b@),
        r@ == 0 ==> a@ == 0 || b@ == 0,
{
    let x = Fr::from_bigint(BigInt(a.limbs)).unwrap();
    let y = Fr::from_bigint(BigInt(b.limbs)).unwrap();
    Scalar { limbs: (x * y).into_bigint().0 }
}

/// Negation in `ark_bls12_381::Fr`.
#[verifier::external_body]
fn fr_neg(a: Scalar) -> (r: Scalar)
    ensures
        r@ == fneg(a@),
{
    let x = Fr::from_bigint(BigInt(a.limbs)).unwrap();
    Scalar { limbs: (-x).into_bigint().0 }
}

/// `ark_ff::Field::inverse` on `ark_bls12_381::Fr`: nothing for zero, and
/// for every other element the one whose product with it is one.
#[verifier::external_body]
fn fr_inverse(a: Scalar) -> (r: Option<Scalar>)
    ensures
        r is None <==> a@ == 0,
        r matches Some(b) ==> fmul(a@, b@) == 1,
{
    let x = Fr::from_bigint(BigInt(a.limbs)).unwrap();
    x.inverse().map(|y: Fr| Scalar { limbs: y.into_bigint().0 })
}

/// `ark_ff::batch_inversion` on elements of `ark_bls12_381::Fr`: every nonzero
/// element is replaced by its inverse, and zeros stay.
#[verifier::external_body]
fn fr_batch_inversion(v: &[Scalar]) -> (r: Vec<Scalar>)
    ensures
        r@.len() == v@.len(),
        forall|i: int| 0 <= i < v@.len() && v@[i]@ == 0 ==> (#[trigger] r@[i])@ == 0,
        forall|i: int|
            0 <= i < v@.len() && v@[i]@ != 0 ==> fmul(v@[i]@, (#[trigger] r@[i])@) == 1,
{
    let mut f: Vec<Fr> = v.iter().map(|a| Fr::from_bigint(BigInt(a.limbs)).unwrap()).collect();
    ark_ff::batch_inversion(&mut f);
    f.into_iter().map(|y| Scalar { limbs: y.into_bigint().0 }).collect()
}

/// `ark_ff::Field::pow` on `ark_bls12_381::Fr` with a one-limb exponent.
#[verifier::external_body]
fn fr_pow(a: Scalar, n: u64) -> (r: Scalar)
    ensures
        r@ == fpow(a@, n as nat),
{
    let x = Fr::from_bigint(BigInt(a.limbs)).unwrap();
    Scalar { limbs: x.pow([n]).into_bigint().0 }
}

/// Value of bytes, least significant first.
pub open spec fn le_value(b: Seq<u8>) -> int
    decreases b.len(),
{
    if b.len() == 0 {
        0
    } else {
        b[0] + 256 * le_value(b.skip(1))
    }
}

/// Bytes of one length are determined by their value.
pub proof fn lemma_le_value_injective(a: Seq<u8>, b: Seq<u8>)
    requires
        a.len() == b.len(),
        le_value(a) == le_value(b),
    ensures
        a == b,
    decreases a.len(),
{
    if a.len() > 0 {
        lemma_le_value_injective(a.skip(1), b.skip(1));
        assert forall|i: int| 0 <= i < a.len() implies a[i] == b[i] by {
            if i > 0 {
                assert(a.skip(1)[i - 1] == b.skip(1)[i - 1]);
            }
        }
    }
    assert(a =~= b);
}

/// The 32 bytes of a field element, least significant first.
pub open spec fn scalar_bytes(v: int) -> Seq<u8> {
    choose|b: Seq<u8>| b.len() == 32 && le_value(b) == v
}

/// `CanonicalSerialize::serialize_compressed` of an `ark_bls12_381::Fr`: the 32
/// bytes of the canonical representative, least significant first.
#[verifier::external_body]
fn fr_serialize(a: &Scalar) -> (r: Vec<u8>)
    ensures
        r@.len() == 32,
        le_value(r@) == a@,
{
    let mut bytes = Vec::new();
    let x = Fr::from_bigint(BigInt(a.limbs)).unwrap();
    x.serialize_compressed(&mut bytes).unwrap();
    bytes
}

/// The 8 bytes of a length, least significant first.
pub open spec fn length_bytes(n: int) -> Seq<u8> {
    choose|b: Seq<u8>| b.len() == 8 && le_value(b) == n
}

/// The bytes of the first `n` field elements of a vector of them: its length, then
/// each element.
pub open spec fn vector_bytes(vs: Seq<int>, n: int) -> Seq<u8>
    decreases n,
{
    if n <= 0 {
        length_bytes(vs.len() as int)
    } else {
        vector_bytes(vs, n - 1) + scalar_bytes(vs[n - 1])
    }
}

/// `CanonicalSerialize::serialize_compressed` of a vector of `ark_bls12_381::Fr`:
/// the length in 8 bytes, least significant first, and after it the 32 bytes of
/// each element, as for a single one.
#[verifier::external_body]
fn fr_serialize_vec(v: &[Scalar]) -> (r: Vec<u8>)
    requires
        8 + 32 * v@.len() <= usize::MAX,
    ensures
        r@.len() == 8 + 32 * v@.len(),
        le_value(r@.take(8)) == v@.len(),
        forall|i: int|
            0 <= i < v@.len() ==> le_value(r@.subrange(8 + 32 * i, 8 + 32 * i + 32))
                == #[trigger] vals(v@)[i],
{
    let mut bytes = Vec::new();
    let xs: Vec<Fr> = v.iter().map(|x| Fr::from_bigint(BigInt(x.limbs)).unwrap()).collect();
    xs.serialize_compressed(&mut bytes).unwrap();
    bytes
}

/// The bytes of a vector of field elements: its length, then each element.
pub fn vector_to_bytes(v: &[Scalar]) -> (r: Vec<u8>)
    requires
        8 + 32 * v@.len() <= usize::MAX,
    ensures
        r@ == vector_bytes(vals(v@), v@.len() as int),
        r@.len() == 8 + 32 * v@.len(),
{
    let r = fr_serialize_vec(v);
    proof {
        let vs = vals(v@);
        let head = r@.take(8);
        let want = length_bytes(vs.len() as int);
        assert(head.len() == 8 && le_value(head) == vs.len());
        assert(want.len() == 8 && le_value(want) == vs.len());
        lemma_le_value_injective(head, want);
        assert forall|i: int| 0 <= i < vs.len() implies r@.subrange(8 + 32 * i, 8 + 32 * i + 32)
            == scalar_bytes(#[trigger] vs[i]) by {
            let b = r@.subrange(8 + 32 * i, 8 + 32 * i + 32);
            let want = scalar_bytes(vs[i]);
            assert(b.len() == 32 && le_value(b) == vs[i]);
            assert(want.len() == 32 && le_value(want) == vs[i]);
            lemma_le_value_injective(b, want);
        }
        lemma_vector_bytes(r@, vs, vs.len() as int);
        assert(r@.take(8 + 32 * vs.len() as int) =~= r@);
    }
    r
}

proof fn lemma_vector_bytes(b: Seq<u8>, vs: Seq<int>, n: int)
    requires
        0 <= n <= vs.len(),
        b.len() == 8 + 32 * vs.len(),
        b.take(8) == length_bytes(vs.len() as int),
        forall|i: int|
            0 <= i < vs.len() ==> b.subrange(8 + 32 * i, 8 + 32 * i + 32) == scalar_bytes(
                #[trigger] vs[i],
            ),
    ensures
        vector_bytes(vs, n) == b.take(8 + 32 * n),
    decreases n,
{
    if n > 0 {
        lemma_vector_bytes(b, vs, n - 1);
        let m = 8 + 32 * (n - 1);
        assert(b.subrange(m, m + 32) == scalar_bytes(vs[n - 1]));
        assert(b.take(m) + b.subrange(m, m + 32) =~= b.take(m + 32));
    }
}

/// `PrimeField::from_le_bytes_mod_order` on `ark_bls12_381::Fr`: the element that
/// the value of the bytes names.
#[verifier::external_body]
fn fr_from_le_bytes(b: &[u8]) -> (r: Scalar)
    ensures
        r@ == le_value(b@) % modulus(),
{
    Scalar { limbs: Fr::from_le_bytes_mod_order(b).into_bigint().0 }
}

/// `CanonicalSerialize::compressed_size` of an `ark_bls12_381::Fr`: 32 bytes,
/// for its 255 bits.
#[verifier::external_body]
fn fr_compressed_size(a: &Scalar) -> (r: usize)
    ensures
        r == 32,
{
    Fr::from_bigint(BigInt(a.limbs)).unwrap().compressed_size()
}

proof fn lemma_limbs_injective(a: Seq<u64>, b: Seq<u64>)
    requires
        a.len() == 4,
        b.len() == 4,
        limbs_value(a) == limbs_value(b),
    ensures
        a == b,
{
    let w = 0x1_0000_0000_0000_0000int;
    let a1 = a[1] + a[2] * w + a[3] * 0x1_0000_0000_0000_0000_0000_0000_0000_0000int;
    let b1 = b[1] + b[2] * w + b[3] * 0x1_0000_0000_0000_0000_0000_0000_0000_0000int;
    assert(limbs_value(a) == a[0] + a1 * w);
    assert(limbs_value(b) == b[0] + b1 * w);
    assert(a[0] == b[0] && a1 == b1);
    let a2 = a[2] + a[3] * w;
    let b2 = b[2] + b[3] * w;
    assert(a1 == a[1] + a2 * w);
    assert(b1 == b[1] + b2 * w);
    assert(a[1] == b[1] && a2 == b2);
    assert(a[2] == b[2] && a[3] == b[3]);
    assert(a =~= b);
}

impl Scalar {
    /// The limbs hold a canonical representative.
    #[verifier::type_invariant]
    spec fn canonical(self) -> bool {
        limbs_value(self.limbs@) < modulus()
    }

    pub broadcast proof fn lemma_view_reduced(self)
        ensures
            reduced(#[trigger] self@),
    {
        lemma_modulus();
    }

    /// The limbs of the canonical representative, least significant first.
    pub fn limbs(&self) -> (r: [u64; 4])
        ensures
            limbs_value(r@) == self@,
    {
        proof {
            use_type_invariant(self);
            lemma_modulus();
            vstd::arithmetic::div_mod::lemma_small_mod(
                limbs_value(self.limbs@) as nat,
                modulus() as nat,
            );
        }
        self.limbs
    }

    /// The element with the given canonical limbs; nothing where they do not
    /// hold a canonical representative.
    pub fn from_limbs(limbs: [u64; 4]) -> (r: Option<Scalar>)
        ensures
            r is Some <==> limbs_value(limbs@) < modulus(),
            r matches Some(s) ==> s@ == limbs_value(limbs@),
    {
        let r: [u64; 4] = [
            0xffff_ffff_0000_0001,
            0x53bd_a402_fffe_5bfe,
            0x3339_d808_09a1_d805,
            0x73ed_a753_299d_7d48,
        ];
        proof {
            reveal(modulus);
            assert(limbs_value(r@) == modulus());
        }
        let below = limbs[3] < r[3] || (limbs[3] == r[3] && (limbs[2] < r[2] || (limbs[2] == r[2]
            && (limbs[1] < r[1] || (limbs[1] == r[1] && limbs[0] < r[0])))));
        if below {
            proof {
                vstd::arithmetic::div_mod::lemma_small_mod(
                    limbs_value(limbs@) as nat,
                    modulus() as nat,
                );
            }
            Some(Scalar { limbs })
        } else {
            None
        }
    }

    /// The element that an unsigned integer names.
    pub fn from_u64(n: u64) -> (r: Scalar)
        ensures
            r@ == n,
    {
        proof {
            lemma_modulus();
            vstd::arithmetic::div_mod::lemma_small_mod(n as nat, modulus() as nat);
        }
        Scalar { limbs: [n, 0, 0, 0] }
    }

    pub fn zero() -> (r: Scalar)
        ensures
            r@ == 0,
    {
        Scalar::from_u64(0)
    }

    pub fn one() -> (r: Scalar)
        ensures
            r@ == 1,
    {
        Scalar::from_u64(1)
    }

    pub fn add(self, other: Scalar) -> (r: Scalar)
        ensures
            r@ == fadd(self@, other@),
    {
        fr_add(self, other)
    }

    pub fn sub(self, other: Scalar) -> (r: Scalar)
        ensures
            r@ == fsub(self@, other@),
    {
        fr_sub(self, other)
    }

    pub fn mul(self, other: Scalar) -> (r: Scalar)
        ensures
            r@ == fmul(self@, other@),
            r@ == 0 ==> self@ == 0 || other@ == 0,
    {
        fr_mul(self, other)
    }

    pub fn neg(self) -> (r: Scalar)
        ensures
            r@ == fneg(self@),
    {
        fr_neg(self)
    }

    /// Twice the element.
    pub fn double(self) -> (r: Scalar)
        ensures
            r@ == fadd(self@, self@),
    {
        fr_add(self, self)
    }

    pub fn square(self) -> (r: Scalar)
        ensures
            r@ == fmul(self@, self@),
            r@ == 0 ==> self@ == 0,
    {
        fr_mul(self, self)
    }

    pub fn inverse(self) -> (r: Option<Scalar>)
        ensures
            r is None <==> self@ == 0,
            r matches Some(b) ==> b@ == finv(self@) && is_inverse(self@, b@),
    {
        let r = fr_inverse(self);
        proof {
            if let Some(b) = r {
                b.lemma_view_reduced();
                lemma_inverse_unique(self@, b@);
            }
        }
        r
    }

    /// The inverses of the elements; zero for zero.
    pub fn batch_inverse(v: &[Scalar]) -> (r: Vec<Scalar>)
        ensures
            r@.len() == v@.len(),
            forall|i: int|
                0 <= i < v@.len() ==> (#[trigger] r@[i])@ == finv_or_zero(v@[i]@) && (v@[i]@ != 0
                    ==> is_inverse(v@[i]@, r@[i]@)),
    {
        let r = fr_batch_inversion(v);
        proof {
            assert forall|i: int| 0 <= i < v@.len() implies (#[trigger] r@[i])@ == finv_or_zero(
                v@[i]@,
            ) && (v@[i]@ != 0 ==> is_inverse(v@[i]@, r@[i]@)) by {
                if v@[i]@ != 0 {
                    r@[i].lemma_view_reduced();
                    lemma_inverse_unique(v@[i]@, r@[i]@);
                }
            }
        }
        r
    }

    pub fn pow(self, n: u64) -> (r: Scalar)
        ensures
            r@ == fpow(self@, n as nat),
    {
        fr_pow(self, n)
    }

    /// The 32 bytes of the element, least significant first.
    pub fn to_bytes(&self) -> (r: Vec<u8>)
        ensures
            r@ == scalar_bytes(self@),
            r@.len() == 32,
            le_value(r@) == self@,
    {
        let r = fr_serialize(self);
        proof {
            let want = scalar_bytes(self@);
            assert(want.len() == 32 && le_value(want) == self@);
            lemma_le_value_injective(r@, want);
        }
        r
    }

    /// The element that bytes name, least significant first.
    pub fn from_bytes_mod_order(b: &[u8]) -> (r: Scalar)
        ensures
            r@ == le_value(b@) % modulus(),
    {
        fr_from_le_bytes(b)
    }

    /// Size in bytes of the compressed encoding of the element.
    pub fn compressed_size(&self) -> (r: usize)
        ensures
            r == 32,
    {
        fr_compressed_size(self)
    }

    pub fn is_zero(&self) -> (r: bool)
        ensures
            r == (self@ == 0),
    {
        let z = Scalar::zero();
        self.equals(&z)
    }

    /// Whether two scalars are the same field element.
    pub fn equals(&self, other: &Scalar) -> (r: bool)
        ensures
            r == (self@ == other@),
    {
        let a = self.limbs();
        let b = other.limbs();
        proof {
            use_type_invariant(self);
            use_type_invariant(other);
        }
        let r = a[0] == b[0] && a[1] == b[1] && a[2] == b[2] && a[3] == b[3];
        proof {
            if self@ == other@ {
                lemma_limbs_injective(a@, b@);
            }
        }
        r
    }
}

impl PartialEq for Scalar {
    fn eq(&self, other: &Scalar) -> (r: bool) {
        self.equals(other)
    }
}

impl vstd::std_specs::cmp::PartialEqSpecImpl for Scalar {
    open spec fn obeys_eq_spec() -> bool {
        true
    }

    open spec fn eq_spec(&self, other: &Scalar) -> bool {
        self@ == other@
    }
}

impl Eq for Scalar {

}

} // verus!
