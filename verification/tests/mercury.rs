#![allow(dead_code, unused_imports)]

use ark_bls12_381::{Fq, Fr, G1Affine};
use ark_ff::{BigInt, PrimeField};
use ark_serialize::CanonicalSerialize;
use ark_std::rand::Rng;
use ark_std::{test_rng, UniformRand};
use mlpcs::bdfg::poly_eval;
use mlpcs::errors::PCSError;
use mlpcs::field::Scalar;
use mlpcs::group::{G1, G2};
use mlpcs::tensor::Mle;
use mlpcs::transcript::IOPTranscript;
use mlpcs::bdfg::{bdfg_first_round, bdfg_second_round, BdfgClaim, BdfgFirstRound};
use mlpcs::mercury::srs::{MercuryProverParam, MercuryVerifierParam};
use mlpcs::mercury::{
    bdfg_prove, bdfg_verify_lhs_pure, compute_h, divide_by_binomial, make_s_polynomial_structured,
    mercury_dims, mercury_dims_verify, pu_eval, reverse_coeffs, validate_zbdfg, validate_zeta,
    BdfgEvals, MercuryPCS, MercuryProof,
};
use mlpcs::tensor::{build_eq_vec, inner_product};

fn rs<R: Rng>(rng: &mut R) -> Scalar {
    Scalar::from_limbs(Fr::rand(rng).into_bigint().0).unwrap()
}

fn rvec<R: Rng>(n: usize, rng: &mut R) -> Vec<Scalar> {
    (0..n).map(|_| rs(rng)).collect()
}

fn rg1<R: Rng>(rng: &mut R) -> G1 {
    G1::generator().mul(&rs(rng))
}

fn rg2<R: Rng>(rng: &mut R) -> G2 {
    G2::generator().mul(&rs(rng))
}

fn rpoly<R: Rng>(nv: usize, rng: &mut R) -> Mle {
    Mle::from_evaluations_vec(nv, rvec(1 << nv, rng))
}

fn num(n: u64) -> Scalar {
    Scalar::from_u64(n)
}

fn ark_scalar(v: &Scalar) -> Fr {
    Fr::from_bigint(BigInt(v.limbs())).unwrap()
}

fn ark_point(p: &G1) -> G1Affine {
    match p.coordinates() {
        None => G1Affine::identity(),
        Some((x, y)) => G1Affine::new(
            Fq::from_bigint(BigInt(x)).unwrap(),
            Fq::from_bigint(BigInt(y)).unwrap(),
        ),
    }
}

/// Value of the multilinear extension of a table, straight from its
/// definition.
fn direct_value(table: &[Scalar], point: &[Scalar]) -> Scalar {
    let mut sum = Scalar::zero();
    for i in 0..1usize << point.len() {
        let mut term = table[i];
        for (k, &u) in point.iter().enumerate() {
            term = term.mul(if (i >> k) & 1 == 1 {
                u
            } else {
                Scalar::one().sub(u)
            });
        }
        sum = sum.add(term);
    }
    sum
}

fn setup(nv: usize) -> (MercuryProverParam, MercuryVerifierParam) {
    let mut rng = test_rng();
    let tau = rs(&mut rng);
    let srs = MercuryPCS::gen_srs_for_testing(tau, rg1(&mut rng), rg2(&mut rng), nv).unwrap();
    MercuryPCS::trim(&srs, Some(nv)).unwrap()
}

fn open(
    ck: &MercuryProverParam,
    p: &Mle,
    pt: &[Scalar],
) -> Result<(MercuryProof, Scalar), PCSError> {
    MercuryPCS::open(ck, p, pt)
}

fn verify(
    vk: &MercuryVerifierParam,
    com: &G1,
    pt: &[Scalar],
    val: &Scalar,
    proof: &MercuryProof,
) -> Result<bool, PCSError> {
    MercuryPCS::verify(vk, com, pt, val, proof)
}

fn rejected(r: Result<bool, PCSError>) -> bool {
    matches!(r, Ok(false)) || r.is_err()
}

#[test]
fn open_verify_even_and_odd() -> Result<(), PCSError> {
    let mut rng = test_rng();
    for nv in [2usize, 3, 4, 5, 6, 7, 8] {
        let (ck, vk) = setup(nv);
        let p = rpoly(nv, &mut rng);
        let pt = rvec(nv, &mut rng);
        let com = MercuryPCS::commit(&ck, &p)?;
        let (proof, val) = open(&ck, &p, &pt)?;
        assert_eq!(proof.mu, nv);
        assert!(verify(&vk, &com, &pt, &val, &proof)?, "open/verify failed at nv={nv}");
    }
    Ok(())
}

#[test]
fn open_verify_minimum_nv() -> Result<(), PCSError> {
    let mut rng = test_rng();
    for nv in [1usize, 2] {
        let (ck, vk) = setup(nv);
        let p = rpoly(nv, &mut rng);
        let pt = rvec(nv, &mut rng);
        let com = MercuryPCS::commit(&ck, &p)?;
        let (proof, val) = open(&ck, &p, &pt)?;
        assert!(verify(&vk, &com, &pt, &val, &proof)?);
    }
    Ok(())
}

#[test]
fn open_verify_random_property() -> Result<(), PCSError> {
    let mut rng = test_rng();
    for nv in [4usize, 5, 6] {
        let (ck, vk) = setup(nv);
        for _ in 0..8 {
            let p = rpoly(nv, &mut rng);
            let pt = rvec(nv, &mut rng);
            let com = MercuryPCS::commit(&ck, &p)?;
            let (proof, val) = open(&ck, &p, &pt)?;
            assert_eq!(val, p.evaluate(&pt).unwrap());
            assert_eq!(val, direct_value(&p.evaluations, &pt));
            assert!(verify(&vk, &com, &pt, &val, &proof)?);
        }
    }
    Ok(())
}

#[test]
fn open_with_commitment_matches_trait_open() -> Result<(), PCSError> {
    let mut rng = test_rng();
    for nv in [4usize, 5] {
        let (ck, vk) = setup(nv);
        let p = rpoly(nv, &mut rng);
        let pt = rvec(nv, &mut rng);
        let com = MercuryPCS::commit(&ck, &p)?;
        let (proof, val) = MercuryPCS::open_with_commitment(&ck, &p, &pt, &com)?;
        assert!(verify(&vk, &com, &pt, &val, &proof)?);
        let (proof2, val2) = open(&ck, &p, &pt)?;
        assert_eq!(val, val2);
        assert_eq!(proof, proof2);
    }
    Ok(())
}

#[test]
fn mercury_sizes() {
    assert_eq!(mercury_dims(5).unwrap(), (3, 8, 4, 32));
    assert_eq!(mercury_dims(6).unwrap(), (3, 8, 8, 64));
    assert_eq!(mercury_dims(1).unwrap(), (1, 2, 1, 2));
    assert!(matches!(mercury_dims(0), Err(PCSError::InvalidParameters(_))));
    assert!(matches!(mercury_dims(64), Err(PCSError::InvalidParameters(_))));
    assert_eq!(mercury_dims_verify(5).unwrap(), (3, 8, 4, 32));
    assert!(matches!(mercury_dims_verify(0), Err(PCSError::InvalidProof(_))));
}

#[test]
fn mercury_challenges_that_collide_are_errors() {
    assert!(matches!(validate_zeta(num(0)), Err(PCSError::InvalidProof(_))));
    assert!(matches!(validate_zeta(num(1)), Err(PCSError::InvalidProof(_))));
    assert!(matches!(validate_zeta(num(1).neg()), Err(PCSError::InvalidProof(_))));
    assert_eq!(validate_zeta(num(2)).unwrap().mul(num(2)), num(1));
    assert!(validate_zbdfg(num(1), num(2), num(3), num(4)).is_ok());
    for z in [2, 3, 4] {
        let r = validate_zbdfg(num(z), num(2), num(3), num(4));
        assert!(matches!(r, Err(PCSError::InvalidProof(_))));
    }
}

#[test]
fn mercury_reversal_mirrors_values() {
    let mut rng = test_rng();
    let g = rvec(5, &mut rng);
    let d = reverse_coeffs(&g);
    let x = rs(&mut rng);
    let mirrored = x.pow(4).mul(poly_eval(&g, x.inverse().unwrap()));
    assert_eq!(poly_eval(&d, x), mirrored);
}

#[test]
fn identity_divide_by_binomial() {
    let mut rng = test_rng();
    for mu in [2usize, 3, 4, 5, 6] {
        let (_t, b, b_row, n) = mercury_dims(mu).unwrap();
        let coeffs = rvec(n, &mut rng);
        let alpha = rs(&mut rng);
        let (g, q) = divide_by_binomial(&coeffs, b, b_row, alpha);
        assert_eq!(g.len(), b);
        for _ in 0..4 {
            let r = rs(&mut rng);
            let f_r = poly_eval(&coeffs, r);
            let q_r = poly_eval(&q, r);
            let g_r = poly_eval(&g, r);
            assert_eq!(f_r, r.pow(b as u64).sub(alpha).mul(q_r).add(g_r), "mu={mu}");
        }
    }
}

/// The symmetric witness by the quadratic method.
fn make_s_dense(
    g: &[Scalar],
    h: &[Scalar],
    u1: &[Scalar],
    u2_full: &[Scalar],
    b: usize,
    gamma: Scalar,
) -> Vec<Scalar> {
    let off = b - 1;
    let laurent = |coeffs: &[Scalar], pu: &[Scalar]| -> Vec<Scalar> {
        let mut c = vec![Scalar::zero(); 2 * b - 1];
        for (i, &ci) in coeffs.iter().enumerate().take(b) {
            for (j, &pj) in pu.iter().enumerate().take(b) {
                c[off + i - j] = c[off + i - j].add(ci.mul(pj));
            }
        }
        c
    };
    let c1 = laurent(g, &build_eq_vec(u1, b));
    let c2 = laurent(h, &build_eq_vec(u2_full, b));
    (1..b)
        .map(|k| c1[off + k].add(c1[off - k]).add(gamma.mul(c2[off + k].add(c2[off - k]))))
        .collect()
}

fn resized(v: &[Scalar], len: usize) -> Vec<Scalar> {
    let mut r = v.to_vec();
    r.resize(len, Scalar::zero());
    r
}

#[test]
fn identity_structured_s_matches_dense() {
    let mut rng = test_rng();
    for mu in [2usize, 4, 6, 8] {
        let (t, b, b_row, _n) = mercury_dims(mu).unwrap();
        let g = rvec(b, &mut rng);
        let h = resized(&rvec(b_row, &mut rng), b);
        let u1 = rvec(t, &mut rng);
        let u2_full = resized(&rvec(mu - t, &mut rng), t);
        let gamma = rs(&mut rng);
        let structured = make_s_polynomial_structured(&g, &h, &u1, &u2_full, t, gamma);
        let dense = make_s_dense(&g, &h, &u1, &u2_full, b, gamma);
        assert_eq!(structured, dense, "structured S != dense at mu={mu}");
    }
}

#[test]
fn identity_s_constant_coeff_is_ipa() {
    let mut rng = test_rng();
    let mu = 6;
    let (t, b, b_row, _n) = mercury_dims(mu).unwrap();
    let g = rvec(b, &mut rng);
    let h = resized(&rvec(b_row, &mut rng), b);
    let u1 = rvec(t, &mut rng);
    let u2_full = resized(&rvec(mu - t, &mut rng), t);
    let pu1 = build_eq_vec(&u1, b);
    let pu2 = build_eq_vec(&u2_full, b);
    let ip_g = inner_product(&g, &pu1);
    let ip_h = inner_product(&h, &pu2);
    let gamma = rs(&mut rng);
    let diagonal = |coeffs: &[Scalar], pu: &[Scalar]| -> Scalar {
        let mut acc = Scalar::zero();
        for (i, &ci) in coeffs.iter().enumerate().take(b) {
            for (j, &pj) in pu.iter().enumerate().take(b) {
                if i == j {
                    acc = acc.add(ci.mul(pj));
                }
            }
        }
        acc
    };
    let a0_half = diagonal(&g, &pu1).add(gamma.mul(diagonal(&h, &pu2)));
    assert_eq!(a0_half, ip_g.add(gamma.mul(ip_h)));
}

#[test]
fn reject_wrong_value() -> Result<(), PCSError> {
    let mut rng = test_rng();
    for nv in [4usize, 5] {
        let (ck, vk) = setup(nv);
        let p = rpoly(nv, &mut rng);
        let pt = rvec(nv, &mut rng);
        let com = MercuryPCS::commit(&ck, &p)?;
        let (proof, _val) = open(&ck, &p, &pt)?;
        let bad = rs(&mut rng);
        assert!(!verify(&vk, &com, &pt, &bad, &proof)?);
    }
    Ok(())
}

#[test]
fn reject_wrong_point() -> Result<(), PCSError> {
    let mut rng = test_rng();
    let nv = 5;
    let (ck, vk) = setup(nv);
    let p = rpoly(nv, &mut rng);
    let pt = rvec(nv, &mut rng);
    let com = MercuryPCS::commit(&ck, &p)?;
    let (proof, val) = open(&ck, &p, &pt)?;
    let other = rvec(nv, &mut rng);
    assert!(!verify(&vk, &com, &other, &val, &proof)?);
    Ok(())
}

#[test]
fn reject_wrong_commitment() -> Result<(), PCSError> {
    let mut rng = test_rng();
    let nv = 4;
    let (ck, vk) = setup(nv);
    let p1 = rpoly(nv, &mut rng);
    let p2 = rpoly(nv, &mut rng);
    let pt = rvec(nv, &mut rng);
    let com2 = MercuryPCS::commit(&ck, &p2)?;
    let (proof, val) = open(&ck, &p1, &pt)?;
    assert!(!verify(&vk, &com2, &pt, &val, &proof)?);
    Ok(())
}

fn tamper_g1(x: &G1) -> G1 {
    x.mul(&num(2))
}

/// A proof for four variables with its key, commitment, point and value.
fn opened() -> Result<(MercuryVerifierParam, G1, Vec<Scalar>, Scalar, MercuryProof), PCSError> {
    let mut rng = test_rng();
    let nv = 4;
    let (ck, vk) = setup(nv);
    let p = rpoly(nv, &mut rng);
    let pt = rvec(nv, &mut rng);
    let com = MercuryPCS::commit(&ck, &p)?;
    let (proof, val) = open(&ck, &p, &pt)?;
    assert!(verify(&vk, &com, &pt, &val, &proof)?);
    Ok((vk, com, pt, val, proof))
}

#[test]
fn reject_tampered_g1_fields() -> Result<(), PCSError> {
    let (vk, com, pt, val, proof) = opened()?;
    let mutators: Vec<(&str, fn(&mut MercuryProof))> = vec![
        ("comm_h", |pr| pr.comm_h = tamper_g1(&pr.comm_h)),
        ("comm_g", |pr| pr.comm_g = tamper_g1(&pr.comm_g)),
        ("comm_q", |pr| pr.comm_q = tamper_g1(&pr.comm_q)),
        ("comm_s", |pr| pr.comm_s = tamper_g1(&pr.comm_s)),
        ("comm_d", |pr| pr.comm_d = tamper_g1(&pr.comm_d)),
        ("comm_quot_f", |pr| pr.comm_quot_f = tamper_g1(&pr.comm_quot_f)),
        ("comm_w", |pr| pr.comm_w = tamper_g1(&pr.comm_w)),
        ("comm_w_prime", |pr| pr.comm_w_prime = tamper_g1(&pr.comm_w_prime)),
    ];
    for (name, mutate) in mutators {
        let mut bad = proof;
        mutate(&mut bad);
        let res = verify(&vk, &com, &pt, &val, &bad);
        assert!(rejected(res), "tampering {name} must be rejected");
    }
    Ok(())
}

#[test]
fn reject_tampered_scalar_fields() -> Result<(), PCSError> {
    let (vk, com, pt, val, proof) = opened()?;
    let mutators: Vec<(&str, fn(&mut MercuryProof))> = vec![
        ("g_zeta", |pr| pr.g_zeta = pr.g_zeta.add(Scalar::one())),
        ("g_zeta_inv", |pr| pr.g_zeta_inv = pr.g_zeta_inv.add(Scalar::one())),
        ("h_zeta", |pr| pr.h_zeta = pr.h_zeta.add(Scalar::one())),
        ("h_zeta_inv", |pr| pr.h_zeta_inv = pr.h_zeta_inv.add(Scalar::one())),
        ("s_zeta", |pr| pr.s_zeta = pr.s_zeta.add(Scalar::one())),
        ("s_zeta_inv", |pr| pr.s_zeta_inv = pr.s_zeta_inv.add(Scalar::one())),
    ];
    for (name, mutate) in mutators {
        let mut bad = proof;
        mutate(&mut bad);
        let res = verify(&vk, &com, &pt, &val, &bad);
        assert!(rejected(res), "tampering {name} must be rejected");
    }
    Ok(())
}

#[test]
fn reject_swapped_evaluations() -> Result<(), PCSError> {
    let (vk, com, pt, val, proof) = opened()?;
    let mut bad = proof;
    (bad.g_zeta, bad.g_zeta_inv) = (proof.g_zeta_inv, proof.g_zeta);
    assert!(rejected(verify(&vk, &com, &pt, &val, &bad)));
    let mut bad2 = proof;
    (bad2.h_zeta, bad2.h_zeta_inv) = (proof.h_zeta_inv, proof.h_zeta);
    assert!(rejected(verify(&vk, &com, &pt, &val, &bad2)));
    Ok(())
}

#[test]
fn malformed_mu_no_panic() -> Result<(), PCSError> {
    let nv = 4;
    let (vk, com, pt, val, proof) = opened()?;
    for bad_mu in [0usize, usize::BITS as usize, u32::MAX as usize, nv + 1, nv - 1] {
        let mut bad = proof;
        bad.mu = bad_mu;
        assert!(
            rejected(verify(&vk, &com, &pt, &val, &bad)),
            "malformed mu={bad_mu} must be rejected"
        );
    }
    Ok(())
}

#[test]
fn malformed_point_length_no_panic() -> Result<(), PCSError> {
    let mut rng = test_rng();
    let nv = 4;
    let (vk, com, _pt, val, proof) = opened()?;
    for bad_len in [0usize, nv - 1, nv + 1, nv + 5] {
        let bad_pt = rvec(bad_len, &mut rng);
        assert!(rejected(verify(&vk, &com, &bad_pt, &val, &proof)));
    }
    Ok(())
}

#[test]
fn verifier_key_capacity_insufficient() -> Result<(), PCSError> {
    let mut rng = test_rng();
    let (ck5, _vk5) = setup(5);
    let (_ck3, vk3) = setup(3);
    let p = rpoly(5, &mut rng);
    let pt = rvec(5, &mut rng);
    let com = MercuryPCS::commit(&ck5, &p)?;
    let (proof, val) = open(&ck5, &p, &pt)?;
    let res = verify(&vk3, &com, &pt, &val, &proof);
    assert!(res.is_err(), "insufficient vk capacity must Err");
    Ok(())
}

#[test]
fn prover_key_too_small() -> Result<(), PCSError> {
    let mut rng = test_rng();
    let (ck3, _vk3) = setup(3);
    let p = rpoly(5, &mut rng);
    let pt = rvec(5, &mut rng);
    assert!(MercuryPCS::commit(&ck3, &p).is_err());
    assert!(open(&ck3, &p, &pt).is_err());
    Ok(())
}

#[test]
fn transcript_statement_binding() -> Result<(), PCSError> {
    let (vk, com, pt, val, proof) = opened()?;
    let other_com = com.mul(&num(3));
    assert!(!verify(&vk, &other_com, &pt, &val, &proof)?);
    Ok(())
}

#[test]
fn proof_size_matches_field_count() -> Result<(), PCSError> {
    let (_vk, _com, _pt, _val, proof) = opened()?;
    let mut bytes = Vec::new();
    for p in [
        proof.comm_h,
        proof.comm_g,
        proof.comm_q,
        proof.comm_s,
        proof.comm_d,
        proof.comm_quot_f,
        proof.comm_w,
        proof.comm_w_prime,
    ] {
        ark_point(&p).serialize_compressed(&mut bytes).unwrap();
    }
    for v in [
        proof.g_zeta,
        proof.g_zeta_inv,
        proof.h_zeta,
        proof.h_zeta_inv,
        proof.s_zeta,
        proof.s_zeta_inv,
    ] {
        ark_scalar(&v).serialize_compressed(&mut bytes).unwrap();
    }
    proof.mu.serialize_compressed(&mut bytes).unwrap();
    let g1_sz = proof.comm_h.compressed_size();
    let fr_sz = proof.g_zeta.compressed_size();
    let mu_sz = proof.mu.compressed_size();
    let expected = 8 * g1_sz + 6 * fr_sz + mu_sz;
    assert_eq!(bytes.len(), expected, "proof payload must be exactly 8 G1 + 6 F (+mu)");
    Ok(())
}

#[test]
fn catch_unwind_random_proofs() -> Result<(), PCSError> {
    let mut rng = test_rng();
    let (vk, com, pt, val, proof) = opened()?;
    for _ in 0..32 {
        let mut bad = proof;
        bad.comm_h = tamper_g1(&bad.comm_h);
        bad.g_zeta = rs(&mut rng);
        bad.h_zeta_inv = rs(&mut rng);
        assert!(rejected(verify(&vk, &com, &pt, &val, &bad)));
    }
    Ok(())
}

/// Product of two polynomials by the definition.
fn product(a: &[Scalar], b: &[Scalar]) -> Vec<Scalar> {
    if a.is_empty() || b.is_empty() {
        return Vec::new();
    }
    let mut out = vec![Scalar::zero(); a.len() + b.len() - 1];
    for (i, &ai) in a.iter().enumerate() {
        for (j, &bj) in b.iter().enumerate() {
            out[i + j] = out[i + j].add(ai.mul(bj));
        }
    }
    out
}

fn poly_trim(v: &[Scalar]) -> Vec<Scalar> {
    let mut e = v.len();
    while e > 0 && v[e - 1].is_zero() {
        e -= 1;
    }
    v[..e].to_vec()
}

/// The polynomials of a batch opening with their values.
struct Batch {
    g: Vec<Scalar>,
    h: Vec<Scalar>,
    s: Vec<Scalar>,
    d: Vec<Scalar>,
    ev: BdfgEvals,
}

/// A batch with its challenges `beta` and `z`.
fn batch<R: Rng>(b: usize, rng: &mut R) -> (Batch, Scalar, Scalar) {
    let (zeta, alpha, beta, z) = (rs(rng), rs(rng), rs(rng), rs(rng));
    let zeta_inv = validate_zeta(zeta).unwrap();
    assert!(alpha != zeta && alpha != zeta_inv && !beta.is_zero());
    assert!(validate_zbdfg(z, zeta, zeta_inv, alpha).is_ok());
    let (g, h, s, d) = (rvec(b, rng), rvec(b, rng), rvec(b - 1, rng), rvec(b, rng));
    let ev = BdfgEvals {
        zeta,
        zeta_inv,
        alpha,
        g_zeta: poly_eval(&g, zeta),
        g_zeta_inv: poly_eval(&g, zeta_inv),
        h_zeta: poly_eval(&h, zeta),
        h_zeta_inv: poly_eval(&h, zeta_inv),
        h_alpha: poly_eval(&h, alpha),
        s_zeta: poly_eval(&s, zeta),
        s_zeta_inv: poly_eval(&s, zeta_inv),
        d_zeta: poly_eval(&d, zeta),
    };
    (Batch { g, h, s, d, ev }, beta, z)
}

impl Batch {
    /// The two rounds under given challenges.
    fn rounds(
        &self,
        beta: Scalar,
        z: Scalar,
    ) -> Result<(BdfgFirstRound, Vec<Scalar>, Vec<Scalar>), PCSError> {
        let e = &self.ev;
        let p1 = [e.zeta];
        let p2 = [e.zeta, e.zeta_inv];
        let p3 = [e.zeta, e.zeta_inv, e.alpha];
        let vg = [e.g_zeta, e.g_zeta_inv];
        let vh = [e.h_zeta, e.h_zeta_inv, e.h_alpha];
        let vs = [e.s_zeta, e.s_zeta_inv];
        let vd = [e.d_zeta];
        let claims = [
            BdfgClaim { poly: &self.g, points: &p2, values: &vg },
            BdfgClaim { poly: &self.h, points: &p3, values: &vh },
            BdfgClaim { poly: &self.s, points: &p2, values: &vs },
            BdfgClaim { poly: &self.d, points: &p1, values: &vd },
        ];
        let first = bdfg_first_round(&claims, beta)?;
        let second = bdfg_second_round(&claims, &first, beta, z)?;
        Ok((first, second.l, second.quot_l))
    }

    /// The proof that a verifier of the batch sees.
    fn sent(
        &self,
        ck: &MercuryProverParam,
        w: G1,
        w_prime: G1,
        mu: usize,
    ) -> Result<MercuryProof, PCSError> {
        Ok(MercuryProof {
            comm_h: ck.commit(&self.h)?,
            comm_g: ck.commit(&self.g)?,
            comm_q: G1::identity(),
            comm_s: ck.commit(&self.s)?,
            comm_d: ck.commit(&self.d)?,
            comm_quot_f: G1::identity(),
            comm_w: w,
            comm_w_prime: w_prime,
            g_zeta: self.ev.g_zeta,
            g_zeta_inv: self.ev.g_zeta_inv,
            h_zeta: self.ev.h_zeta,
            h_zeta_inv: self.ev.h_zeta_inv,
            s_zeta: self.ev.s_zeta,
            s_zeta_inv: self.ev.s_zeta_inv,
            mu,
        })
    }
}

#[test]
fn bdfg_coefficient_identities_and_commitments() -> Result<(), PCSError> {
    let mut rng = test_rng();
    for mu in [2usize, 3, 4, 5] {
        let (_t, b, _b_row, _n) = mercury_dims(mu).unwrap();
        let (ck, vk) = setup(mu);
        let (bt, beta, z) = batch(b, &mut rng);
        let (first, l, quot_l) = bt.rounds(beta, z)?;
        let one = Scalar::one();
        let pair = product(&[bt.ev.alpha.neg(), one], &[bt.ev.zeta.neg(), one]);
        let zt = product(&pair, &[bt.ev.zeta_inv.neg(), one]);
        assert_eq!(
            poly_trim(&first.m),
            poly_trim(&product(&zt, &first.quot_m)),
            "m != Z_T * W at mu={mu}"
        );
        assert_eq!(
            poly_trim(&l),
            poly_trim(&product(&[z.neg(), one], &quot_l)),
            "L != (X-z) W' at mu={mu}"
        );
        let comm_w = ck.commit(&first.quot_m)?;
        let comm_w_prime = ck.commit(&quot_l)?;

        let mut preview: IOPTranscript = IOPTranscript::new("mercury-bdfg-wrapper-test");
        preview.append_field_element("init", &Scalar::zero());
        let fs_beta = preview.get_and_append_challenge("bt");
        let (fs_first, _, _) = bt.rounds(fs_beta, z)?;
        let fs_comm_w = ck.commit(&fs_first.quot_m)?;
        preview.append_point("w", &fs_comm_w);
        let fs_z = preview.get_and_append_challenge("z");
        validate_zbdfg(fs_z, bt.ev.zeta, bt.ev.zeta_inv, bt.ev.alpha)?;
        let (_, _, fs_quot_l) = bt.rounds(fs_beta, fs_z)?;
        let fs_comm_w_prime = ck.commit(&fs_quot_l)?;
        let mut tr: IOPTranscript = IOPTranscript::new("mercury-bdfg-wrapper-test");
        tr.append_field_element("init", &Scalar::zero());
        let (prover_w, prover_w_prime, prover_beta, prover_z) =
            bdfg_prove(&ck, &bt.g, &bt.h, &bt.s, &bt.d, &bt.ev, &mut tr)?;
        assert_eq!((prover_beta, prover_z), (fs_beta, fs_z));
        assert_eq!(prover_w, fs_comm_w, "bdfg_prove W commitment mismatch at mu={mu}");
        assert_eq!(prover_w_prime, fs_comm_w_prime, "W' commitment mismatch at mu={mu}");

        let proof = bt.sent(&ck, comm_w, comm_w_prime, mu)?;
        let (lhs_1, lhs_2) = bdfg_verify_lhs_pure(&vk, &proof, &bt.ev, beta, z)?;
        assert_eq!(lhs_2, comm_w_prime, "lhs_2 != [W'(tau)]");
        let mut x_wprime = vec![Scalar::zero()];
        x_wprime.extend_from_slice(&quot_l);
        assert_eq!(
            lhs_1,
            ck.commit(&x_wprime)?,
            "lhs_1 != [tau W'(tau)] = commit(X * W')"
        );
    }
    Ok(())
}

#[test]
fn bdfg_reject_inconsistent_evals() -> Result<(), PCSError> {
    let mut rng = test_rng();
    let (_t, b, _b_row, _n) = mercury_dims(4).unwrap();
    let (mut bt, beta, z) = batch(b, &mut rng);
    assert!(bt.rounds(beta, z).is_ok());
    let good = bt.ev;
    bt.ev.g_zeta = good.g_zeta.add(Scalar::one());
    assert!(bt.rounds(beta, z).is_err(), "wrong g_zeta must break divisibility");
    bt.ev.g_zeta = good.g_zeta;
    bt.ev.h_alpha = good.h_alpha.add(Scalar::one());
    assert!(bt.rounds(beta, z).is_err(), "wrong h_alpha must break divisibility");
    Ok(())
}

#[test]
fn bdfg_verifier_reconstruction_rejects_wrong_challenge() -> Result<(), PCSError> {
    let mut rng = test_rng();
    let mu = 4;
    let (_t, b, _b_row, _n) = mercury_dims(mu).unwrap();
    let (ck, vk) = setup(mu);
    let (bt, beta, z) = batch(b, &mut rng);
    let (first, _, quot_l) = bt.rounds(beta, z)?;
    let proof = bt.sent(&ck, ck.commit(&first.quot_m)?, ck.commit(&quot_l)?, mu)?;
    let mut x_wprime = vec![Scalar::zero()];
    x_wprime.extend_from_slice(&quot_l);
    let target = ck.commit(&x_wprime)?;
    let (lhs_1_ok, _) = bdfg_verify_lhs_pure(&vk, &proof, &bt.ev, beta, z)?;
    assert_eq!(lhs_1_ok, target);
    let wrong_beta = beta.add(Scalar::one());
    let (lhs_1_bad, _) = bdfg_verify_lhs_pure(&vk, &proof, &bt.ev, wrong_beta, z)?;
    assert_ne!(lhs_1_bad, target, "wrong beta must break the reconstruction");
    let mut z2 = z.add(Scalar::one());
    while validate_zbdfg(z2, bt.ev.zeta, bt.ev.zeta_inv, bt.ev.alpha).is_err() {
        z2 = z2.add(Scalar::one());
    }
    let (lhs_1_bad_z, _) = bdfg_verify_lhs_pure(&vk, &proof, &bt.ev, beta, z2)?;
    assert_ne!(lhs_1_bad_z, target, "wrong z must break the reconstruction");
    Ok(())
}

#[test]
fn odd_nv_matrix_restriction_matches_evaluation() -> Result<(), PCSError> {
    let mut rng = test_rng();
    for mu in [3usize, 5, 7] {
        let (t, b, b_row, _n) = mercury_dims(mu).unwrap();
        assert_eq!(b_row, b / 2, "odd mu must give a b x (b/2) rectangle");
        let p = rpoly(mu, &mut rng);
        let pt = rvec(mu, &mut rng);
        let eq_col = build_eq_vec(&pt[..t], b);
        let eq_row = build_eq_vec(&pt[t..], b_row);
        let h = compute_h(&p.evaluations, &eq_col, b_row, b);
        let v_check = inner_product(&eq_row, &h[..b_row]);
        assert_eq!(v_check, p.evaluate(&pt).unwrap(), "restriction IPA at mu={mu}");
    }
    Ok(())
}

#[test]
fn odd_nv_fold_identity() {
    let mut rng = test_rng();
    for mu in [3usize, 5, 7] {
        let (_t, b, b_row, n) = mercury_dims(mu).unwrap();
        let coeffs = rvec(n, &mut rng);
        let alpha = rs(&mut rng);
        let (g, q) = divide_by_binomial(&coeffs, b, b_row, alpha);
        assert_eq!(g.len(), b);
        assert!(g.len() >= b_row, "g degree < b holds");
        for _ in 0..4 {
            let r = rs(&mut rng);
            let lhs = poly_eval(&coeffs, r);
            let factor = r.pow(b as u64).sub(alpha);
            let rhs = factor.mul(poly_eval(&q, r)).add(poly_eval(&g, r));
            assert_eq!(lhs, rhs, "fold identity at mu={mu}");
        }
    }
}

#[test]
fn odd_nv_structured_s_identity() {
    let mut rng = test_rng();
    for mu in [3usize, 5, 7] {
        let (t, b, b_row, _n) = mercury_dims(mu).unwrap();
        let g = rvec(b, &mut rng);
        let h = resized(&rvec(b_row, &mut rng), b);
        let u1 = rvec(t, &mut rng);
        let u2 = rvec(mu - t, &mut rng);
        let u2_full = resized(&u2, t);
        let gamma = rs(&mut rng);
        let s = make_s_polynomial_structured(&g, &h, &u1, &u2_full, t, gamma);
        let ip_g = inner_product(&g, &build_eq_vec(&u1, b));
        let ip_h = inner_product(&h[..b_row], &build_eq_vec(&u2, b_row));
        let z = rs(&mut rng);
        let z_inv = z.inverse().expect("nonzero z has an inverse");
        let pu1_z = pu_eval(&u1, z);
        let pu1_zi = pu_eval(&u1, z_inv);
        let pu2_z = pu_eval(&u2, z);
        let pu2_zi = pu_eval(&u2, z_inv);
        let left = poly_eval(&g, z).mul(pu1_zi).add(poly_eval(&g, z_inv).mul(pu1_z));
        let right = poly_eval(&h, z).mul(pu2_zi).add(poly_eval(&h, z_inv).mul(pu2_z));
        let lhs = left.add(gamma.mul(right));
        let ends = z.mul(poly_eval(&s, z)).add(z_inv.mul(poly_eval(&s, z_inv)));
        let rhs = ip_g.add(gamma.mul(ip_h)).double().add(ends);
        assert_eq!(lhs, rhs, "S symmetric-Laurent identity at mu={mu}");
    }
}

#[test]
fn odd_nv_rectangular_matches_zero_row_extension() {
    let mut rng = test_rng();
    for mu in [3usize, 5, 7] {
        let (t, b, b_row, n) = mercury_dims(mu).unwrap();
        assert_eq!(b_row, b / 2);
        assert_eq!(b * b, 2 * n, "square layout has b^2 = 2N for odd mu");
        let coeffs = rvec(n, &mut rng);
        let alpha = rs(&mut rng);
        let (g_rect, _q_rect) = divide_by_binomial(&coeffs, b, b_row, alpha);
        let padded = resized(&coeffs, 2 * n);
        let (g_sq, _q_sq) = divide_by_binomial(&padded, b, b, alpha);
        assert_eq!(g_rect, g_sq, "g rectangular != g padded-square at mu={mu}");
        let u1 = rvec(t, &mut rng);
        let eq_col = build_eq_vec(&u1, b);
        let h_rect = compute_h(&coeffs, &eq_col, b_row, b);
        let h_sq = compute_h(&padded, &eq_col, b, b);
        assert_eq!(h_rect, h_sq, "h rectangular != h padded-square at mu={mu}");
        let original = Mle::from_evaluations_vec(mu, coeffs);
        let extended = Mle::from_evaluations_vec(mu + 1, padded);
        let point = rvec(mu, &mut rng);
        let extended_point = resized(&point, mu + 1);
        assert_eq!(
            original.evaluate(&point),
            extended.evaluate(&extended_point),
            "zero-row extension changes the MLE value at mu={mu}"
        );
    }
}

#[test]
fn proof_serialization_roundtrip() -> Result<(), PCSError> {
    let mut rng = test_rng();
    let nv = 5;
    let (ck, _vk) = setup(nv);
    let p = rpoly(nv, &mut rng);
    let pt = rvec(nv, &mut rng);
    let (proof, _val) = open(&ck, &p, &pt)?;
    let mut bytes = Vec::new();
    for c in [
        proof.comm_h,
        proof.comm_g,
        proof.comm_q,
        proof.comm_s,
        proof.comm_d,
        proof.comm_quot_f,
        proof.comm_w,
        proof.comm_w_prime,
    ] {
        bytes.extend(c.to_bytes());
    }
    for v in [
        proof.g_zeta,
        proof.g_zeta_inv,
        proof.h_zeta,
        proof.h_zeta_inv,
        proof.s_zeta,
        proof.s_zeta_inv,
    ] {
        bytes.extend(v.to_bytes());
    }
    bytes.extend(proof.mu.to_le_bytes());
    assert_eq!(bytes.len(), 8 * 48 + 6 * 32 + 8);
    let point = |i: usize| G1::from_bytes(&bytes[48 * i..48 * (i + 1)]).unwrap();
    let tail = &bytes[48 * 8..];
    let value = |i: usize| Scalar::from_bytes_mod_order(&tail[32 * i..32 * (i + 1)]);
    let back = MercuryProof {
        comm_h: point(0),
        comm_g: point(1),
        comm_q: point(2),
        comm_s: point(3),
        comm_d: point(4),
        comm_quot_f: point(5),
        comm_w: point(6),
        comm_w_prime: point(7),
        g_zeta: value(0),
        g_zeta_inv: value(1),
        h_zeta: value(2),
        h_zeta_inv: value(3),
        s_zeta: value(4),
        s_zeta_inv: value(5),
        mu: usize::from_le_bytes(tail[32 * 6..].try_into().unwrap()),
    };
    assert_eq!(proof, back);
    Ok(())
}
