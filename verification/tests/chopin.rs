#![allow(dead_code, unused_imports)]

use ark_bls12_381::{Fq, Fr, G1Affine};
use ark_ff::{BigInt, PrimeField};
use ark_serialize::CanonicalSerialize;
use ark_std::rand::Rng;
use ark_std::{test_rng, UniformRand};
use mlpcs::bdfg::poly_eval;
use mlpcs::errors::PCSError;
use mlpcs::field::Scalar;
use mlpcs::group::{G1, G2};
use mlpcs::tensor::Mle;
use mlpcs::transcript::IOPTranscript;
use mlpcs::bdfg::{
    bdfg_first_round, bdfg_second_round, bdfg_verifier_combination, mul_by_linear, poly_mul,
    vanishing_poly, BdfgClaim,
};
use mlpcs::chopin::srs::{split_exponents, ChopinProverParam, ChopinVerifierParam};
use mlpcs::chopin::{
    compute_restriction, divide_x_at_alpha, divide_y_at_beta, draw_beta, evaluate_bivariate,
    symmetric_lagrange_witness, ChopinMsmLengths, ChopinPCS, ChopinProof,
};
use mlpcs::group::pairing_check;
use mlpcs::tensor::{build_eq_vec, eval_tensor, inner_product};
use mlpcs::transcript::draw_nonzero;

fn rs<R: Rng>(rng: &mut R) -> Scalar {
    Scalar::from_limbs(Fr::rand(rng).into_bigint().0).unwrap()
}

fn rvec<R: Rng>(n: usize, rng: &mut R) -> Vec<Scalar> {
    (0..n).map(|_| rs(rng)).collect()
}

fn rg1<R: Rng>(rng: &mut R) -> G1 {
    G1::generator().mul(&rs(rng))
}

fn rg2<R: Rng>(rng: &mut R) -> G2 {
    G2::generator().mul(&rs(rng))
}

fn rpoly<R: Rng>(nv: usize, rng: &mut R) -> Mle {
    Mle::from_evaluations_vec(nv, rvec(1 << nv, rng))
}

fn num(n: u64) -> Scalar {
    Scalar::from_u64(n)
}

fn ark_scalar(v: &Scalar) -> Fr {
    Fr::from_bigint(BigInt(v.limbs())).unwrap()
}

fn ark_point(p: &G1) -> G1Affine {
    match p.coordinates() {
        None => G1Affine::identity(),
        Some((x, y)) => G1Affine::new(
            Fq::from_bigint(BigInt(x)).unwrap(),
            Fq::from_bigint(BigInt(y)).unwrap(),
        ),
    }
}

/// Value of the multilinear extension of a table, straight from its
/// definition.
fn direct_value(table: &[Scalar], point: &[Scalar]) -> Scalar {
    let mut sum = Scalar::zero();
    for i in 0..1usize << point.len() {
        let mut term = table[i];
        for (k, &u) in point.iter().enumerate() {
            term = term.mul(if (i >> k) & 1 == 1 {
                u
            } else {
                Scalar::one().sub(u)
            });
        }
        sum = sum.add(term);
    }
    sum
}

fn setup(nv: usize) -> (ChopinProverParam, ChopinVerifierParam) {
    let mut rng = test_rng();
    let srs = ChopinPCS::gen_srs_for_testing(
        rs(&mut rng),
        rs(&mut rng),
        rg1(&mut rng),
        rg2(&mut rng),
        nv,
    )
    .unwrap();
    ChopinPCS::trim(&srs, Some(nv)).unwrap()
}

fn open(ck: &ChopinProverParam, p: &Mle, pt: &[Scalar]) -> Result<(ChopinProof, Scalar), PCSError> {
    ChopinPCS::open(ck, p, pt)
}

fn verify(
    vk: &ChopinVerifierParam,
    com: &G1,
    pt: &[Scalar],
    val: &Scalar,
    proof: &ChopinProof,
) -> Result<bool, PCSError> {
    ChopinPCS::verify(vk, com, pt, val, proof)
}

fn rejected(r: Result<bool, PCSError>) -> bool {
    matches!(r, Ok(false)) || r.is_err()
}

/// A table of `2^mu` values with its numbers of rows and columns.
fn table<R: Rng>(mu: usize, rng: &mut R) -> (Vec<Scalar>, usize, usize) {
    let (m_left, m_right) = split_exponents(mu);
    (rvec(1 << mu, rng), 1usize << m_left, 1usize << m_right)
}

/// A challenge other than `0`, `1`, `-1`, `alpha` and `1 / alpha`, with its
/// inverse.
fn usable_beta<R: Rng>(alpha: Scalar, rng: &mut R) -> (Scalar, Scalar) {
    loop {
        let b = rs(rng);
        if !b.is_zero() && b.square() != Scalar::one() && b != alpha {
            let bi = b.inverse().unwrap();
            if bi != alpha {
                return (b, bi);
            }
        }
    }
}

#[test]
fn open_verify_even() -> Result<(), PCSError> {
    let mut rng = test_rng();
    for nv in [4usize, 6, 8] {
        let (ck, vk) = setup(nv);
        let p = rpoly(nv, &mut rng);
        let pt = rvec(nv, &mut rng);
        let com = ChopinPCS::commit(&ck, &p)?;
        let (proof, val) = open(&ck, &p, &pt)?;
        assert_eq!(proof.mu as usize, nv);
        assert!(verify(&vk, &com, &pt, &val, &proof)?, "open/verify failed at nv={nv}");
    }
    Ok(())
}

#[test]
fn open_verify_odd() -> Result<(), PCSError> {
    let mut rng = test_rng();
    for nv in [3usize, 5, 7] {
        let (ck, vk) = setup(nv);
        let p = rpoly(nv, &mut rng);
        let pt = rvec(nv, &mut rng);
        let com = ChopinPCS::commit(&ck, &p)?;
        let (proof, val) = open(&ck, &p, &pt)?;
        assert_eq!(proof.mu as usize, nv);
        assert!(verify(&vk, &com, &pt, &val, &proof)?, "open/verify failed at odd nv={nv}");
    }
    Ok(())
}

#[test]
fn tests_open_verify_minimum_nv() -> Result<(), PCSError> {
    let mut rng = test_rng();
    let nv = 2;
    let (ck, vk) = setup(nv);
    let p = rpoly(nv, &mut rng);
    let pt = rvec(nv, &mut rng);
    let com = ChopinPCS::commit(&ck, &p)?;
    let (proof, val) = open(&ck, &p, &pt)?;
    assert!(verify(&vk, &com, &pt, &val, &proof)?);
    Ok(())
}

#[test]
fn tests_open_verify_random_property() -> Result<(), PCSError> {
    let mut rng = test_rng();
    for nv in [4usize, 5, 6] {
        let (ck, vk) = setup(nv);
        for _ in 0..8 {
            let p = rpoly(nv, &mut rng);
            let pt = rvec(nv, &mut rng);
            let com = ChopinPCS::commit(&ck, &p)?;
            let (proof, val) = open(&ck, &p, &pt)?;
            assert_eq!(val, p.evaluate(&pt).unwrap());
            assert_eq!(val, direct_value(&p.evaluations, &pt));
            assert!(verify(&vk, &com, &pt, &val, &proof)?);
        }
    }
    Ok(())
}

#[test]
fn tests_open_with_commitment_matches_trait_open() -> Result<(), PCSError> {
    let mut rng = test_rng();
    for nv in [4usize, 5] {
        let (ck, vk) = setup(nv);
        let p = rpoly(nv, &mut rng);
        let pt = rvec(nv, &mut rng);
        let com = ChopinPCS::commit(&ck, &p)?;
        let (proof, val) = ChopinPCS::open_with_commitment(&ck, &p, &pt, &com)?;
        assert!(verify(&vk, &com, &pt, &val, &proof)?);
        let (proof2, val2) = open(&ck, &p, &pt)?;
        assert_eq!(val, val2);
        assert_eq!(proof, proof2);
    }
    Ok(())
}

#[test]
fn identity_divide_x_at_alpha() {
    let mut rng = test_rng();
    for mu in [2usize, 3, 4, 5] {
        let (evals, big_ml, big_mr) = table(mu, &mut rng);
        let alpha = rs(&mut rng);
        let (q1, f_alpha) = divide_x_at_alpha(&evals, big_ml, big_mr, alpha);
        assert_eq!(q1.len(), (big_ml - 1) * big_mr);
        assert_eq!(f_alpha.len(), big_mr);
        for _ in 0..4 {
            let beta = rs(&mut rng);
            let direct = evaluate_bivariate(&evals, big_ml, big_mr, alpha, beta);
            let fa_beta = poly_eval(&f_alpha, beta);
            assert_eq!(direct, fa_beta, "f(a,b) != f_alpha(b) at mu={mu}");
            let mut sum = Scalar::zero();
            for j in 0..big_mr {
                for i in 0..big_ml {
                    let term = evals[i + big_ml * j].mul(alpha.pow(i as u64));
                    sum = sum.add(term.mul(beta.pow(j as u64)));
                }
            }
            assert_eq!(direct, sum);
        }
    }
}

#[test]
fn identity_restriction_eta() {
    let mut rng = test_rng();
    for mu in [2usize, 3, 4, 5] {
        let (m_left, m_right) = split_exponents(mu);
        let (evals, big_ml, big_mr) = table(mu, &mut rng);
        let z_l = rvec(m_left, &mut rng);
        let z_r = rvec(m_right, &mut rng);
        let psi_l = build_eq_vec(&z_l, big_ml);
        let psi_r = build_eq_vec(&z_r, big_mr);
        let f_zr = compute_restriction(&evals, &psi_r, big_ml, big_mr);
        let eta = inner_product(&f_zr, &psi_l);
        let mut direct = Scalar::zero();
        for j in 0..big_mr {
            for i in 0..big_ml {
                direct = direct.add(evals[i + big_ml * j].mul(psi_l[i]).mul(psi_r[j]));
            }
        }
        assert_eq!(eta, direct, "restriction eta mismatch at mu={mu}");
    }
}

#[test]
fn identity_row_fold_a() {
    let mut rng = test_rng();
    for mu in [2usize, 3, 4, 5] {
        let (_, m_right) = split_exponents(mu);
        let (evals, big_ml, big_mr) = table(mu, &mut rng);
        let z_r = rvec(m_right, &mut rng);
        let psi_r = build_eq_vec(&z_r, big_mr);
        let f_zr = compute_restriction(&evals, &psi_r, big_ml, big_mr);
        let alpha = rs(&mut rng);
        let a = poly_eval(&f_zr, alpha);
        let (_q1, f_alpha) = divide_x_at_alpha(&evals, big_ml, big_mr, alpha);
        let ip_a = inner_product(&f_alpha, &psi_r);
        assert_eq!(a, ip_a, "row-fold identity a mismatch at mu={mu}");
    }
}

#[test]
fn identity_coefficient_f_minus_b1() {
    let mut rng = test_rng();
    for mu in [2usize, 3, 4, 5] {
        let (evals, big_ml, big_mr) = table(mu, &mut rng);
        let alpha = rs(&mut rng);
        let (q1, f_alpha) = divide_x_at_alpha(&evals, big_ml, big_mr, alpha);
        let beta = rs(&mut rng);
        let (q2, b1) = divide_y_at_beta(&f_alpha, beta).unwrap();
        assert_eq!(poly_eval(&f_alpha, beta), b1);
        assert_eq!(
            evaluate_bivariate(&evals, big_ml, big_mr, alpha, beta),
            b1,
            "bivariate eval at (a, b) != b1"
        );
        let mut back = mul_by_linear(&q2, beta);
        back[0] = back[0].add(b1);
        assert_eq!(back, f_alpha);
        let column = mul_by_linear(&q1[..big_ml - 1], alpha);
        assert_eq!(column[1..], evals[1..big_ml]);
        assert_eq!(column[0].add(f_alpha[0]), evals[0]);
    }
}

/// The witness by the quadratic method.
fn dense_lagrange_witness(coeffs: &[Scalar], u: &[Scalar], m: usize) -> Vec<Scalar> {
    let big_m = 1usize << m;
    let psi = build_eq_vec(u, big_m);
    let off = big_m - 1;
    let mut buf = vec![Scalar::zero(); 2 * big_m - 1];
    for (i, &c) in coeffs.iter().enumerate() {
        for (j, &p) in psi.iter().enumerate() {
            buf[off + i - j] = buf[off + i - j].add(c.mul(p));
        }
    }
    (0..big_m - 1).map(|i| buf[off + (i + 1)].add(buf[off - (i + 1)])).collect()
}

#[test]
fn tests_identity_structured_s_matches_dense() {
    let mut rng = test_rng();
    for m in 1..=6 {
        let coeffs = rvec(1 << m, &mut rng);
        let u = rvec(m, &mut rng);
        let s = symmetric_lagrange_witness(&coeffs, &u, m);
        let d = dense_lagrange_witness(&coeffs, &u, m);
        assert_eq!(s, d, "S mismatch at m={m}");
    }
}

#[test]
fn identity_ipa_at_beta() {
    let mut rng = test_rng();
    for mu in [3usize, 4, 5, 6] {
        let (m_left, m_right) = split_exponents(mu);
        let (evals, big_ml, big_mr) = table(mu, &mut rng);
        let z_l = rvec(m_left, &mut rng);
        let z_r = rvec(m_right, &mut rng);
        let psi_r = build_eq_vec(&z_r, big_mr);
        let f_zr = compute_restriction(&evals, &psi_r, big_ml, big_mr);
        let alpha = rs(&mut rng);
        let (_q1, f_alpha) = divide_x_at_alpha(&evals, big_ml, big_mr, alpha);
        let a = poly_eval(&f_zr, alpha);
        let eta = inner_product(&f_zr, &build_eq_vec(&z_l, big_ml));
        let gamma = rs(&mut rng);
        let s0 = symmetric_lagrange_witness(&f_zr, &z_l, m_left);
        let s1 = symmetric_lagrange_witness(&f_alpha, &z_r, m_right);
        let mut s = s0.clone();
        for (i, &c) in s1.iter().enumerate() {
            s[i] = s[i].add(gamma.mul(c));
        }
        let (beta, beta_inv) = usable_beta(alpha, &mut rng);
        let a1 = poly_eval(&f_zr, beta);
        let a2 = poly_eval(&f_zr, beta_inv);
        let b1 = poly_eval(&f_alpha, beta);
        let b2 = poly_eval(&f_alpha, beta_inv);
        let s1_val = poly_eval(&s, beta);
        let s2_val = poly_eval(&s, beta_inv);
        let psi_l_b = eval_tensor(&z_l, beta);
        let psi_l_bi = eval_tensor(&z_l, beta_inv);
        let psi_r_b = eval_tensor(&z_r, beta);
        let psi_r_bi = eval_tensor(&z_r, beta_inv);
        let first = a1.mul(psi_l_bi).add(a2.mul(psi_l_b));
        let second = b1.mul(psi_r_bi).add(b2.mul(psi_r_b));
        let lhs = first.add(gamma.mul(second));
        let rhs =
            eta.add(gamma.mul(a)).double().add(beta.mul(s1_val)).add(beta_inv.mul(s2_val));
        assert_eq!(lhs, rhs, "IPA identity failed at mu={mu}");
    }
}

#[test]
fn test_bivariate_verifier_via_srs() -> Result<(), PCSError> {
    let mut rng = test_rng();
    let nv = 5;
    let srs = ChopinPCS::gen_srs_for_testing(
        rs(&mut rng),
        rs(&mut rng),
        rg1(&mut rng),
        rg2(&mut rng),
        nv,
    )?;
    let (pp, _vp) = ChopinPCS::trim(&srs, Some(nv))?;
    let evals = rvec(1 << nv, &mut rng);
    let big_ml = pp.big_ml();
    let big_mr = pp.big_mr();
    let alpha = rs(&mut rng);
    let beta = rs(&mut rng);
    let (q1, f_alpha) = divide_x_at_alpha(&evals, big_ml, big_mr, alpha);
    let (q2, b1) = divide_y_at_beta(&f_alpha, beta).unwrap();
    let cf = pp.msm_full_reordered(&evals)?;
    let pi_x = pp.msm_q1_prefix(&q1)?;
    let pi_y = pp.msm_sigma_slice(&q2)?;
    let tau_minus_alpha = srs.g2_tau.add(&srs.g2_one.mul(&alpha.neg()));
    let sigma_minus_beta = srs.g2_sigma.add(&srs.g2_one.mul(&beta.neg()));
    let cf_minus_b1 = cf.add(&pp.g1_powers[0].mul(&b1.neg()));
    let right = [srs.g2_one, tau_minus_alpha, sigma_minus_beta];
    assert!(
        pairing_check(&[cf_minus_b1, pi_x.neg(), pi_y.neg()], &right),
        "bivariate verifier equation failed"
    );
    assert!(!pairing_check(&[cf, pi_x.neg(), pi_y.neg()], &right));
    Ok(())
}

fn poly_trim(v: &[Scalar]) -> Vec<Scalar> {
    let mut e = v.len();
    while e > 0 && v[e - 1].is_zero() {
        e -= 1;
    }
    v[..e].to_vec()
}

#[test]
fn chopin_msm_lengths_match_bdfg_quotients() -> Result<(), PCSError> {
    let mut rng = test_rng();
    for nv in 2..=8usize {
        let (m_left, m_right) = split_exponents(nv);
        let (evals, big_ml, big_mr) = table(nv, &mut rng);
        let z_l = rvec(m_left, &mut rng);
        let z_r = rvec(m_right, &mut rng);
        let psi_r = build_eq_vec(&z_r, big_mr);
        let f_zr = compute_restriction(&evals, &psi_r, big_ml, big_mr);
        let alpha = rs(&mut rng);
        let (_q1, f_alpha) = divide_x_at_alpha(&evals, big_ml, big_mr, alpha);
        let a = poly_eval(&f_zr, alpha);
        let (beta, beta_inv) = usable_beta(alpha, &mut rng);
        let a1 = poly_eval(&f_zr, beta);
        let a2 = poly_eval(&f_zr, beta_inv);
        let b1 = poly_eval(&f_alpha, beta);
        let b2 = poly_eval(&f_alpha, beta_inv);
        let s = symmetric_lagrange_witness(&f_zr, &z_l, m_left);
        let s1_val = poly_eval(&s, beta);
        let s2_val = poly_eval(&s, beta_inv);
        let rho = rs(&mut rng);
        let three = [alpha, beta, beta_inv];
        let two = [beta, beta_inv];
        let values = ([a, a1, a2], [b1, b2], [s1_val, s2_val]);
        let claims = [
            BdfgClaim { poly: &f_zr, points: &three, values: &values.0 },
            BdfgClaim { poly: &f_alpha, points: &two, values: &values.1 },
            BdfgClaim { poly: &s, points: &two, values: &values.2 },
        ];
        let first = bdfg_first_round(&claims, rho)?;
        let actual_w_len = first.quot_m.len();
        let z = loop {
            let z_val = rs(&mut rng);
            if !first.union.iter().any(|u| *u == z_val) {
                break z_val;
            }
        };
        let second = bdfg_second_round(&claims, &first, rho, z)?;
        let actual_wp_len = second.quot_l.len();
        let model = ChopinMsmLengths::for_num_vars(nv)?;
        assert_eq!(
            actual_w_len, model.w_len,
            "W length mismatch at nv={nv}: actual={actual_w_len} model={}",
            model.w_len
        );
        assert_eq!(
            actual_wp_len, model.wp_len,
            "W' length mismatch at nv={nv}: actual={actual_wp_len} model={}",
            model.wp_len
        );
    }
    Ok(())
}

#[test]
fn chopin_msm_lengths_rejects_invalid_mu() {
    assert!(ChopinMsmLengths::for_num_vars(0).is_err());
    assert!(ChopinMsmLengths::for_num_vars(1).is_err());
    assert!(ChopinMsmLengths::for_num_vars(usize::BITS as usize).is_err());
}

#[test]
fn chopin_msm_lengths_no_panic() {
    for mu in [0usize, 1, usize::MAX, usize::BITS as usize] {
        assert!(ChopinMsmLengths::for_num_vars(mu).is_err());
    }
}

#[test]
fn chopin_msm_lengths_values() {
    let m = ChopinMsmLengths::for_num_vars(5).unwrap();
    assert_eq!((m.commit_len, m.f_zr_len, m.f_alpha_len, m.s_len), (32, 8, 4, 7));
    assert_eq!((m.q1_len, m.q2_len, m.w_len, m.wp_len), (28, 3, 5, 7));
}

#[test]
fn bdfg_coefficient_identities() -> Result<(), PCSError> {
    let mut rng = test_rng();
    for mu in [2usize, 3, 4, 5] {
        let (m_left, m_right) = split_exponents(mu);
        let (ck, vk) = setup(mu);
        let f_zr = rvec(1 << m_left, &mut rng);
        let f_alpha = rvec(1 << m_right, &mut rng);
        let s = rvec((1 << m_left) - 1, &mut rng);
        let alpha = rs(&mut rng);
        assert!(!alpha.is_zero());
        let (beta, beta_inv) = usable_beta(alpha, &mut rng);
        let a = poly_eval(&f_zr, alpha);
        let a1 = poly_eval(&f_zr, beta);
        let a2 = poly_eval(&f_zr, beta_inv);
        let b1 = poly_eval(&f_alpha, beta);
        let b2 = poly_eval(&f_alpha, beta_inv);
        let s1_val = poly_eval(&s, beta);
        let s2_val = poly_eval(&s, beta_inv);
        let rho = rs(&mut rng);
        let three = [alpha, beta, beta_inv];
        let two = [beta, beta_inv];
        let values = ([a, a1, a2], [b1, b2], [s1_val, s2_val]);
        let claims = [
            BdfgClaim { poly: &f_zr, points: &three, values: &values.0 },
            BdfgClaim { poly: &f_alpha, points: &two, values: &values.1 },
            BdfgClaim { poly: &s, points: &two, values: &values.2 },
        ];
        let first = bdfg_first_round(&claims, rho)?;
        let z_t = vanishing_poly(&first.union);
        assert_eq!(
            poly_trim(&first.m),
            poly_trim(&poly_mul(&z_t, &first.quot_m)),
            "m != Z_T * W at mu={mu}"
        );
        let batch_w = ck.msm_tau_slice(&first.quot_m)?;
        let mut z = rs(&mut rng);
        while first.union.iter().any(|u| *u == z) {
            z = rs(&mut rng);
        }
        let second = bdfg_second_round(&claims, &first, rho, z)?;
        assert_eq!(
            poly_trim(&second.l),
            poly_trim(&mul_by_linear(&second.quot_l, z)),
            "L != (X-z) W' at mu={mu}"
        );
        let batch_w_prime = ck.msm_tau_slice(&second.quot_l)?;
        let comb = bdfg_verifier_combination(
            &[&three, &two, &two],
            &[&values.0, &values.1, &values.2],
            rho,
            z,
        )?;
        let bases = [
            ck.msm_tau_slice(&f_zr)?,
            ck.msm_tau_slice(&f_alpha)?,
            ck.msm_tau_slice(&s)?,
            ck.g1_powers[0],
            batch_w,
            batch_w_prime,
        ];
        let scalars = [
            comb.commit_scalars[0],
            comb.commit_scalars[1],
            comb.commit_scalars[2],
            comb.const_scalar.neg(),
            comb.z_t_z.neg(),
            z,
        ];
        let lhs = G1::msm(&bases, &scalars);
        assert!(pairing_check(&[lhs, batch_w_prime.neg()], &[vk.g2_one, vk.g2_tau]));
    }
    Ok(())
}

/// The proof's bytes: its points and scalars in compressed form, then `mu`.
fn proof_bytes(proof: &ChopinProof) -> Vec<u8> {
    let mut bytes = Vec::new();
    for p in [
        proof.comm_f_zr,
        proof.comm_f_alpha,
        proof.comm_s,
        proof.pi_biv_x,
        proof.pi_biv_y,
        proof.batch_w,
        proof.batch_w_prime,
    ] {
        ark_point(&p).serialize_compressed(&mut bytes).unwrap();
    }
    for v in [proof.a, proof.a1, proof.a2, proof.b1, proof.b2, proof.s1, proof.s2] {
        ark_scalar(&v).serialize_compressed(&mut bytes).unwrap();
    }
    proof.mu.serialize_compressed(&mut bytes).unwrap();
    bytes
}

#[test]
fn proof_size_cryptographic_payload() -> Result<(), PCSError> {
    let mut rng = test_rng();
    let nv = 6;
    let (ck, _vk) = setup(nv);
    let p = rpoly(nv, &mut rng);
    let pt = rvec(nv, &mut rng);
    let (proof, _val) = open(&ck, &p, &pt)?;
    assert_eq!(
        proof.cryptographic_payload_bytes(),
        560,
        "cryptographic payload must be 560 bytes"
    );
    assert_eq!(proof_bytes(&proof).len(), 564, "serialized proof must be 564 bytes");
    Ok(())
}

#[test]
fn proof_size_constant_across_nv() -> Result<(), PCSError> {
    let mut rng = test_rng();
    for nv in [6usize, 7] {
        let (ck, _vk) = setup(nv);
        let p = rpoly(nv, &mut rng);
        let pt = rvec(nv, &mut rng);
        let (proof, _val) = open(&ck, &p, &pt)?;
        assert_eq!(proof_bytes(&proof).len(), 564, "proof size must be constant 564 at nv={nv}");
    }
    Ok(())
}

#[test]
fn srs_shape_n_g1_3_g2() -> Result<(), PCSError> {
    let mut rng = test_rng();
    for nv in [2usize, 3, 5, 8] {
        let srs = ChopinPCS::gen_srs_for_testing(
            rs(&mut rng),
            rs(&mut rng),
            rg1(&mut rng),
            rg2(&mut rng),
            nv,
        )?;
        assert_eq!(srs.g1_powers.len(), 1usize << nv);
    }
    Ok(())
}

#[test]
fn srs_rejects_small_nv() {
    let mut rng = test_rng();
    let (t, s) = (rs(&mut rng), rs(&mut rng));
    let (g, h) = (rg1(&mut rng), rg2(&mut rng));
    assert!(ChopinPCS::gen_srs_for_testing(t, s, g, h, 0).is_err());
    assert!(ChopinPCS::gen_srs_for_testing(t, s, g, h, 1).is_err());
}

#[test]
fn chopin_trim_needs_a_supported_size() {
    let mut rng = test_rng();
    let (t, s) = (rs(&mut rng), rs(&mut rng));
    let srs = ChopinPCS::gen_srs_for_testing(t, s, rg1(&mut rng), rg2(&mut rng), 4).unwrap();
    assert!(matches!(ChopinPCS::trim(&srs, None), Err(PCSError::InvalidParameters(_))));
    assert!(matches!(ChopinPCS::trim(&srs, Some(5)), Err(PCSError::InvalidParameters(_))));
    assert!(matches!(ChopinPCS::trim(&srs, Some(1)), Err(PCSError::InvalidParameters(_))));
    assert!(ChopinPCS::trim(&srs, Some(3)).is_ok());
}

#[test]
fn tests_reject_wrong_value() -> Result<(), PCSError> {
    let mut rng = test_rng();
    for nv in [4usize, 5] {
        let (ck, vk) = setup(nv);
        let p = rpoly(nv, &mut rng);
        let pt = rvec(nv, &mut rng);
        let com = ChopinPCS::commit(&ck, &p)?;
        let (proof, _val) = open(&ck, &p, &pt)?;
        let bad = rs(&mut rng);
        assert!(!verify(&vk, &com, &pt, &bad, &proof)?);
    }
    Ok(())
}

#[test]
fn tests_reject_wrong_point() -> Result<(), PCSError> {
    let mut rng = test_rng();
    let nv = 5;
    let (ck, vk) = setup(nv);
    let p = rpoly(nv, &mut rng);
    let pt = rvec(nv, &mut rng);
    let com = ChopinPCS::commit(&ck, &p)?;
    let (proof, val) = open(&ck, &p, &pt)?;
    let other = rvec(nv, &mut rng);
    assert!(!verify(&vk, &com, &other, &val, &proof)?);
    Ok(())
}

#[test]
fn tests_reject_wrong_commitment() -> Result<(), PCSError> {
    let mut rng = test_rng();
    let nv = 4;
    let (ck, vk) = setup(nv);
    let p1 = rpoly(nv, &mut rng);
    let p2 = rpoly(nv, &mut rng);
    let pt = rvec(nv, &mut rng);
    let com2 = ChopinPCS::commit(&ck, &p2)?;
    let (proof, val) = open(&ck, &p1, &pt)?;
    assert!(!verify(&vk, &com2, &pt, &val, &proof)?);
    Ok(())
}

fn tamper_g1(x: &G1) -> G1 {
    x.mul(&num(2))
}

#[test]
fn tests_reject_tampered_g1_fields() -> Result<(), PCSError> {
    let mut rng = test_rng();
    let nv = 4;
    let (ck, vk) = setup(nv);
    let p = rpoly(nv, &mut rng);
    let pt = rvec(nv, &mut rng);
    let com = ChopinPCS::commit(&ck, &p)?;
    let (proof, val) = open(&ck, &p, &pt)?;
    let mutators: Vec<(&str, fn(&mut ChopinProof))> = vec![
        ("comm_f_zr", |pr| pr.comm_f_zr = tamper_g1(&pr.comm_f_zr)),
        ("comm_f_alpha", |pr| pr.comm_f_alpha = tamper_g1(&pr.comm_f_alpha)),
        ("comm_s", |pr| pr.comm_s = tamper_g1(&pr.comm_s)),
        ("pi_biv_x", |pr| pr.pi_biv_x = tamper_g1(&pr.pi_biv_x)),
        ("pi_biv_y", |pr| pr.pi_biv_y = tamper_g1(&pr.pi_biv_y)),
        ("batch_w", |pr| pr.batch_w = tamper_g1(&pr.batch_w)),
        ("batch_w_prime", |pr| pr.batch_w_prime = tamper_g1(&pr.batch_w_prime)),
    ];
    for (name, mutate) in mutators {
        let mut bad = proof;
        mutate(&mut bad);
        let res = verify(&vk, &com, &pt, &val, &bad);
        assert!(rejected(res), "tampering {name} must be rejected");
    }
    Ok(())
}

#[test]
fn tests_reject_tampered_scalar_fields() -> Result<(), PCSError> {
    let mut rng = test_rng();
    let nv = 4;
    let (ck, vk) = setup(nv);
    let p = rpoly(nv, &mut rng);
    let pt = rvec(nv, &mut rng);
    let com = ChopinPCS::commit(&ck, &p)?;
    let (proof, val) = open(&ck, &p, &pt)?;
    let mutators: Vec<(&str, fn(&mut ChopinProof))> = vec![
        ("a", |pr| pr.a = pr.a.add(Scalar::one())),
        ("a1", |pr| pr.a1 = pr.a1.add(Scalar::one())),
        ("a2", |pr| pr.a2 = pr.a2.add(Scalar::one())),
        ("b1", |pr| pr.b1 = pr.b1.add(Scalar::one())),
        ("b2", |pr| pr.b2 = pr.b2.add(Scalar::one())),
        ("s1", |pr| pr.s1 = pr.s1.add(Scalar::one())),
        ("s2", |pr| pr.s2 = pr.s2.add(Scalar::one())),
    ];
    for (name, mutate) in mutators {
        let mut bad = proof;
        mutate(&mut bad);
        let res = verify(&vk, &com, &pt, &val, &bad);
        assert!(rejected(res), "tampering {name} must be rejected");
    }
    Ok(())
}

#[test]
fn tests_reject_swapped_evaluations() -> Result<(), PCSError> {
    let mut rng = test_rng();
    let nv = 4;
    let (ck, vk) = setup(nv);
    let p = rpoly(nv, &mut rng);
    let pt = rvec(nv, &mut rng);
    let com = ChopinPCS::commit(&ck, &p)?;
    let (proof, val) = open(&ck, &p, &pt)?;
    let mut bad = proof;
    (bad.a1, bad.a2) = (proof.a2, proof.a1);
    assert!(rejected(verify(&vk, &com, &pt, &val, &bad)));
    let mut bad2 = proof;
    (bad2.b1, bad2.b2) = (proof.b2, proof.b1);
    assert!(rejected(verify(&vk, &com, &pt, &val, &bad2)));
    Ok(())
}

#[test]
fn tests_malformed_mu_no_panic() -> Result<(), PCSError> {
    let mut rng = test_rng();
    let nv = 4;
    let (ck, vk) = setup(nv);
    let p = rpoly(nv, &mut rng);
    let pt = rvec(nv, &mut rng);
    let com = ChopinPCS::commit(&ck, &p)?;
    let (proof, val) = open(&ck, &p, &pt)?;
    for bad_mu in [0u32, 1, u32::MAX, (nv + 1) as u32] {
        let mut bad = proof;
        bad.mu = bad_mu;
        assert!(rejected(verify(&vk, &com, &pt, &val, &bad)), "mu={bad_mu}");
    }
    Ok(())
}

#[test]
fn tests_malformed_point_length_no_panic() -> Result<(), PCSError> {
    let mut rng = test_rng();
    let nv = 4;
    let (ck, vk) = setup(nv);
    let p = rpoly(nv, &mut rng);
    let pt = rvec(nv, &mut rng);
    let com = ChopinPCS::commit(&ck, &p)?;
    let (proof, val) = open(&ck, &p, &pt)?;
    for bad_len in [0usize, nv - 1, nv + 1] {
        let bad_pt = rvec(bad_len, &mut rng);
        assert!(rejected(verify(&vk, &com, &bad_pt, &val, &proof)));
    }
    Ok(())
}

#[test]
fn tests_verifier_key_capacity_insufficient() -> Result<(), PCSError> {
    let mut rng = test_rng();
    let (ck5, _vk5) = setup(5);
    let (_ck3, vk3) = setup(3);
    let p = rpoly(5, &mut rng);
    let pt = rvec(5, &mut rng);
    let com = ChopinPCS::commit(&ck5, &p)?;
    let (proof, val) = open(&ck5, &p, &pt)?;
    assert!(verify(&vk3, &com, &pt, &val, &proof).is_err());
    Ok(())
}

#[test]
fn tests_prover_key_too_small() -> Result<(), PCSError> {
    let mut rng = test_rng();
    let (ck3, _vk3) = setup(3);
    let p = rpoly(5, &mut rng);
    let pt = rvec(5, &mut rng);
    assert!(ChopinPCS::commit(&ck3, &p).is_err());
    assert!(open(&ck3, &p, &pt).is_err());
    Ok(())
}

#[test]
fn tests_transcript_statement_binding() -> Result<(), PCSError> {
    let mut rng = test_rng();
    let nv = 4;
    let (ck, vk) = setup(nv);
    let p = rpoly(nv, &mut rng);
    let pt = rvec(nv, &mut rng);
    let com = ChopinPCS::commit(&ck, &p)?;
    let (proof, val) = open(&ck, &p, &pt)?;
    let other_com = com.mul(&num(3));
    assert!(!verify(&vk, &other_com, &pt, &val, &proof)?);
    Ok(())
}

#[test]
fn tests_catch_unwind_random_proofs() -> Result<(), PCSError> {
    let mut rng = test_rng();
    let nv = 4;
    let (ck, vk) = setup(nv);
    let p = rpoly(nv, &mut rng);
    let pt = rvec(nv, &mut rng);
    let com = ChopinPCS::commit(&ck, &p)?;
    let (proof, val) = open(&ck, &p, &pt)?;
    for _ in 0..32 {
        let mut bad = proof;
        bad.comm_f_zr = tamper_g1(&bad.comm_f_zr);
        bad.a = rs(&mut rng);
        bad.b1 = rs(&mut rng);
        assert!(rejected(verify(&vk, &com, &pt, &val, &bad)));
    }
    Ok(())
}

#[test]
fn challenge_drawing_nonzero() -> Result<(), PCSError> {
    let mut t: IOPTranscript = IOPTranscript::new("test");
    t.append_field_element("init", &Scalar::zero());
    let c = draw_nonzero(&mut t, "c")?;
    assert!(!c.is_zero());
    Ok(())
}

#[test]
fn challenge_drawing_beta() -> Result<(), PCSError> {
    let mut t: IOPTranscript = IOPTranscript::new("test");
    t.append_field_element("init", &Scalar::zero());
    let (c, cinv) = draw_beta(&mut t, "c", Scalar::zero())?;
    assert!(!c.is_zero());
    assert_ne!(c, cinv);
    assert_eq!(c.mul(cinv), Scalar::one());
    Ok(())
}

#[test]
fn chopin_padded_key() -> Result<(), PCSError> {
    let mut rng = test_rng();
    let (ck, vk) = setup(6);
    let p = rpoly(4, &mut rng);
    let pt = rvec(4, &mut rng);
    let com = ChopinPCS::commit(&ck, &p)?;
    let (proof, val) = open(&ck, &p, &pt)?;
    assert_eq!(proof.mu, 6);
    let mut padded = pt.clone();
    padded.push(Scalar::zero());
    padded.push(Scalar::zero());
    assert!(verify(&vk, &com, &padded, &val, &proof)?);
    Ok(())
}

#[test]
fn tests_proof_serialization_roundtrip() -> Result<(), PCSError> {
    let mut rng = test_rng();
    let nv = 5;
    let (ck, _vk) = setup(nv);
    let p = rpoly(nv, &mut rng);
    let pt = rvec(nv, &mut rng);
    let (proof, _val) = open(&ck, &p, &pt)?;
    let mut bytes = Vec::new();
    for c in [
        proof.comm_f_zr,
        proof.comm_f_alpha,
        proof.comm_s,
        proof.pi_biv_x,
        proof.pi_biv_y,
        proof.batch_w,
        proof.batch_w_prime,
    ] {
        bytes.extend(c.to_bytes());
    }
    for v in [
        proof.a,
        proof.a1,
        proof.a2,
        proof.b1,
        proof.b2,
        proof.s1,
        proof.s2,
    ] {
        bytes.extend(v.to_bytes());
    }
    bytes.extend(proof.mu.to_le_bytes());
    assert_eq!(bytes.len(), 7 * 48 + 7 * 32 + 4);
    let point = |i: usize| G1::from_bytes(&bytes[48 * i..48 * (i + 1)]).unwrap();
    let tail = &bytes[48 * 7..];
    let value = |i: usize| Scalar::from_bytes_mod_order(&tail[32 * i..32 * (i + 1)]);
    let back = ChopinProof {
        comm_f_zr: point(0),
        comm_f_alpha: point(1),
        comm_s: point(2),
        pi_biv_x: point(3),
        pi_biv_y: point(4),
        batch_w: point(5),
        batch_w_prime: point(6),
        a: value(0),
        a1: value(1),
        a2: value(2),
        b1: value(3),
        b2: value(4),
        s1: value(5),
        s2: value(6),
        mu: u32::from_le_bytes(tail[32 * 7..].try_into().unwrap()),
    };
    assert_eq!(proof, back);
    Ok(())
}
