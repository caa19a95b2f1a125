#![allow(dead_code, unused_imports)]

use ark_bls12_381::{Fq, Fr, G1Affine};
use ark_ff::{BigInt, PrimeField};
use ark_serialize::CanonicalSerialize;
use ark_std::rand::Rng;
use ark_std::{test_rng, UniformRand};
use mlpcs::bdfg::poly_eval;
use mlpcs::errors::PCSError;
use mlpcs::field::Scalar;
use mlpcs::group::{G1, G2};
use mlpcs::tensor::Mle;
use mlpcs::transcript::IOPTranscript;
use mlpcs::recipcs::srs::{ReciProverParam, ReciVerifierParam};
use mlpcs::recipcs::{
    compute_hbar, compute_laurent_h, recipcs_open, recipcs_verify, ReciPCS, ReciProof,
};
use mlpcs::reciprocal::build_quotient;

fn rs<R: Rng>(rng: &mut R) -> Scalar {
    Scalar::from_limbs(Fr::rand(rng).into_bigint().0).unwrap()
}

fn rvec<R: Rng>(n: usize, rng: &mut R) -> Vec<Scalar> {
    (0..n).map(|_| rs(rng)).collect()
}

fn rg1<R: Rng>(rng: &mut R) -> G1 {
    G1::generator().mul(&rs(rng))
}

fn rg2<R: Rng>(rng: &mut R) -> G2 {
    G2::generator().mul(&rs(rng))
}

fn rpoly<R: Rng>(nv: usize, rng: &mut R) -> Mle {
    Mle::from_evaluations_vec(nv, rvec(1 << nv, rng))
}

fn num(n: u64) -> Scalar {
    Scalar::from_u64(n)
}

fn ark_scalar(v: &Scalar) -> Fr {
    Fr::from_bigint(BigInt(v.limbs())).unwrap()
}

fn ark_point(p: &G1) -> G1Affine {
    match p.coordinates() {
        None => G1Affine::identity(),
        Some((x, y)) => G1Affine::new(
            Fq::from_bigint(BigInt(x)).unwrap(),
            Fq::from_bigint(BigInt(y)).unwrap(),
        ),
    }
}

/// Value of the multilinear extension of a table, straight from its
/// definition.
fn direct_value(table: &[Scalar], point: &[Scalar]) -> Scalar {
    let mut sum = Scalar::zero();
    for i in 0..1usize << point.len() {
        let mut term = table[i];
        for (k, &u) in point.iter().enumerate() {
            term = term.mul(if (i >> k) & 1 == 1 {
                u
            } else {
                Scalar::one().sub(u)
            });
        }
        sum = sum.add(term);
    }
    sum
}

fn setup(nv: usize) -> (ReciProverParam, ReciVerifierParam) {
    let mut rng = test_rng();
    let tau = rs(&mut rng);
    let srs = ReciPCS::gen_srs_for_testing(tau, rg1(&mut rng), rg2(&mut rng), nv).unwrap();
    ReciPCS::trim(&srs, Some(nv)).unwrap()
}

fn opened(nv: usize) -> (ReciVerifierParam, G1, Vec<Scalar>, Scalar, ReciProof) {
    let mut rng = test_rng();
    let (ck, vk) = setup(nv);
    let poly = rpoly(nv, &mut rng);
    let point = rvec(nv, &mut rng);
    let com = ReciPCS::commit(&ck, &poly).unwrap();
    let (proof, value) = ReciPCS::open(&ck, &poly, &point).unwrap();
    assert_eq!(value, direct_value(&poly.evaluations, &point));
    (vk, com, point, value, proof)
}

fn verify(
    vk: &ReciVerifierParam,
    com: &G1,
    point: &[Scalar],
    value: &Scalar,
    proof: &ReciProof,
) -> Result<bool, PCSError> {
    ReciPCS::verify(vk, com, point, value, proof)
}

#[test]
fn recipcs_honest_proofs_are_accepted() {
    for nv in 1..=6 {
        let (vk, com, point, value, proof) = opened(nv);
        assert_eq!(proof.mu, nv);
        assert!(verify(&vk, &com, &point, &value, &proof).unwrap(), "nv={nv}");
    }
}

#[test]
fn recipcs_rejects_other_statements() {
    let mut rng = test_rng();
    let (vk, com, point, value, proof) = opened(4);
    assert!(!verify(&vk, &com, &point, &rs(&mut rng), &proof).unwrap());
    assert!(!verify(&vk, &com, &rvec(4, &mut rng)[..], &value.add(num(1)), &proof).unwrap());
    assert!(!verify(&vk, &com.mul(&num(2)), &point, &value, &proof).unwrap());
}

#[test]
fn recipcs_rejects_tampered_fields() {
    let (vk, com, point, value, proof) = opened(4);
    let mutators: Vec<fn(&mut ReciProof)> = vec![
        |p| p.cm_hbar = p.cm_hbar.mul(&num(2)),
        |p| p.pi = p.pi.mul(&num(2)),
        |p| p.f_z = p.f_z.add(num(1)),
        |p| p.f_z_inv = p.f_z_inv.add(num(1)),
        |p| p.hbar_z = p.hbar_z.add(num(1)),
        |p| p.hbar_z_inv = p.hbar_z_inv.add(num(1)),
    ];
    for mutate in mutators {
        let mut bad = proof.clone();
        mutate(&mut bad);
        assert!(!verify(&vk, &com, &point, &value, &bad).unwrap());
    }
}

#[test]
fn recipcs_malformed_proofs_are_errors() {
    let (vk, com, point, value, proof) = opened(4);
    for mu in [0usize, 3, 5, 64, usize::MAX] {
        let mut bad = proof.clone();
        bad.mu = mu;
        let r = verify(&vk, &com, &point, &value, &bad);
        assert!(matches!(r, Err(PCSError::InvalidProof(_))), "mu={mu}");
    }
    let r = verify(&vk, &com, &point[..3], &value, &proof);
    assert!(matches!(r, Err(PCSError::InvalidProof(_))));
    let (small, _, _, _, _) = opened(3);
    let r = verify(&small, &com, &point, &value, &proof);
    assert!(matches!(r, Err(PCSError::InvalidProof(_))));
}

#[test]
fn recipcs_requests_that_do_not_fit_are_errors() {
    let mut rng = test_rng();
    let (ck, _) = setup(3);
    let poly = rpoly(4, &mut rng);
    let point = rvec(4, &mut rng);
    assert!(matches!(ReciPCS::commit(&ck, &poly), Err(PCSError::InvalidParameters(_))));
    let r = ReciPCS::open(&ck, &poly, &point);
    assert!(matches!(r, Err(PCSError::InvalidParameters(_))));
    let small = rpoly(3, &mut rng);
    let r = ReciPCS::open(&ck, &small, &point);
    assert!(matches!(r, Err(PCSError::InvalidParameters(_))));
    let mut t: IOPTranscript = IOPTranscript::new("t");
    let wrong = small.evaluate(&point[..3]).unwrap().add(num(1));
    let r = recipcs_open(&ck, &small, &point[..3], &wrong, &mut t);
    assert!(matches!(r, Err(PCSError::InvalidParameters(_))));
}

#[test]
fn recipcs_runs_on_a_given_transcript() -> Result<(), PCSError> {
    let mut rng = test_rng();
    let (ck, vk) = setup(3);
    let poly = rpoly(3, &mut rng);
    let point = rvec(3, &mut rng);
    let com = ReciPCS::commit(&ck, &poly)?;
    let value = poly.evaluate(&point).unwrap();
    let mut t: IOPTranscript = IOPTranscript::new("t");
    let (proof, y) = recipcs_open(&ck, &poly, &point, &value, &mut t)?;
    assert_eq!(y, value);
    let mut same: IOPTranscript = IOPTranscript::new("t");
    assert!(recipcs_verify(&vk, &com, &point, &value, &proof, &mut same)?);
    let mut other: IOPTranscript = IOPTranscript::new("u");
    assert!(!recipcs_verify(&vk, &com, &point, &value, &proof, &mut other)?);
    Ok(())
}

#[test]
fn recipcs_keys() -> Result<(), PCSError> {
    let (g, h) = (G1::generator(), G2::generator());
    let refused = ReciPCS::gen_srs_for_testing(num(3), g, h, 0);
    assert!(matches!(refused, Err(PCSError::InvalidParameters(_))));
    let srs = ReciPCS::gen_srs_for_testing(num(3), g, h, 2)?;
    let powers = vec![g, g.mul(&num(3)), g.mul(&num(9)), g.mul(&num(27))];
    assert_eq!(srs.prover_param.g1_powers, powers);
    assert_eq!(srs.verifier_param.g2_tau, h.mul(&num(3)));
    assert_eq!(srs.verifier_param.g2_tau2, h.mul(&num(9)));
    assert!(matches!(ReciPCS::trim(&srs, None), Err(PCSError::InvalidParameters(_))));
    assert!(matches!(ReciPCS::trim(&srs, Some(3)), Err(PCSError::InvalidParameters(_))));
    let (ck, _) = ReciPCS::trim(&srs, Some(1))?;
    assert_eq!(ck.g1_powers.len(), 2);
    Ok(())
}

#[test]
fn recipcs_witness_values() {
    let f = [num(1), num(2)];
    let h = compute_laurent_h(&f, 1, &[num(3)]);
    assert_eq!(h, vec![num(3), num(4), num(4).neg()]);
    assert_eq!(compute_hbar(&h, 1), vec![num(1).neg()]);
    assert_eq!(direct_value(&f, &[num(3)]), num(4));
}

#[test]
fn recipcs_quotient_divides_exactly() {
    let mut rng = test_rng();
    let f = rvec(8, &mut rng);
    let hbar = rvec(7, &mut rng);
    let z = rs(&mut rng);
    let zi = z.inverse().unwrap();
    let line = |p: &[Scalar]| {
        let slope = poly_eval(p, z).sub(poly_eval(p, zi)).mul(z.sub(zi).inverse().unwrap());
        [poly_eval(p, z).sub(slope.mul(z)), slope]
    };
    let (rf, rh) = (line(&f), line(&hbar));
    let alpha = rs(&mut rng);
    let q = build_quotient(&f, &hbar, &rf, &rh, alpha, z.add(zi));
    let x = rs(&mut rng);
    let left = poly_eval(&q, x).mul(x.sub(z)).mul(x.sub(zi));
    let part = |p: &[Scalar], r: &[Scalar]| poly_eval(p, x).sub(poly_eval(r, x));
    assert_eq!(left, part(&f, &rf).add(alpha.mul(part(&hbar, &rh))));
}

#[test]
fn recipcs_proofs_are_short() {
    for nv in [2, 5] {
        let (_, _, _, _, proof) = opened(nv);
        let mut bytes = Vec::new();
        for p in [proof.cm_hbar, proof.pi] {
            ark_point(&p).serialize_compressed(&mut bytes).unwrap();
        }
        for v in [proof.f_z, proof.f_z_inv, proof.hbar_z, proof.hbar_z_inv] {
            ark_scalar(&v).serialize_compressed(&mut bytes).unwrap();
        }
        assert_eq!(bytes.len(), 2 * 48 + 4 * 32);
    }
}
