#![allow(dead_code, unused_imports)]

use ark_bls12_381::{Fq, Fr, G1Affine};
use ark_ff::{BigInt, PrimeField};
use ark_serialize::CanonicalSerialize;
use ark_std::rand::Rng;
use ark_std::{test_rng, UniformRand};
use mlpcs::bdfg::poly_eval;
use mlpcs::errors::PCSError;
use mlpcs::field::Scalar;
use mlpcs::group::{G1, G2};
use mlpcs::tensor::Mle;
use mlpcs::transcript::IOPTranscript;
use mlpcs::batching::append_claims;
use mlpcs::batching::BatchPlan;
use mlpcs::laurent::symmetric_witness;
use mlpcs::mulcs::srs::{MulcsProverParam, MulcsVerifierParam};
use mlpcs::mulcs::symmetric::{
    symmetric_open_with_transcript, symmetric_verify_with_transcript, MulcsSymmetricPCS,
    MulcsSymmetricProof,
};
use mlpcs::mulcs::util::UnivarPoly;
use mlpcs::recipcs::{compute_hbar, compute_laurent_h};
use mlpcs::reciprocal::{eval_tensor_inv, validate_z};
use mlpcs::tensor::eval_tensor;

fn rs<R: Rng>(rng: &mut R) -> Scalar {
    Scalar::from_limbs(Fr::rand(rng).into_bigint().0).unwrap()
}

fn rvec<R: Rng>(n: usize, rng: &mut R) -> Vec<Scalar> {
    (0..n).map(|_| rs(rng)).collect()
}

fn rg1<R: Rng>(rng: &mut R) -> G1 {
    G1::generator().mul(&rs(rng))
}

fn rg2<R: Rng>(rng: &mut R) -> G2 {
    G2::generator().mul(&rs(rng))
}

fn rpoly<R: Rng>(nv: usize, rng: &mut R) -> Mle {
    Mle::from_evaluations_vec(nv, rvec(1 << nv, rng))
}

fn num(n: u64) -> Scalar {
    Scalar::from_u64(n)
}

fn ark_scalar(v: &Scalar) -> Fr {
    Fr::from_bigint(BigInt(v.limbs())).unwrap()
}

fn ark_point(p: &G1) -> G1Affine {
    match p.coordinates() {
        None => G1Affine::identity(),
        Some((x, y)) => G1Affine::new(
            Fq::from_bigint(BigInt(x)).unwrap(),
            Fq::from_bigint(BigInt(y)).unwrap(),
        ),
    }
}

/// Value of the multilinear extension of a table, straight from its
/// definition.
fn direct_value(table: &[Scalar], point: &[Scalar]) -> Scalar {
    let mut sum = Scalar::zero();
    for i in 0..1usize << point.len() {
        let mut term = table[i];
        for (k, &u) in point.iter().enumerate() {
            term = term.mul(if (i >> k) & 1 == 1 {
                u
            } else {
                Scalar::one().sub(u)
            });
        }
        sum = sum.add(term);
    }
    sum
}

type Proof = MulcsSymmetricProof;
/// A sumcheck for a sum of products of two multilinear polynomials: the values
/// of each round's polynomial at `0`, `1` and `2`, and the point.
#[derive(Clone)]
struct Sumcheck {
    rounds: Vec<[Scalar; 3]>,
    point: Vec<Scalar>,
}

fn line(a: Scalar, b: Scalar, t: Scalar) -> Scalar {
    a.add(t.mul(b.sub(a)))
}

fn fix_lowest(table: &[Scalar], t: Scalar) -> Vec<Scalar> {
    table.chunks(2).map(|c| line(c[0], c[1], t)).collect()
}

fn sumcheck_prove(plan: &BatchPlan, tr: &mut IOPTranscript) -> Sumcheck {
    let mut pairs: Vec<(Vec<Scalar>, Vec<Scalar>)> = plan
        .merged
        .iter()
        .zip(plan.eqs.iter())
        .map(|(m, e)| (m.evaluations.clone(), e.evaluations.clone()))
        .collect();
    let mut proof = Sumcheck { rounds: vec![], point: vec![] };
    for _ in 0..plan.num_var {
        let mut g = [Scalar::zero(); 3];
        for (t, slot) in g.iter_mut().enumerate() {
            for (m, e) in pairs.iter() {
                let (a, b) = (fix_lowest(m, num(t as u64)), fix_lowest(e, num(t as u64)));
                for (x, y) in a.iter().zip(b.iter()) {
                    *slot = slot.add(x.mul(*y));
                }
            }
        }
        tr.append_field_elements("round", &g);
        let c = tr.get_and_append_challenge("c");
        for p in pairs.iter_mut() {
            *p = (fix_lowest(&p.0, c), fix_lowest(&p.1, c));
        }
        proof.rounds.push(g);
        proof.point.push(c);
    }
    proof
}

/// The value that is left to be checked, where the rounds fit together.
fn sumcheck_verify(
    sum: Scalar,
    proof: &Sumcheck,
    tr: &mut IOPTranscript,
) -> Option<Scalar> {
    if proof.rounds.len() != proof.point.len() {
        return None;
    }
    let half = num(2).inverse().unwrap();
    let mut claim = sum;
    for (g, p) in proof.rounds.iter().zip(proof.point.iter()) {
        if g[0].add(g[1]) != claim {
            return None;
        }
        tr.append_field_elements("round", g);
        let c = tr.get_and_append_challenge("c");
        if c != *p {
            return None;
        }
        let (c1, c2) = (c.sub(num(1)), c.sub(num(2)));
        let first = g[0].mul(c1).mul(c2).mul(half);
        let third = g[2].mul(c).mul(c1).mul(half);
        claim = first.sub(g[1].mul(c).mul(c2)).add(third);
    }
    Some(claim)
}

/// A batched opening.
#[derive(Clone)]
struct BatchProof {
    sum_check_proof: Sumcheck,
    f_i_eval_at_point_i: Vec<Scalar>,
    g_prime_proof: Proof,
}

fn transcript() -> IOPTranscript {
    let mut t: IOPTranscript = IOPTranscript::new("t");
    t.append_field_element("init", &Scalar::zero());
    t
}

/// Polynomials with points of their own and their values.
fn batch<R: Rng>(k: usize, nv: usize, rng: &mut R) -> (Vec<Mle>, Vec<Vec<Scalar>>, Vec<Scalar>) {
    let polys: Vec<Mle> = (0..k).map(|_| rpoly(nv, rng)).collect();
    let pts: Vec<Vec<Scalar>> = (0..k).map(|_| rvec(nv, rng)).collect();
    let evals = values(&polys, &pts);
    (polys, pts, evals)
}

fn values(polys: &[Mle], pts: &[Vec<Scalar>]) -> Vec<Scalar> {
    polys.iter().zip(pts.iter()).map(|(p, pt)| p.evaluate(pt).unwrap()).collect()
}

fn setup(nv: usize) -> (MulcsProverParam, MulcsVerifierParam) {
    let mut rng = test_rng();
    let x = rs(&mut rng);
    let gamma = rs(&mut rng);
    let srs = MulcsSymmetricPCS::gen_srs_for_testing(x, rg1(&mut rng), rg2(&mut rng), gamma, nv).unwrap();
    MulcsSymmetricPCS::trim(&srs, Some(nv)).unwrap()
}

fn open(ck: &MulcsProverParam, p: &Mle, pt: &[Scalar]) -> Result<(Proof, Scalar), PCSError> {
    MulcsSymmetricPCS::open(ck, p, pt)
}

fn verify(
    vk: &MulcsVerifierParam,
    com: &G1,
    pt: &[Scalar],
    val: &Scalar,
    proof: &Proof,
) -> Result<bool, PCSError> {
    MulcsSymmetricPCS::verify(vk, com, pt, val, proof)
}

/// A proof for `nv` variables with its keys, commitment, point and value.
fn opened(
    nv: usize,
) -> Result<(MulcsVerifierParam, G1, Vec<Scalar>, Scalar, Proof), PCSError> {
    let mut rng = test_rng();
    let (ck, vk) = setup(nv);
    let poly = rpoly(nv, &mut rng);
    let point = rvec(nv, &mut rng);
    let com = MulcsSymmetricPCS::commit(&ck, &poly)?;
    let (proof, value) = open(&ck, &poly, &point)?;
    assert!(verify(&vk, &com, &point, &value, &proof)?);
    Ok((vk, com, point, value, proof))
}

fn multi_open(
    ck: &MulcsProverParam,
    polys: &[Mle],
    pts: &[Vec<Scalar>],
    evals: &[Scalar],
    tr: &mut IOPTranscript,
) -> Result<BatchProof, PCSError> {
    let plan = MulcsSymmetricPCS::multi_open_begin(polys, pts, evals, tr)?;
    let sum_check_proof = sumcheck_prove(&plan, tr);
    let a2 = Some(sum_check_proof.point.as_slice());
    let (g_prime_proof, _) = MulcsSymmetricPCS::multi_open_finish(ck, &plan, a2)?;
    Ok(BatchProof { sum_check_proof, f_i_eval_at_point_i: evals.to_vec(), g_prime_proof })
}

fn batch_verify(
    vk: &MulcsVerifierParam,
    coms: &[G1],
    pts: &[Vec<Scalar>],
    bp: &BatchProof,
    tr: &mut IOPTranscript,
) -> Result<bool, PCSError> {
    let a2 = &bp.sum_check_proof.point;
    let claim = MulcsSymmetricPCS::batch_verify_begin(coms, pts, &bp.f_i_eval_at_point_i, a2.len(), tr)?;
    let expected = sumcheck_verify(claim.sum, &bp.sum_check_proof, tr);
    MulcsSymmetricPCS::batch_verify_finish(
        vk,
        coms,
        pts,
        &claim,
        a2,
        expected,
        &bp.g_prime_proof,
    )
}

fn commit_all(ck: &MulcsProverParam, polys: &[Mle]) -> Vec<G1> {
    polys.iter().map(|p| MulcsSymmetricPCS::commit(ck, p).unwrap()).collect()
}

fn rejected(r: Result<bool, PCSError>) -> bool {
    matches!(r, Ok(false)) || r.is_err()
}

#[test]
fn test_sym_single_commit_open_verify() -> Result<(), PCSError> {
    let mut rng = test_rng();
    for nv in [2usize, 4, 6] {
        let (ck, vk) = setup(nv);
        let poly = rpoly(nv, &mut rng);
        let point = rvec(nv, &mut rng);
        let com = MulcsSymmetricPCS::commit(&ck, &poly)?;
        let (proof, value) = open(&ck, &poly, &point)?;
        assert_eq!(value, direct_value(&poly.evaluations, &point));
        assert!(verify(&vk, &com, &point, &value, &proof)?);
        let fake_val = rs(&mut rng);
        assert_ne!(fake_val, value);
        assert!(!verify(&vk, &com, &point, &fake_val, &proof)?);
    }
    Ok(())
}

#[test]
fn test_sym_single_open_rejects_wrong_value() -> Result<(), PCSError> {
    let mut rng = test_rng();
    let (vk, com, point, _value, proof) = opened(4)?;
    assert!(!verify(&vk, &com, &point, &rs(&mut rng), &proof)?);
    Ok(())
}

#[test]
fn test_sym_single_open_rejects_wrong_point() -> Result<(), PCSError> {
    let mut rng = test_rng();
    let (vk, com, point, value, proof) = opened(4)?;
    let wp = rvec(4, &mut rng);
    assert_ne!(wp, point);
    assert!(!verify(&vk, &com, &wp, &value, &proof)?);
    Ok(())
}

#[test]
fn test_sym_single_open_rejects_wrong_commitment() -> Result<(), PCSError> {
    let mut rng = test_rng();
    let (ck, vk) = setup(4);
    let poly = rpoly(4, &mut rng);
    let poly2 = rpoly(4, &mut rng);
    let point = rvec(4, &mut rng);
    let com2 = MulcsSymmetricPCS::commit(&ck, &poly2)?;
    let (proof, value) = open(&ck, &poly, &point)?;
    assert!(!verify(&vk, &com2, &point, &value, &proof)?);
    Ok(())
}

#[test]
fn test_sym_rejects_tampered_cm_hbar() -> Result<(), PCSError> {
    let (vk, com, point, value, mut proof) = opened(4)?;
    proof.cm_hbar = proof.cm_hbar.mul(&num(2));
    assert!(!verify(&vk, &com, &point, &value, &proof)?);
    Ok(())
}

#[test]
fn test_sym_rejects_tampered_f_z() -> Result<(), PCSError> {
    let (vk, com, point, value, mut proof) = opened(4)?;
    proof.f_z = proof.f_z.add(Scalar::one());
    assert!(!verify(&vk, &com, &point, &value, &proof)?);
    Ok(())
}

#[test]
fn test_sym_rejects_tampered_f_z_inv() -> Result<(), PCSError> {
    let (vk, com, point, value, mut proof) = opened(4)?;
    proof.f_z_inv = proof.f_z_inv.add(Scalar::one());
    assert!(!verify(&vk, &com, &point, &value, &proof)?);
    Ok(())
}

#[test]
fn test_sym_rejects_tampered_hbar_z() -> Result<(), PCSError> {
    let (vk, com, point, value, mut proof) = opened(4)?;
    proof.hbar_z = proof.hbar_z.add(Scalar::one());
    assert!(!verify(&vk, &com, &point, &value, &proof)?);
    Ok(())
}

#[test]
fn test_sym_rejects_tampered_hbar_z_inv() -> Result<(), PCSError> {
    let (vk, com, point, value, mut proof) = opened(4)?;
    proof.hbar_z_inv = proof.hbar_z_inv.add(Scalar::one());
    assert!(!verify(&vk, &com, &point, &value, &proof)?);
    Ok(())
}

#[test]
fn test_sym_rejects_tampered_pi() -> Result<(), PCSError> {
    let (vk, com, point, value, mut proof) = opened(4)?;
    proof.pi = proof.pi.mul(&num(3));
    assert!(!verify(&vk, &com, &point, &value, &proof)?);
    Ok(())
}

#[test]
fn test_sym_rejects_tampered_z() -> Result<(), PCSError> {
    let (vk, com, point, value, mut proof) = opened(4)?;
    proof.z = proof.z.add(Scalar::one());
    assert!(!verify(&vk, &com, &point, &value, &proof)?);
    Ok(())
}

#[test]
fn test_sym_rejects_tampered_claimed_f_z_after_remainder_recompute() -> Result<(), PCSError> {
    let (vk, com, point, value, mut proof) = opened(4)?;
    proof.f_z = proof.f_z.add(Scalar::one());
    assert!(!verify(&vk, &com, &point, &value, &proof)?);
    Ok(())
}

#[test]
fn test_sym_rejects_tampered_claimed_f_z_inv_after_remainder_recompute() -> Result<(), PCSError> {
    let (vk, com, point, value, mut proof) = opened(4)?;
    proof.f_z_inv = proof.f_z_inv.add(Scalar::one());
    assert!(!verify(&vk, &com, &point, &value, &proof)?);
    Ok(())
}

#[test]
fn test_validate_symmetric_z_rejects_zero() {
    assert!(validate_z(Scalar::zero()).is_err(), "z=0 must be rejected");
}

#[test]
fn test_validate_symmetric_z_rejects_one() {
    assert!(validate_z(Scalar::one()).is_err(), "z=1 must be rejected (z^2=1)");
}

#[test]
fn test_validate_symmetric_z_rejects_neg_one() {
    assert!(validate_z(Scalar::one().neg()).is_err(), "z=-1 must be rejected (z^2=1)");
}

#[test]
fn test_validate_symmetric_z_accepts_regular() {
    let mut rng = test_rng();
    let z = rs(&mut rng);
    assert!(!z.is_zero() && z.square() != Scalar::one());
    let z_inv = validate_z(z).unwrap();
    assert_eq!(z.mul(z_inv), Scalar::one(), "returned value should be inverse");
}

#[test]
fn test_sym_sumcheck_batch_k1() -> Result<(), PCSError> {
    let mut rng = test_rng();
    let (ck, vk) = setup(4);
    let (polys, points, evals) = batch(1, 4, &mut rng);
    let comms = commit_all(&ck, &polys);
    let proof = multi_open(&ck, &polys, &points, &evals, &mut transcript())?;
    assert!(batch_verify(&vk, &comms, &points, &proof, &mut transcript())?);
    Ok(())
}

#[test]
fn test_sym_sumcheck_batch_distinct() -> Result<(), PCSError> {
    let mut rng = test_rng();
    let (ck, vk) = setup(4);
    let (polys, points, evals) = batch(3, 4, &mut rng);
    let comms = commit_all(&ck, &polys);
    let proof = multi_open(&ck, &polys, &points, &evals, &mut transcript())?;
    assert!(batch_verify(&vk, &comms, &points, &proof, &mut transcript())?);
    Ok(())
}

#[test]
fn test_sym_sumcheck_batch_repeated() -> Result<(), PCSError> {
    let mut rng = test_rng();
    let (ck, vk) = setup(4);
    let pt = rvec(4, &mut rng);
    let polys: Vec<Mle> = (0..3).map(|_| rpoly(4, &mut rng)).collect();
    let points = vec![pt.clone(), pt.clone(), pt.clone()];
    let evals = values(&polys, &points);
    let comms = commit_all(&ck, &polys);
    let proof = multi_open(&ck, &polys, &points, &evals, &mut transcript())?;
    assert!(batch_verify(&vk, &comms, &points, &proof, &mut transcript())?);
    Ok(())
}

#[test]
fn test_sym_sumcheck_batch_non_power_of_two() -> Result<(), PCSError> {
    let mut rng = test_rng();
    let (ck, vk) = setup(4);
    let (polys, points, evals) = batch(5, 4, &mut rng);
    let comms = commit_all(&ck, &polys);
    let proof = multi_open(&ck, &polys, &points, &evals, &mut transcript())?;
    assert!(batch_verify(&vk, &comms, &points, &proof, &mut transcript())?);
    Ok(())
}

#[test]
fn test_sym_batch_rejects_wrong_eval() -> Result<(), PCSError> {
    let mut rng = test_rng();
    let (ck, vk) = setup(4);
    let (polys, points, evals) = batch(3, 4, &mut rng);
    let comms = commit_all(&ck, &polys);
    let mut we = evals.clone();
    we[0] = we[0].add(Scalar::one());
    let p = multi_open(&ck, &polys, &points, &we, &mut transcript())?;
    assert!(rejected(batch_verify(&vk, &comms, &points, &p, &mut transcript())));
    Ok(())
}

#[test]
fn test_sym_batch_rejects_wrong_point() -> Result<(), PCSError> {
    let mut rng = test_rng();
    let (ck, vk) = setup(4);
    let (polys, points, evals) = batch(3, 4, &mut rng);
    let comms = commit_all(&ck, &polys);
    let p = multi_open(&ck, &polys, &points, &evals, &mut transcript())?;
    let mut wp = points.clone();
    wp[0] = rvec(4, &mut rng);
    assert!(rejected(batch_verify(&vk, &comms, &wp, &p, &mut transcript())));
    Ok(())
}

#[test]
fn test_sym_batch_rejects_wrong_commitment() -> Result<(), PCSError> {
    let mut rng = test_rng();
    let (ck, vk) = setup(4);
    let (polys, points, evals) = batch(3, 4, &mut rng);
    let comms = commit_all(&ck, &polys);
    let p = multi_open(&ck, &polys, &points, &evals, &mut transcript())?;
    let mut wc = comms.clone();
    wc[0] = MulcsSymmetricPCS::commit(&ck, &rpoly(4, &mut rng))?;
    assert!(!batch_verify(&vk, &wc, &points, &p, &mut transcript())?);
    Ok(())
}

#[test]
fn test_sym_batch_rejects_malformed_lengths() -> Result<(), PCSError> {
    let mut rng = test_rng();
    let (ck, vk) = setup(4);
    let (polys, points, evals) = batch(3, 4, &mut rng);
    let comms = commit_all(&ck, &polys);
    let mut proof = multi_open(&ck, &polys, &points, &evals, &mut transcript())?;
    assert!(rejected(batch_verify(&vk, &comms[..2], &points, &proof, &mut transcript())));
    proof.f_i_eval_at_point_i.pop();
    assert!(rejected(batch_verify(&vk, &comms, &points, &proof, &mut transcript())));
    Ok(())
}

#[test]
fn test_sym_multi_open_rejects_empty_input() {
    let (ck, _) = setup(4);
    assert!(multi_open(&ck, &[], &[], &[], &mut transcript()).is_err());
}

#[test]
fn test_sym_multi_open_rejects_mismatched_lengths() {
    let (ck, _) = setup(4);
    let mut rng = test_rng();
    let polys = [rpoly(4, &mut rng)];
    let point = rvec(4, &mut rng);
    let one = Scalar::one();
    let two_points = [point.clone(), point.clone()];
    assert!(multi_open(&ck, &polys, &two_points, &[one], &mut transcript()).is_err());
    assert!(multi_open(&ck, &polys, &[point], &[one, one], &mut transcript()).is_err());
}

#[test]
fn test_sym_multi_open_rejects_inconsistent_num_vars() {
    let (ck, _) = setup(4);
    let mut rng = test_rng();
    let point = rvec(4, &mut rng);
    let polys = [rpoly(4, &mut rng), rpoly(3, &mut rng)];
    let points = [point.clone(), point.clone()];
    let evals = [Scalar::one(), Scalar::one()];
    assert!(multi_open(&ck, &polys, &points, &evals, &mut transcript()).is_err());
}

#[test]
fn test_sym_multi_open_rejects_wrong_point_len() {
    let (ck, _) = setup(4);
    let mut rng = test_rng();
    let polys = [rpoly(4, &mut rng)];
    let points = [rvec(3, &mut rng)];
    assert!(multi_open(&ck, &polys, &points, &[Scalar::one()], &mut transcript()).is_err());
}

#[test]
fn test_sym_verify_rejects_huge_mu_without_panic() -> Result<(), PCSError> {
    let (vk, com, point, value, mut proof) = opened(2)?;
    proof.mu = usize::BITS as usize;
    assert!(
        rejected(verify(&vk, &com, &point, &value, &proof)),
        "huge mu ({}) should fail without panic",
        proof.mu
    );
    Ok(())
}

#[test]
fn test_sym_verify_rejects_wrong_point_len() -> Result<(), PCSError> {
    let mut rng = test_rng();
    let (vk, com, _point, value, proof) = opened(4)?;
    let short_pt = rvec(2, &mut rng);
    let r = verify(&vk, &com, &short_pt, &value, &proof);
    assert!(r.is_err(), "short point should return Error, not panic");
    let long_pt = rvec(8, &mut rng);
    let r2 = verify(&vk, &com, &long_pt, &value, &proof);
    assert!(r2.is_err(), "long point should return Error, not panic");
    Ok(())
}

#[test]
fn sym_failed_sumchecks_are_errors() -> Result<(), PCSError> {
    let mut rng = test_rng();
    let (ck, vk) = setup(3);
    let (polys, points, evals) = batch(2, 3, &mut rng);
    let comms = commit_all(&ck, &polys);
    let plan = MulcsSymmetricPCS::multi_open_begin(&polys, &points, &evals, &mut transcript())?;
    let r = MulcsSymmetricPCS::multi_open_finish(&ck, &plan, None);
    assert!(matches!(r, Err(PCSError::InvalidProver(_))));
    let proof = multi_open(&ck, &polys, &points, &evals, &mut transcript())?;
    let a2 = &proof.sum_check_proof.point;
    let claim = MulcsSymmetricPCS::batch_verify_begin(&comms, &points, &evals, a2.len(), &mut transcript())?;
    let v = MulcsSymmetricPCS::batch_verify_finish(
        &vk,
        &comms,
        &points,
        &claim,
        a2,
        None,
        &proof.g_prime_proof,
    );
    assert!(matches!(v, Err(PCSError::InvalidProver(_))));
    Ok(())
}

#[test]
fn test_sym_hbar_length() {
    let mut rng = test_rng();
    for nv in [2, 4, 6] {
        let n = 1 << nv;
        let coeffs = rvec(n, &mut rng);
        let r = rvec(nv, &mut rng);
        let offset = n - 1;
        let laurent_h = compute_laurent_h(&coeffs, nv, &r);
        assert_eq!(laurent_h.len(), 2 * n - 1);
        let hbar = compute_hbar(&laurent_h, offset);
        assert_eq!(hbar.len(), n - 1, "hbar should have N-1 coefficients");
        assert_eq!(hbar, symmetric_witness(&coeffs, &r, nv));
    }
}

#[test]
fn test_sym_debug_diagnostics() -> Result<(), PCSError> {
    let mut rng = test_rng();
    let nv = 2;
    let n = 1 << nv;
    let poly = rpoly(nv, &mut rng);
    let point = rvec(nv, &mut rng);
    let coeffs = poly.evaluations.clone();
    let y = poly.evaluate(&point).unwrap();
    let offset = n - 1;
    let laurent_h = compute_laurent_h(&coeffs, nv, &point);
    let hbar_coeffs = compute_hbar(&laurent_h, offset);
    assert_eq!(laurent_h[offset], y, "h_0 should equal y");
    for i in 0..(n - 1) {
        let l_pos = laurent_h[offset + i + 1].add(laurent_h[offset - (i + 1)]);
        assert_eq!(l_pos, hbar_coeffs[i], "hbar[{}] should equal L_{}", i, i + 1);
    }
    let hbar = UnivarPoly::new(hbar_coeffs);
    let f_v = UnivarPoly::new(coeffs);
    let test_z = rs(&mut rng);
    let test_z_inv = test_z.inverse().unwrap();
    let fz = f_v.evaluate(test_z);
    let fz_inv = f_v.evaluate(test_z_inv);
    let hbar_z = hbar.evaluate(test_z);
    let hbar_z_inv = hbar.evaluate(test_z_inv);
    let lhs = test_z.mul(hbar_z).add(test_z_inv.mul(hbar_z_inv)).add(y.double());
    let first = fz.mul(eval_tensor_inv(&point, test_z)?);
    let rhs = first.add(fz_inv.mul(eval_tensor(&point, test_z)));
    assert_eq!(lhs, rhs, "Identity should hold for random z");
    assert!(matches!(eval_tensor_inv(&point, Scalar::zero()), Err(PCSError::InvalidProof(_))));
    Ok(())
}

#[test]
fn sym_transcripts_bind_what_came_before() -> Result<(), PCSError> {
    let mut rng = test_rng();
    let (ck, vk) = setup(3);
    let p = rpoly(3, &mut rng);
    let pt = rvec(3, &mut rng);
    let com = MulcsSymmetricPCS::commit(&ck, &p)?;
    let (proof, val) = symmetric_open_with_transcript(&ck, &p, &pt, &mut transcript())?;
    let ok = symmetric_verify_with_transcript(&vk, &com, &pt, &val, &proof, &mut transcript())?;
    assert!(ok);
    let mut other = transcript();
    other.append_field_element("more", &Scalar::one());
    assert!(!symmetric_verify_with_transcript(&vk, &com, &pt, &val, &proof, &mut other)?);
    Ok(())
}

#[test]
fn symmetric_claims_are_absorbed_before_a_point_is_refused() {
    let mut rng = test_rng();
    let coms = [rg1(&mut rng), rg1(&mut rng)];
    let points = [rvec(3, &mut rng), rvec(2, &mut rng)];
    let evals = rvec(2, &mut rng);
    let mut t = transcript();
    let r = MulcsSymmetricPCS::batch_verify_begin(&coms, &points, &evals, 3, &mut t);
    assert!(matches!(r, Err(PCSError::InvalidProof(_))));
    let mut want = transcript();
    append_claims(&points, &evals, &mut want);
    assert_eq!(t.get_and_append_challenge("c"), want.get_and_append_challenge("c"));
}

#[test]
fn symmetric_keys_hold_gamma_and_the_points_of_g2() -> Result<(), PCSError> {
    let mut rng = test_rng();
    let (x, gamma) = (rs(&mut rng), rs(&mut rng));
    let (g1, g2) = (rg1(&mut rng), rg2(&mut rng));
    let srs = MulcsSymmetricPCS::gen_srs_for_testing(x, g1, g2, gamma, 3)?;
    let (ck, vk) = MulcsSymmetricPCS::trim(&srs, Some(2))?;
    let (g2_x, g2_x2) = (g2.mul(&x), g2.mul(&x.mul(x)));
    for p in [&srs.prover_param, &ck] {
        assert_eq!((p.g2_one, p.g2_x, p.g2_x2, p.gamma), (g2, g2_x, g2_x2, gamma));
    }
    for p in [&srs.verifier_param, &vk] {
        assert_eq!((p.g2_one, p.g2_x, p.g2_x2, p.gamma), (g2, g2_x, g2_x2, gamma));
    }
    Ok(())
}
