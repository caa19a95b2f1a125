#![allow(dead_code, unused_imports)]

use ark_bls12_381::{Fq, Fr, G1Affine};
use ark_ff::{BigInt, PrimeField};
use ark_serialize::CanonicalSerialize;
use ark_std::rand::Rng;
use ark_std::{test_rng, UniformRand};
use mlpcs::bdfg::poly_eval;
use mlpcs::errors::PCSError;
use mlpcs::field::Scalar;
use mlpcs::group::{G1, G2};
use mlpcs::tensor::Mle;
use mlpcs::transcript::IOPTranscript;
use mlpcs::batching::BatchPlan;
use mlpcs::gemini::fold::{fold_all, fold_polynomial};
use mlpcs::gemini::shplonk::{
    claim_commit, compute_shplonk_batched_quotient, compute_shplonk_g_coeffs,
    compute_shplonk_g_commit, kzg_quotient, shplonk_prove, shplonk_verify_reduce, GeminiClaim,
    ProverClaim, VerifierClaim,
};
use mlpcs::gemini::srs::{GeminiProverParam, GeminiUniversalParams, GeminiVerifierParam};
use mlpcs::gemini::{
    append_gemini_claims_to_transcript, build_gemini_claims, checked_domain_size_from_mu,
    gemini_open_with_transcript, gemini_verify_with_transcript, kzg_verify_pairing,
    validate_shplonk_nu, validate_shplonk_r, validate_shplonk_z_against_claims, GeminiPCS,
    GeminiProof,
};

fn rs<R: Rng>(rng: &mut R) -> Scalar {
    Scalar::from_limbs(Fr::rand(rng).into_bigint().0).unwrap()
}

fn rvec<R: Rng>(n: usize, rng: &mut R) -> Vec<Scalar> {
    (0..n).map(|_| rs(rng)).collect()
}

fn rg1<R: Rng>(rng: &mut R) -> G1 {
    G1::generator().mul(&rs(rng))
}

fn rg2<R: Rng>(rng: &mut R) -> G2 {
    G2::generator().mul(&rs(rng))
}

fn rpoly<R: Rng>(nv: usize, rng: &mut R) -> Mle {
    Mle::from_evaluations_vec(nv, rvec(1 << nv, rng))
}

fn num(n: u64) -> Scalar {
    Scalar::from_u64(n)
}

fn ark_scalar(v: &Scalar) -> Fr {
    Fr::from_bigint(BigInt(v.limbs())).unwrap()
}

fn ark_point(p: &G1) -> G1Affine {
    match p.coordinates() {
        None => G1Affine::identity(),
        Some((x, y)) => G1Affine::new(
            Fq::from_bigint(BigInt(x)).unwrap(),
            Fq::from_bigint(BigInt(y)).unwrap(),
        ),
    }
}

/// Value of the multilinear extension of a table, straight from its
/// definition.
fn direct_value(table: &[Scalar], point: &[Scalar]) -> Scalar {
    let mut sum = Scalar::zero();
    for i in 0..1usize << point.len() {
        let mut term = table[i];
        for (k, &u) in point.iter().enumerate() {
            term = term.mul(if (i >> k) & 1 == 1 {
                u
            } else {
                Scalar::one().sub(u)
            });
        }
        sum = sum.add(term);
    }
    sum
}

type Proof = GeminiProof;
/// A sumcheck for a sum of products of two multilinear polynomials: the values
/// of each round's polynomial at `0`, `1` and `2`, and the point.
#[derive(Clone)]
struct Sumcheck {
    rounds: Vec<[Scalar; 3]>,
    point: Vec<Scalar>,
}

fn line(a: Scalar, b: Scalar, t: Scalar) -> Scalar {
    a.add(t.mul(b.sub(a)))
}

fn fix_lowest(table: &[Scalar], t: Scalar) -> Vec<Scalar> {
    table.chunks(2).map(|c| line(c[0], c[1], t)).collect()
}

fn sumcheck_prove(plan: &BatchPlan, tr: &mut IOPTranscript) -> Sumcheck {
    let mut pairs: Vec<(Vec<Scalar>, Vec<Scalar>)> = plan
        .merged
        .iter()
        .zip(plan.eqs.iter())
        .map(|(m, e)| (m.evaluations.clone(), e.evaluations.clone()))
        .collect();
    let mut proof = Sumcheck { rounds: vec![], point: vec![] };
    for _ in 0..plan.num_var {
        let mut g = [Scalar::zero(); 3];
        for (t, slot) in g.iter_mut().enumerate() {
            for (m, e) in pairs.iter() {
                let (a, b) = (fix_lowest(m, num(t as u64)), fix_lowest(e, num(t as u64)));
                for (x, y) in a.iter().zip(b.iter()) {
                    *slot = slot.add(x.mul(*y));
                }
            }
        }
        tr.append_field_elements("round", &g);
        let c = tr.get_and_append_challenge("c");
        for p in pairs.iter_mut() {
            *p = (fix_lowest(&p.0, c), fix_lowest(&p.1, c));
        }
        proof.rounds.push(g);
        proof.point.push(c);
    }
    proof
}

/// The value that is left to be checked, where the rounds fit together.
fn sumcheck_verify(
    sum: Scalar,
    proof: &Sumcheck,
    tr: &mut IOPTranscript,
) -> Option<Scalar> {
    if proof.rounds.len() != proof.point.len() {
        return None;
    }
    let half = num(2).inverse().unwrap();
    let mut claim = sum;
    for (g, p) in proof.rounds.iter().zip(proof.point.iter()) {
        if g[0].add(g[1]) != claim {
            return None;
        }
        tr.append_field_elements("round", g);
        let c = tr.get_and_append_challenge("c");
        if c != *p {
            return None;
        }
        let (c1, c2) = (c.sub(num(1)), c.sub(num(2)));
        let first = g[0].mul(c1).mul(c2).mul(half);
        let third = g[2].mul(c).mul(c1).mul(half);
        claim = first.sub(g[1].mul(c).mul(c2)).add(third);
    }
    Some(claim)
}

/// A batched opening.
#[derive(Clone)]
struct BatchProof {
    sum_check_proof: Sumcheck,
    f_i_eval_at_point_i: Vec<Scalar>,
    g_prime_proof: Proof,
}

fn transcript() -> IOPTranscript {
    let mut t: IOPTranscript = IOPTranscript::new("t");
    t.append_field_element("init", &Scalar::zero());
    t
}

/// Polynomials with points of their own and their values.
fn batch<R: Rng>(k: usize, nv: usize, rng: &mut R) -> (Vec<Mle>, Vec<Vec<Scalar>>, Vec<Scalar>) {
    let polys: Vec<Mle> = (0..k).map(|_| rpoly(nv, rng)).collect();
    let pts: Vec<Vec<Scalar>> = (0..k).map(|_| rvec(nv, rng)).collect();
    let evals = values(&polys, &pts);
    (polys, pts, evals)
}

fn values(polys: &[Mle], pts: &[Vec<Scalar>]) -> Vec<Scalar> {
    polys.iter().zip(pts.iter()).map(|(p, pt)| p.evaluate(pt).unwrap()).collect()
}

fn gen(nv: usize) -> GeminiUniversalParams {
    let mut rng = test_rng();
    let tau = rs(&mut rng);
    GeminiPCS::gen_srs_for_testing(tau, rg1(&mut rng), rg2(&mut rng), nv).unwrap()
}

fn setup(nv: usize) -> (GeminiProverParam, GeminiVerifierParam) {
    GeminiPCS::trim(&gen(nv), Some(nv)).unwrap()
}

fn open(ck: &GeminiProverParam, p: &Mle, pt: &[Scalar]) -> Result<(GeminiProof, Scalar), PCSError> {
    GeminiPCS::open(ck, p, pt)
}

fn verify(
    vk: &GeminiVerifierParam,
    com: &G1,
    pt: &[Scalar],
    val: &Scalar,
    proof: &GeminiProof,
) -> Result<bool, PCSError> {
    GeminiPCS::verify(vk, com, pt, val, proof)
}

fn multi_open(
    ck: &GeminiProverParam,
    polys: &[Mle],
    pts: &[Vec<Scalar>],
    evals: &[Scalar],
    tr: &mut IOPTranscript,
) -> Result<BatchProof, PCSError> {
    let plan = GeminiPCS::multi_open_begin(polys, pts, evals, tr)?;
    let sum_check_proof = sumcheck_prove(&plan, tr);
    let a2 = Some(sum_check_proof.point.as_slice());
    let (g_prime_proof, _) = GeminiPCS::multi_open_finish(ck, &plan, a2)?;
    Ok(BatchProof { sum_check_proof, f_i_eval_at_point_i: evals.to_vec(), g_prime_proof })
}

fn batch_verify(
    vk: &GeminiVerifierParam,
    coms: &[G1],
    pts: &[Vec<Scalar>],
    bp: &BatchProof,
    tr: &mut IOPTranscript,
) -> Result<bool, PCSError> {
    let a2 = &bp.sum_check_proof.point;
    let claim =
        GeminiPCS::batch_verify_begin(vk, coms, pts, &bp.f_i_eval_at_point_i, a2.len(), tr)?;
    let expected = sumcheck_verify(claim.sum, &bp.sum_check_proof, tr);
    GeminiPCS::batch_verify_finish(
        vk,
        coms,
        pts,
        &claim,
        a2,
        expected,
        &bp.g_prime_proof,
    )
}

fn commit_all(ck: &GeminiProverParam, polys: &[Mle]) -> Vec<G1> {
    polys.iter().map(|p| GeminiPCS::commit(ck, p).unwrap()).collect()
}

fn rejected(r: Result<bool, PCSError>) -> bool {
    matches!(r, Ok(false)) || r.is_err()
}

#[test]
fn test_gemini_single_open_verify() -> Result<(), PCSError> {
    let mut rng = test_rng();
    for nv in [2usize, 4, 6] {
        let (ck, vk) = setup(nv);
        let p = rpoly(nv, &mut rng);
        let pt = rvec(nv, &mut rng);
        let com = GeminiPCS::commit(&ck, &p)?;
        let (proof, val) = open(&ck, &p, &pt)?;
        assert!(verify(&vk, &com, &pt, &val, &proof)?, "Gemini open/verify nv={nv}");
        assert_eq!(val, direct_value(&p.evaluations, &pt));
    }
    Ok(())
}

#[test]
fn gemini_single_variable() -> Result<(), PCSError> {
    let mut rng = test_rng();
    let (ck, vk) = setup(1);
    let p = rpoly(1, &mut rng);
    let pt = rvec(1, &mut rng);
    let com = GeminiPCS::commit(&ck, &p)?;
    let (proof, val) = open(&ck, &p, &pt)?;
    assert!(proof.fold_comms.is_empty());
    assert_eq!(proof.final_coeffs, (p.evaluations[0], p.evaluations[1]));
    assert!(verify(&vk, &com, &pt, &val, &proof)?);
    Ok(())
}

#[test]
fn test_gemini_reject_wrong_eval() -> Result<(), PCSError> {
    let mut rng = test_rng();
    for nv in [2usize, 4] {
        let (ck, vk) = setup(nv);
        let p = rpoly(nv, &mut rng);
        let pt = rvec(nv, &mut rng);
        let com = GeminiPCS::commit(&ck, &p)?;
        let (proof, _val) = open(&ck, &p, &pt)?;
        let fv = rs(&mut rng);
        assert!(!verify(&vk, &com, &pt, &fv, &proof)?, "wrong eval should reject nv={nv}");
    }
    Ok(())
}

#[test]
fn test_gemini_reject_wrong_point() -> Result<(), PCSError> {
    let mut rng = test_rng();
    let nv = 4;
    let (ck, vk) = setup(nv);
    let p = rpoly(nv, &mut rng);
    let pt = rvec(nv, &mut rng);
    let com = GeminiPCS::commit(&ck, &p)?;
    let (proof, val) = open(&ck, &p, &pt)?;
    assert!(!verify(&vk, &com, &rvec(nv, &mut rng), &val, &proof)?);
    Ok(())
}

#[test]
fn test_gemini_reject_wrong_commitment() -> Result<(), PCSError> {
    let mut rng = test_rng();
    let nv = 4;
    let (ck, vk) = setup(nv);
    let p1 = rpoly(nv, &mut rng);
    let p2 = rpoly(nv, &mut rng);
    let pt = rvec(nv, &mut rng);
    let com2 = GeminiPCS::commit(&ck, &p2)?;
    let (proof, val) = open(&ck, &p1, &pt)?;
    assert!(!verify(&vk, &com2, &pt, &val, &proof)?);
    Ok(())
}

/// A proof for `nv` variables with its key, commitment, point and value.
fn opened(
    nv: usize,
) -> Result<(GeminiVerifierParam, G1, Vec<Scalar>, Scalar, GeminiProof), PCSError> {
    let mut rng = test_rng();
    let (ck, vk) = setup(nv);
    let p = rpoly(nv, &mut rng);
    let pt = rvec(nv, &mut rng);
    let com = GeminiPCS::commit(&ck, &p)?;
    let (proof, val) = open(&ck, &p, &pt)?;
    assert!(verify(&vk, &com, &pt, &val, &proof)?);
    Ok((vk, com, pt, val, proof))
}

#[test]
fn test_gemini_reject_tampered_fold_commit() -> Result<(), PCSError> {
    let (vk, com, pt, val, mut proof) = opened(4)?;
    proof.fold_comms[0] = proof.fold_comms[0].mul(&num(2));
    assert!(!verify(&vk, &com, &pt, &val, &proof)?);
    Ok(())
}

#[test]
fn test_gemini_reject_tampered_eval() -> Result<(), PCSError> {
    let (vk, com, pt, val, mut proof) = opened(4)?;
    let (a_r, _) = proof.fold_evals[0];
    proof.fold_evals[0] = (a_r.add(Scalar::one()), proof.fold_evals[0].1);
    assert!(!verify(&vk, &com, &pt, &val, &proof)?);
    Ok(())
}

#[test]
fn test_gemini_reject_tampered_shplonk_q_commit() -> Result<(), PCSError> {
    let (vk, com, pt, val, mut proof) = opened(4)?;
    proof.shplonk_q_commit = proof.shplonk_q_commit.mul(&num(3));
    assert!(!verify(&vk, &com, &pt, &val, &proof)?);
    Ok(())
}

#[test]
fn test_gemini_reject_tampered_kzg_witness() -> Result<(), PCSError> {
    let (vk, com, pt, val, mut proof) = opened(4)?;
    proof.kzg_witness = proof.kzg_witness.mul(&num(5));
    assert!(!verify(&vk, &com, &pt, &val, &proof)?);
    Ok(())
}

#[test]
fn test_gemini_verify_rejects_wrong_point_len() -> Result<(), PCSError> {
    let mut rng = test_rng();
    let (vk, com, _pt, val, proof) = opened(4)?;
    let short_pt = rvec(2, &mut rng);
    let r = verify(&vk, &com, &short_pt, &val, &proof);
    assert!(r.is_err(), "short point should return Error");
    Ok(())
}

#[test]
fn test_gemini_verify_rejects_huge_mu_without_panic() {
    let (vk, com, pt, val, mut proof) = opened(2).unwrap();
    proof.mu = usize::BITS as usize;
    let r = verify(&vk, &com, &pt, &val, &proof);
    assert!(rejected(r), "huge mu should fail without panic");
}

#[test]
fn test_gemini_multi_open_k1() -> Result<(), PCSError> {
    let mut rng = test_rng();
    let nv = 4;
    let (ck, vk) = setup(nv);
    let (polys, pts, evals) = batch(1, nv, &mut rng);
    let comms = commit_all(&ck, &polys);
    let proof = multi_open(&ck, &polys, &pts, &evals, &mut transcript())?;
    assert!(batch_verify(&vk, &comms, &pts, &proof, &mut transcript())?);
    Ok(())
}

#[test]
fn test_gemini_multi_open_distinct() -> Result<(), PCSError> {
    let mut rng = test_rng();
    let nv = 4;
    let (ck, vk) = setup(nv);
    let (polys, pts, evals) = batch(3, nv, &mut rng);
    let comms = commit_all(&ck, &polys);
    let proof = multi_open(&ck, &polys, &pts, &evals, &mut transcript())?;
    assert!(batch_verify(&vk, &comms, &pts, &proof, &mut transcript())?);
    Ok(())
}

#[test]
fn test_gemini_multi_open_repeated() -> Result<(), PCSError> {
    let mut rng = test_rng();
    let nv = 4;
    let (ck, vk) = setup(nv);
    let pt = rvec(nv, &mut rng);
    let polys: Vec<Mle> = (0..3).map(|_| rpoly(nv, &mut rng)).collect();
    let pts = vec![pt.clone(), pt.clone(), pt.clone()];
    let evals = values(&polys, &pts);
    let comms = commit_all(&ck, &polys);
    let proof = multi_open(&ck, &polys, &pts, &evals, &mut transcript())?;
    assert!(batch_verify(&vk, &comms, &pts, &proof, &mut transcript())?);
    Ok(())
}

#[test]
fn test_gemini_batch_reject_wrong_eval() -> Result<(), PCSError> {
    let mut rng = test_rng();
    let nv = 4;
    let (ck, vk) = setup(nv);
    let (polys, pts, mut evals) = batch(3, nv, &mut rng);
    let comms = commit_all(&ck, &polys);
    evals[0] = evals[0].add(Scalar::one());
    let proof = multi_open(&ck, &polys, &pts, &evals, &mut transcript())?;
    assert!(!batch_verify(&vk, &comms, &pts, &proof, &mut transcript())?);
    Ok(())
}

#[test]
fn test_gemini_batch_reject_wrong_point() -> Result<(), PCSError> {
    let mut rng = test_rng();
    let nv = 4;
    let (ck, vk) = setup(nv);
    let (polys, pts, evals) = batch(3, nv, &mut rng);
    let comms = commit_all(&ck, &polys);
    let proof = multi_open(&ck, &polys, &pts, &evals, &mut transcript())?;
    let mut wp = pts.clone();
    wp[0] = rvec(nv, &mut rng);
    assert!(rejected(batch_verify(&vk, &comms, &wp, &proof, &mut transcript())));
    Ok(())
}

#[test]
fn test_gemini_batch_reject_wrong_commitment() -> Result<(), PCSError> {
    let mut rng = test_rng();
    let nv = 4;
    let (ck, vk) = setup(nv);
    let (polys, pts, evals) = batch(3, nv, &mut rng);
    let comms = commit_all(&ck, &polys);
    let proof = multi_open(&ck, &polys, &pts, &evals, &mut transcript())?;
    let mut wc = comms.clone();
    wc[0] = GeminiPCS::commit(&ck, &rpoly(nv, &mut rng))?;
    assert!(!batch_verify(&vk, &wc, &pts, &proof, &mut transcript())?);
    Ok(())
}

#[test]
fn test_gemini_batch_reject_malformed_lengths() -> Result<(), PCSError> {
    let mut rng = test_rng();
    let nv = 4;
    let (ck, vk) = setup(nv);
    let (polys, pts, evals) = batch(3, nv, &mut rng);
    let comms = commit_all(&ck, &polys);
    let mut proof = multi_open(&ck, &polys, &pts, &evals, &mut transcript())?;
    assert!(rejected(batch_verify(&vk, &comms[..2], &pts, &proof, &mut transcript())));
    proof.f_i_eval_at_point_i.pop();
    assert!(rejected(batch_verify(&vk, &comms, &pts, &proof, &mut transcript())));
    Ok(())
}

#[test]
fn gemini_multi_open_rejects_malformed_requests() {
    let mut rng = test_rng();
    let (polys, pts, evals) = batch(2, 3, &mut rng);
    let mut t = transcript();
    let refused = |r: Result<BatchPlan, PCSError>| matches!(r, Err(PCSError::InvalidParameters(_)));
    assert!(refused(GeminiPCS::multi_open_begin(&[], &[], &[], &mut t)));
    assert!(refused(GeminiPCS::multi_open_begin(&polys, &pts[..1], &evals, &mut t)));
    assert!(refused(GeminiPCS::multi_open_begin(&polys, &pts, &evals[..1], &mut t)));
    let mut bad_polys = polys.clone();
    bad_polys[1] = rpoly(4, &mut rng);
    assert!(refused(GeminiPCS::multi_open_begin(&bad_polys, &pts, &evals, &mut t)));
    let mut bad_pts = pts.clone();
    bad_pts[1].push(num(1));
    assert!(refused(GeminiPCS::multi_open_begin(&polys, &bad_pts, &evals, &mut t)));
    let (ck, _) = setup(3);
    let plan = GeminiPCS::multi_open_begin(&polys, &pts, &evals, &mut t).unwrap();
    let r = GeminiPCS::multi_open_finish(&ck, &plan, None);
    assert!(matches!(r, Err(PCSError::InvalidProver(_))));
}

#[test]
fn test_gemini_verify_rejects_mu_above_vk_bound() -> Result<(), PCSError> {
    let mut rng = test_rng();
    let big_nv = 6;
    let small_nv = 4;
    let srs = gen(big_nv);
    let (big_ck, _) = GeminiPCS::trim(&srs, Some(big_nv))?;
    let (_, small_vk) = GeminiPCS::trim(&srs, Some(small_nv))?;
    let p = rpoly(big_nv, &mut rng);
    let pt = rvec(big_nv, &mut rng);
    let com = GeminiPCS::commit(&big_ck, &p)?;
    let (proof, val) = open(&big_ck, &p, &pt)?;
    let r = verify(&small_vk, &com, &pt, &val, &proof);
    assert!(r.is_err(), "mu above vk bound should return Error");
    Ok(())
}

#[test]
fn test_gemini_verify_rejects_degree_above_vk_bound() -> Result<(), PCSError> {
    let mut rng = test_rng();
    let big_nv = 6;
    let small_nv = 4;
    let srs = gen(big_nv);
    let (big_ck, _) = GeminiPCS::trim(&srs, Some(big_nv))?;
    let (_, small_vk) = srs.trim(1 << small_nv)?;
    let p = rpoly(big_nv, &mut rng);
    let pt = rvec(big_nv, &mut rng);
    let com = GeminiPCS::commit(&big_ck, &p)?;
    let (proof, val) = open(&big_ck, &p, &pt)?;
    let r = verify(&small_vk, &com, &pt, &val, &proof);
    assert!(r.is_err(), "degree above vk bound should return Error");
    Ok(())
}

#[test]
fn gemini_keys() {
    let srs = gen(3);
    assert_eq!(srs.prover_param.powers.len(), 9);
    let (ck, vk) = srs.trim(5).unwrap();
    assert_eq!((ck.max_degree, ck.powers.len()), (5, 6));
    assert_eq!((vk.max_degree, vk.max_num_vars), (5, 2));
    assert!(matches!(srs.trim(9), Err(PCSError::InvalidParameters(_))));
    assert!(GeminiPCS::trim(&srs, None).is_err());
    assert!(GeminiPCS::trim(&srs, Some(4)).is_err());
    let (t, g, h) = (num(7), G1::generator(), G2::generator());
    assert!(GeminiPCS::gen_srs_for_testing(t, g, h, 0).is_err());
    let exact = GeminiPCS::gen_srs_for_testing(t, g, h, 1).unwrap();
    assert_eq!(exact.prover_param.powers, vec![g, g.mul(&num(7)), g.mul(&num(49))]);
    assert_eq!(exact.verifier_param.h_x, h.mul(&num(7)));
}

#[test]
fn test_gemini_commit_rejects_srs_too_small_without_panic() -> Result<(), PCSError> {
    let mut rng = test_rng();
    let (tiny_ck, _) = GeminiPCS::trim(&gen(4), Some(2))?;
    let big_poly = rpoly(4, &mut rng);
    assert!(
        GeminiPCS::commit(&tiny_ck, &big_poly).is_err(),
        "commit with too-small SRS should return Err"
    );
    Ok(())
}

#[test]
fn test_gemini_open_rejects_srs_too_small_without_panic() -> Result<(), PCSError> {
    let mut rng = test_rng();
    let (tiny_ck, _) = GeminiPCS::trim(&gen(4), Some(2))?;
    let big_poly = rpoly(4, &mut rng);
    let pt = rvec(4, &mut rng);
    assert!(open(&tiny_ck, &big_poly, &pt).is_err(), "open with too-small SRS should return Err");
    Ok(())
}

#[test]
fn test_gemini_batch_verify_rejects_huge_num_var_without_panic() -> Result<(), PCSError> {
    let mut rng = test_rng();
    let nv = 2;
    let (ck, vk) = setup(nv);
    let (polys, pts, evals) = batch(1, nv, &mut rng);
    let comms = commit_all(&ck, &polys);
    let mut proof = multi_open(&ck, &polys, &pts, &evals, &mut transcript())?;
    proof.sum_check_proof.point = vec![Scalar::zero(); usize::BITS as usize];
    let r = batch_verify(&vk, &comms, &pts, &proof, &mut transcript());
    assert!(rejected(r), "huge num_var should fail");
    Ok(())
}

#[test]
fn test_gemini_batch_verify_rejects_num_var_above_vk_bound() -> Result<(), PCSError> {
    let mut rng = test_rng();
    let big_nv = 4;
    let small_nv = 2;
    let srs = gen(big_nv);
    let (big_ck, _) = GeminiPCS::trim(&srs, Some(big_nv))?;
    let (_, small_vk) = GeminiPCS::trim(&srs, Some(small_nv))?;
    let (polys, pts, evals) = batch(1, big_nv, &mut rng);
    let comms = commit_all(&big_ck, &polys);
    let proof = multi_open(&big_ck, &polys, &pts, &evals, &mut transcript())?;
    let r = batch_verify(&small_vk, &comms, &pts, &proof, &mut transcript());
    assert!(r.is_err(), "num_var above vk bound should return Error");
    Ok(())
}

#[test]
fn test_gemini_proof_kzg_count_is_minimal() {
    let mut rng = test_rng();
    for nv in [2, 4, 6] {
        let (ck, vk) = setup(nv);
        let p = rpoly(nv, &mut rng);
        let pt = rvec(nv, &mut rng);
        let com = GeminiPCS::commit(&ck, &p).unwrap();
        let (proof, val) = open(&ck, &p, &pt).unwrap();
        assert_eq!(
            proof.fold_comms.len(),
            nv - 1,
            "nv={nv}: expected {} fold comms, got {}",
            nv - 1,
            proof.fold_comms.len()
        );
        assert!(verify(&vk, &com, &pt, &val, &proof).unwrap());
    }
}

#[test]
fn test_gemini_reject_tampered_next_round_eval() -> Result<(), PCSError> {
    let (vk, com, pt, val, mut proof) = opened(5)?;
    proof.fold_evals[1].0 = proof.fold_evals[1].0.add(Scalar::one());
    assert!(
        !verify(&vk, &com, &pt, &val, &proof)?,
        "tampered next-round eval should reject"
    );
    Ok(())
}

#[test]
fn test_gemini_reject_tampered_final_coeff_affects_last_fold() -> Result<(), PCSError> {
    let (vk, com, pt, val, mut proof) = opened(4)?;
    proof.final_coeffs.0 = proof.final_coeffs.0.add(Scalar::one());
    assert!(!verify(&vk, &com, &pt, &val, &proof)?, "tampered final coeff should reject");
    Ok(())
}

#[test]
fn test_gemini_verify_rejects_short_fold_comms_without_panic() {
    let (vk, com, pt, val, mut proof) = opened(4).unwrap();
    proof.fold_comms.pop();
    assert!(rejected(verify(&vk, &com, &pt, &val, &proof)), "short fold_comms should fail");
}

#[test]
fn test_gemini_verify_rejects_long_fold_comms_without_panic() {
    let (vk, com, pt, val, mut proof) = opened(4).unwrap();
    let extra = proof.fold_comms[0];
    proof.fold_comms.push(extra);
    assert!(rejected(verify(&vk, &com, &pt, &val, &proof)), "long fold_comms should fail");
}

#[test]
fn test_kzg_quotient_correctness() {
    let mut rng = test_rng();
    for deg in [1, 2, 4, 8] {
        let coeffs = rvec(deg + 1, &mut rng);
        let point = rs(&mut rng);
        let value = poly_eval(&coeffs, point);
        let q = kzg_quotient(&coeffs, point, value);
        let test_x = rs(&mut rng);
        let f_test = poly_eval(&coeffs, test_x);
        let q_test = poly_eval(&q, test_x);
        let recovered = test_x.sub(point).mul(q_test).add(value);
        assert_eq!(f_test, recovered, "kzg_quotient failed at deg={deg}");
    }
}

/// What a prover holds before `z` is drawn.
struct Opening {
    n: usize,
    a_polys: Vec<Vec<Scalar>>,
    claims: Vec<GeminiClaim>,
    c0: Scalar,
    nu: Scalar,
    q: Vec<Scalar>,
    z: Scalar,
}

fn opening<R: Rng>(mu: usize, rng: &mut R) -> Opening {
    let n = 1usize << mu;
    let pt = rvec(mu, rng);
    let mut a_polys = vec![rvec(n, rng)];
    for i in 0..mu.saturating_sub(1) {
        a_polys.push(fold_polynomial(&a_polys[i], pt[i]));
    }
    assert_eq!(a_polys, fold_all(&a_polys[0], &pt));
    let c0 = a_polys[mu - 1][0];
    let c1 = a_polys[mu - 1][1];
    let r = rs(rng);
    let mut fold_evals = vec![];
    let mut rp = r;
    for a in a_polys.iter().take(mu - 1) {
        fold_evals.push((poly_eval(a, rp), poly_eval(a, rp.neg())));
        rp = rp.mul(rp);
    }
    let claims = build_gemini_claims(mu, r, &fold_evals, c0, c1);
    let nu = rs(rng);
    let q = compute_shplonk_batched_quotient(&claims, &a_polys, nu, n);
    let z = loop {
        let z = rs(rng);
        if validate_shplonk_z_against_claims(z, &claims).is_ok() {
            break z;
        }
    };
    Opening { n, a_polys, claims, c0, nu, q, z }
}

#[test]
fn test_shplonk_g_vanishes_at_z() {
    let mut rng = test_rng();
    for nv in [1, 2, 4] {
        let o = opening(nv, &mut rng);
        let g = compute_shplonk_g_coeffs(&o.claims, &o.a_polys, &o.q, o.nu, o.z, o.n).unwrap();
        assert_eq!(poly_eval(&g, o.z), Scalar::zero(), "G(z) must be zero for nv={nv}");
    }
}

#[test]
fn shplonk_refuses_a_point_of_a_claim() {
    let mut rng = test_rng();
    let o = opening(3, &mut rng);
    let z = o.claims[1].point;
    assert!(compute_shplonk_g_coeffs(&o.claims, &o.a_polys, &o.q, o.nu, z, o.n).is_err());
    let g = G1::generator();
    assert!(compute_shplonk_g_commit(&o.claims, &g, &g, &[g, g], o.nu, z, &g).is_err());
}

#[test]
fn test_shplonk_commit_g_matches_verifier_reduction() -> Result<(), PCSError> {
    let mut rng = test_rng();
    for nv in [1, 2, 4] {
        let (ck, vk) = setup(nv);
        let o = opening(nv, &mut rng);
        let com = ck.try_commit(&o.a_polys[0])?;
        let mut fold_comms = vec![];
        for a in o.a_polys.iter().skip(1) {
            fold_comms.push(ck.try_commit(a)?);
        }
        let q_commit = ck.try_commit(&o.q)?;
        let g_coeffs = compute_shplonk_g_coeffs(&o.claims, &o.a_polys, &o.q, o.nu, o.z, o.n)?;
        let g_direct_commit = ck.try_commit(&g_coeffs)?;
        let g_msm_commit =
            compute_shplonk_g_commit(&o.claims, &q_commit, &com, &fold_comms, o.nu, o.z, &vk.g)?;
        assert_eq!(
            g_direct_commit, g_msm_commit,
            "direct Commit(G) must equal verifier-reduction [G] for nv={nv}"
        );
        let witness_coeffs = kzg_quotient(&g_coeffs, o.z, Scalar::zero());
        let witness = ck.try_commit(&witness_coeffs)?;
        assert!(
            kzg_verify_pairing(&vk, &g_msm_commit, o.z, Scalar::zero(), &witness),
            "KZG pairing must verify G(z)=0 for nv={nv}"
        );
        assert!(!kzg_verify_pairing(&vk, &g_msm_commit, o.z, Scalar::one(), &witness));
    }
    Ok(())
}

#[test]
fn test_shplonk_g_commit_differs_with_tampered_input() -> Result<(), PCSError> {
    let mut rng = test_rng();
    let nv = 4;
    let (ck, vk) = setup(nv);
    let o = opening(nv, &mut rng);
    let com = ck.try_commit(&o.a_polys[0])?;
    let mut fold_comms = vec![];
    for a in o.a_polys.iter().skip(1) {
        fold_comms.push(ck.try_commit(a)?);
    }
    let q_commit = ck.try_commit(&o.q)?;
    let g_commit =
        compute_shplonk_g_commit(&o.claims, &q_commit, &com, &fold_comms, o.nu, o.z, &vk.g)?;
    let tampered_q = q_commit.mul(&num(2));
    let g_tampered_q =
        compute_shplonk_g_commit(&o.claims, &tampered_q, &com, &fold_comms, o.nu, o.z, &vk.g)?;
    assert_ne!(g_commit, g_tampered_q, "tampered Q commit must differ");
    let mut tampered = o.claims.clone();
    tampered.last_mut().unwrap().evaluation = o.c0.add(Scalar::one());
    let g_tampered_eval =
        compute_shplonk_g_commit(&tampered, &q_commit, &com, &fold_comms, o.nu, o.z, &vk.g)?;
    assert_ne!(g_commit, g_tampered_eval, "tampered evaluation must differ");
    Ok(())
}

fn derive_nu(claims: &[GeminiClaim], orig_cm: &G1, fold_cms: &[G1]) -> Scalar {
    let mut t: IOPTranscript = IOPTranscript::new("gemini-open");
    t.append_field_element("mu", &num(claims.len() as u64));
    append_gemini_claims_to_transcript(claims, orig_cm, fold_cms, &mut t);
    t.get_and_append_challenge("Shplonk:nu")
}

fn four_claims() -> Vec<GeminiClaim> {
    let mut rng = test_rng();
    let c0 = rs(&mut rng);
    let c1 = rs(&mut rng);
    let r = rs(&mut rng);
    let fe = vec![(rs(&mut rng), rs(&mut rng))];
    build_gemini_claims(2, r, &fe, c0, c1)
}

fn nu_after_changed_evaluation(k: usize) -> (Scalar, Scalar) {
    let claims = four_claims();
    let g = G1::generator();
    let nu_a = derive_nu(&claims, &g, &[g]);
    assert_eq!(nu_a, derive_nu(&claims, &g, &[g]));
    let mut claims_b = claims.clone();
    claims_b[k].evaluation = claims_b[k].evaluation.add(Scalar::one());
    (nu_a, derive_nu(&claims_b, &g, &[g]))
}

#[test]
fn test_transcript_nu_changes_on_positive_eval() {
    let (nu_a, nu_b) = nu_after_changed_evaluation(0);
    assert_ne!(nu_a, nu_b, "changing positive eval must change nu");
}

#[test]
fn test_transcript_nu_changes_on_negative_eval() {
    let (nu_a, nu_b) = nu_after_changed_evaluation(1);
    assert_ne!(nu_a, nu_b, "changing negative eval must change nu");
}

#[test]
fn test_transcript_nu_changes_on_c0() {
    let (nu_a, nu_b) = nu_after_changed_evaluation(2);
    assert_ne!(nu_a, nu_b, "changing c0 must change nu");
}

#[test]
fn test_transcript_nu_changes_on_c0_plus_c1() {
    let (nu_a, nu_b) = nu_after_changed_evaluation(3);
    assert_ne!(nu_a, nu_b, "changing c0+c1 must change nu");
}

#[test]
fn test_transcript_nu_changes_on_fold_commit() {
    let claims = four_claims();
    let g = G1::generator();
    let nu_a = derive_nu(&claims, &g, &[g]);
    let nu_b = derive_nu(&claims, &g, &[g.mul(&num(2))]);
    assert_ne!(nu_a, nu_b, "changing fold commit must change nu");
}

#[test]
fn test_transcript_nu_changes_on_original_commitment() {
    let claims = four_claims();
    let g = G1::generator();
    let nu_a = derive_nu(&claims, &g, &[g]);
    let nu_b = derive_nu(&claims, &g.mul(&num(3)), &[g]);
    assert_ne!(nu_a, nu_b, "changing original commitment must change nu");
}

#[test]
fn test_transcript_nu_changes_on_claim_point() {
    let claims = four_claims();
    let g = G1::generator();
    let nu_a = derive_nu(&claims, &g, &[g]);
    let mut claims_b = claims.clone();
    claims_b[2].point = claims_b[2].point.add(Scalar::one());
    let nu_b = derive_nu(&claims_b, &g, &[g]);
    assert_ne!(nu_a, nu_b, "changing claim point must change nu");
}

#[test]
fn test_transcript_nu_changes_on_claim_idx() {
    let mut claims = four_claims();
    let g = G1::generator();
    let nu_a = derive_nu(&claims, &g, &[g]);
    claims.swap(0, 1);
    let nu_b = derive_nu(&claims, &g, &[g]);
    assert_ne!(nu_a, nu_b, "changing claim order must change nu");
}

#[test]
fn gemini_claims_of_three_variables() {
    let e = [(num(10), num(11)), (num(12), num(13))];
    let claims = build_gemini_claims(3, num(2), &e, num(20), num(30));
    let got: Vec<(usize, Scalar, Scalar)> =
        claims.iter().map(|c| (c.round, c.point, c.evaluation)).collect();
    let want = vec![
        (0, num(2), num(10)),
        (0, num(2).neg(), num(11)),
        (1, num(4), num(12)),
        (1, num(4).neg(), num(13)),
        (2, num(0), num(20)),
        (2, num(1), num(50)),
    ];
    assert_eq!(got, want);
    let g = G1::generator();
    let (g2, g3) = (g.mul(&num(2)), g.mul(&num(3)));
    assert_eq!(claim_commit(0, &g, &[g2, g3]), g);
    assert_eq!(claim_commit(2, &g, &[g2, g3]), g3);
}

#[test]
fn gemini_fold_values() {
    let f = [num(1), num(2), num(3), num(5)];
    let folded = fold_polynomial(&f, num(3));
    assert_eq!(folded, vec![num(4), num(9)]);
    let even = poly_eval(&f, num(2)).add(poly_eval(&f, num(2).neg()));
    let odd = poly_eval(&f, num(2)).sub(poly_eval(&f, num(2).neg()));
    let half = num(2).inverse().unwrap();
    let even_part = even.mul(half).mul(num(3).neg().add(num(1)));
    let odd_part = odd.mul(half).mul(num(2).inverse().unwrap()).mul(num(3));
    assert_eq!(even_part.add(odd_part), poly_eval(&folded, num(4)));
}

#[test]
fn test_validate_shplonk_r_rejects_zero() {
    assert!(validate_shplonk_r(Scalar::zero()).is_err());
}

#[test]
fn test_validate_shplonk_r_accepts_nonzero() {
    let mut rng = test_rng();
    let r = rs(&mut rng);
    assert!(!r.is_zero());
    assert!(validate_shplonk_r(r).is_ok());
}

#[test]
fn test_validate_shplonk_nu_rejects_zero() {
    assert!(validate_shplonk_nu(Scalar::zero()).is_err());
}

#[test]
fn test_validate_shplonk_nu_accepts_nonzero() {
    let mut rng = test_rng();
    let nu = rs(&mut rng);
    assert!(!nu.is_zero());
    assert!(validate_shplonk_nu(nu).is_ok());
}

#[test]
fn test_validate_shplonk_z_rejects_zero() {
    assert!(validate_shplonk_z_against_claims(Scalar::zero(), &four_claims()).is_err());
}

#[test]
fn test_validate_shplonk_z_rejects_collision_with_fold_point() {
    let mut rng = test_rng();
    let r = rs(&mut rng);
    let mut rp = r;
    for _ in 0..3 {
        let fe: Vec<(Scalar, Scalar)> = (0..3).map(|_| (rs(&mut rng), rs(&mut rng))).collect();
        let claims = build_gemini_claims(4, r, &fe, rs(&mut rng), rs(&mut rng));
        assert!(
            validate_shplonk_z_against_claims(rp, &claims).is_err(),
            "z collides with positive claim point"
        );
        assert!(
            validate_shplonk_z_against_claims(rp.neg(), &claims).is_err(),
            "z collides with negative claim point"
        );
        rp = rp.mul(rp);
    }
}

#[test]
fn test_validate_shplonk_z_rejects_collision_with_final_0() {
    assert!(
        validate_shplonk_z_against_claims(Scalar::zero(), &four_claims()).is_err(),
        "z=0 must be rejected"
    );
}

#[test]
fn test_validate_shplonk_z_rejects_collision_with_final_1() {
    assert!(
        validate_shplonk_z_against_claims(Scalar::one(), &four_claims()).is_err(),
        "z=1 must be rejected"
    );
}

#[test]
fn test_validate_shplonk_z_accepts_non_colliding() {
    let mut rng = test_rng();
    for nv in [1usize, 2, 4] {
        let fe: Vec<(Scalar, Scalar)> =
            (0..nv.saturating_sub(1)).map(|_| (rs(&mut rng), rs(&mut rng))).collect();
        let claims = build_gemini_claims(nv, rs(&mut rng), &fe, rs(&mut rng), rs(&mut rng));
        let z = loop {
            let z = rs(&mut rng);
            if validate_shplonk_z_against_claims(z, &claims).is_ok() {
                break z;
            }
        };
        assert!(
            validate_shplonk_z_against_claims(z, &claims).is_ok(),
            "valid z must be accepted for nv={nv}"
        );
    }
}

#[test]
fn test_gemini_reject_tampered_q_commit() -> Result<(), PCSError> {
    let (vk, com, pt, val, mut proof) = opened(4)?;
    proof.shplonk_q_commit = proof.shplonk_q_commit.mul(&num(2));
    assert!(!verify(&vk, &com, &pt, &val, &proof)?);
    Ok(())
}

#[test]
fn test_open_with_commitment_matches_trait_open() -> Result<(), PCSError> {
    let mut rng = test_rng();
    for nv in [4usize, 6, 8] {
        let (ck, vk) = setup(nv);
        let p = rpoly(nv, &mut rng);
        let pt = rvec(nv, &mut rng);
        let com = GeminiPCS::commit(&ck, &p)?;
        let (proof_a, val_a) = GeminiPCS::open_with_commitment(&ck, &p, &pt, &com)?;
        let (proof_b, val_b) = open(&ck, &p, &pt)?;
        assert_eq!(val_a, val_b);
        assert!(verify(&vk, &com, &pt, &val_a, &proof_a)?);
        assert!(verify(&vk, &com, &pt, &val_b, &proof_b)?);
    }
    Ok(())
}

#[test]
fn test_open_with_commitment_valid_proof_accepted() -> Result<(), PCSError> {
    let mut rng = test_rng();
    for nv in [4usize, 6, 8, 10] {
        let (ck, vk) = setup(nv);
        let p = rpoly(nv, &mut rng);
        let pt = rvec(nv, &mut rng);
        let com = GeminiPCS::commit(&ck, &p)?;
        let (proof, val) = GeminiPCS::open_with_commitment(&ck, &p, &pt, &com)?;
        assert!(verify(&vk, &com, &pt, &val, &proof)?);
    }
    Ok(())
}

#[test]
fn test_open_with_commitment_rejects_wrong_commitment() -> Result<(), PCSError> {
    let mut rng = test_rng();
    for nv in [4usize, 8] {
        let (ck, vk) = setup(nv);
        let p = rpoly(nv, &mut rng);
        let p2 = rpoly(nv, &mut rng);
        let pt = rvec(nv, &mut rng);
        let wrong_com = GeminiPCS::commit(&ck, &p2)?;
        let r = GeminiPCS::open_with_commitment(&ck, &p, &pt, &wrong_com);
        if let Ok((proof, val)) = r {
            let com = GeminiPCS::commit(&ck, &p)?;
            assert!(
                !verify(&vk, &com, &pt, &val, &proof)?,
                "wrong commitment should not produce verifiable proof"
            );
            assert!(
                !verify(&vk, &wrong_com, &pt, &val, &proof)?,
                "proof under the supplied wrong commitment should not verify"
            );
        }
    }
    Ok(())
}

#[test]
fn test_open_with_commitment_wrong_point_len_no_panic() -> Result<(), PCSError> {
    let mut rng = test_rng();
    let nv = 4;
    let (ck, _) = setup(nv);
    let p = rpoly(nv, &mut rng);
    let com = GeminiPCS::commit(&ck, &p)?;
    let short = rvec(2, &mut rng);
    assert!(GeminiPCS::open_with_commitment(&ck, &p, &short, &com).is_err());
    let long = rvec(8, &mut rng);
    assert!(GeminiPCS::open_with_commitment(&ck, &p, &long, &com).is_err());
    Ok(())
}

#[test]
fn gemini_transcripts_bind_what_came_before() -> Result<(), PCSError> {
    let mut rng = test_rng();
    let (ck, vk) = setup(3);
    let p = rpoly(3, &mut rng);
    let pt = rvec(3, &mut rng);
    let com = GeminiPCS::commit(&ck, &p)?;
    let (proof, val) = gemini_open_with_transcript(&ck, &p, &pt, &mut transcript())?;
    assert!(gemini_verify_with_transcript(&vk, &com, &pt, &val, &proof, &mut transcript())?);
    let mut other = transcript();
    other.append_field_element("more", &Scalar::one());
    assert!(!gemini_verify_with_transcript(&vk, &com, &pt, &val, &proof, &mut other)?);
    Ok(())
}

#[test]
fn gemini_domain_sizes() {
    assert_eq!(checked_domain_size_from_mu(5).unwrap(), 32);
    assert!(matches!(checked_domain_size_from_mu(0), Err(PCSError::InvalidProof(_))));
    assert!(matches!(checked_domain_size_from_mu(64), Err(PCSError::InvalidProof(_))));
}

#[test]
fn shplonk_batched_opening_is_accepted() -> Result<(), PCSError> {
    let mut rng = test_rng();
    let (ck, vk) = setup(3);
    let f = rvec(8, &mut rng);
    let g = rvec(4, &mut rng);
    let (x, y) = (rs(&mut rng), rs(&mut rng));
    let fold = poly_eval(&f, x);
    let claims = [
        ProverClaim {
            coeffs: f.clone(),
            point: x.neg(),
            value: poly_eval(&f, x.neg()),
            gemini_fold: true,
        },
        ProverClaim { coeffs: g.clone(), point: y, value: poly_eval(&g, y), gemini_fold: false },
    ];
    let out = shplonk_prove(&ck, &claims, &[fold], &mut transcript())?;
    let sent = [
        VerifierClaim {
            commitment: ck.try_commit(&f)?,
            point: x.neg(),
            value: poly_eval(&f, x.neg()),
        },
        VerifierClaim { commitment: ck.try_commit(&g)?, point: y, value: poly_eval(&g, y) },
    ];
    let (g_com, z) =
        shplonk_verify_reduce(&sent, &[fold], &out.q_commit, &vk.g, &mut transcript())?;
    assert_eq!(z, out.z_challenge);
    assert!(kzg_verify_pairing(&vk, &g_com, z, Scalar::zero(), &out.final_witness));
    let mut wrong = sent.clone();
    wrong[1].value = wrong[1].value.add(Scalar::one());
    let (g_bad, z_bad) =
        shplonk_verify_reduce(&wrong, &[fold], &out.q_commit, &vk.g, &mut transcript())?;
    assert!(!kzg_verify_pairing(&vk, &g_bad, z_bad, Scalar::zero(), &out.final_witness));
    Ok(())
}

#[test]
fn a_key_shorter_than_the_table_is_refused() -> Result<(), PCSError> {
    let mut rng = test_rng();
    let srs = GeminiPCS::gen_srs_for_testing(rs(&mut rng), rg1(&mut rng), rg2(&mut rng), 2)?;
    let (ck, _vk) = GeminiPCS::trim(&srs, Some(2))?;
    let com = rg1(&mut rng);
    for nv in [3usize, 5] {
        let p = rpoly(nv, &mut rng);
        let pt = rvec(nv, &mut rng);
        let r = GeminiPCS::open(&ck, &p, &pt);
        assert!(matches!(r, Err(PCSError::InvalidParameters(_))));
        let r = GeminiPCS::open_with_commitment(&ck, &p, &pt, &com);
        assert!(matches!(r, Err(PCSError::InvalidParameters(_))));
    }
    Ok(())
}
