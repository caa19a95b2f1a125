#![allow(dead_code, unused_imports)]

use ark_bls12_381::{Fq, Fr, G1Affine};
use ark_ff::{BigInt, PrimeField};
use ark_serialize::CanonicalSerialize;
use ark_std::rand::Rng;
use ark_std::{test_rng, UniformRand};
use mlpcs::bdfg::poly_eval;
use mlpcs::errors::PCSError;
use mlpcs::field::Scalar;
use mlpcs::group::{G1, G2};
use mlpcs::tensor::Mle;
use mlpcs::transcript::IOPTranscript;
use mlpcs::batching::{aggregate, aggregate_commitments, BatchPlan};
use mlpcs::chopin::srs::{ChopinProverParam, ChopinVerifierParam};
use mlpcs::chopin::{ChopinPCS, ChopinProof};

fn rs<R: Rng>(rng: &mut R) -> Scalar {
    Scalar::from_limbs(Fr::rand(rng).into_bigint().0).unwrap()
}

fn rvec<R: Rng>(n: usize, rng: &mut R) -> Vec<Scalar> {
    (0..n).map(|_| rs(rng)).collect()
}

fn rg1<R: Rng>(rng: &mut R) -> G1 {
    G1::generator().mul(&rs(rng))
}

fn rg2<R: Rng>(rng: &mut R) -> G2 {
    G2::generator().mul(&rs(rng))
}

fn rpoly<R: Rng>(nv: usize, rng: &mut R) -> Mle {
    Mle::from_evaluations_vec(nv, rvec(1 << nv, rng))
}

fn num(n: u64) -> Scalar {
    Scalar::from_u64(n)
}

fn ark_scalar(v: &Scalar) -> Fr {
    Fr::from_bigint(BigInt(v.limbs())).unwrap()
}

fn ark_point(p: &G1) -> G1Affine {
    match p.coordinates() {
        None => G1Affine::identity(),
        Some((x, y)) => G1Affine::new(
            Fq::from_bigint(BigInt(x)).unwrap(),
            Fq::from_bigint(BigInt(y)).unwrap(),
        ),
    }
}

/// Value of the multilinear extension of a table, straight from its
/// definition.
fn direct_value(table: &[Scalar], point: &[Scalar]) -> Scalar {
    let mut sum = Scalar::zero();
    for i in 0..1usize << point.len() {
        let mut term = table[i];
        for (k, &u) in point.iter().enumerate() {
            term = term.mul(if (i >> k) & 1 == 1 {
                u
            } else {
                Scalar::one().sub(u)
            });
        }
        sum = sum.add(term);
    }
    sum
}

type Proof = ChopinProof;
/// A sumcheck for a sum of products of two multilinear polynomials: the values
/// of each round's polynomial at `0`, `1` and `2`, and the point.
#[derive(Clone)]
struct Sumcheck {
    rounds: Vec<[Scalar; 3]>,
    point: Vec<Scalar>,
}

fn line(a: Scalar, b: Scalar, t: Scalar) -> Scalar {
    a.add(t.mul(b.sub(a)))
}

fn fix_lowest(table: &[Scalar], t: Scalar) -> Vec<Scalar> {
    table.chunks(2).map(|c| line(c[0], c[1], t)).collect()
}

fn sumcheck_prove(plan: &BatchPlan, tr: &mut IOPTranscript) -> Sumcheck {
    let mut pairs: Vec<(Vec<Scalar>, Vec<Scalar>)> = plan
        .merged
        .iter()
        .zip(plan.eqs.iter())
        .map(|(m, e)| (m.evaluations.clone(), e.evaluations.clone()))
        .collect();
    let mut proof = Sumcheck { rounds: vec![], point: vec![] };
    for _ in 0..plan.num_var {
        let mut g = [Scalar::zero(); 3];
        for (t, slot) in g.iter_mut().enumerate() {
            for (m, e) in pairs.iter() {
                let (a, b) = (fix_lowest(m, num(t as u64)), fix_lowest(e, num(t as u64)));
                for (x, y) in a.iter().zip(b.iter()) {
                    *slot = slot.add(x.mul(*y));
                }
            }
        }
        tr.append_field_elements("round", &g);
        let c = tr.get_and_append_challenge("c");
        for p in pairs.iter_mut() {
            *p = (fix_lowest(&p.0, c), fix_lowest(&p.1, c));
        }
        proof.rounds.push(g);
        proof.point.push(c);
    }
    proof
}

/// The value that is left to be checked, where the rounds fit together.
fn sumcheck_verify(
    sum: Scalar,
    proof: &Sumcheck,
    tr: &mut IOPTranscript,
) -> Option<Scalar> {
    if proof.rounds.len() != proof.point.len() {
        return None;
    }
    let half = num(2).inverse().unwrap();
    let mut claim = sum;
    for (g, p) in proof.rounds.iter().zip(proof.point.iter()) {
        if g[0].add(g[1]) != claim {
            return None;
        }
        tr.append_field_elements("round", g);
        let c = tr.get_and_append_challenge("c");
        if c != *p {
            return None;
        }
        let (c1, c2) = (c.sub(num(1)), c.sub(num(2)));
        let first = g[0].mul(c1).mul(c2).mul(half);
        let third = g[2].mul(c).mul(c1).mul(half);
        claim = first.sub(g[1].mul(c).mul(c2)).add(third);
    }
    Some(claim)
}

/// A batched opening.
#[derive(Clone)]
struct BatchProof {
    sum_check_proof: Sumcheck,
    f_i_eval_at_point_i: Vec<Scalar>,
    g_prime_proof: Proof,
}

fn transcript() -> IOPTranscript {
    let mut t: IOPTranscript = IOPTranscript::new("t");
    t.append_field_element("init", &Scalar::zero());
    t
}

/// Polynomials with points of their own and their values.
fn batch<R: Rng>(k: usize, nv: usize, rng: &mut R) -> (Vec<Mle>, Vec<Vec<Scalar>>, Vec<Scalar>) {
    let polys: Vec<Mle> = (0..k).map(|_| rpoly(nv, rng)).collect();
    let pts: Vec<Vec<Scalar>> = (0..k).map(|_| rvec(nv, rng)).collect();
    let evals = values(&polys, &pts);
    (polys, pts, evals)
}

fn values(polys: &[Mle], pts: &[Vec<Scalar>]) -> Vec<Scalar> {
    polys.iter().zip(pts.iter()).map(|(p, pt)| p.evaluate(pt).unwrap()).collect()
}

fn setup(nv: usize) -> (ChopinProverParam, ChopinVerifierParam) {
    let mut rng = test_rng();
    let srs = ChopinPCS::gen_srs_for_testing(
        rs(&mut rng),
        rs(&mut rng),
        rg1(&mut rng),
        rg2(&mut rng),
        nv,
    )
    .unwrap();
    ChopinPCS::trim(&srs, Some(nv)).unwrap()
}

fn rejected(r: Result<bool, PCSError>) -> bool {
    matches!(r, Ok(false)) || r.is_err()
}

fn commitments(ck: &ChopinProverParam, polys: &[Mle]) -> Vec<G1> {
    polys.iter().map(|p| ChopinPCS::commit(ck, p).unwrap()).collect()
}

fn multi_open(
    ck: &ChopinProverParam,
    polys: &[Mle],
    pts: &[Vec<Scalar>],
    evals: &[Scalar],
    tr: &mut IOPTranscript,
) -> Result<BatchProof, PCSError> {
    let plan = ChopinPCS::multi_open_begin(polys, pts, evals, tr)?;
    let sum_check_proof = sumcheck_prove(&plan, tr);
    let a2 = Some(sum_check_proof.point.as_slice());
    let (g_prime_proof, _) = ChopinPCS::multi_open_finish(ck, &plan, a2)?;
    Ok(BatchProof { sum_check_proof, f_i_eval_at_point_i: evals.to_vec(), g_prime_proof })
}

fn batch_verify(
    vk: &ChopinVerifierParam,
    coms: &[G1],
    pts: &[Vec<Scalar>],
    bp: &BatchProof,
    tr: &mut IOPTranscript,
) -> Result<bool, PCSError> {
    let a2 = &bp.sum_check_proof.point;
    let evals = &bp.f_i_eval_at_point_i;
    let claim = ChopinPCS::batch_verify_begin(coms, pts, evals, a2.len(), tr)?;
    let expected = sumcheck_verify(claim.sum, &bp.sum_check_proof, tr);
    let proof = &bp.g_prime_proof;
    ChopinPCS::batch_verify_finish(vk, coms, pts, &claim, a2, expected, proof)
}

fn batch_open_verify(
    ck: &ChopinProverParam,
    vk: &ChopinVerifierParam,
    polys: &[Mle],
    pts: &[Vec<Scalar>],
) -> Result<bool, PCSError> {
    let evals = values(polys, pts);
    let proof = multi_open(ck, polys, pts, &evals, &mut transcript())?;
    batch_verify(vk, &commitments(ck, polys), pts, &proof, &mut transcript())
}

#[test]
fn tests_batch_k1() -> Result<(), PCSError> {
    let mut rng = test_rng();
    let nv = 4;
    let (ck, vk) = setup(nv + 2);
    let (polys, pts, _) = batch(1, nv, &mut rng);
    assert!(batch_open_verify(&ck, &vk, &polys, &pts)?);
    Ok(())
}

#[test]
fn tests_batch_multiple_distinct_points() -> Result<(), PCSError> {
    let mut rng = test_rng();
    let nv = 4;
    let (ck, vk) = setup(nv + 3);
    let (polys, pts, _) = batch(5, nv, &mut rng);
    assert!(batch_open_verify(&ck, &vk, &polys, &pts)?);
    Ok(())
}

#[test]
fn tests_batch_multiple_same_point() -> Result<(), PCSError> {
    let mut rng = test_rng();
    let nv = 4;
    let (ck, vk) = setup(nv + 3);
    let (polys, _, _) = batch(4, nv, &mut rng);
    let pt = rvec(nv, &mut rng);
    let pts = vec![pt; 4];
    assert!(batch_open_verify(&ck, &vk, &polys, &pts)?);
    Ok(())
}

#[test]
fn tests_batch_non_power_of_two_k() -> Result<(), PCSError> {
    let mut rng = test_rng();
    let nv = 4;
    let (ck, vk) = setup(nv + 3);
    for k in [3usize, 5, 6, 7] {
        let (polys, pts, _) = batch(k, nv, &mut rng);
        assert!(batch_open_verify(&ck, &vk, &polys, &pts)?, "k={k}");
    }
    Ok(())
}

#[test]
fn tests_batch_reject_wrong_eval() -> Result<(), PCSError> {
    let mut rng = test_rng();
    let nv = 4;
    let (ck, vk) = setup(nv + 2);
    let (polys, pts, mut evals) = batch(3, nv, &mut rng);
    evals[1] = evals[1].add(num(1));
    let comms = commitments(&ck, &polys);
    let proof = multi_open(&ck, &polys, &pts, &evals, &mut transcript())?;
    assert!(rejected(batch_verify(&vk, &comms, &pts, &proof, &mut transcript())));
    Ok(())
}

#[test]
fn tests_batch_reject_wrong_commitment() -> Result<(), PCSError> {
    let mut rng = test_rng();
    let nv = 4;
    let (ck, vk) = setup(nv + 2);
    let (polys, pts, evals) = batch(3, nv, &mut rng);
    let mut comms = commitments(&ck, &polys);
    comms[0] = ChopinPCS::commit(&ck, &rpoly(nv, &mut rng))?;
    let proof = multi_open(&ck, &polys, &pts, &evals, &mut transcript())?;
    assert!(!batch_verify(&vk, &comms, &pts, &proof, &mut transcript())?);
    Ok(())
}

#[test]
fn tests_batch_malicious_sumcheck_point_length_no_panic() -> Result<(), PCSError> {
    let mut rng = test_rng();
    let nv = 4;
    let (ck, vk) = setup(nv + 2);
    let (polys, pts, evals) = batch(3, nv, &mut rng);
    let comms = commitments(&ck, &polys);
    let mut proof = multi_open(&ck, &polys, &pts, &evals, &mut transcript())?;
    proof.sum_check_proof.point.push(rs(&mut rng));
    assert!(batch_verify(&vk, &comms, &pts, &proof, &mut transcript()).is_err());
    Ok(())
}

#[test]
fn tests_batch_malformed_inputs_error() -> Result<(), PCSError> {
    let mut rng = test_rng();
    let nv = 4;
    let (ck, _vk) = setup(nv + 2);
    let (polys, pts, evals) = batch(3, nv, &mut rng);
    let mut tr = transcript();
    assert!(multi_open(&ck, &[], &[], &[], &mut tr).is_err());
    assert!(multi_open(&ck, &polys, &pts, &evals[..2], &mut tr).is_err());
    let mut polys_bad = polys.clone();
    polys_bad[0] = rpoly(nv + 1, &mut rng);
    assert!(multi_open(&ck, &polys_bad, &pts, &evals, &mut tr).is_err());
    let mut pts_bad = pts.clone();
    pts_bad[0] = rvec(nv + 1, &mut rng);
    assert!(multi_open(&ck, &polys, &pts_bad, &evals, &mut tr).is_err());
    Ok(())
}

#[test]
fn chopin_batch_stages_report_a_failed_sumcheck() -> Result<(), PCSError> {
    let mut rng = test_rng();
    let nv = 4;
    let (ck, vk) = setup(nv);
    let (polys, pts, evals) = batch(2, nv, &mut rng);
    let comms = commitments(&ck, &polys);
    let plan = ChopinPCS::multi_open_begin(&polys, &pts, &evals, &mut transcript())?;
    let r = ChopinPCS::multi_open_finish(&ck, &plan, None);
    assert!(matches!(r, Err(PCSError::InvalidProver(_))));
    let proof = multi_open(&ck, &polys, &pts, &evals, &mut transcript())?;
    let a2 = &proof.sum_check_proof.point;
    let claim = ChopinPCS::batch_verify_begin(&comms, &pts, &evals, nv, &mut transcript())?;
    let inner = &proof.g_prime_proof;
    let r = ChopinPCS::batch_verify_finish(&vk, &comms, &pts, &claim, a2, None, inner);
    assert!(matches!(r, Err(PCSError::InvalidProver(_))));
    Ok(())
}

fn multi_open_with_commitments(
    ck: &ChopinProverParam,
    polys: &[Mle],
    coms: &[G1],
    pts: &[Vec<Scalar>],
    evals: &[Scalar],
    tr: &mut IOPTranscript,
) -> Result<BatchProof, PCSError> {
    let plan = ChopinPCS::multi_open_with_commitments_begin(polys, coms, pts, evals, tr)?;
    let sum_check_proof = sumcheck_prove(&plan, tr);
    let a2 = Some(sum_check_proof.point.as_slice());
    let (g_prime_proof, _) =
        ChopinPCS::multi_open_with_commitments_finish(ck, &plan, coms, pts, a2)?;
    Ok(BatchProof { sum_check_proof, f_i_eval_at_point_i: evals.to_vec(), g_prime_proof })
}

fn batch_with_commitments_open_verify(
    ck: &ChopinProverParam,
    vk: &ChopinVerifierParam,
    polys: &[Mle],
    pts: &[Vec<Scalar>],
) -> Result<bool, PCSError> {
    let evals = values(polys, pts);
    let comms = commitments(ck, polys);
    let proof = multi_open_with_commitments(ck, polys, &comms, pts, &evals, &mut transcript())?;
    batch_verify(vk, &comms, pts, &proof, &mut transcript())
}

#[test]
fn batch_with_commitments_k1() -> Result<(), PCSError> {
    let mut rng = test_rng();
    let nv = 4;
    let (ck, vk) = setup(nv + 2);
    let (polys, pts, _) = batch(1, nv, &mut rng);
    assert!(batch_with_commitments_open_verify(&ck, &vk, &polys, &pts)?);
    Ok(())
}

#[test]
fn batch_with_commitments_padded_key() -> Result<(), PCSError> {
    let mut rng = test_rng();
    let (ck, vk) = setup(6);
    let nv = 4;
    let (polys, pts, _) = batch(3, nv, &mut rng);
    assert!(batch_with_commitments_open_verify(&ck, &vk, &polys, &pts)?);
    Ok(())
}

#[test]
fn batch_with_commitments_multiple_distinct_points() -> Result<(), PCSError> {
    let mut rng = test_rng();
    let nv = 4;
    let (ck, vk) = setup(nv + 3);
    let (polys, pts, _) = batch(5, nv, &mut rng);
    assert!(batch_with_commitments_open_verify(&ck, &vk, &polys, &pts)?);
    Ok(())
}

#[test]
fn batch_with_commitments_multiple_same_point() -> Result<(), PCSError> {
    let mut rng = test_rng();
    let nv = 4;
    let (ck, vk) = setup(nv + 3);
    let (polys, _, _) = batch(4, nv, &mut rng);
    let pt = rvec(nv, &mut rng);
    let pts = vec![pt; 4];
    assert!(batch_with_commitments_open_verify(&ck, &vk, &polys, &pts)?);
    Ok(())
}

#[test]
fn batch_with_commitments_non_power_of_two_k() -> Result<(), PCSError> {
    let mut rng = test_rng();
    let nv = 4;
    let (ck, vk) = setup(nv + 3);
    for k in [3usize, 5, 6, 7] {
        let (polys, pts, _) = batch(k, nv, &mut rng);
        assert!(batch_with_commitments_open_verify(&ck, &vk, &polys, &pts)?, "k={k}");
    }
    Ok(())
}

#[test]
fn batch_with_commitments_rejects_malformed_commitment_lengths() -> Result<(), PCSError> {
    let mut rng = test_rng();
    let nv = 4;
    let (ck, _vk) = setup(nv + 2);
    let (polys, pts, evals) = batch(3, nv, &mut rng);
    let comms = commitments(&ck, &polys);
    let mut tr = transcript();
    let few = multi_open_with_commitments(&ck, &polys, &comms[..2], &pts, &evals, &mut tr);
    assert!(few.is_err());
    let mut more = comms.clone();
    more.push(ChopinPCS::commit(&ck, &rpoly(nv, &mut rng))?);
    let many = multi_open_with_commitments(&ck, &polys, &more, &pts, &evals, &mut tr);
    assert!(many.is_err());
    let mut fresh: IOPTranscript = IOPTranscript::new("m");
    let r = multi_open_with_commitments(&ck, &polys, &comms[..2], &pts, &evals, &mut fresh);
    assert!(r.is_err());
    Ok(())
}

#[test]
fn batch_with_commitments_rejects_wrong_commitment() -> Result<(), PCSError> {
    let mut rng = test_rng();
    let nv = 4;
    let (ck, vk) = setup(nv + 2);
    let (polys, pts, evals) = batch(3, nv, &mut rng);
    let comms = commitments(&ck, &polys);
    let mut bad = comms.clone();
    bad[0] = ChopinPCS::commit(&ck, &rpoly(nv, &mut rng))?;
    let proof = multi_open_with_commitments(&ck, &polys, &bad, &pts, &evals, &mut transcript())?;
    let ok = batch_verify(&vk, &comms, &pts, &proof, &mut transcript())?;
    assert!(!ok, "wrong commitment must be rejected");
    Ok(())
}

/// The commitment to the aggregated polynomial, combined and direct.
fn aggregated_commitments(
    ck: &ChopinProverParam,
    polys: &[Mle],
    pts: &[Vec<Scalar>],
) -> Result<(G1, G1), PCSError> {
    let evals = values(polys, pts);
    let comms = commitments(ck, polys);
    let mut tr = transcript();
    let plan = ChopinPCS::multi_open_begin(polys, pts, &evals, &mut tr)?;
    let a2 = sumcheck_prove(&plan, &mut tr).point;
    let linear = aggregate_commitments(&comms, pts, &plan.weights, &a2)?;
    let direct = ChopinPCS::commit(ck, &aggregate(&plan, &a2)?)?;
    Ok((linear, direct))
}

#[test]
fn batch_with_commitments_g_prime_commit_matches_direct() -> Result<(), PCSError> {
    let mut rng = test_rng();
    let nv = 4;
    let (ck, _vk) = setup(nv + 2);
    let (polys, pts, _) = batch(4, nv, &mut rng);
    let (linear, direct) = aggregated_commitments(&ck, &polys, &pts)?;
    assert_eq!(ark_point(&linear), ark_point(&direct), "linear vs direct mismatch (distinct)");
    let (polys, _, _) = batch(4, nv, &mut rng);
    let pt = rvec(nv, &mut rng);
    let (linear, direct) = aggregated_commitments(&ck, &polys, &vec![pt; 4])?;
    assert_eq!(ark_point(&linear), ark_point(&direct), "linear vs direct mismatch (repeated)");
    Ok(())
}
