#![allow(dead_code, unused_imports)]

use ark_bls12_381::{Fq, Fr, G1Affine};
use ark_ff::{BigInt, PrimeField};
use ark_serialize::CanonicalSerialize;
use ark_std::rand::Rng;
use ark_std::{test_rng, UniformRand};
use mlpcs::bdfg::poly_eval;
use mlpcs::errors::PCSError;
use mlpcs::field::Scalar;
use mlpcs::group::{G1, G2};
use mlpcs::tensor::Mle;
use mlpcs::transcript::IOPTranscript;
use mlpcs::carina::srs::{
    grid_base_index as carina_base_index, inv_base_index as carina_inv_index,
    CarinaUniversalParams,
};
use mlpcs::chopin::srs::{
    grid_base_index as chopin_base_index, inv_base_index as chopin_inv_index,
    ChopinUniversalParams,
};
use mlpcs::mercury::srs::MercuryUniversalParams;
use mlpcs::mulcs::srs::MulcsUniversalParams;

fn rs<R: Rng>(rng: &mut R) -> Scalar {
    Scalar::from_limbs(Fr::rand(rng).into_bigint().0).unwrap()
}

fn rvec<R: Rng>(n: usize, rng: &mut R) -> Vec<Scalar> {
    (0..n).map(|_| rs(rng)).collect()
}

fn rg1<R: Rng>(rng: &mut R) -> G1 {
    G1::generator().mul(&rs(rng))
}

fn rg2<R: Rng>(rng: &mut R) -> G2 {
    G2::generator().mul(&rs(rng))
}

fn rpoly<R: Rng>(nv: usize, rng: &mut R) -> Mle {
    Mle::from_evaluations_vec(nv, rvec(1 << nv, rng))
}

fn num(n: u64) -> Scalar {
    Scalar::from_u64(n)
}

fn ark_scalar(v: &Scalar) -> Fr {
    Fr::from_bigint(BigInt(v.limbs())).unwrap()
}

fn ark_point(p: &G1) -> G1Affine {
    match p.coordinates() {
        None => G1Affine::identity(),
        Some((x, y)) => G1Affine::new(
            Fq::from_bigint(BigInt(x)).unwrap(),
            Fq::from_bigint(BigInt(y)).unwrap(),
        ),
    }
}

/// Value of the multilinear extension of a table, straight from its
/// definition.
fn direct_value(table: &[Scalar], point: &[Scalar]) -> Scalar {
    let mut sum = Scalar::zero();
    for i in 0..1usize << point.len() {
        let mut term = table[i];
        for (k, &u) in point.iter().enumerate() {
            term = term.mul(if (i >> k) & 1 == 1 {
                u
            } else {
                Scalar::one().sub(u)
            });
        }
        sum = sum.add(term);
    }
    sum
}

fn carina<R: Rng>(rng: &mut R, nv: usize) -> Result<CarinaUniversalParams, PCSError> {
    CarinaUniversalParams::gen_srs_for_testing(rs(rng), rs(rng), rg1(rng), rg2(rng), nv)
}

fn chopin<R: Rng>(rng: &mut R, nv: usize) -> Result<ChopinUniversalParams, PCSError> {
    ChopinUniversalParams::gen_srs_for_testing(rs(rng), rs(rng), rg1(rng), rg2(rng), nv)
}

#[test]
fn srs_test_base_index_bijection() {
    for &(big_ml, big_mr) in &[(4usize, 4usize), (8, 4), (8, 8), (16, 8)] {
        let n = big_ml * big_mr;
        let mut seen = vec![false; n];
        for j in 0..big_mr {
            for i in 0..big_ml {
                let p = carina_base_index(big_ml, big_mr, i, j);
                assert!(p < n, "index {} out of range {}", p, n);
                assert!(!seen[p], "collision at position {}", p);
                seen[p] = true;
                assert_eq!(carina_inv_index(big_ml, big_mr, p), (i, j));
            }
        }
        assert!(seen.into_iter().all(|b| b), "not surjective");
    }
}

#[test]
fn srs_test_prefix_region_monomials() -> Result<(), PCSError> {
    let mut rng = test_rng();
    let nv = 8;
    let srs = carina(&mut rng, nv)?;
    let (pp, _vp) = srs.trim(nv)?;
    let big_ml = pp.big_ml();
    let big_mr = pp.big_mr();
    for p in 0..pp.qx_len() {
        let (i, j) = carina_inv_index(big_ml, big_mr, p);
        assert!(i < big_ml - 2);
        assert_eq!(p, carina_base_index(big_ml, big_mr, i, j));
    }
    Ok(())
}

#[test]
fn srs_test_full_commit_matches_reference() -> Result<(), PCSError> {
    let mut rng = test_rng();
    let nv = 6;
    let srs = carina(&mut rng, nv)?;
    let (pp, _vp) = srs.trim(nv)?;
    let big_ml = pp.big_ml();
    let big_mr = pp.big_mr();
    let n = pp.n();
    let f = rvec(n, &mut rng);
    let mut reference = G1::identity();
    let mut scalars = vec![Scalar::zero(); n];
    for j in 0..big_mr {
        for i in 0..big_ml {
            let base = pp.g1_powers[pp.base_index(i, j)];
            reference = reference.add(&base.mul(&f[i + big_ml * j]));
            scalars[pp.base_index(i, j)] = f[i + big_ml * j];
        }
    }
    assert_eq!(pp.msm_prefix(&scalars)?, reference);
    Ok(())
}

#[test]
fn test_verifier_bases_consistent() -> Result<(), PCSError> {
    let mut rng = test_rng();
    let nv = 7;
    let srs = carina(&mut rng, nv)?;
    let (pp, vp) = srs.trim(nv)?;
    let big_ml = pp.big_ml();
    let big_mr = pp.big_mr();
    assert_eq!(vp.g1_one, pp.g1_powers[carina_base_index(big_ml, big_mr, 0, 0)]);
    assert_eq!(vp.g1_tau, pp.g1_powers[carina_base_index(big_ml, big_mr, 1, 0)]);
    assert_eq!(vp.g1_sigma, pp.g1_powers[carina_base_index(big_ml, big_mr, 0, 1)]);
    assert_eq!(vp.g1_tau_sigma, pp.g1_powers[carina_base_index(big_ml, big_mr, 1, 1)]);
    Ok(())
}

#[test]
fn srs_test_smaller_trim_consistent() -> Result<(), PCSError> {
    let mut rng = test_rng();
    let max_nv = 10;
    let srs = carina(&mut rng, max_nv)?;
    for nv in [4usize, 5, 6, 7, 8, 9] {
        let (pp, vp) = srs.trim(nv)?;
        let big_ml = pp.big_ml();
        let big_mr = pp.big_mr();
        assert_eq!(pp.n(), 1usize << nv);
        assert_eq!(pp.g1_powers.len(), 1usize << nv);
        let n = pp.n();
        let f = rvec(n, &mut rng);
        let mut reference = G1::identity();
        let mut scalars = vec![Scalar::zero(); n];
        for j in 0..big_mr {
            for i in 0..big_ml {
                let base = pp.g1_powers[pp.base_index(i, j)];
                reference = reference.add(&base.mul(&f[i + big_ml * j]));
                scalars[pp.base_index(i, j)] = f[i + big_ml * j];
            }
        }
        assert_eq!(pp.msm_prefix(&scalars)?, reference);
        assert_eq!(vp.g1_one, pp.g1_powers[carina_base_index(big_ml, big_mr, 0, 0)]);
    }
    Ok(())
}

#[test]
fn srs_test_srs_sizes() -> Result<(), PCSError> {
    let mut rng = test_rng();
    for nv in [4usize, 5, 8] {
        let srs = carina(&mut rng, nv)?;
        assert_eq!(srs.g1_powers.len(), 1usize << nv, "G1 must be exactly N");
    }
    Ok(())
}

#[test]
fn srs_test_srs_rejects_small_nv() {
    let mut rng = test_rng();
    for nv in [0usize, 1, 2, 3] {
        assert!(carina(&mut rng, nv).is_err());
    }
}

#[test]
fn test_base_index_bijection() {
    for &(big_ml, big_mr) in &[(2usize, 2usize), (4, 2), (4, 4), (8, 4), (8, 8), (16, 8)] {
        let n = big_ml * big_mr;
        let mut seen = vec![false; n];
        for j in 0..big_mr {
            for i in 0..big_ml {
                let p = chopin_base_index(big_ml, big_mr, i, j);
                assert!(p < n, "index {} out of range {}", p, n);
                assert!(!seen[p], "collision at position {}", p);
                seen[p] = true;
                assert_eq!(chopin_inv_index(big_ml, big_mr, p), (i, j));
            }
        }
        assert!(seen.into_iter().all(|b| b), "not surjective");
    }
}

#[test]
fn test_prefix_region_monomials() -> Result<(), PCSError> {
    let mut rng = test_rng();
    let nv = 6;
    let srs = chopin(&mut rng, nv)?;
    let (pp, _vp) = srs.trim(nv)?;
    let big_ml = pp.big_ml();
    let big_mr = pp.big_mr();
    for p in 0..pp.q1_len() {
        let (i, j) = chopin_inv_index(big_ml, big_mr, p);
        assert!(i < big_ml - 1);
        assert_eq!(p, chopin_base_index(big_ml, big_mr, i, j));
    }
    Ok(())
}

#[test]
fn test_full_commit_matches_reference() -> Result<(), PCSError> {
    let mut rng = test_rng();
    for nv in [4usize, 5, 6] {
        let srs = chopin(&mut rng, nv)?;
        let (pp, _vp) = srs.trim(nv)?;
        let big_ml = pp.big_ml();
        let big_mr = pp.big_mr();
        let n = pp.n();
        let f = rvec(n, &mut rng);
        let mut reference = G1::identity();
        for j in 0..big_mr {
            for i in 0..big_ml {
                let base = pp.g1_powers[pp.base_index(i, j)];
                reference = reference.add(&base.mul(&f[i + big_ml * j]));
            }
        }
        assert_eq!(pp.msm_full_reordered(&f)?, reference);
    }
    Ok(())
}

#[test]
fn test_srs_sizes() -> Result<(), PCSError> {
    let mut rng = test_rng();
    for nv in [2usize, 3, 4, 5, 8] {
        let srs = chopin(&mut rng, nv)?;
        assert_eq!(srs.g1_powers.len(), 1usize << nv, "G1 must be exactly N");
    }
    Ok(())
}

#[test]
fn test_srs_rejects_small_nv() {
    let mut rng = test_rng();
    for nv in [0usize, 1] {
        assert!(chopin(&mut rng, nv).is_err());
    }
}

#[test]
fn test_smaller_trim_consistent() -> Result<(), PCSError> {
    let mut rng = test_rng();
    let max_nv = 10;
    let srs = chopin(&mut rng, max_nv)?;
    for nv in [2usize, 3, 4, 5, 6, 7, 8, 9] {
        let (pp, vp) = srs.trim(nv)?;
        let big_ml = pp.big_ml();
        let big_mr = pp.big_mr();
        assert_eq!(pp.n(), 1usize << nv);
        assert_eq!(pp.g1_powers.len(), 1usize << nv);
        let n = pp.n();
        let f = rvec(n, &mut rng);
        let mut reference = G1::identity();
        for j in 0..big_mr {
            for i in 0..big_ml {
                let base = pp.g1_powers[pp.base_index(i, j)];
                reference = reference.add(&base.mul(&f[i + big_ml * j]));
            }
        }
        assert_eq!(pp.msm_full_reordered(&f)?, reference);
        assert_eq!(vp.g1_one, pp.g1_powers[chopin_base_index(big_ml, big_mr, 0, 0)]);
    }
    Ok(())
}

#[test]
fn extracted_parameters_are_those_of_a_trim() -> Result<(), PCSError> {
    let mut rng = test_rng();
    let srs = carina(&mut rng, 6)?;
    let (pp, vp) = srs.trim(5)?;
    assert_eq!(srs.extract_prover_param(5).g1_powers, pp.g1_powers);
    assert_eq!(srs.extract_verifier_param(5).g2_tau2, vp.g2_tau2);
    let srs = chopin(&mut rng, 6)?;
    let (pp, vp) = srs.trim(5)?;
    assert_eq!(srs.extract_prover_param(5).g1_powers, pp.g1_powers);
    assert_eq!(srs.extract_verifier_param(5).g2_sigma, vp.g2_sigma);
    let (g, h) = (G1::generator(), G2::generator());
    let srs = MercuryUniversalParams::gen_srs_for_testing(num(3), g, h, 2)?;
    assert_eq!(srs.extract_prover_param(1).g1_powers.len(), 4);
    assert_eq!(srs.extract_verifier_param(1).g2_tau, h.mul(&num(3)));
    let srs = MulcsUniversalParams::gen_srs_for_testing(num(3), g, h, num(5), 2)?;
    assert_eq!(srs.extract_prover_param(1).g1_powers, srs.prover_param.g1_powers);
    assert_eq!(srs.extract_verifier_param(1).gamma, num(5));
    Ok(())
}
