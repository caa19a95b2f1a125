#![allow(dead_code, unused_imports)]

use ark_bls12_381::{Fq, Fr, G1Affine};
use ark_ff::{BigInt, PrimeField};
use ark_serialize::CanonicalSerialize;
use ark_std::rand::Rng;
use ark_std::{test_rng, UniformRand};
use mlpcs::bdfg::poly_eval;
use mlpcs::errors::PCSError;
use mlpcs::field::Scalar;
use mlpcs::group::{G1, G2};
use mlpcs::tensor::Mle;
use mlpcs::transcript::IOPTranscript;
use mlpcs::carina::srs::split_exponents;
use mlpcs::nested_grid_kzg::{
    compute_g, compute_restrictions, divide_witness, reciprocal_witness, NestedGridKzgPCS,
    NestedGridKzgProof, NestedGridKzgProverParam, NestedGridKzgUniversalParams,
    NestedGridKzgVerifierParam,
};
use mlpcs::quadratic::{div_by_monic_quadratic, two_point_remainder};
use mlpcs::tensor::{build_eq_vec, eval_tensor, inner_product};

fn rs<R: Rng>(rng: &mut R) -> Scalar {
    Scalar::from_limbs(Fr::rand(rng).into_bigint().0).unwrap()
}

fn rvec<R: Rng>(n: usize, rng: &mut R) -> Vec<Scalar> {
    (0..n).map(|_| rs(rng)).collect()
}

fn rg1<R: Rng>(rng: &mut R) -> G1 {
    G1::generator().mul(&rs(rng))
}

fn rg2<R: Rng>(rng: &mut R) -> G2 {
    G2::generator().mul(&rs(rng))
}

fn rpoly<R: Rng>(nv: usize, rng: &mut R) -> Mle {
    Mle::from_evaluations_vec(nv, rvec(1 << nv, rng))
}

fn num(n: u64) -> Scalar {
    Scalar::from_u64(n)
}

fn ark_scalar(v: &Scalar) -> Fr {
    Fr::from_bigint(BigInt(v.limbs())).unwrap()
}

fn ark_point(p: &G1) -> G1Affine {
    match p.coordinates() {
        None => G1Affine::identity(),
        Some((x, y)) => G1Affine::new(
            Fq::from_bigint(BigInt(x)).unwrap(),
            Fq::from_bigint(BigInt(y)).unwrap(),
        ),
    }
}

/// Value of the multilinear extension of a table, straight from its
/// definition.
fn direct_value(table: &[Scalar], point: &[Scalar]) -> Scalar {
    let mut sum = Scalar::zero();
    for i in 0..1usize << point.len() {
        let mut term = table[i];
        for (k, &u) in point.iter().enumerate() {
            term = term.mul(if (i >> k) & 1 == 1 {
                u
            } else {
                Scalar::one().sub(u)
            });
        }
        sum = sum.add(term);
    }
    sum
}

fn gen(nv: usize) -> Result<NestedGridKzgUniversalParams, PCSError> {
    let mut rng = test_rng();
    let (tau, sigma) = (rs(&mut rng), rs(&mut rng));
    NestedGridKzgPCS::gen_srs_for_testing(tau, sigma, rg1(&mut rng), rg2(&mut rng), nv)
}

fn setup(nv: usize) -> (NestedGridKzgProverParam, NestedGridKzgVerifierParam) {
    NestedGridKzgPCS::trim(&gen(nv).unwrap(), Some(nv)).unwrap()
}

fn open(
    ck: &NestedGridKzgProverParam,
    p: &Mle,
    pt: &[Scalar],
) -> Result<(NestedGridKzgProof, Scalar), PCSError> {
    NestedGridKzgPCS::open(ck, p, pt)
}

fn verify(
    vk: &NestedGridKzgVerifierParam,
    com: &G1,
    pt: &[Scalar],
    val: &Scalar,
    proof: &NestedGridKzgProof,
) -> Result<bool, PCSError> {
    NestedGridKzgPCS::verify(vk, com, pt, val, proof)
}

/// Value of the bivariate polynomial with the coefficients `mat[i + big_ml j]`.
fn eval_bivariate(mat: &[Scalar], big_ml: usize, big_mr: usize, x: Scalar, y: Scalar) -> Scalar {
    let mut acc = Scalar::zero();
    for j in 0..big_mr {
        for i in 0..big_ml {
            acc = acc.add(mat[i + big_ml * j].mul(x.pow(i as u64)).mul(y.pow(j as u64)));
        }
    }
    acc
}

/// The reciprocal witness by the quadratic method.
fn reciprocal_witness_dense(a: &[Scalar], psi: &[Scalar]) -> Vec<Scalar> {
    let big_m = a.len();
    let w = |k: isize| -> Scalar {
        let mut acc = Scalar::zero();
        for (j, &pj) in psi.iter().enumerate() {
            let idx = k + j as isize;
            if idx >= 0 && (idx as usize) < big_m {
                acc = acc.add(a[idx as usize].mul(pj));
            }
        }
        acc
    };
    (0..big_m - 1)
        .map(|i| {
            let k = (i + 1) as isize;
            w(k).add(w(-k))
        })
        .collect()
}

fn proof_bytes(proof: &NestedGridKzgProof) -> Vec<u8> {
    let mut bytes = Vec::new();
    for p in [proof.cm_s0, proof.cm_s1, proof.pi_x, proof.pi_y] {
        ark_point(&p).serialize_compressed(&mut bytes).unwrap();
    }
    for v in [
        proof.a_plus,
        proof.a_minus,
        proof.t0_plus,
        proof.v_pp,
        proof.v_pn,
        proof.v_np,
        proof.v_nn,
        proof.t1_plus,
    ] {
        ark_scalar(&v).serialize_compressed(&mut bytes).unwrap();
    }
    proof.mu.serialize_compressed(&mut bytes).unwrap();
    bytes
}

#[test]
fn test_single_open_verify_even_and_odd() -> Result<(), PCSError> {
    let mut rng = test_rng();
    for nv in [4usize, 5, 6, 7, 8] {
        let (ck, vk) = setup(nv);
        let poly = rpoly(nv, &mut rng);
        let point = rvec(nv, &mut rng);
        let com = NestedGridKzgPCS::commit(&ck, &poly)?;
        let (proof, value) = open(&ck, &poly, &point)?;
        assert_eq!(value, poly.evaluate(&point).unwrap());
        assert_eq!(value, direct_value(&poly.evaluations, &point));
        assert!(verify(&vk, &com, &point, &value, &proof)?, "verify failed at nv={nv}");
        assert_eq!(proof.cryptographic_payload_bytes(), 4 * 48 + 8 * 32);
        assert_eq!(
            proof_bytes(&proof).len(),
            4 * 48 + 8 * 32 + 4,
            "canonical size = payload + u32 mu"
        );
    }
    Ok(())
}

#[test]
fn test_core_open_matches_trait_open() -> Result<(), PCSError> {
    let mut rng = test_rng();
    let nv = 6;
    let (ck, vk) = setup(nv);
    let poly = rpoly(nv, &mut rng);
    let point = rvec(nv, &mut rng);
    let com = NestedGridKzgPCS::commit(&ck, &poly)?;
    let (proof, value) =
        NestedGridKzgPCS::open_with_commitment(&ck, &poly, &point, &com)?;
    assert!(verify(&vk, &com, &point, &value, &proof)?);
    assert_eq!((proof, value), open(&ck, &poly, &point)?);
    Ok(())
}

#[test]
fn test_commitment_matches_reference_bivariate_msm() -> Result<(), PCSError> {
    let mut rng = test_rng();
    let nv = 6;
    let (ck, _vk) = setup(nv);
    let poly = rpoly(nv, &mut rng);
    let com = NestedGridKzgPCS::commit(&ck, &poly)?;
    let big_ml = ck.big_ml();
    let big_mr = ck.big_mr();
    let mut reference = G1::identity();
    for j in 0..big_mr {
        for i in 0..big_ml {
            let base = ck.g1_powers[ck.base_index(i, j)];
            reference = reference.add(&base.mul(&poly.evaluations[i + big_ml * j]));
        }
    }
    assert_eq!(com, reference);
    Ok(())
}

#[test]
fn test_reciprocal_witness_structured_vs_dense() -> Result<(), PCSError> {
    let mut rng = test_rng();
    for m in [2usize, 3, 4] {
        let big_m = 1usize << m;
        let a = rvec(big_m, &mut rng);
        let u = rvec(m, &mut rng);
        let psi = build_eq_vec(&u, big_m);
        let structured = reciprocal_witness(&a, &u, m);
        let dense = reciprocal_witness_dense(&a, &psi);
        assert_eq!(structured, dense, "reciprocal witness mismatch at m={m}");
        let ip = inner_product(&a, &psi);
        let z = rs(&mut rng);
        let z_inv = z.inverse().unwrap();
        let first = poly_eval(&a, z).mul(eval_tensor(&u, z_inv));
        let lhs = first.add(poly_eval(&a, z_inv).mul(eval_tensor(&u, z)));
        let ends = z.mul(poly_eval(&structured, z)).add(z_inv.mul(poly_eval(&structured, z_inv)));
        assert_eq!(lhs, ip.double().add(ends), "reciprocal identity failed at m={m}");
    }
    Ok(())
}

/// The coefficients `i0`, `i1` of the interpolant of four values on a grid.
fn grid_lines(
    r: (Scalar, Scalar),
    s: (Scalar, Scalar),
    v: [Scalar; 4],
) -> Result<([Scalar; 2], [Scalar; 2]), PCSError> {
    let px_s = two_point_remainder(r.0, v[0], r.1, v[2])?;
    let px_sinv = two_point_remainder(r.0, v[1], r.1, v[3])?;
    let i0 = two_point_remainder(s.0, px_s[0], s.1, px_sinv[0])?;
    let i1 = two_point_remainder(s.0, px_s[1], s.1, px_sinv[1])?;
    Ok((i0, i1))
}

#[test]
fn test_grid_interpolation_accurate() -> Result<(), PCSError> {
    let mut rng = test_rng();
    let r = rs(&mut rng);
    let r_inv = r.inverse().unwrap();
    let s = rs(&mut rng);
    let s_inv = s.inverse().unwrap();
    let v = [rs(&mut rng), rs(&mut rng), rs(&mut rng), rs(&mut rng)];
    let (i0, i1) = grid_lines((r, r_inv), (s, s_inv), v)?;
    let i_mat = [i0[0], i1[0], i0[1], i1[1]];
    assert_eq!(eval_bivariate(&i_mat, 2, 2, r, s), v[0]);
    assert_eq!(eval_bivariate(&i_mat, 2, 2, r, s_inv), v[1]);
    assert_eq!(eval_bivariate(&i_mat, 2, 2, r_inv, s), v[2]);
    assert_eq!(eval_bivariate(&i_mat, 2, 2, r_inv, s_inv), v[3]);
    Ok(())
}

#[test]
fn test_bivariate_quotient_coefficient_identity() -> Result<(), PCSError> {
    let mut rng = test_rng();
    for nv in [4usize, 5, 6] {
        let (m_left, m_right) = split_exponents(nv);
        let big_ml = 1usize << m_left;
        let big_mr = 1usize << m_right;
        let f = rvec(big_ml * big_mr, &mut rng);
        let r = rs(&mut rng);
        let r_inv = r.inverse().unwrap();
        let s = rs(&mut rng);
        let s_inv = s.inverse().unwrap();
        let v = [
            eval_bivariate(&f, big_ml, big_mr, r, s),
            eval_bivariate(&f, big_ml, big_mr, r, s_inv),
            eval_bivariate(&f, big_ml, big_mr, r_inv, s),
            eval_bivariate(&f, big_ml, big_mr, r_inv, s_inv),
        ];
        let (i0, i1) = grid_lines((r, r_inv), (s, s_inv), v)?;
        let p_r = r.add(r_inv);
        let q_s = s.add(s_inv);
        let mut qx = vec![];
        let mut r0_col = vec![];
        let mut r1_col = vec![];
        for j in 0..big_mr {
            let mut col = f[big_ml * j..big_ml * (j + 1)].to_vec();
            if j < 2 {
                col[0] = col[0].sub(i0[j]);
                col[1] = col[1].sub(i1[j]);
            }
            let (q, rem) = div_by_monic_quadratic(&col, p_r);
            qx.push(q);
            r0_col.push(rem[0]);
            r1_col.push(rem[1]);
        }
        let (qy0, remy0) = div_by_monic_quadratic(&r0_col, q_s);
        let (qy1, remy1) = div_by_monic_quadratic(&r1_col, q_s);
        assert_eq!(remy0, [Scalar::zero(); 2]);
        assert_eq!(remy1, [Scalar::zero(); 2]);
        for _ in 0..4 {
            let x = rs(&mut rng);
            let y = rs(&mut rng);
            let one = Scalar::one();
            let z_a = x.mul(x).sub(p_r.mul(x)).add(one);
            let z_b = y.mul(y).sub(q_s.mul(y)).add(one);
            let f_val = eval_bivariate(&f, big_ml, big_mr, x, y);
            let i_val = eval_bivariate(&[i0[0], i1[0], i0[1], i1[1]], 2, 2, x, y);
            let mut qx_val = Scalar::zero();
            for (j, q) in qx.iter().enumerate() {
                qx_val = qx_val.add(poly_eval(q, x).mul(y.pow(j as u64)));
            }
            let qy_val = poly_eval(&qy0, y).add(poly_eval(&qy1, y).mul(x));
            assert_eq!(
                f_val.sub(i_val),
                z_a.mul(qx_val).add(z_b.mul(qy_val)),
                "grid identity nv={nv}"
            );
        }
    }
    Ok(())
}

#[test]
fn test_witness_quotient_identities() -> Result<(), PCSError> {
    let mut rng = test_rng();
    for m in [2usize, 3, 4] {
        let a = rvec(1 << m, &mut rng);
        let u = rvec(m, &mut rng);
        let s0 = reciprocal_witness(&a, &u, m);
        let r = rs(&mut rng);
        let r_inv = r.inverse().unwrap();
        let l0 = two_point_remainder(r, poly_eval(&s0, r), r_inv, poly_eval(&s0, r_inv))?;
        let mut s0m = s0.clone();
        s0m[0] = s0m[0].sub(l0[0]);
        s0m[1] = s0m[1].sub(l0[1]);
        let p_r = r.add(r_inv);
        let (w0, rem) = div_by_monic_quadratic(&s0m, p_r);
        assert_eq!(rem, [Scalar::zero(); 2], "S0-L0 not divisible by Z_A at m={m}");
        assert_eq!(w0, divide_witness(&s0, &l0, p_r)?);
        for _ in 0..3 {
            let x = rs(&mut rng);
            let z_a = x.mul(x).sub(p_r.mul(x)).add(Scalar::one());
            let lhs = poly_eval(&s0, x).sub(l0[0].add(l0[1].mul(x)));
            assert_eq!(lhs, z_a.mul(poly_eval(&w0, x)));
        }
        let off = [l0[0].add(Scalar::one()), l0[1]];
        assert!(matches!(divide_witness(&s0, &off, p_r), Err(PCSError::InvalidProver(_))));
    }
    Ok(())
}

#[test]
fn nested_grid_folds_and_restrictions() {
    let f = [num(1), num(2), num(3), num(4), num(5), num(6)];
    assert_eq!(compute_g(&f, &[num(10), num(1)], 3, 2), vec![num(14), num(25), num(36)]);
    let (a, b) = compute_restrictions(&f, num(2), num(3), 3, 2);
    assert_eq!(a, vec![num(17), num(38)]);
    assert_eq!(b, vec![num(34), num(73)]);
}

fn rejected(r: Result<bool, PCSError>) {
    assert!(matches!(r, Ok(false) | Err(_)), "expected rejection");
}

/// A proof with its key, commitment, point and value.
fn opened(
    nv: usize,
) -> Result<(NestedGridKzgVerifierParam, G1, Vec<Scalar>, Scalar, NestedGridKzgProof), PCSError> {
    let mut rng = test_rng();
    let (ck, vk) = setup(nv);
    let poly = rpoly(nv, &mut rng);
    let point = rvec(nv, &mut rng);
    let com = NestedGridKzgPCS::commit(&ck, &poly)?;
    let (proof, value) = open(&ck, &poly, &point)?;
    assert!(verify(&vk, &com, &point, &value, &proof)?);
    Ok((vk, com, point, value, proof))
}

#[test]
fn test_reject_wrong_value() -> Result<(), PCSError> {
    let (vk, com, point, value, proof) = opened(5)?;
    rejected(verify(&vk, &com, &point, &value.add(Scalar::one()), &proof));
    Ok(())
}

#[test]
fn test_reject_wrong_point() -> Result<(), PCSError> {
    let (vk, com, point, value, proof) = opened(6)?;
    let mut wrong = point.clone();
    wrong[0] = wrong[0].add(Scalar::one());
    rejected(verify(&vk, &com, &wrong, &value, &proof));
    Ok(())
}

#[test]
fn test_reject_wrong_commitment() -> Result<(), PCSError> {
    let mut rng = test_rng();
    let (ck, vk) = setup(6);
    let poly = rpoly(6, &mut rng);
    let poly2 = rpoly(6, &mut rng);
    let point = rvec(6, &mut rng);
    let com2 = NestedGridKzgPCS::commit(&ck, &poly2)?;
    let (proof, value) = open(&ck, &poly, &point)?;
    rejected(verify(&vk, &com2, &point, &value, &proof));
    Ok(())
}

fn tampered(mutate: fn(&mut NestedGridKzgProof)) -> Result<(), PCSError> {
    let (vk, com, point, value, mut proof) = opened(6)?;
    mutate(&mut proof);
    rejected(verify(&vk, &com, &point, &value, &proof));
    Ok(())
}

#[test]
fn test_tamper_cm_s0() -> Result<(), PCSError> {
    tampered(|p| p.cm_s0 = p.cm_s0.mul(&num(2)))
}

#[test]
fn test_tamper_cm_s1() -> Result<(), PCSError> {
    tampered(|p| p.cm_s1 = p.cm_s1.mul(&num(2)))
}

#[test]
fn test_tamper_pi_x() -> Result<(), PCSError> {
    tampered(|p| p.pi_x = p.pi_x.mul(&num(2)))
}

#[test]
fn test_tamper_pi_y() -> Result<(), PCSError> {
    tampered(|p| p.pi_y = p.pi_y.mul(&num(2)))
}

#[test]
fn test_tamper_a_plus() -> Result<(), PCSError> {
    tampered(|p| p.a_plus = p.a_plus.add(Scalar::one()))
}

#[test]
fn test_tamper_a_minus() -> Result<(), PCSError> {
    tampered(|p| p.a_minus = p.a_minus.add(Scalar::one()))
}

#[test]
fn test_tamper_t0_plus() -> Result<(), PCSError> {
    tampered(|p| p.t0_plus = p.t0_plus.add(Scalar::one()))
}

#[test]
fn test_tamper_v_pp() -> Result<(), PCSError> {
    tampered(|p| p.v_pp = p.v_pp.add(Scalar::one()))
}

#[test]
fn test_tamper_v_pn() -> Result<(), PCSError> {
    tampered(|p| p.v_pn = p.v_pn.add(Scalar::one()))
}

#[test]
fn test_tamper_v_np() -> Result<(), PCSError> {
    tampered(|p| p.v_np = p.v_np.add(Scalar::one()))
}

#[test]
fn test_tamper_v_nn() -> Result<(), PCSError> {
    tampered(|p| p.v_nn = p.v_nn.add(Scalar::one()))
}

#[test]
fn test_tamper_t1_plus() -> Result<(), PCSError> {
    tampered(|p| p.t1_plus = p.t1_plus.add(Scalar::one()))
}

#[test]
fn test_swap_two_grid_values() -> Result<(), PCSError> {
    let (vk, com, point, value, proof) = opened(6)?;
    assert_ne!(proof.v_pp, proof.v_nn);
    let mut bad = proof;
    (bad.v_pp, bad.v_nn) = (proof.v_nn, proof.v_pp);
    rejected(verify(&vk, &com, &point, &value, &bad));
    Ok(())
}

#[test]
fn test_reject_wrong_mu() -> Result<(), PCSError> {
    tampered(|p| p.mu = 5)
}

#[test]
fn test_srs_gen_rejects_small_nv_no_panic() {
    for nv in [0usize, 1, 2, 3] {
        assert!(gen(nv).is_err(), "nv={nv} must Err, not panic");
    }
}

#[test]
fn test_verify_malicious_mu_values() -> Result<(), PCSError> {
    let (vk, com, point, value, base_proof) = opened(6)?;
    for bad_mu in [0u32, 3, u32::MAX, usize::BITS, 60] {
        let mut proof = base_proof;
        proof.mu = bad_mu;
        rejected(verify(&vk, &com, &point, &value, &proof));
    }
    Ok(())
}

#[test]
fn test_verify_wrong_point_length_no_panic() -> Result<(), PCSError> {
    let mut rng = test_rng();
    let (vk, com, _point, value, proof) = opened(6)?;
    for len in [0usize, 2, 5, 7, 12] {
        let p = rvec(len, &mut rng);
        rejected(verify(&vk, &com, &p, &value, &proof));
    }
    Ok(())
}

#[test]
fn test_verifier_key_capacity_insufficient() -> Result<(), PCSError> {
    let mut rng = test_rng();
    let srs = gen(8)?;
    let (ck8, _vk8) = NestedGridKzgPCS::trim(&srs, Some(8))?;
    let (_ck6, vk6) = NestedGridKzgPCS::trim(&srs, Some(6))?;
    let poly = rpoly(8, &mut rng);
    let point = rvec(8, &mut rng);
    let com = NestedGridKzgPCS::commit(&ck8, &poly)?;
    let (proof, value) = open(&ck8, &poly, &point)?;
    let res = verify(&vk6, &com, &point, &value, &proof);
    assert!(res.is_err(), "vk capacity too small must Err");
    Ok(())
}

#[test]
fn test_prover_key_too_small() -> Result<(), PCSError> {
    let mut rng = test_rng();
    assert!(NestedGridKzgPCS::trim(&gen(4)?, Some(6)).is_err());
    let (ck4, _) = NestedGridKzgPCS::trim(&gen(8)?, Some(4))?;
    let poly6 = rpoly(6, &mut rng);
    assert!(NestedGridKzgPCS::commit(&ck4, &poly6).is_err());
    let point6 = rvec(6, &mut rng);
    assert!(open(&ck4, &poly6, &point6).is_err());
    Ok(())
}

#[test]
fn test_srs_trim_illegal_sizes() -> Result<(), PCSError> {
    let srs = gen(8)?;
    assert!(NestedGridKzgPCS::trim(&srs, Some(3)).is_err());
    assert!(NestedGridKzgPCS::trim(&srs, Some(0)).is_err());
    assert!(NestedGridKzgPCS::trim(&srs, Some(9)).is_err());
    assert!(NestedGridKzgPCS::trim(&srs, None).is_err());
    Ok(())
}

#[test]
fn test_two_point_remainder_duplicate_points_errors() {
    let mut rng = test_rng();
    let x = rs(&mut rng);
    let y0 = rs(&mut rng);
    let y1 = rs(&mut rng);
    assert!(two_point_remainder(x, y0, x, y1).is_err());
}

#[test]
fn test_transcript_statement_binding() -> Result<(), PCSError> {
    let mut rng = test_rng();
    let (ck, vk) = setup(6);
    let poly_a = rpoly(6, &mut rng);
    let point_a = rvec(6, &mut rng);
    let (proof_a, value_a) = open(&ck, &poly_a, &point_a)?;
    let poly_b = rpoly(6, &mut rng);
    let com_b = NestedGridKzgPCS::commit(&ck, &poly_b)?;
    rejected(verify(&vk, &com_b, &point_a, &value_a, &proof_a));
    Ok(())
}
