#![allow(dead_code, unused_imports)]

use ark_bls12_381::{Fq, Fr, G1Affine};
use ark_ff::{BigInt, PrimeField};
use ark_serialize::CanonicalSerialize;
use ark_std::rand::Rng;
use ark_std::{test_rng, UniformRand};
use mlpcs::bdfg::poly_eval;
use mlpcs::errors::PCSError;
use mlpcs::field::Scalar;
use mlpcs::group::{G1, G2};
use mlpcs::tensor::Mle;
use mlpcs::transcript::IOPTranscript;
use mlpcs::field::vector_to_bytes;
use mlpcs::errors::{invalid_parameters, invalid_proof, invalid_prover};
use mlpcs::bdfg::{
    bdfg_first_round, bdfg_second_round, bdfg_verifier_combination, divide_by_linear, lagrange_interpolate, mul_by_linear,
    poly_mul, union_points, vanishing_poly, BdfgClaim,
};
use mlpcs::laurent::mul_by_reciprocal_tensor;
use mlpcs::mercury::srs::MercuryUniversalParams;
use mlpcs::mulcs::srs::MulcsUniversalParams;
use mlpcs::mulcs::util::{eval_multilinear_from_coeffs, UnivarPoly};

fn rs<R: Rng>(rng: &mut R) -> Scalar {
    Scalar::from_limbs(Fr::rand(rng).into_bigint().0).unwrap()
}

fn rvec<R: Rng>(n: usize, rng: &mut R) -> Vec<Scalar> {
    (0..n).map(|_| rs(rng)).collect()
}

fn rg1<R: Rng>(rng: &mut R) -> G1 {
    G1::generator().mul(&rs(rng))
}

fn rg2<R: Rng>(rng: &mut R) -> G2 {
    G2::generator().mul(&rs(rng))
}

fn rpoly<R: Rng>(nv: usize, rng: &mut R) -> Mle {
    Mle::from_evaluations_vec(nv, rvec(1 << nv, rng))
}

fn num(n: u64) -> Scalar {
    Scalar::from_u64(n)
}

fn ark_scalar(v: &Scalar) -> Fr {
    Fr::from_bigint(BigInt(v.limbs())).unwrap()
}

fn ark_point(p: &G1) -> G1Affine {
    match p.coordinates() {
        None => G1Affine::identity(),
        Some((x, y)) => G1Affine::new(
            Fq::from_bigint(BigInt(x)).unwrap(),
            Fq::from_bigint(BigInt(y)).unwrap(),
        ),
    }
}

/// Value of the multilinear extension of a table, straight from its
/// definition.
fn direct_value(table: &[Scalar], point: &[Scalar]) -> Scalar {
    let mut sum = Scalar::zero();
    for i in 0..1usize << point.len() {
        let mut term = table[i];
        for (k, &u) in point.iter().enumerate() {
            term = term.mul(if (i >> k) & 1 == 1 {
                u
            } else {
                Scalar::one().sub(u)
            });
        }
        sum = sum.add(term);
    }
    sum
}

fn poly_trim(v: &[Scalar]) -> Vec<Scalar> {
    let mut e = v.len();
    while e > 0 && v[e - 1].is_zero() {
        e -= 1;
    }
    v[..e].to_vec()
}

#[test]
fn divide_and_mul_by_linear_are_inverse() {
    let mut rng = test_rng();
    for deg in 1..8 {
        let p = rvec(deg + 1, &mut rng);
        let root = rs(&mut rng);
        let prod = mul_by_linear(&p, root);
        let (q, rem) = divide_by_linear(&prod, root);
        assert!(rem.is_zero());
        assert_eq!(poly_trim(&q), poly_trim(&p));
        let (_q2, rem2) = divide_by_linear(&p, root);
        assert_eq!(rem2, poly_eval(&p, root));
    }
}

#[test]
fn interpolate_matches_values() {
    let mut rng = test_rng();
    let xs = rvec(4, &mut rng);
    let ys = rvec(4, &mut rng);
    let poly = lagrange_interpolate(&xs, &ys).unwrap();
    for (x, y) in xs.iter().zip(ys.iter()) {
        assert_eq!(poly_eval(&poly, *x), *y);
    }
}

#[test]
fn vanishing_poly_vanishes() {
    let mut rng = test_rng();
    let roots = rvec(5, &mut rng);
    let z = vanishing_poly(&roots);
    for r in &roots {
        assert!(poly_eval(&z, *r).is_zero());
    }
    assert_eq!(z.len(), roots.len() + 1);
}

#[test]
fn union_rejects_repeats_and_dedups() {
    let a = num(3);
    let b = num(5);
    let c = num(7);
    assert!(union_points(&[&[a, a][..]]).is_err());
    let u = union_points(&[&[a, b][..], &[b, c][..]]).unwrap();
    assert_eq!(u, vec![a, b, c]);
}

#[test]
fn first_and_second_round_identities() {
    let mut rng = test_rng();
    let alpha = rs(&mut rng);
    let mut beta = rs(&mut rng);
    while beta == alpha || beta.is_zero() {
        beta = rs(&mut rng);
    }
    let beta_inv = beta.inverse().unwrap();
    let p0 = rvec(6, &mut rng);
    let p1 = rvec(5, &mut rng);
    let p2 = rvec(4, &mut rng);
    let s0 = [alpha, beta, beta_inv];
    let s1 = [beta, beta_inv];
    let s2 = [beta, beta_inv];
    let v0 = [poly_eval(&p0, alpha), poly_eval(&p0, beta), poly_eval(&p0, beta_inv)];
    let v1 = [poly_eval(&p1, beta), poly_eval(&p1, beta_inv)];
    let v2 = [poly_eval(&p2, beta), poly_eval(&p2, beta_inv)];
    let claims = [
        BdfgClaim { poly: &p0, points: &s0, values: &v0 },
        BdfgClaim { poly: &p1, points: &s1, values: &v1 },
        BdfgClaim { poly: &p2, points: &s2, values: &v2 },
    ];
    let rho = rs(&mut rng);
    let first = bdfg_first_round(&claims, rho).unwrap();
    let z_t = vanishing_poly(&first.union);
    assert_eq!(
        poly_trim(&first.m),
        poly_trim(&poly_mul(&z_t, &first.quot_m)),
        "m != Z_T * W"
    );
    let mut z = rs(&mut rng);
    while first.union.iter().any(|u| *u == z) {
        z = rs(&mut rng);
    }
    let second = bdfg_second_round(&claims, &first, rho, z).unwrap();
    assert_eq!(
        poly_trim(&second.l),
        poly_trim(&mul_by_linear(&second.quot_l, z)),
        "L != (X-z) W'"
    );
}

#[test]
fn first_round_rejects_inconsistent_value() {
    let mut rng = test_rng();
    let p0 = rvec(4, &mut rng);
    let a = num(2);
    let b = num(3);
    let good = [poly_eval(&p0, a), poly_eval(&p0, b)];
    let bad = [poly_eval(&p0, a).add(Scalar::one()), poly_eval(&p0, b)];
    let pts = [a, b];
    assert!(bdfg_first_round(&[BdfgClaim { poly: &p0, points: &pts, values: &good }], num(7)).is_ok());
    assert!(bdfg_first_round(&[BdfgClaim { poly: &p0, points: &pts, values: &bad }], num(7)).is_err());
}

fn dense_reference(coeffs: &[Scalar], m: usize, r: &[Scalar]) -> Vec<Scalar> {
    let n = 1usize << m;
    let mut eq = vec![Scalar::one(); n];
    for (i, e) in eq.iter_mut().enumerate() {
        let mut acc = Scalar::one();
        for (k, &rk) in r.iter().enumerate().take(m) {
            acc = acc.mul(if (i >> k) & 1 == 1 {
                rk
            } else {
                Scalar::one().sub(rk)
            });
        }
        *e = acc;
    }
    let offset = n - 1;
    let mut out = vec![Scalar::zero(); 2 * n - 1];
    for (i, &a) in coeffs.iter().enumerate().take(n) {
        for (j, &e) in eq.iter().enumerate().take(n) {
            let d = offset + i - j;
            out[d] = out[d].add(a.mul(e));
        }
    }
    out
}

#[test]
fn structured_matches_dense() {
    let mut rng = test_rng();
    for m in 1..=8 {
        let n = 1usize << m;
        let coeffs = rvec(n, &mut rng);
        let r = rvec(m, &mut rng);
        let got = mul_by_reciprocal_tensor(&coeffs, m, &r);
        let want = dense_reference(&coeffs, m, &r);
        assert_eq!(got, want, "mismatch at m={m}");
    }
}

#[test]
fn test_mercury_srs_shape() -> Result<(), PCSError> {
    let mut rng = test_rng();
    for nv in 2..10 {
        let srs = MercuryUniversalParams::gen_srs_for_testing(
            rs(&mut rng),
            rg1(&mut rng),
            rg2(&mut rng),
            nv,
        )?;
        let n = 1usize << nv;
        assert_eq!(srs.prover_param.g1_powers.len(), n, "G1 count must be N");
        assert_eq!(srs.prover_param.max_degree, n - 1);
        assert_eq!(srs.prover_param.g1_powers[0], srs.verifier_param.g1_one);
        let (ck, vk) = srs.trim(n - 1)?;
        assert_eq!(ck.g1_powers[0], vk.g1_one);
        assert_eq!(ck.g1_powers.len(), n);
    }
    Ok(())
}

#[test]
fn test_mercury_srs_trim_prefix_consistent() -> Result<(), PCSError> {
    let mut rng = test_rng();
    let max_nv = 10;
    let srs = MercuryUniversalParams::gen_srs_for_testing(
        rs(&mut rng),
        rg1(&mut rng),
        rg2(&mut rng),
        max_nv,
    )?;
    let (full_ck, _) = srs.trim((1usize << max_nv) - 1)?;
    for nv in [2usize, 4, 6, 8] {
        let (ck, vk) = srs.trim((1usize << nv) - 1)?;
        assert_eq!(ck.g1_powers.len(), 1usize << nv);
        assert_eq!(vk.max_degree, (1usize << nv) - 1);
        assert_eq!(
            ck.g1_powers[..],
            full_ck.g1_powers[..(1usize << nv)],
            "trim prefix mismatch nv={nv}"
        );
    }
    Ok(())
}

#[test]
fn test_mercury_srs_rejects_bad_sizes() {
    let mut rng = test_rng();
    let (t, g, h) = (rs(&mut rng), rg1(&mut rng), rg2(&mut rng));
    assert!(MercuryUniversalParams::gen_srs_for_testing(t, g, h, 0).is_err());
    assert!(MercuryUniversalParams::gen_srs_for_testing(t, g, h, usize::BITS as usize).is_err());
    let srs = MercuryUniversalParams::gen_srs_for_testing(t, g, h, 4).unwrap();
    assert!(srs.trim(1usize << 4).is_err());
}

#[test]
fn test_mulcs_srs_gen() -> Result<(), PCSError> {
    let mut rng = test_rng();
    for nv in 4..10 {
        let srs = MulcsUniversalParams::gen_srs_for_testing(
            rs(&mut rng),
            rg1(&mut rng),
            rg2(&mut rng),
            rs(&mut rng),
            nv,
        )?;
        let (_ck, _vk) = srs.trim(2 * (1 << nv))?;
    }
    Ok(())
}

#[test]
fn test_compute_h_identity() {
    let mut rng = test_rng();
    let mu = 4;
    let n = 1 << mu;
    let f_v = rvec(n, &mut rng);
    let r = rvec(mu, &mut rng);
    let y = eval_multilinear_from_coeffs(&f_v, &r);
    assert_eq!(y, direct_value(&f_v, &r));
    let h = UnivarPoly::compute_h(&f_v, mu, &r, y);
    assert_eq!(
        h.coeffs[n - 1],
        Scalar::zero(),
        "h_{{N-1}} should vanish when y = f_tilde(r)"
    );
}

#[test]
fn test_h_bar_identity() {
    let mut rng = test_rng();
    let mu = 4;
    let n = 1 << mu;
    let gamma = rs(&mut rng);
    let delta = rs(&mut rng);
    let h = UnivarPoly::new(rvec(2 * n - 1, &mut rng));
    let h_bar = UnivarPoly::compute_h_bar(&h, gamma, n, delta);
    let z = rs(&mut rng);
    let gamma_n1 = gamma.pow((n - 1) as u64);
    let z_n1 = z.pow((n - 1) as u64);
    let lhs = gamma_n1.mul(h_bar.evaluate(z)).sub(h_bar.evaluate(gamma.mul(z)));
    let rhs = h.evaluate(z).sub(h.coeffs[n - 1].mul(z_n1));
    assert_eq!(lhs, rhs, "hbar identity check");
}

#[test]
fn field_operations_match_their_definition() {
    let a = num(7);
    let b = num(12);
    assert_eq!(a.add(b), num(19));
    assert_eq!(b.sub(a), num(5));
    assert_eq!(a.sub(b).add(num(5)), Scalar::zero());
    assert_eq!(a.mul(b), num(84));
    assert_eq!(a.double(), num(14));
    assert_eq!(a.square(), num(49));
    assert_eq!(a.pow(5), num(16807));
    assert_eq!(a.neg().add(a), Scalar::zero());
    assert!(a != b);
    assert_eq!(a.inverse().unwrap().mul(a), Scalar::one());
    assert!(Scalar::zero().inverse().is_none());
    assert_eq!(a.compressed_size(), 32);
    let modulus = [
        0xffff_ffff_0000_0001u64,
        0x53bd_a402_fffe_5bfe,
        0x3339_d808_09a1_d805,
        0x73ed_a753_299d_7d48,
    ];
    assert!(Scalar::from_limbs(modulus).is_none());
    let mut top = modulus;
    top[0] -= 1;
    assert_eq!(Scalar::from_limbs(top).unwrap(), Scalar::one().neg());
}

#[test]
fn batch_inverse_keeps_zeros() {
    let v = [num(2), Scalar::zero(), num(5)];
    let r = Scalar::batch_inverse(&v);
    assert_eq!(r[0].mul(num(2)), Scalar::one());
    assert_eq!(r[1], Scalar::zero());
    assert_eq!(r[2].mul(num(5)), Scalar::one());
}

#[test]
fn group_operations_match_their_definition() {
    let g = G1::generator();
    let two = g.add(&g);
    assert_eq!(two, g.mul(&num(2)));
    assert_eq!(two.add(&g.neg()), g);
    assert_eq!(g.mul(&Scalar::zero()), G1::identity());
    assert!(G1::identity().coordinates().is_none());
    assert!(g.coordinates().is_some());
    assert_eq!(g.compressed_size(), 48);
    assert_eq!(
        G1::msm(&[g, two], &[num(3), num(5)]),
        g.mul(&num(13)),
        "3 g + 5 (2 g)"
    );
    assert_eq!(G1::msm(&[g], &[num(3), num(5)]), g.mul(&num(3)));
    let m = g.multiples(&[num(1), num(4)]);
    assert_eq!(m, vec![g, g.mul(&num(4))]);
    let h = G2::generator();
    assert_eq!(h.add(&h), h.mul(&num(2)));
    assert!(mlpcs::group::pairing_check(&[two, g.neg()], &[h, h.mul(&num(2))]));
    assert!(!mlpcs::group::pairing_check(&[two, g.neg()], &[h, h.mul(&num(3))]));
}

#[test]
fn mle_evaluates_like_its_definition() {
    let mut rng = test_rng();
    for nv in 0..6 {
        let p = rpoly(nv, &mut rng);
        let u = rvec(nv, &mut rng);
        assert_eq!(p.evaluate(&u).unwrap(), direct_value(&p.evaluations, &u));
        assert!(p.evaluate(&rvec(nv + 1, &mut rng)).is_none());
    }
}

#[test]
fn univariate_products_evaluate_to_products() {
    let mut rng = test_rng();
    let f = UnivarPoly::new(rvec(5, &mut rng));
    assert_eq!(f.degree(), 4);
    assert_eq!(UnivarPoly::new(vec![]).degree(), 0);
    let (x, r) = (rs(&mut rng), rs(&mut rng));
    let shifted = f.mul_shift_add(3, r);
    assert_eq!(shifted.coeffs.len(), 8);
    assert_eq!(shifted.evaluate(x), f.evaluate(x).mul(x.pow(3).add(r)));
    let u = rvec(3, &mut rng);
    let eq = UnivarPoly::structured_eq_product(3, &u);
    assert_eq!(eq.coeffs.len(), 8);
    let mut want = Scalar::one();
    for (k, &uk) in u.iter().enumerate() {
        want = want.mul(Scalar::one().sub(uk).mul(x.pow(1 << k)).add(uk));
    }
    assert_eq!(eq.evaluate(x), want);
    assert_eq!(f.mul_structured_eq(3, &u).evaluate(x), f.evaluate(x).mul(want));
}

#[test]
fn long_division_leaves_a_short_remainder() {
    let mut rng = test_rng();
    let a = rvec(9, &mut rng);
    let b = rvec(4, &mut rng);
    let q = mlpcs::mulcs::division::poly_div(&a, &b);
    assert_eq!(q.len(), 6);
    let back = poly_mul(&q, &b);
    for i in 3..9 {
        assert_eq!(back[i], a[i], "coefficient {i}");
    }
    assert_eq!(mlpcs::mulcs::division::poly_div(&b, &a).len(), 0);
}

#[test]
fn error_variants_keep_their_message() {
    assert_eq!(invalid_prover("a").message(), "a");
    assert_eq!(invalid_proof("b").message(), "b");
    assert_eq!(invalid_parameters("c").message(), "c");
    assert!(matches!(invalid_prover("a"), PCSError::InvalidProver(_)));
    assert!(matches!(invalid_proof("b"), PCSError::InvalidProof(_)));
    assert!(matches!(invalid_parameters("c"), PCSError::InvalidParameters(_)));
}

#[test]
fn a_product_with_a_linear_factor_is_one_longer() {
    assert_eq!(mul_by_linear(&[], num(3)), vec![Scalar::zero()]);
    // 2 (X - 3)
    assert_eq!(mul_by_linear(&[num(2)], num(3)), vec![num(6).neg(), num(2)]);
    let (q, rem) = divide_by_linear(&[num(6).neg(), num(2)], num(3));
    assert_eq!(q, vec![num(2)]);
    assert!(rem.is_zero());
}

#[test]
fn a_polynomial_is_its_quotient_times_the_factor_and_its_value() {
    let mut rng = test_rng();
    for len in 1..6usize {
        let p = rvec(len, &mut rng);
        let root = rs(&mut rng);
        let (q, rem) = divide_by_linear(&p, root);
        assert_eq!(q.len(), len - 1);
        let mut back = mul_by_linear(&q, root);
        back[0] = back[0].add(rem);
        assert_eq!(back, p);
    }
}

#[test]
fn both_rounds_meet_the_verifiers_combination() {
    let mut rng = test_rng();
    let polys = [rvec(5, &mut rng), rvec(3, &mut rng)];
    let sets = [rvec(2, &mut rng), rvec(1, &mut rng)];
    let values: Vec<Vec<Scalar>> = polys
        .iter()
        .zip(&sets)
        .map(|(p, s)| s.iter().map(|x| poly_eval(p, *x)).collect())
        .collect();
    let claims: Vec<BdfgClaim> = (0..2)
        .map(|t| BdfgClaim { poly: &polys[t], points: &sets[t], values: &values[t] })
        .collect();
    let (rho, z) = (rs(&mut rng), rs(&mut rng));
    let first = bdfg_first_round(&claims, rho).unwrap();
    let second = bdfg_second_round(&claims, &first, rho, z).unwrap();
    let v = bdfg_verifier_combination(
        &[&sets[0], &sets[1]],
        &[&values[0], &values[1]],
        rho,
        z,
    )
    .unwrap();
    assert_eq!(v.commit_scalars.len(), 2);
    for _ in 0..3 {
        let x = rs(&mut rng);
        let mut lhs = v.const_scalar.neg();
        for t in 0..2 {
            lhs = lhs.add(v.commit_scalars[t].mul(poly_eval(&polys[t], x)));
        }
        lhs = lhs.sub(v.z_t_z.mul(poly_eval(&first.quot_m, x)));
        assert_eq!(lhs, x.sub(z).mul(poly_eval(&second.quot_l, x)));
    }
}

#[test]
fn scalars_and_their_bytes() {
    let mut bytes = vec![0u8; 32];
    bytes[0] = 5;
    bytes[1] = 1;
    assert_eq!(num(261).to_bytes(), bytes);
    assert_eq!(Scalar::from_bytes_mod_order(&bytes), num(261));
    let mut rng = test_rng();
    let v = rs(&mut rng);
    assert_eq!(Scalar::from_bytes_mod_order(&v.to_bytes()), v);
    // 2^256 - 1 is greater than the modulus
    let all = [255u8; 32];
    let mut want = Scalar::zero();
    for _ in 0..32 {
        want = want.mul(num(256)).add(num(255));
    }
    assert_eq!(Scalar::from_bytes_mod_order(&all), want);
}

#[test]
fn points_and_their_bytes() {
    let mut rng = test_rng();
    let p = rg1(&mut rng);
    let bytes = p.to_bytes();
    let mut want = Vec::new();
    ark_point(&p).serialize_compressed(&mut want).unwrap();
    assert_eq!(bytes, want);
    assert_eq!(G1::from_bytes(&bytes), Some(p));
    assert_ne!(G1::from_bytes(&p.neg().to_bytes()), Some(p));
    assert_eq!(G1::from_bytes(&bytes[1..]), None);
}

#[test]
fn a_challenge_is_determined_by_the_history() {
    let mut rng = test_rng();
    let (v, w, p) = (rs(&mut rng), rs(&mut rng), rg1(&mut rng));
    let fill = |v: &Scalar| {
        let mut t = IOPTranscript::new("history");
        t.append_message("m", "text");
        t.append_field_element("v", v);
        t.append_field_elements("vs", &[*v, w]);
        t.append_point("p", &p);
        t
    };
    let (mut a, mut b) = (fill(&v), fill(&v));
    let first = a.get_and_append_challenge("c");
    assert_eq!(first, b.get_and_append_challenge("c"));
    assert_ne!(a.get_and_append_challenge("c"), first);
    assert_ne!(fill(&w).get_and_append_challenge("c"), first);
    assert_ne!(fill(&v).get_and_append_challenge("d"), first);
    let mut other = IOPTranscript::new("another");
    assert_ne!(
        other.get_and_append_challenge("c"),
        IOPTranscript::new("history").get_and_append_challenge("c")
    );
}

#[test]
fn a_transcript_makes_one_merlin_call_for_each_item() {
    let mut rng = test_rng();
    let (v, w, p) = (rs(&mut rng), rs(&mut rng), rg1(&mut rng));
    let mut t = IOPTranscript::new("domain");
    t.append_message("m", "text");
    t.append_field_element("v", &v);
    t.append_field_elements("vs", &[v, w]);
    t.append_field_elements("none", &[]);
    t.append_point("p", &p);

    let mut m = merlin::Transcript::new(b"domain");
    let bytes = |x: &dyn Fn(&mut Vec<u8>)| {
        let mut b = Vec::new();
        x(&mut b);
        b
    };
    m.append_message(b"m", b"text");
    let b = bytes(&|b| ark_scalar(&v).serialize_compressed(b).unwrap());
    m.append_message(b"v", &b);
    let b = bytes(&|b| vec![ark_scalar(&v), ark_scalar(&w)].serialize_compressed(b).unwrap());
    assert_eq!(b, vector_to_bytes(&[v, w]));
    m.append_message(b"vs", &b);
    m.append_message(b"none", &[0u8; 8]);
    let b = bytes(&|b| ark_point(&p).serialize_compressed(b).unwrap());
    m.append_message(b"p", &b);

    for label in ["c", "d"] {
        let mut buf = [0u8; 64];
        m.challenge_bytes(label.as_bytes(), &mut buf);
        let want = Scalar::from_limbs(Fr::from_le_bytes_mod_order(&buf).into_bigint().0).unwrap();
        m.append_message(label.as_bytes(), &want.to_bytes());
        assert_eq!(t.get_and_append_challenge(label), want);
    }
}
