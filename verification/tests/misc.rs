#![allow(dead_code, unused_imports)]

use ark_bls12_381::{Fq, Fr, G1Affine};
use ark_ff::{BigInt, PrimeField};
use ark_serialize::CanonicalSerialize;
use ark_std::rand::Rng;
use ark_std::{test_rng, UniformRand};
use mlpcs::bdfg::poly_eval;
use mlpcs::errors::PCSError;
use mlpcs::field::Scalar;
use mlpcs::group::{G1, G2};
use mlpcs::tensor::Mle;
use mlpcs::transcript::IOPTranscript;
use mlpcs::batching::{
    aggregate, aggregate_commitments, batch_weights, claim_batch, eq_eval, plan_batch,
};
use mlpcs::bench::{
    mean_ns, median_ns, parse_backend, parse_number, parse_nv, parse_threads, Backend,
};
use mlpcs::mulcs::profile::{MaybeTimer, ScopedTimer};
use mlpcs::tensor::build_eq_vec;

fn rs<R: Rng>(rng: &mut R) -> Scalar {
    Scalar::from_limbs(Fr::rand(rng).into_bigint().0).unwrap()
}

fn rvec<R: Rng>(n: usize, rng: &mut R) -> Vec<Scalar> {
    (0..n).map(|_| rs(rng)).collect()
}

fn rg1<R: Rng>(rng: &mut R) -> G1 {
    G1::generator().mul(&rs(rng))
}

fn rg2<R: Rng>(rng: &mut R) -> G2 {
    G2::generator().mul(&rs(rng))
}

fn rpoly<R: Rng>(nv: usize, rng: &mut R) -> Mle {
    Mle::from_evaluations_vec(nv, rvec(1 << nv, rng))
}

fn num(n: u64) -> Scalar {
    Scalar::from_u64(n)
}

fn ark_scalar(v: &Scalar) -> Fr {
    Fr::from_bigint(BigInt(v.limbs())).unwrap()
}

fn ark_point(p: &G1) -> G1Affine {
    match p.coordinates() {
        None => G1Affine::identity(),
        Some((x, y)) => G1Affine::new(
            Fq::from_bigint(BigInt(x)).unwrap(),
            Fq::from_bigint(BigInt(y)).unwrap(),
        ),
    }
}

/// Value of the multilinear extension of a table, straight from its
/// definition.
fn direct_value(table: &[Scalar], point: &[Scalar]) -> Scalar {
    let mut sum = Scalar::zero();
    for i in 0..1usize << point.len() {
        let mut term = table[i];
        for (k, &u) in point.iter().enumerate() {
            term = term.mul(if (i >> k) & 1 == 1 {
                u
            } else {
                Scalar::one().sub(u)
            });
        }
        sum = sum.add(term);
    }
    sum
}

#[test]
fn bench_numbers() {
    assert_eq!(parse_number("17"), Some(17));
    assert_eq!(parse_number("  +8\n"), Some(8));
    assert_eq!(parse_number("007"), Some(7));
    assert_eq!(parse_number(""), None);
    assert_eq!(parse_number("+"), None);
    assert_eq!(parse_number("-3"), None);
    assert_eq!(parse_number("1 2"), None);
    assert_eq!(parse_number("18446744073709551615"), Some(usize::MAX));
    assert_eq!(parse_number("18446744073709551616"), None);
}

#[test]
fn bench_settings() {
    assert_eq!(parse_nv(Some("12")), Ok(12));
    assert!(matches!(parse_nv(None), Err(PCSError::InvalidParameters(_))));
    assert!(matches!(parse_nv(Some("x")), Err(PCSError::InvalidParameters(_))));
    assert_eq!(parse_threads(Some(" 4 "), 8), 4);
    assert_eq!(parse_threads(Some("many"), 8), 8);
    assert_eq!(parse_threads(None, 8), 8);
}

#[test]
fn bench_means() {
    assert_eq!(mean_ns(&[5]), 5);
    assert_eq!(mean_ns(&[1, 2, 4]), 2);
    assert_eq!(mean_ns(&[u64::MAX, u64::MAX]), u64::MAX);
}

#[test]
fn bench_medians() {
    assert_eq!(median_ns(&[7]), 7);
    assert_eq!(median_ns(&[9, 1, 5]), 5);
    assert_eq!(median_ns(&[4, 1, 3, 2]), 3);
    assert_eq!(median_ns(&[2, 2, 9, 2]), 2);
}

#[test]
fn bench_backends() {
    assert_eq!(parse_backend(Some("gemini")), Ok(Backend::Gemini));
    assert_eq!(parse_backend(Some(" Mulcs\n")), Ok(Backend::Mulcs));
    assert_eq!(parse_backend(Some("ReciPCS")), Ok(Backend::ReciPcs));
    assert_eq!(parse_backend(Some("NRG")), Ok(Backend::NestedGrid));
    assert_eq!(parse_backend(Some("mercury")), Ok(Backend::Mercury));
    assert_eq!(parse_backend(Some("cHoPiN")), Ok(Backend::Chopin));
    assert_eq!(parse_backend(Some("vela")), Ok(Backend::ReciPcs));
    assert_eq!(parse_backend(Some("Carina ")), Ok(Backend::NestedGrid));
    assert_eq!(parse_backend(Some("mKZG")), Ok(Backend::MultilinearKzg));
    assert_eq!(parse_backend(Some("samaritan")), Ok(Backend::Samaritan));
    assert_eq!(parse_backend(Some("Zeromorph")), Ok(Backend::Zeromorph));
    for bad in ["", "geminis", "gemin", "chop in"] {
        assert!(matches!(parse_backend(Some(bad)), Err(PCSError::InvalidParameters(_))));
    }
    assert!(matches!(parse_backend(None), Err(PCSError::InvalidParameters(_))));
}

#[test]
fn timers_count_only_where_profiling_is_on() {
    let t = ScopedTimer::new(true, 100, 4, 16, "phase", 3, "notes");
    assert_eq!((t.backend, t.nv, t.n, t.phase), ("Mulcs", 4, 16, "phase"));
    assert_eq!(t.elapsed(175), Some(75));
    assert_eq!(t.elapsed(50), Some(0));
    assert_eq!(ScopedTimer::new(false, 100, 4, 16, "phase", 3, "notes").elapsed(175), None);
    let mut on = MaybeTimer::new(true);
    let a = on.start(10);
    on.add(&a, 25);
    let b = on.start(30);
    on.add(&b, 31);
    assert_eq!(on.ns(), 16);
    let mut off = MaybeTimer::new(false);
    let c = off.start(10);
    off.add(&c, 25);
    assert_eq!(off.ns(), 0);
}

fn transcript() -> IOPTranscript {
    IOPTranscript::new("t")
}

#[test]
fn eq_eval_is_the_eq_polynomial() {
    let mut rng = test_rng();
    let x = rvec(3, &mut rng);
    let y = rvec(3, &mut rng);
    let v = eq_eval(&x, &y).unwrap();
    assert_eq!(v, eq_eval(&y, &x).unwrap());
    assert_eq!(v, direct_value(&build_eq_vec(&y, 8), &x));
    assert!(matches!(eq_eval(&x, &y[..2]), Err(PCSError::InvalidParameters(_))));
    assert_eq!(eq_eval(&[num(1), num(0)], &[num(1), num(0)]).unwrap(), num(1));
    assert_eq!(eq_eval(&[num(1), num(0)], &[num(1), num(1)]).unwrap(), num(0));
    assert_eq!(eq_eval(&[num(2)], &[num(3)]).unwrap(), num(8));
}

#[test]
fn batches_group_claims_by_point() -> Result<(), PCSError> {
    let mut rng = test_rng();
    let p = rvec(2, &mut rng);
    let q = rvec(2, &mut rng);
    let polys: Vec<Mle> = (0..3).map(|_| rpoly(2, &mut rng)).collect();
    let points = vec![p.clone(), q.clone(), p.clone()];
    let evals: Vec<Scalar> =
        polys.iter().zip(points.iter()).map(|(f, x)| f.evaluate(x).unwrap()).collect();
    let plan = plan_batch(&polys, &points, &evals, &mut transcript())?;
    let weights = batch_weights(&points, &evals, &mut transcript());
    assert_eq!(plan.weights, weights);
    assert_eq!(plan.points, vec![p.clone(), q.clone()]);
    for i in 0..4 {
        let first = weights[0].mul(polys[0].evaluations[i]);
        let third = weights[2].mul(polys[2].evaluations[i]);
        assert_eq!(plan.merged[0].evaluations[i], first.add(third));
    }
    let mut sum = Scalar::zero();
    for d in 0..2 {
        for i in 0..4 {
            sum = sum.add(plan.merged[d].evaluations[i].mul(plan.eqs[d].evaluations[i]));
        }
    }
    let coms = [G1::generator(), G1::generator(), G1::generator()];
    let claim = claim_batch(&coms, &points, &evals, 2, &mut transcript())?;
    assert_eq!(claim.sum, sum);
    assert_eq!(claim.weights, weights);
    Ok(())
}

#[test]
fn aggregates_of_polynomials_and_commitments_agree() -> Result<(), PCSError> {
    let mut rng = test_rng();
    let key: Vec<G1> = (0..4).map(|_| rg1(&mut rng)).collect();
    let polys: Vec<Mle> = (0..3).map(|_| rpoly(2, &mut rng)).collect();
    let points: Vec<Vec<Scalar>> = (0..3).map(|_| rvec(2, &mut rng)).collect();
    let evals: Vec<Scalar> =
        polys.iter().zip(points.iter()).map(|(f, x)| f.evaluate(x).unwrap()).collect();
    let plan = plan_batch(&polys, &points, &evals, &mut transcript())?;
    let a2 = rvec(2, &mut rng);
    let g = aggregate(&plan, &a2)?;
    let coms: Vec<G1> = polys.iter().map(|f| G1::msm(&key, &f.evaluations)).collect();
    let com = aggregate_commitments(&coms, &points, &plan.weights, &a2)?;
    assert_eq!(com, G1::msm(&key, &g.evaluations));
    Ok(())
}

#[test]
fn claims_that_do_not_fit_together_are_errors() {
    let mut rng = test_rng();
    let g = G1::generator();
    let points = vec![rvec(2, &mut rng), rvec(2, &mut rng)];
    let mut t = transcript();
    let refused = |r: Result<mlpcs::batching::BatchClaim, PCSError>| {
        matches!(r, Err(PCSError::InvalidProof(_)))
    };
    let one = num(1);
    assert!(refused(claim_batch(&[], &[], &[], 2, &mut t)));
    assert!(refused(claim_batch(&[g], &points, &[one, one], 2, &mut t)));
    assert!(refused(claim_batch(&[g, g], &points, &[one], 2, &mut t)));
    assert!(refused(claim_batch(&[g, g], &points, &[one, one], 3, &mut t)));
    assert!(claim_batch(&[g, g], &points, &[one, one], 2, &mut t).is_ok());
}

#[test]
fn errors_carry_their_messages() {
    let e = mlpcs::errors::invalid_proof("bad");
    assert_eq!(e.message(), "bad");
    assert_eq!(e, PCSError::InvalidProof("bad".to_string()));
    assert_eq!(mlpcs::errors::invalid_prover("p").message(), "p");
    assert_eq!(mlpcs::errors::invalid_parameters("q").message(), "q");
}
