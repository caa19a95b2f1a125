//! A single opening from the setup to the verdict, with each of the schemes.

use crate::chopin::ChopinPCS;
use crate::dims::{lemma_pow2_mono, padded};
use crate::errors::PCSError;
use crate::field::{vals, Scalar};
use crate::gemini::{table_commitment, GeminiPCS};
use crate::gemini::model::fresh_log;
use crate::gemini::srs::law_log_floor;
use crate::group::{G1, G2};
use crate::mercury::MercuryPCS;
use crate::mercury::model::committed;
use crate::mulcs::MulcsPCS;
use crate::mulcs::claymore::powers_apart;
use crate::mulcs::symmetric::MulcsSymmetricPCS;
use crate::nested_grid_kzg::NestedGridKzgPCS;
use crate::nested_grid_kzg::serving::law_variables_served;
use crate::recipcs::ReciPCS;
use crate::tensor::{lemma_p2_step, lemma_p2_zero, mle_eval, Mle};
use crate::transcript::Entry;
use vstd::prelude::*;

verus! {

/// Makes keys of ReciPCS for `nv` variables, commits to a polynomial, opens it at a
/// point and verifies the opening. Returns the value and the verdict. The opening of a
/// polynomial that the keys support is accepted, unless `z` cannot be used.
pub fn run_recipcs(
    tau: Scalar,
    g1: G1,
    g2: G2,
    nv: usize,
    poly: &Mle,
    point: &[Scalar],
) -> (r: Result<(Scalar, bool), PCSError>)
    requires
        poly.wf(),
    ensures
        1 <= poly.num_vars <= nv && nv + 1 < usize::BITS && point@.len() == poly.num_vars ==> (
        match r {
            Ok((value, ok)) => ok && value@ == mle_eval(poly.table(), vals(point@)),
            Err(e) => e is InvalidProof,
        }),
        !(1 <= poly.num_vars <= nv && point@.len() == poly.num_vars) ==> r is Err,
{
    let srs = ReciPCS::gen_srs_for_testing(tau, g1, g2, nv)?;
    let (ck, vk) = ReciPCS::trim(&srs, Some(nv))?;
    let ghost served = 1 <= poly.num_vars <= nv && nv + 1 < usize::BITS && point@.len()
        == poly.num_vars;
    proof {
        if served {
            lemma_pow2_mono(poly.num_vars as int, nv as int);
        }
        if nv < poly.num_vars {
            lemma_pow2_mono(nv + 1, poly.num_vars as int);
            lemma_p2_step(nv + 1);
        }
        lemma_p2_zero();
        lemma_p2_step(1);
        lemma_pow2_mono(1, nv as int);
        assert(ck.key() =~= srs.prover_param.key().take(ck.max_degree + 1));
    }
    let com = ReciPCS::commit(&ck, poly)?;
    let opening = ReciPCS::open(&ck, poly, point);
    proof {
        if served {
            crate::recipcs::serving::law_open_serves(&ck, poly, point@, opening);
        }
    }
    let (proof, value) = opening?;
    let verdict = ReciPCS::verify(&vk, &com, point, &value, &proof);
    proof {
        crate::recipcs::serving::law_open_serves(&ck, poly, point@, opening);
        crate::recipcs::roundtrip::law_opening_is_accepted(
            &ck,
            &vk,
            g1@,
            tau@,
            poly,
            point@,
            proof,
            value,
            verdict,
        );
    }
    let ok = verdict?;
    Ok((value, ok))
}

/// The same with Mercury: the opening of a polynomial that the keys support is accepted,
/// unless challenges coincide.
pub fn run_mercury(
    tau: Scalar,
    g1: G1,
    g2: G2,
    nv: usize,
    poly: &Mle,
    point: &[Scalar],
) -> (r: Result<(Scalar, bool), PCSError>)
    requires
        poly.wf(),
    ensures
        1 <= poly.num_vars <= nv < usize::BITS && point@.len() == poly.num_vars ==> (match r {
            Ok((value, ok)) => ok && value@ == mle_eval(poly.table(), vals(point@)),
            Err(e) => e is InvalidProof,
        }),
        !(1 <= poly.num_vars <= nv && point@.len() == poly.num_vars) ==> r is Err,
{
    let srs = MercuryPCS::gen_srs_for_testing(tau, g1, g2, nv)?;
    let (ck, vk) = MercuryPCS::trim(&srs, Some(nv))?;
    let ghost served = 1 <= poly.num_vars <= nv < usize::BITS && point@.len() == poly.num_vars;
    proof {
        if served {
            lemma_pow2_mono(poly.num_vars as int, nv as int);
        }
        if nv < poly.num_vars {
            lemma_pow2_mono(nv + 1, poly.num_vars as int);
            lemma_p2_step(nv + 1);
        }
        lemma_pow2_mono(0, nv as int);
        assert(ck.key() =~= srs.prover_param.key().take(ck.max_degree + 1));
    }
    let com = MercuryPCS::commit(&ck, poly)?;
    let opening = MercuryPCS::open(&ck, poly, point);
    proof {
        if served {
            crate::mercury::serving::law_open_serves(
                &ck,
                poly,
                point@,
                committed(ck.key(), poly.table()),
                opening,
            );
        }
    }
    let (proof, value) = opening?;
    let verdict = MercuryPCS::verify(&vk, &com, point, &value, &proof);
    proof {
        crate::mercury::serving::law_open_serves(
                &ck,
                poly,
                point@,
                committed(ck.key(), poly.table()),
                opening,
            );
        crate::mercury::roundtrip::law_opening_is_accepted(
            &ck,
            &vk,
            g1@,
            tau@,
            poly,
            point@,
            proof,
            value,
            verdict,
        );
    }
    let ok = verdict?;
    Ok((value, ok))
}

/// The same with Gemini: the opening of a polynomial that the keys support is accepted,
/// unless a challenge cannot be used.
pub fn run_gemini(
    tau: Scalar,
    g1: G1,
    g2: G2,
    nv: usize,
    poly: &Mle,
    point: &[Scalar],
) -> (r: Result<(Scalar, bool), PCSError>)
    requires
        poly.wf(),
    ensures
        1 <= poly.num_vars <= nv < usize::BITS && point@.len() == poly.num_vars ==> (match r {
            Ok((value, ok)) => ok && value@ == mle_eval(poly.table(), vals(point@)),
            Err(e) => e is InvalidProver,
        }),
        !(1 <= poly.num_vars <= nv && point@.len() == poly.num_vars) ==> r is Err,
{
    let srs = GeminiPCS::gen_srs_for_testing(tau, g1, g2, nv)?;
    let (ck, vk) = GeminiPCS::trim(&srs, Some(nv))?;
    let ghost served = 1 <= poly.num_vars <= nv < usize::BITS && point@.len() == poly.num_vars;
    proof {
        if served {
            lemma_pow2_mono(poly.num_vars as int, nv as int);
        }
        if nv < poly.num_vars {
            lemma_pow2_mono(nv + 1, poly.num_vars as int);
            lemma_p2_step(nv + 1);
        }
        lemma_pow2_mono(0, nv as int);
        law_log_floor(nv as int, vk.max_num_vars as int);
        assert(ck.key() =~= srs.prover_param.key().take(ck.max_degree + 1));
    }
    let com = GeminiPCS::commit(&ck, poly)?;
    let opening = GeminiPCS::open(&ck, poly, point);
    proof {
        if served {
            crate::gemini::serving::law_open_serves(
                &ck,
                poly,
                point@,
                table_commitment(&ck, poly),
                opening,
            );
        }
    }
    let (proof, value) = opening?;
    let verdict = GeminiPCS::verify(&vk, &com, point, &value, &proof);
    proof {
        crate::gemini::serving::law_open_serves(
                &ck,
                poly,
                point@,
                table_commitment(&ck, poly),
                opening,
            );
        crate::gemini::roundtrip::law_opening_is_accepted(
            fresh_log("gemini-open"@, point@.len() as int),
            &ck,
            &vk,
            g1@,
            tau@,
            poly,
            point@,
            proof,
            value,
            verdict,
        );
    }
    let ok = verdict?;
    Ok((value, ok))
}

/// The same with Mulcs: for powers of `gamma` that are apart, the opening of a polynomial
/// is accepted, unless `gamma` does not move `z`.
pub fn run_mulcs(
    x: Scalar,
    g1: G1,
    g2: G2,
    gamma: Scalar,
    nv: usize,
    poly: &Mle,
    point: &[Scalar],
) -> (r: Result<(Scalar, bool), PCSError>)
    requires
        poly.wf(),
        1 <= poly.num_vars <= nv,
        nv + 1 < usize::BITS,
    ensures
        point@.len() == poly.num_vars ==> (match r {
            Ok((value, ok)) => (powers_apart(
                gamma@,
                poly.evaluations@.len() as int,
                2 * poly.evaluations@.len() - 1,
            ) ==> ok) && value@ == mle_eval(poly.table(), vals(point@)),
            Err(e) => e is InvalidProof,
        }),
        point@.len() != poly.num_vars ==> r is Err,
{
    let srs = MulcsPCS::gen_srs_for_testing(x, g1, g2, gamma, nv)?;
    let (ck, vk) = MulcsPCS::trim(&srs, Some(nv))?;
    let ghost served = point@.len() == poly.num_vars;
    proof {
        lemma_pow2_mono(poly.num_vars as int, nv as int);
        lemma_pow2_mono(0, nv as int);
        assert(ck.key() =~= srs.prover_param.key().take(ck.max_degree + 1));
    }
    let com = MulcsPCS::commit(&ck, poly)?;
    let opening = MulcsPCS::open(&ck, poly, point);
    proof {
        if served {
            crate::mulcs::serving::law_open_serves(&ck, poly, point@, opening);
        }
    }
    let (proof, value) = opening?;
    let verdict = MulcsPCS::verify(&vk, &com, point, &value, &proof);
    proof {
        crate::mulcs::serving::law_open_serves(&ck, poly, point@, opening);
        if powers_apart(
            gamma@,
            poly.evaluations@.len() as int,
            2 * poly.evaluations@.len() - 1,
        ) {
            crate::mulcs::roundtrip::law_opening_is_accepted(
                crate::mulcs::model::fresh_log(point@.len() as int),
                &ck,
                &vk,
                g1@,
                x@,
                poly,
                point@,
                proof,
                value,
                verdict,
            );
        }
    }
    let ok = verdict?;
    Ok((value, ok))
}

/// The same with the symmetric variant of Mulcs: the opening of a polynomial is accepted,
/// unless `z` cannot be used.
pub fn run_mulcs_symmetric(
    x: Scalar,
    g1: G1,
    g2: G2,
    gamma: Scalar,
    nv: usize,
    poly: &Mle,
    point: &[Scalar],
) -> (r: Result<(Scalar, bool), PCSError>)
    requires
        poly.wf(),
        1 <= poly.num_vars <= nv,
        nv + 1 < usize::BITS,
    ensures
        point@.len() == poly.num_vars ==> (r matches Ok((value, ok)) ==> ok && value@ == mle_eval(
            poly.table(),
            vals(point@),
        )),
        point@.len() != poly.num_vars ==> r is Err,
{
    let srs = MulcsSymmetricPCS::gen_srs_for_testing(x, g1, g2, gamma, nv)?;
    let (ck, vk) = MulcsSymmetricPCS::trim(&srs, Some(nv))?;
    let ghost served = point@.len() == poly.num_vars;
    proof {
        lemma_pow2_mono(poly.num_vars as int, nv as int);
        lemma_pow2_mono(0, nv as int);
        assert(ck.key() =~= srs.prover_param.key().take(ck.max_degree + 1));
    }
    let com = MulcsSymmetricPCS::commit(&ck, poly)?;
    let opening = MulcsSymmetricPCS::open(&ck, poly, point);
    proof {
        if served {
            crate::mulcs::serving::law_symmetric_open_serves(&ck, poly, point@, opening);
        }
    }
    let (proof, value) = opening?;
    let verdict = MulcsSymmetricPCS::verify(&vk, &com, point, &value, &proof);
    proof {
        crate::mulcs::serving::law_symmetric_open_serves(&ck, poly, point@, opening);
        crate::mulcs::roundtrip::law_symmetric_opening_is_accepted(
            crate::mulcs::symmetric::fresh_log(point@.len() as int),
            &ck,
            &vk,
            g1@,
            x@,
            poly,
            point@,
            proof,
            value,
            verdict,
        );
    }
    let ok = verdict?;
    Ok((value, ok))
}

/// The same with the nested grid: the opening of a polynomial in as many variables as the
/// keys is accepted, unless the draws of a challenge are exhausted.
pub fn run_nested_grid(
    tau: Scalar,
    sigma: Scalar,
    g1: G1,
    g2: G2,
    nv: usize,
    poly: &Mle,
    point: &[Scalar],
) -> (r: Result<(Scalar, bool), PCSError>)
    requires
        poly.wf(),
        tau@ != 0,
        sigma@ != 0,
        sigma@ != tau@,
    ensures
        4 <= poly.num_vars == nv < usize::BITS && point@.len() == poly.num_vars ==> (match r {
            Ok((value, ok)) => ok && value@ == mle_eval(poly.table(), vals(point@)),
            Err(e) => exists|com: int, end: Seq<Entry>| #[trigger]
                nested_grid_stopped(com, poly, point@, end),
        }),
        !(4 <= poly.num_vars == nv && point@.len() == poly.num_vars) ==> r is Err,
{
    let srs = NestedGridKzgPCS::gen_srs_for_testing(tau, sigma, g1, g2, nv)?;
    let (ck, vk) = NestedGridKzgPCS::trim(&srs, Some(nv))?;
    let ghost served = 4 <= poly.num_vars == nv < usize::BITS && point@.len() == poly.num_vars;
    proof {
        crate::nested_grid_kzg::serving::law_trimmed_keys_match(
            &srs,
            &ck,
            &vk,
            g1@,
            tau@,
            sigma@,
        );
        if served {
            law_variables_served(nv as int);
        }
    }
    let com = NestedGridKzgPCS::commit(&ck, poly)?;
    let opening = NestedGridKzgPCS::open(&ck, poly, point);
    proof {
        if served {
            let c = crate::nested_grid_kzg::table_commitment(&ck, poly);
            crate::nested_grid_kzg::serving::law_open_serves(&ck, poly, point@, c, opening);
            if opening is Err {
                let start = crate::nested_grid_kzg::serving::statement(
                    c,
                    vals(point@),
                    mle_eval(poly.table(), vals(point@)),
                );
                let end = choose|end: Seq<Entry>| #[trigger]
                    crate::nested_grid_kzg::serving::stopped_at(start, end);
                assert(nested_grid_stopped(c, poly, point@, end));
            }
        }
    }
    let (proof, value) = opening?;
    let verdict = NestedGridKzgPCS::verify(&vk, &com, point, &value, &proof);
    proof {
        crate::nested_grid_kzg::serving::law_open_serves(
                &ck,
                poly,
                point@,
                crate::nested_grid_kzg::table_commitment(&ck, poly),
                opening,
            );
        crate::nested_grid_kzg::roundtrip::law_opening_is_accepted(
            &ck,
            &vk,
            g1@,
            tau@,
            sigma@,
            poly,
            point@,
            proof,
            value,
            verdict,
        );
    }
    let ok = verdict?;
    Ok((value, ok))
}

/// The same with Chopin: the opening of a polynomial that the keys support is accepted,
/// unless the draws of a challenge are exhausted.
#[verifier::rlimit(60)]
pub fn run_chopin(
    tau: Scalar,
    sigma: Scalar,
    g1: G1,
    g2: G2,
    nv: usize,
    poly: &Mle,
    point: &[Scalar],
) -> (r: Result<(Scalar, bool), PCSError>)
    requires
        poly.wf(),
        tau@ != 0,
        sigma@ != 0,
        sigma@ != tau@,
    ensures
        2 <= poly.num_vars <= nv < usize::BITS && point@.len() == poly.num_vars ==> (match r {
            Ok((value, ok)) => ok && value@ == mle_eval(poly.table(), vals(point@)),
            Err(e) => exists|com: int, end: Seq<Entry>, alpha: int, beta: int| #[trigger]
                chopin_stopped(com, nv as nat, poly, point@, end, alpha, beta),
        }),
        !(2 <= poly.num_vars <= nv && point@.len() == poly.num_vars) ==> r is Err,
{
    let srs = ChopinPCS::gen_srs_for_testing(tau, sigma, g1, g2, nv)?;
    let (ck, vk) = ChopinPCS::trim(&srs, Some(nv))?;
    let ghost served = 2 <= poly.num_vars <= nv < usize::BITS && point@.len() == poly.num_vars;
    proof {
        crate::chopin::serving::law_trimmed_keys_match(&srs, &ck, &vk, g1@, tau@, sigma@);
    }
    let com = ChopinPCS::commit(&ck, poly)?;
    let opening = ChopinPCS::open(&ck, poly, point);
    proof {
        if served {
            let c = crate::chopin::table_commitment(&ck, poly);
            crate::chopin::serving::law_open_serves(&ck, poly, point@, c, opening);
            if opening is Err {
                lemma_chopin_stopped(c, nv as nat, poly, point@);
            }
        }
    }
    let (proof, value) = opening?;
    let verdict = ChopinPCS::verify(&vk, &com, point, &value, &proof);
    proof {
        crate::chopin::serving::law_open_serves(
                &ck,
                poly,
                point@,
                crate::chopin::table_commitment(&ck, poly),
                opening,
            );
        crate::chopin::roundtrip::law_opening_is_accepted(
            &ck,
            &vk,
            g1@,
            tau@,
            sigma@,
            poly,
            point@,
            proof,
            value,
            verdict,
        );
    }
    let ok = verdict?;
    Ok((value, ok))
}

/// Whether an opening with the nested grid ended on draws that were exhausted, after the
/// statement of the polynomial's value.
pub open spec fn nested_grid_stopped(
    com: int,
    poly: &Mle,
    point: Seq<Scalar>,
    end: Seq<Entry>,
) -> bool {
    crate::nested_grid_kzg::serving::stopped_at(
        crate::nested_grid_kzg::serving::statement(
            com,
            vals(point),
            mle_eval(poly.table(), vals(point)),
        ),
        end,
    )
}

/// Whether an opening with Chopin for `nv` variables ended on draws that were exhausted,
/// after the statement of the polynomial's value.
pub open spec fn chopin_stopped(
    com: int,
    nv: nat,
    poly: &Mle,
    point: Seq<Scalar>,
    end: Seq<Entry>,
    alpha: int,
    beta: int,
) -> bool {
    crate::chopin::serving::stopped_at(
        crate::chopin::serving::statement(
            com,
            padded(vals(point), nv),
            mle_eval(poly.table(), vals(point)),
        ),
        end,
        alpha,
        beta,
    )
}

proof fn lemma_chopin_stopped(com: int, nv: nat, poly: &Mle, point: Seq<Scalar>)
    requires
        exists|end: Seq<Entry>, alpha: int, beta: int| #[trigger]
            crate::chopin::serving::stopped_at(
                crate::chopin::serving::statement(
                    com,
                    padded(vals(point), nv),
                    mle_eval(poly.table(), vals(point)),
                ),
                end,
                alpha,
                beta,
            ),
    ensures
        exists|com: int, end: Seq<Entry>, alpha: int, beta: int| #[trigger]
            chopin_stopped(com, nv, poly, point, end, alpha, beta),
{
    let start = crate::chopin::serving::statement(
        com,
        padded(vals(point), nv),
        mle_eval(poly.table(), vals(point)),
    );
    let (end, alpha, beta) = choose|end: Seq<Entry>, alpha: int, beta: int| #[trigger]
        crate::chopin::serving::stopped_at(start, end, alpha, beta);
    assert(chopin_stopped(com, nv, poly, point, end, alpha, beta));
}

} // verus!
