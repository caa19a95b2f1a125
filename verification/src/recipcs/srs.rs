//! Parameters of ReciPCS: the powers of one trapdoor in G1, and three points of
//! G2.

use crate::dims::{copy_points, pow2_usize};
use crate::errors::{invalid_parameters, PCSError};
use crate::field::{fmul, vals, Scalar};
use crate::group::{logs, G1, G2};
use crate::kzg::{commit_prefix, is_power_key, power_key};
use crate::poly::dot;
use crate::reciprocal::{ReciKey, ReciPoints};
use crate::tensor::{lemma_p2_step, lemma_p2_zero, p2};
use vstd::prelude::*;

verus! {

/// Universal parameters.
#[derive(Clone, Debug)]
pub struct ReciUniversalParams {
    pub prover_param: ReciProverParam,
    pub verifier_param: ReciVerifierParam,
}

/// Prover parameters.
#[derive(Clone, Debug)]
pub struct ReciProverParam {
    /// `[tau^i]` for `i` up to the maximum degree.
    pub g1_powers: Vec<G1>,
    pub max_degree: usize,
}

/// Verifier parameters.
#[derive(Clone, Copy, Debug)]
pub struct ReciVerifierParam {
    pub g1_one: G1,
    pub g1_tau: G1,
    pub g2_one: G2,
    pub g2_tau: G2,
    pub g2_tau2: G2,
    pub max_degree: usize,
}

impl ReciVerifierParam {
    /// The verifier's key.
    pub open spec fn model(&self) -> ReciKey {
        ReciKey {
            g1_one: self.g1_one@,
            g1_tau: self.g1_tau@,
            g2_one: self.g2_one@,
            g2_tau: self.g2_tau@,
            g2_tau2: self.g2_tau2@,
        }
    }

    /// The points of the key.
    pub fn points(&self) -> (r: ReciPoints)
        ensures
            r.model() == self.model(),
    {
        ReciPoints {
            g1_one: self.g1_one,
            g1_tau: self.g1_tau,
            g2_one: self.g2_one,
            g2_tau: self.g2_tau,
            g2_tau2: self.g2_tau2,
        }
    }
}

impl ReciProverParam {
    /// The key has one power more than the maximum degree.
    pub open spec fn wf(&self) -> bool {
        self.g1_powers@.len() == self.max_degree + 1
    }

    /// The logarithms of the key.
    pub open spec fn key(&self) -> Seq<int> {
        logs(self.g1_powers@)
    }

    /// Commits to a univariate polynomial.
    pub fn commit(&self, coeffs: &[Scalar]) -> (r: Result<G1, PCSError>)
        ensures
            r is Ok <==> coeffs@.len() <= self.g1_powers@.len(),
            r matches Ok(c) ==> c@ == dot(self.key(), vals(coeffs@), coeffs@.len() as int),
            r matches Err(e) ==> e is InvalidParameters,
    {
        if coeffs.len() > self.g1_powers.len() {
            return Err(invalid_parameters("polynomial degree exceeds SRS max degree"));
        }
        Ok(commit_prefix(self.g1_powers.as_slice(), coeffs))
    }
}

impl ReciUniversalParams {
    pub open spec fn wf(&self) -> bool {
        self.prover_param.wf()
    }

    /// Prover and verifier parameters for a maximum degree.
    pub fn trim(&self, supported_size: usize) -> (r: Result<
        (ReciProverParam, ReciVerifierParam),
        PCSError,
    >)
        requires
            self.wf(),
        ensures
            r is Ok <==> supported_size <= self.prover_param.max_degree,
            r matches Err(e) ==> e is InvalidParameters,
            r matches Ok((ck, vk)) ==> {
                &&& ck.wf()
                &&& ck.max_degree == supported_size
                &&& ck.g1_powers@ == self.prover_param.g1_powers@.take(supported_size + 1)
                &&& vk.model() == self.verifier_param.model()
                &&& vk.max_degree == supported_size
            },
    {
        if supported_size > self.prover_param.max_degree {
            return Err(invalid_parameters("requested degree exceeds SRS max"));
        }
        let powers = self.prover_param.g1_powers.as_slice();
        let total: usize = powers.len();
        assert(supported_size < total);
        let prefix = vstd::slice::slice_subrange(powers, 0, supported_size + 1);
        let ck = ReciProverParam { g1_powers: copy_points(prefix), max_degree: supported_size };
        assert(ck.g1_powers@ =~= self.prover_param.g1_powers@.take(supported_size + 1));
        let vk = ReciVerifierParam {
            g1_one: self.verifier_param.g1_one,
            g1_tau: self.verifier_param.g1_tau,
            g2_one: self.verifier_param.g2_one,
            g2_tau: self.verifier_param.g2_tau,
            g2_tau2: self.verifier_param.g2_tau2,
            max_degree: supported_size,
        };
        Ok((ck, vk))
    }

    /// Parameters for polynomials in up to `supported_num_vars` variables, from
    /// a trapdoor and a point of each group. Whoever knows the trapdoor can
    /// forge: for testing only.
    pub fn gen_srs_for_testing(tau: Scalar, g1: G1, g2: G2, supported_num_vars: usize) -> (r:
        Result<ReciUniversalParams, PCSError>)
        ensures
            r is Ok <==> 1 <= supported_num_vars < usize::BITS,
            r matches Err(e) ==> e is InvalidParameters,
            r matches Ok(srs) ==> {
                &&& srs.wf()
                &&& srs.prover_param.max_degree == p2(supported_num_vars as int) - 1
                &&& is_power_key(srs.prover_param.key(), g1@, tau@)
                &&& srs.verifier_param.g1_one@ == srs.prover_param.key()[0]
                &&& srs.verifier_param.g1_tau@ == srs.prover_param.key()[1]
                &&& srs.verifier_param.g2_one@ == g2@
                &&& srs.verifier_param.g2_tau@ == fmul(g2@, tau@)
                &&& srs.verifier_param.g2_tau2@ == fmul(fmul(g2@, tau@), tau@)
                &&& srs.verifier_param.max_degree == srs.prover_param.max_degree
            },
    {
        if supported_num_vars == 0 {
            return Err(invalid_parameters("constant polynomial not supported (num_vars = 0)"));
        }
        if supported_num_vars >= usize::BITS as usize {
            return Err(invalid_parameters("num_vars too large for platform word size"));
        }
        let n: usize = pow2_usize(supported_num_vars);
        proof {
            lemma_p2_zero();
            lemma_p2_step(supported_num_vars as int);
        }
        let max_degree: usize = n - 1;
        let g1_powers = power_key(&g1, tau, n);
        let g1_one = g1_powers[0];
        let g1_tau = g1_powers[1];
        let g2_tau = g2.mul(&tau);
        let g2_tau2 = g2_tau.mul(&tau);
        Ok(
            ReciUniversalParams {
                prover_param: ReciProverParam { g1_powers, max_degree },
                verifier_param: ReciVerifierParam {
                    g1_one,
                    g1_tau,
                    g2_one: g2,
                    g2_tau,
                    g2_tau2,
                    max_degree,
                },
            },
        )
    }
}

} // verus!
