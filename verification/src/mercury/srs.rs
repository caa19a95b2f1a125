//! Parameters of Mercury: the powers of one trapdoor in G1, and two points of
//! G2.

use crate::dims::{copy_points, pow2_usize};
use crate::errors::{invalid_parameters, PCSError};
use crate::field::{fmul, vals, Scalar};
use crate::group::{logs, G1, G2};
use crate::kzg::{commit_prefix, is_power_key, power_key};
use crate::poly::dot;
use vstd::arithmetic::power2::pow2;
use vstd::prelude::*;

verus! {

/// Universal parameters.
#[derive(Clone, Debug)]
pub struct MercuryUniversalParams {
    pub prover_param: MercuryProverParam,
    pub verifier_param: MercuryVerifierParam,
}

/// Prover parameters.
#[derive(Clone, Debug)]
pub struct MercuryProverParam {
    /// `[tau^i]` for `i` up to the maximum degree.
    pub g1_powers: Vec<G1>,
    pub max_degree: usize,
}

/// Verifier parameters.
#[derive(Clone, Debug, PartialEq, Eq)]
pub struct MercuryVerifierParam {
    pub g1_one: G1,
    pub g2_one: G2,
    pub g2_tau: G2,
    pub max_degree: usize,
}

impl MercuryProverParam {
    /// The key has one power more than the maximum degree.
    pub open spec fn wf(&self) -> bool {
        self.g1_powers@.len() == self.max_degree + 1
    }

    /// The logarithms of the key.
    pub open spec fn key(&self) -> Seq<int> {
        logs(self.g1_powers@)
    }

    /// Commits to a univariate polynomial.
    pub fn commit(&self, coeffs: &[Scalar]) -> (r: Result<G1, PCSError>)
        ensures
            r is Ok <==> coeffs@.len() <= self.g1_powers@.len(),
            r matches Ok(c) ==> c@ == dot(self.key(), vals(coeffs@), coeffs@.len() as int),
            r matches Err(e) ==> e is InvalidParameters,
    {
        if coeffs.len() > self.g1_powers.len() {
            return Err(invalid_parameters("polynomial degree exceeds SRS max degree"));
        }
        Ok(commit_prefix(self.g1_powers.as_slice(), coeffs))
    }
}

impl MercuryUniversalParams {
    pub open spec fn wf(&self) -> bool {
        self.prover_param.wf()
    }

    /// The prover's parameters as they are.
    pub fn extract_prover_param(&self, supported_size: usize) -> (r: MercuryProverParam)
        ensures
            r.g1_powers@ == self.prover_param.g1_powers@,
            r.max_degree == self.prover_param.max_degree,
    {
        MercuryProverParam {
            g1_powers: copy_points(self.prover_param.g1_powers.as_slice()),
            max_degree: self.prover_param.max_degree,
        }
    }

    /// The verifier's parameters as they are.
    pub fn extract_verifier_param(&self, supported_size: usize) -> (r: MercuryVerifierParam)
        ensures
            r == self.verifier_param,
    {
        MercuryVerifierParam {
            g1_one: self.verifier_param.g1_one,
            g2_one: self.verifier_param.g2_one,
            g2_tau: self.verifier_param.g2_tau,
            max_degree: self.verifier_param.max_degree,
        }
    }

    /// Prover and verifier parameters for a maximum degree.
    pub fn trim(&self, supported_size: usize) -> (r: Result<
        (MercuryProverParam, MercuryVerifierParam),
        PCSError,
    >)
        ensures
            r is Ok <==> supported_size <= self.prover_param.max_degree && supported_size + 1
                <= self.prover_param.g1_powers@.len(),
            r matches Err(e) ==> e is InvalidParameters,
            r matches Ok((ck, vk)) ==> {
                &&& ck.wf()
                &&& ck.max_degree == supported_size
                &&& ck.g1_powers@ == self.prover_param.g1_powers@.take(supported_size + 1)
                &&& vk.g1_one == self.prover_param.g1_powers@[0]
                &&& vk.g2_one == self.verifier_param.g2_one
                &&& vk.g2_tau == self.verifier_param.g2_tau
                &&& vk.max_degree == supported_size
            },
    {
        if supported_size > self.prover_param.max_degree {
            return Err(invalid_parameters("requested degree exceeds SRS max"));
        }
        if supported_size >= self.prover_param.g1_powers.len() {
            return Err(invalid_parameters("trim range exceeds available G1 powers"));
        }
        let powers = self.prover_param.g1_powers.as_slice();
        let prefix = vstd::slice::slice_subrange(powers, 0, supported_size + 1);
        let ck = MercuryProverParam { g1_powers: copy_points(prefix), max_degree: supported_size };
        assert(ck.g1_powers@ =~= self.prover_param.g1_powers@.take(supported_size + 1));
        let vk = MercuryVerifierParam {
            g1_one: self.prover_param.g1_powers[0],
            g2_one: self.verifier_param.g2_one,
            g2_tau: self.verifier_param.g2_tau,
            max_degree: supported_size,
        };
        Ok((ck, vk))
    }

    /// Parameters for polynomials in up to `supported_num_vars` variables, from
    /// a trapdoor and a point of each group. Whoever knows the trapdoor can
    /// forge: for testing only.
    pub fn gen_srs_for_testing(tau: Scalar, g1: G1, g2: G2, supported_num_vars: usize) -> (r:
        Result<MercuryUniversalParams, PCSError>)
        ensures
            r is Ok <==> 1 <= supported_num_vars < usize::BITS,
            r matches Err(e) ==> e is InvalidParameters,
            r matches Ok(srs) ==> {
                &&& srs.wf()
                &&& srs.prover_param.max_degree == pow2(supported_num_vars as nat) - 1
                &&& is_power_key(srs.prover_param.key(), g1@, tau@)
                &&& srs.verifier_param.g1_one@ == srs.prover_param.key()[0]
                &&& srs.verifier_param.g2_one@ == g2@
                &&& srs.verifier_param.g2_tau@ == fmul(g2@, tau@)
                &&& srs.verifier_param.max_degree == srs.prover_param.max_degree
            },
    {
        if supported_num_vars == 0 {
            return Err(invalid_parameters("constant polynomial not supported (num_vars = 0)"));
        }
        if supported_num_vars >= usize::BITS as usize {
            return Err(invalid_parameters("num_vars too large for platform word size"));
        }
        let n: usize = pow2_usize(supported_num_vars);
        let max_degree: usize = n - 1;
        let g1_powers = power_key(&g1, tau, n);
        let g1_one = g1_powers[0];
        let g2_tau = g2.mul(&tau);
        Ok(
            MercuryUniversalParams {
                prover_param: MercuryProverParam { g1_powers, max_degree },
                verifier_param: MercuryVerifierParam { g1_one, g2_one: g2, g2_tau, max_degree },
            },
        )
    }
}

} // verus!
