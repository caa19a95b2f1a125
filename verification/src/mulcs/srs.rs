//! Parameters of Mulcs: the powers of one trapdoor in G1, its first powers in
//! G2, and the scalar `gamma` of the Claymore identity.

use crate::dims::{copy_points, pow2_usize};
use crate::errors::{invalid_parameters, PCSError};
use crate::field::{fmul, vals, Scalar};
use crate::group::{logs, G1, G2};
use crate::kzg::{commit_prefix, is_power_key, power_key};
use crate::poly::dot;
use crate::tensor::{lemma_p2_step, p2};
use vstd::prelude::*;

verus! {

/// Universal parameters.
#[derive(Clone, Debug)]
pub struct MulcsUniversalParams {
    pub prover_param: MulcsProverParam,
    pub verifier_param: MulcsVerifierParam,
}

/// Prover parameters.
#[derive(Clone, Debug)]
pub struct MulcsProverParam {
    /// `[x^i]` for `i` up to the maximum degree.
    pub g1_powers: Vec<G1>,
    pub g2_one: G2,
    pub g2_x: G2,
    pub g2_x2: G2,
    pub gamma: Scalar,
    pub max_degree: usize,
}

/// Verifier parameters.
#[derive(Clone, Debug)]
pub struct MulcsVerifierParam {
    pub g1_one: G1,
    pub g1_x: G1,
    pub g2_one: G2,
    pub g2_x: G2,
    pub g2_x2: G2,
    pub gamma: Scalar,
    pub max_degree: usize,
}

impl MulcsProverParam {
    /// The key has one power more than the maximum degree, and two at least.
    pub open spec fn wf(&self) -> bool {
        &&& self.g1_powers@.len() == self.max_degree + 1
        &&& self.max_degree >= 1
    }

    /// The logarithms of the key.
    pub open spec fn key(&self) -> Seq<int> {
        logs(self.g1_powers@)
    }

    /// Commits to a univariate polynomial, which must not be longer than the
    /// key.
    pub fn commit(&self, coeffs: &[Scalar]) -> (r: G1)
        requires
            coeffs@.len() <= self.g1_powers@.len(),
        ensures
            r@ == dot(self.key(), vals(coeffs@), coeffs@.len() as int),
    {
        commit_prefix(self.g1_powers.as_slice(), coeffs)
    }

    fn copy(&self) -> (r: MulcsProverParam)
        ensures
            r.g1_powers@ == self.g1_powers@,
            r.g2_one == self.g2_one,
            r.g2_x == self.g2_x,
            r.g2_x2 == self.g2_x2,
            r.gamma == self.gamma,
            r.max_degree == self.max_degree,
    {
        MulcsProverParam {
            g1_powers: copy_points(self.g1_powers.as_slice()),
            g2_one: self.g2_one,
            g2_x: self.g2_x,
            g2_x2: self.g2_x2,
            gamma: self.gamma,
            max_degree: self.max_degree,
        }
    }
}

impl MulcsUniversalParams {
    pub open spec fn wf(&self) -> bool {
        self.prover_param.wf()
    }

    /// The prover's parameters as they are.
    pub fn extract_prover_param(&self, supported_size: usize) -> (r: MulcsProverParam)
        ensures
            r.g1_powers@ == self.prover_param.g1_powers@,
            r.g2_one == self.prover_param.g2_one,
            r.g2_x == self.prover_param.g2_x,
            r.g2_x2 == self.prover_param.g2_x2,
            r.gamma == self.prover_param.gamma,
            r.max_degree == self.prover_param.max_degree,
    {
        self.prover_param.copy()
    }

    /// The verifier's parameters as they are.
    pub fn extract_verifier_param(&self, supported_size: usize) -> (r: MulcsVerifierParam)
        ensures
            r == self.verifier_param,
    {
        MulcsVerifierParam {
            g1_one: self.verifier_param.g1_one,
            g1_x: self.verifier_param.g1_x,
            g2_one: self.verifier_param.g2_one,
            g2_x: self.verifier_param.g2_x,
            g2_x2: self.verifier_param.g2_x2,
            gamma: self.verifier_param.gamma,
            max_degree: self.verifier_param.max_degree,
        }
    }

    /// Prover and verifier parameters for a maximum degree.
    pub fn trim(&self, supported_size: usize) -> (r: Result<
        (MulcsProverParam, MulcsVerifierParam),
        PCSError,
    >)
        requires
            self.wf(),
        ensures
            r is Ok <==> supported_size <= self.prover_param.max_degree,
            r matches Err(e) ==> e is InvalidParameters,
            r matches Ok((ck, vk)) ==> {
                &&& ck.g1_powers@ == self.prover_param.g1_powers@.take(supported_size + 1)
                &&& ck.g2_one == self.prover_param.g2_one
                &&& ck.g2_x == self.prover_param.g2_x
                &&& ck.g2_x2 == self.prover_param.g2_x2
                &&& ck.gamma == self.prover_param.gamma
                &&& ck.max_degree == supported_size
                &&& vk.g1_one == self.verifier_param.g1_one
                &&& vk.g1_x == self.prover_param.g1_powers@[1]
                &&& vk.g2_one == self.verifier_param.g2_one
                &&& vk.g2_x == self.verifier_param.g2_x
                &&& vk.g2_x2 == self.verifier_param.g2_x2
                &&& vk.gamma == self.verifier_param.gamma
                &&& vk.max_degree == supported_size
            },
    {
        if supported_size > self.prover_param.max_degree {
            return Err(invalid_parameters("requested degree exceeds SRS max"));
        }
        let powers = self.prover_param.g1_powers.as_slice();
        let total: usize = powers.len();
        assert(supported_size < total);
        let prefix = vstd::slice::slice_subrange(powers, 0, supported_size + 1);
        let ck = MulcsProverParam {
            g1_powers: copy_points(prefix),
            g2_one: self.prover_param.g2_one,
            g2_x: self.prover_param.g2_x,
            g2_x2: self.prover_param.g2_x2,
            gamma: self.prover_param.gamma,
            max_degree: supported_size,
        };
        assert(ck.g1_powers@ =~= self.prover_param.g1_powers@.take(supported_size + 1));
        let vk = MulcsVerifierParam {
            g1_one: self.verifier_param.g1_one,
            g1_x: self.prover_param.g1_powers[1],
            g2_one: self.verifier_param.g2_one,
            g2_x: self.verifier_param.g2_x,
            g2_x2: self.verifier_param.g2_x2,
            gamma: self.verifier_param.gamma,
            max_degree: supported_size,
        };
        Ok((ck, vk))
    }

    /// Parameters for polynomials in up to `supported_num_vars` variables, from
    /// a trapdoor, a point of each group and `gamma`. The key reaches to twice
    /// the size of the tables. Whoever knows the trapdoor can forge: for
    /// testing only.
    pub fn gen_srs_for_testing(
        x: Scalar,
        g1: G1,
        g2: G2,
        gamma: Scalar,
        supported_num_vars: usize,
    ) -> (r: Result<MulcsUniversalParams, PCSError>)
        requires
            supported_num_vars + 1 < usize::BITS,
        ensures
            r is Ok <==> supported_num_vars > 0,
            r matches Err(e) ==> e is InvalidParameters,
            r matches Ok(srs) ==> {
                &&& srs.wf()
                &&& srs.prover_param.max_degree == 2 * p2(supported_num_vars as int)
                &&& is_power_key(srs.prover_param.key(), g1@, x@)
                &&& srs.prover_param.g2_one@ == g2@
                &&& srs.prover_param.g2_x@ == fmul(g2@, x@)
                &&& srs.prover_param.g2_x2@ == fmul(fmul(g2@, x@), x@)
                &&& srs.prover_param.gamma == gamma
                &&& srs.verifier_param.g1_one@ == srs.prover_param.key()[0]
                &&& srs.verifier_param.g1_x@ == srs.prover_param.key()[1]
                &&& srs.verifier_param.g2_one == srs.prover_param.g2_one
                &&& srs.verifier_param.g2_x == srs.prover_param.g2_x
                &&& srs.verifier_param.g2_x2 == srs.prover_param.g2_x2
                &&& srs.verifier_param.gamma == gamma
                &&& srs.verifier_param.max_degree == srs.prover_param.max_degree
            },
    {
        if supported_num_vars == 0 {
            return Err(invalid_parameters("constant polynomial not supported"));
        }
        let max_degree: usize = pow2_usize(supported_num_vars + 1);
        proof {
            lemma_p2_step(supported_num_vars + 1);
            assert(max_degree % 2 == 0);
            assert(usize::MAX % 2 == 1);
        }
        let g1_powers = power_key(&g1, x, max_degree + 1);
        let g2_x = g2.mul(&x);
        let g2_x2 = g2_x.mul(&x);
        let g1_one = g1_powers[0];
        let g1_x = g1_powers[1];
        Ok(
            MulcsUniversalParams {
                prover_param: MulcsProverParam {
                    g1_powers,
                    g2_one: g2,
                    g2_x,
                    g2_x2,
                    gamma,
                    max_degree,
                },
                verifier_param: MulcsVerifierParam {
                    g1_one,
                    g1_x,
                    g2_one: g2,
                    g2_x,
                    g2_x2,
                    gamma,
                    max_degree,
                },
            },
        )
    }
}

} // verus!
