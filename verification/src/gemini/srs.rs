//! Parameters of Gemini: the powers of one trapdoor in G1, and two points of
//! G2.

use crate::dims::{copy_points, lemma_pow2_mono, pow2_usize};
use crate::errors::{invalid_parameters, PCSError};
use crate::field::{fmul, vals, Scalar};
use crate::group::{logs, G1, G2};
use crate::kzg::{commit_prefix, is_power_key, power_key};
use crate::poly::dot;
use crate::tensor::{lemma_p2_step, lemma_p2_zero, p2};
use vstd::prelude::*;

verus! {

/// Universal parameters.
#[derive(Clone, Debug)]
pub struct GeminiUniversalParams {
    pub prover_param: GeminiProverParam,
    pub verifier_param: GeminiVerifierParam,
}

/// Prover parameters.
#[derive(Clone, Debug)]
pub struct GeminiProverParam {
    /// `[tau^i]` for `i` up to the maximum degree.
    pub powers: Vec<G1>,
    pub max_degree: usize,
}

/// Verifier parameters.
#[derive(Clone, Debug, PartialEq, Eq)]
pub struct GeminiVerifierParam {
    pub g: G1,
    pub h: G2,
    /// `h` times the trapdoor.
    pub h_x: G2,
    pub max_num_vars: usize,
    pub max_degree: usize,
}

/// Greatest number of variables of a table that has at most `n` entries.
pub open spec fn log_floor(n: int, m: int) -> bool {
    if n <= 0 {
        m == 0
    } else {
        0 <= m && p2(m) <= n < p2(m + 1)
    }
}

impl GeminiProverParam {
    /// The key has one power more than the maximum degree.
    pub open spec fn wf(&self) -> bool {
        self.powers@.len() == self.max_degree + 1
    }

    /// The logarithms of the key.
    pub open spec fn key(&self) -> Seq<int> {
        logs(self.powers@)
    }

    /// Commits to a univariate polynomial.
    pub fn try_commit(&self, coeffs: &[Scalar]) -> (r: Result<G1, PCSError>)
        ensures
            r is Ok <==> coeffs@.len() <= self.powers@.len(),
            r matches Ok(c) ==> c@ == dot(self.key(), vals(coeffs@), coeffs@.len() as int),
            r matches Err(e) ==> e is InvalidParameters,
    {
        if coeffs.len() > self.powers.len() {
            return Err(invalid_parameters("polynomial degree exceeds SRS max degree"));
        }
        Ok(commit_prefix(self.powers.as_slice(), coeffs))
    }
}

/// The greatest number of variables whose hypercube has at most `n` vertices;
/// zero where there is none.
fn floor_log2(n: usize) -> (m: usize)
    ensures
        log_floor(n as int, m as int),
{
    proof {
        lemma_p2_zero();
    }
    if n == 0 {
        return 0;
    }
    let mut m: usize = 0;
    let mut size: usize = 1;
    while size <= n / 2
        invariant
            m < size <= n,
            size == p2(m as int),
        decreases n - size,
    {
        proof {
            lemma_p2_step(m + 1);
        }
        size = size * 2;
        m = m + 1;
    }
    proof {
        lemma_p2_step(m + 1);
    }
    m
}

impl GeminiUniversalParams {
    pub open spec fn wf(&self) -> bool {
        self.prover_param.wf()
    }

    /// Prover and verifier parameters for a maximum degree.
    pub fn trim(&self, supported_size: usize) -> (r: Result<
        (GeminiProverParam, GeminiVerifierParam),
        PCSError,
    >)
        requires
            self.wf(),
        ensures
            r is Ok <==> supported_size <= self.prover_param.max_degree,
            r matches Err(e) ==> e is InvalidParameters,
            r matches Ok((ck, vk)) ==> {
                &&& ck.wf()
                &&& ck.max_degree == supported_size
                &&& ck.powers@ == self.prover_param.powers@.take(supported_size + 1)
                &&& vk.g == self.verifier_param.g
                &&& vk.h == self.verifier_param.h
                &&& vk.h_x == self.verifier_param.h_x
                &&& vk.max_degree == supported_size
                &&& log_floor(supported_size as int, vk.max_num_vars as int)
            },
    {
        if supported_size > self.prover_param.max_degree {
            return Err(invalid_parameters("requested degree exceeds SRS max"));
        }
        let powers = self.prover_param.powers.as_slice();
        let total: usize = powers.len();
        assert(supported_size < total);
        let prefix = vstd::slice::slice_subrange(powers, 0, supported_size + 1);
        let ck = GeminiProverParam { powers: copy_points(prefix), max_degree: supported_size };
        assert(ck.powers@ =~= self.prover_param.powers@.take(supported_size + 1));
        let vk = GeminiVerifierParam {
            g: self.verifier_param.g,
            h: self.verifier_param.h,
            h_x: self.verifier_param.h_x,
            max_num_vars: floor_log2(supported_size),
            max_degree: supported_size,
        };
        Ok((ck, vk))
    }

    /// Parameters for polynomials in up to `supported_num_vars` variables, from
    /// a trapdoor and a point of each group. Whoever knows the trapdoor can
    /// forge: for testing only.
    pub fn gen_srs_for_testing(tau: Scalar, g1: G1, g2: G2, supported_num_vars: usize) -> (r:
        Result<GeminiUniversalParams, PCSError>)
        ensures
            r is Ok <==> 1 <= supported_num_vars < usize::BITS,
            r matches Err(e) ==> e is InvalidParameters,
            r matches Ok(srs) ==> {
                &&& srs.wf()
                &&& srs.prover_param.max_degree == p2(supported_num_vars as int)
                &&& is_power_key(srs.prover_param.key(), g1@, tau@)
                &&& srs.verifier_param.g@ == srs.prover_param.key()[0]
                &&& srs.verifier_param.h@ == g2@
                &&& srs.verifier_param.h_x@ == fmul(g2@, tau@)
                &&& srs.verifier_param.max_num_vars == supported_num_vars
                &&& srs.verifier_param.max_degree == srs.prover_param.max_degree
            },
    {
        if supported_num_vars == 0 {
            return Err(invalid_parameters("constant polynomial not supported (num_vars = 0)"));
        }
        if supported_num_vars >= usize::BITS as usize {
            return Err(invalid_parameters("num_vars too large for platform word size"));
        }
        let max_degree: usize = pow2_usize(supported_num_vars);
        proof {
            lemma_p2_step(supported_num_vars as int);
            assert(max_degree % 2 == 0);
            assert(usize::MAX % 2 == 1);
        }
        let powers = power_key(&g1, tau, max_degree + 1);
        let g = powers[0];
        let h_x = g2.mul(&tau);
        Ok(
            GeminiUniversalParams {
                prover_param: GeminiProverParam { powers, max_degree },
                verifier_param: GeminiVerifierParam {
                    g,
                    h: g2,
                    h_x,
                    max_num_vars: supported_num_vars,
                    max_degree,
                },
            },
        )
    }
}

/// The greatest number of variables of `2^m` entries is `m`.
pub proof fn law_log_floor(m: int, k: int)
    requires
        0 <= m,
        log_floor(p2(m), k),
    ensures
        k == m,
{
    lemma_pow2_mono(0, m);
    if k < m {
        lemma_pow2_mono(k + 1, m);
    }
    if m < k {
        lemma_pow2_mono(m + 1, k);
        lemma_p2_step(m + 1);
    }
}

} // verus!
