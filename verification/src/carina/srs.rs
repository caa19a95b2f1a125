//! Structured reference string of the Carina scheme.
//!
//! For `mu` variables the commitment key is the grid `[tau^i sigma^j]` with
//! `0 <= i < M_L = 2^ceil(mu/2)` and `0 <= j < M_R = 2^floor(mu/2)`, in a layout
//! that puts the part with `i < M_L - 2` first, column by column, so that the
//! quotient in `X` is committed over a prefix of the key; the two top powers
//! of every column follow. The verifier key holds four bases of the grid and
//! the points `[1], [tau], [tau^2], [sigma], [sigma^2]` of G2.

use crate::dims::{
    copy_points, lemma_pow2_mono, lemma_row_major, lemma_row_major_inv, lemma_split, pow2_usize,
    power_seq, powers, split,
};
use crate::errors::{invalid_parameters, PCSError};
use crate::field::{fmul, fpow, vals, Scalar};
use crate::group::{logs, G1, G2};
use crate::poly::{dot, lemma_dot_ext};
use vstd::arithmetic::power2::pow2;
use vstd::prelude::*;

verus! {

/// Number of points that are generated at a time.
pub const SRS_GEN_CHUNK: usize = 65536;

/// Splits `mu` variables into `(ceil(mu / 2), floor(mu / 2))`.
pub fn split_exponents(mu: usize) -> (r: (usize, usize))
    ensures
        (r.0 as int, r.1 as int) == split(mu as int),
{
    (mu / 2 + mu % 2, mu / 2)
}

/// Position of the base `[tau^i sigma^j]` in the key.
pub open spec fn base_position(big_ml: int, big_mr: int, i: int, j: int) -> int {
    if i < big_ml - 2 {
        j * (big_ml - 2) + i
    } else {
        (big_ml - 2) * big_mr + 2 * j + (i - (big_ml - 2))
    }
}

/// The exponents `(i, j)` of the base at a position of the key.
pub open spec fn position_base(big_ml: int, big_mr: int, p: int) -> (int, int) {
    if p < (big_ml - 2) * big_mr {
        (p % (big_ml - 2), p / (big_ml - 2))
    } else {
        (
            (big_ml - 2) + (p - (big_ml - 2) * big_mr) % 2,
            (p - (big_ml - 2) * big_mr) / 2,
        )
    }
}

/// The layout maps the grid into the key, and each position back to the
/// exponents that it came from.
pub proof fn lemma_position_of_base(big_ml: int, big_mr: int, i: int, j: int)
    requires
        3 <= big_ml,
        0 <= i < big_ml,
        0 <= j < big_mr,
    ensures
        0 <= base_position(big_ml, big_mr, i, j) < big_ml * big_mr,
        position_base(big_ml, big_mr, base_position(big_ml, big_mr, i, j)) == (i, j),
{
    let w = big_ml - 2;
    assert(big_ml * big_mr == w * big_mr + 2 * big_mr) by (nonlinear_arith)
        requires
            w == big_ml - 2,
    ;
    assert(0 <= w * big_mr) by (nonlinear_arith)
        requires
            0 < w,
            0 < big_mr,
    ;
    if i < w {
        lemma_row_major(w, big_mr, i, j);
    }
}

/// Every position of the key holds the base of some exponents of the grid.
pub proof fn lemma_base_of_position(big_ml: int, big_mr: int, p: int)
    requires
        3 <= big_ml,
        0 <= p < big_ml * big_mr,
    ensures
        0 <= position_base(big_ml, big_mr, p).0 < big_ml,
        0 <= position_base(big_ml, big_mr, p).1 < big_mr,
        base_position(
            big_ml,
            big_mr,
            position_base(big_ml, big_mr, p).0,
            position_base(big_ml, big_mr, p).1,
        ) == p,
{
    let w = big_ml - 2;
    assert(big_ml * big_mr == w * big_mr + 2 * big_mr) by (nonlinear_arith)
        requires
            w == big_ml - 2,
    ;
    if p < w * big_mr {
        lemma_row_major_inv(w, big_mr, p);
    }
}

/// Position of the base `[tau^i sigma^j]` for a grid of the given sides.
pub fn grid_base_index(big_ml: usize, big_mr: usize, i: usize, j: usize) -> (r: usize)
    requires
        3 <= big_ml,
        (big_ml - 2) * big_mr <= usize::MAX,
        base_position(big_ml as int, big_mr as int, i as int, j as int) <= usize::MAX,
    ensures
        r == base_position(big_ml as int, big_mr as int, i as int, j as int),
{
    let w: usize = big_ml - 2;
    let qx_len: usize = w * big_mr;
    if i < w {
        proof {
            assert(0 <= j * w) by (nonlinear_arith)
                requires
                    0 <= j,
                    0 <= w,
            ;
        }
        j * w + i
    } else {
        qx_len + 2 * j + (i - w)
    }
}

/// Exponents of the base at a position: the inverse of [`grid_base_index`].
pub fn inv_base_index(big_ml: usize, big_mr: usize, p: usize) -> (r: (usize, usize))
    requires
        3 <= big_ml,
        (big_ml - 2) * big_mr <= usize::MAX,
    ensures
        (r.0 as int, r.1 as int) == position_base(big_ml as int, big_mr as int, p as int),
{
    let w: usize = big_ml - 2;
    let qx_len: usize = w * big_mr;
    if p < qx_len {
        (p % w, p / w)
    } else {
        let q: usize = p - qx_len;
        (w + q % 2, q / 2)
    }
}

/// Logarithm of the base `[tau^i sigma^j]` over the point with logarithm `g`.
pub open spec fn grid_base(g: int, tau: int, sigma: int, i: int, j: int) -> int {
    fmul(g, fmul(fpow(tau, i as nat), fpow(sigma, j as nat)))
}

/// Whether a key holds exactly the grid of the trapdoors in its layout.
pub open spec fn is_grid_key(
    key: Seq<int>,
    big_ml: int,
    big_mr: int,
    g: int,
    tau: int,
    sigma: int,
) -> bool {
    &&& key.len() == big_ml * big_mr
    &&& forall|p: int|
        0 <= p < key.len() ==> #[trigger] key[p] == grid_base(
            g,
            tau,
            sigma,
            position_base(big_ml, big_mr, p).0,
            position_base(big_ml, big_mr, p).1,
        )
}

/// A table with rows of length `big_ml` in the order of the key.
pub open spec fn layout(evals: Seq<int>, big_ml: int, big_mr: int) -> Seq<int> {
    Seq::new(
        (big_ml * big_mr) as nat,
        |p: int| evals[position_base(big_ml, big_mr, p).0 + big_ml * position_base(big_ml, big_mr, p).1],
    )
}

/// The bases of a key at the given positions.
pub open spec fn collected(key: Seq<int>, indices: Seq<usize>) -> Seq<int> {
    Seq::new(indices.len(), |k: int| key[indices[k] as int])
}

/// The bases `[tau^i]` of a key.
pub open spec fn tau_bases(key: Seq<int>, big_ml: int, big_mr: int) -> Seq<int> {
    Seq::new(big_ml as nat, |i: int| key[base_position(big_ml, big_mr, i, 0)])
}

/// The bases `[sigma^j]` of a key.
pub open spec fn sigma_bases(key: Seq<int>, big_ml: int, big_mr: int) -> Seq<int> {
    Seq::new(big_mr as nat, |j: int| key[base_position(big_ml, big_mr, 0, j)])
}

/// Universal parameters: the grid key and the five points of G2.
#[derive(Clone, Debug)]
pub struct CarinaUniversalParams {
    pub g1_powers: Vec<G1>,
    pub g2_one: G2,
    pub g2_tau: G2,
    pub g2_tau2: G2,
    pub g2_sigma: G2,
    pub g2_sigma2: G2,
    pub max_num_vars: usize,
    pub m_left: usize,
    pub m_right: usize,
}

/// Prover parameters for a number of variables.
#[derive(Clone, Debug)]
pub struct CarinaProverParam {
    pub g1_powers: Vec<G1>,
    pub num_vars: usize,
    pub m_left: usize,
    pub m_right: usize,
}

/// Verifier parameters.
#[derive(Clone, Debug, PartialEq, Eq)]
pub struct CarinaVerifierParam {
    pub g1_one: G1,
    pub g1_tau: G1,
    pub g1_sigma: G1,
    pub g1_tau_sigma: G1,
    pub g2_one: G2,
    pub g2_tau: G2,
    pub g2_tau2: G2,
    pub g2_sigma: G2,
    pub g2_sigma2: G2,
    pub max_num_vars: usize,
    pub m_left: usize,
    pub m_right: usize,
}

impl CarinaProverParam {
    /// The exponents are the split of the number of variables.
    pub open spec fn dims(&self) -> bool {
        &&& 4 <= self.num_vars < usize::BITS
        &&& (self.m_left as int, self.m_right as int) == split(self.num_vars as int)
    }

    /// The key has as many points as the grid.
    pub open spec fn wf(&self) -> bool {
        &&& self.dims()
        &&& self.g1_powers@.len() == pow2(self.num_vars as nat)
    }

    pub open spec fn ml(&self) -> int {
        pow2(self.m_left as nat) as int
    }

    pub open spec fn mr(&self) -> int {
        pow2(self.m_right as nat) as int
    }

    /// The logarithms of the key.
    pub open spec fn key(&self) -> Seq<int> {
        logs(self.g1_powers@)
    }

    proof fn lemma_dims(&self)
        requires
            self.dims(),
        ensures
            4 <= self.ml(),
            4 <= self.mr(),
            self.ml() * self.mr() == pow2(self.num_vars as nat),
            self.ml() * self.mr() <= usize::MAX,
            (self.ml() - 2) * self.mr() == self.ml() * self.mr() - 2 * self.mr(),
            self.ml() <= self.ml() * self.mr(),
            self.m_left < usize::BITS,
            self.m_right < usize::BITS,
    {
        lemma_grid_dims(self.num_vars as int);
    }

    /// `M_L`.
    pub fn big_ml(&self) -> (r: usize)
        requires
            self.dims(),
        ensures
            r == self.ml(),
    {
        proof {
            self.lemma_dims();
        }
        pow2_usize(self.m_left)
    }

    /// `M_R`.
    pub fn big_mr(&self) -> (r: usize)
        requires
            self.dims(),
        ensures
            r == self.mr(),
    {
        proof {
            self.lemma_dims();
        }
        pow2_usize(self.m_right)
    }

    /// Number of points of the grid.
    pub fn n(&self) -> (r: usize)
        requires
            self.dims(),
        ensures
            r == pow2(self.num_vars as nat),
    {
        proof {
            self.lemma_dims();
        }
        self.big_ml() * self.big_mr()
    }

    /// Length of the quotient in `X`.
    pub fn qx_len(&self) -> (r: usize)
        requires
            self.dims(),
        ensures
            r == (self.ml() - 2) * self.mr(),
    {
        proof {
            self.lemma_dims();
        }
        (self.big_ml() - 2) * self.big_mr()
    }

    /// Position of the base `[tau^i sigma^j]` of this key.
    pub fn base_index(&self, i: usize, j: usize) -> (r: usize)
        requires
            self.dims(),
            i < self.ml(),
            j < self.mr(),
        ensures
            r == base_position(self.ml(), self.mr(), i as int, j as int),
    {
        proof {
            self.lemma_dims();
            lemma_position_of_base(self.ml(), self.mr(), i as int, j as int);
        }
        grid_base_index(self.big_ml(), self.big_mr(), i, j)
    }

    /// Inner product of the scalars with the prefix of the key of their length.
    pub fn msm_prefix(&self, scalars: &[Scalar]) -> (r: Result<G1, PCSError>)
        ensures
            r is Ok <==> scalars@.len() <= self.g1_powers@.len(),
            r matches Ok(c) ==> c@ == dot(self.key(), vals(scalars@), scalars@.len() as int),
            r matches Err(e) ==> e is InvalidParameters,
    {
        if scalars.len() > self.g1_powers.len() {
            return Err(invalid_parameters("prefix MSM length exceeds SRS G1 length"));
        }
        let bases = vstd::slice::slice_subrange(self.g1_powers.as_slice(), 0, scalars.len());
        proof {
            lemma_dot_ext(
                logs(bases@),
                self.key(),
                vals(scalars@),
                vals(scalars@),
                scalars@.len() as int,
            );
        }
        Ok(G1::msm(bases, scalars))
    }

    /// Inner product of the scalars with the bases at the given positions.
    pub fn msm_collected(&self, indices: &[usize], scalars: &[Scalar]) -> (r: Result<G1, PCSError>)
        ensures
            r is Ok <==> indices@.len() == scalars@.len() && forall|k: int|
                0 <= k < indices@.len() ==> #[trigger] indices@[k] < self.g1_powers@.len(),
            r matches Ok(c) ==> c@ == dot(
                collected(self.key(), indices@),
                vals(scalars@),
                scalars@.len() as int,
            ),
            r matches Err(e) ==> e is InvalidParameters,
    {
        if indices.len() != scalars.len() {
            return Err(invalid_parameters("collected MSM length mismatch"));
        }
        let mut bases: Vec<G1> = Vec::new();
        let mut k: usize = 0;
        while k < indices.len()
            invariant
                k <= indices@.len(),
                bases@.len() == k,
                forall|m: int|
                    0 <= m < k ==> #[trigger] indices@[m] < self.g1_powers@.len() && bases@[m]
                        == self.g1_powers@[indices@[m] as int],
            decreases indices@.len() - k,
        {
            let idx: usize = indices[k];
            if idx >= self.g1_powers.len() {
                assert(indices@[k as int] >= self.g1_powers@.len());
                return Err(invalid_parameters("base index out of SRS range"));
            }
            bases.push(self.g1_powers[idx]);
            k = k + 1;
        }
        proof {
            let col = collected(self.key(), indices@);
            assert forall|m: int| 0 <= m < scalars@.len() implies logs(bases@)[m] == col[m] by {
                assert(indices@[m] < self.g1_powers@.len());
            }
            lemma_dot_ext(
                logs(bases@),
                col,
                vals(scalars@),
                vals(scalars@),
                scalars@.len() as int,
            );
        }
        Ok(G1::msm(bases.as_slice(), scalars))
    }
}

/// Sizes of the grid for a number of variables.
pub proof fn lemma_grid_dims(mu: int)
    requires
        4 <= mu < usize::BITS,
    ensures
        4 <= pow2(split(mu).0 as nat),
        4 <= pow2(split(mu).1 as nat),
        pow2(split(mu).0 as nat) * pow2(split(mu).1 as nat) == pow2(mu as nat),
        pow2(mu as nat) <= usize::MAX,
        (pow2(split(mu).0 as nat) - 2) * pow2(split(mu).1 as nat) == pow2(mu as nat) - 2 * pow2(
            split(mu).1 as nat,
        ),
        pow2(split(mu).0 as nat) <= pow2(mu as nat),
        split(mu).0 < usize::BITS,
        split(mu).1 < usize::BITS,
{
    lemma_split(mu);
    let ml = pow2(split(mu).0 as nat) as int;
    let mr = pow2(split(mu).1 as nat) as int;
    vstd::bits::lemma_usize_pow2_no_overflow(mu as nat);
    vstd::arithmetic::power2::lemma2_to64();
    lemma_pow2_mono(2, split(mu).1);
    lemma_pow2_mono(2, split(mu).0);
    assert((ml - 2) * mr == ml * mr - 2 * mr) by (nonlinear_arith);
}

impl CarinaVerifierParam {
    /// The points of G1 are the four lowest bases of the grid.
    pub open spec fn grid_bases(&self, key: Seq<int>, ml: int, mr: int) -> bool {
        &&& self.g1_one@ == key[base_position(ml, mr, 0, 0)]
        &&& self.g1_tau@ == key[base_position(ml, mr, 1, 0)]
        &&& self.g1_sigma@ == key[base_position(ml, mr, 0, 1)]
        &&& self.g1_tau_sigma@ == key[base_position(ml, mr, 1, 1)]
    }
}

impl CarinaUniversalParams {
    /// The exponents are the split of the largest number of variables, and the
    /// key has as many points as the grid.
    pub open spec fn wf(&self) -> bool {
        &&& 4 <= self.max_num_vars < usize::BITS
        &&& (self.m_left as int, self.m_right as int) == split(self.max_num_vars as int)
        &&& self.g1_powers@.len() == pow2(self.max_num_vars as nat)
    }

    /// The logarithms of the key.
    pub open spec fn key(&self) -> Seq<int> {
        logs(self.g1_powers@)
    }

    /// The part of the key that serves `mu` variables, in the layout for them.
    pub open spec fn trimmed_key(&self, mu: int) -> Seq<int> {
        let ml = pow2(split(mu).0 as nat) as int;
        let mr = pow2(split(mu).1 as nat) as int;
        Seq::new(
            pow2(mu as nat),
            |p: int|
                self.key()[base_position(
                    pow2(self.m_left as nat) as int,
                    pow2(self.m_right as nat) as int,
                    position_base(ml, mr, p).0,
                    position_base(ml, mr, p).1,
                )],
        )
    }

    /// Parameters for a number of variables.
    fn build_params(&self, num_vars: usize) -> (r: Result<
        (CarinaProverParam, CarinaVerifierParam),
        PCSError,
    >)
        requires
            self.wf(),
        ensures
            r is Ok <==> 4 <= num_vars <= self.max_num_vars,
            r matches Err(e) ==> e is InvalidParameters,
            r matches Ok((pp, vp)) ==> {
                &&& pp.wf()
                &&& pp.num_vars == num_vars
                &&& pp.key() == self.trimmed_key(num_vars as int)
                &&& vp.grid_bases(pp.key(), pp.ml(), pp.mr())
                &&& vp.g2_one == self.g2_one
                &&& vp.g2_tau == self.g2_tau
                &&& vp.g2_tau2 == self.g2_tau2
                &&& vp.g2_sigma == self.g2_sigma
                &&& vp.g2_sigma2 == self.g2_sigma2
                &&& vp.max_num_vars == num_vars
                &&& vp.m_left == pp.m_left
                &&& vp.m_right == pp.m_right
            },
    {
        if num_vars < 4 {
            return Err(invalid_parameters("carina requires num_vars >= 4"));
        }
        if num_vars > self.max_num_vars {
            return Err(invalid_parameters("requested num_vars exceeds SRS max"));
        }
        let (m_left, m_right) = split_exponents(num_vars);
        proof {
            lemma_grid_dims(num_vars as int);
            lemma_grid_dims(self.max_num_vars as int);
        }
        let big_ml: usize = pow2_usize(m_left);
        let big_mr: usize = pow2_usize(m_right);
        let n: usize = big_ml * big_mr;
        let max_ml: usize = pow2_usize(self.m_left);
        let max_mr: usize = pow2_usize(self.m_right);
        let g1_powers: Vec<G1> = if num_vars == self.max_num_vars {
            let c = copy_points(self.g1_powers.as_slice());
            proof {
                assert forall|p: int| 0 <= p < n implies base_position(
                    max_ml as int,
                    max_mr as int,
                    position_base(big_ml as int, big_mr as int, p).0,
                    position_base(big_ml as int, big_mr as int, p).1,
                ) == p by {
                    lemma_base_of_position(big_ml as int, big_mr as int, p);
                }
                assert(logs(c@) =~= self.trimmed_key(num_vars as int));
            }
            c
        } else {
            let mut out: Vec<G1> = Vec::new();
            let mut p: usize = 0;
            proof {
                lemma_pow2_mono(split(num_vars as int).0, split(self.max_num_vars as int).0);
                lemma_pow2_mono(split(num_vars as int).1, split(self.max_num_vars as int).1);
            }
            let ghost tk = self.trimmed_key(num_vars as int);
            while p < n
                invariant
                    self.wf(),
                    p <= n,
                    3 <= big_ml <= max_ml,
                    big_mr <= max_mr,
                    n == big_ml * big_mr,
                    n == pow2(num_vars as nat),
                    big_ml == pow2(split(num_vars as int).0 as nat),
                    big_mr == pow2(split(num_vars as int).1 as nat),
                    max_ml == pow2(self.m_left as nat),
                    max_mr == pow2(self.m_right as nat),
                    (big_ml - 2) * big_mr <= usize::MAX,
                    (max_ml - 2) * max_mr <= usize::MAX,
                    max_ml * max_mr == self.g1_powers@.len(),
                    max_ml * max_mr <= usize::MAX,
                    tk == self.trimmed_key(num_vars as int),
                    out@.len() == p,
                    forall|k: int| 0 <= k < p ==> (#[trigger] out@[k])@ == tk[k],
                decreases n - p,
            {
                let (i, j) = inv_base_index(big_ml, big_mr, p);
                proof {
                    lemma_base_of_position(big_ml as int, big_mr as int, p as int);
                    lemma_position_of_base(max_ml as int, max_mr as int, i as int, j as int);
                }
                let src: usize = grid_base_index(max_ml, max_mr, i, j);
                out.push(self.g1_powers[src]);
                p = p + 1;
            }
            assert(logs(out@) =~= self.trimmed_key(num_vars as int));
            out
        };
        proof {
            lemma_position_of_base(big_ml as int, big_mr as int, 0, 0);
            lemma_position_of_base(big_ml as int, big_mr as int, 1, 0);
            lemma_position_of_base(big_ml as int, big_mr as int, 0, 1);
            lemma_position_of_base(big_ml as int, big_mr as int, 1, 1);
        }
        let g1_one = g1_powers[grid_base_index(big_ml, big_mr, 0, 0)];
        let g1_tau = g1_powers[grid_base_index(big_ml, big_mr, 1, 0)];
        let g1_sigma = g1_powers[grid_base_index(big_ml, big_mr, 0, 1)];
        let g1_tau_sigma = g1_powers[grid_base_index(big_ml, big_mr, 1, 1)];
        let pp = CarinaProverParam { g1_powers, num_vars, m_left, m_right };
        let vp = CarinaVerifierParam {
            g1_one,
            g1_tau,
            g1_sigma,
            g1_tau_sigma,
            g2_one: self.g2_one,
            g2_tau: self.g2_tau,
            g2_tau2: self.g2_tau2,
            g2_sigma: self.g2_sigma,
            g2_sigma2: self.g2_sigma2,
            max_num_vars: num_vars,
            m_left,
            m_right,
        };
        Ok((pp, vp))
    }

    /// The prover's parameters for a supported number of variables.
    pub fn extract_prover_param(&self, supported_num_vars: usize) -> (r: CarinaProverParam)
        requires
            self.wf(),
            4 <= supported_num_vars <= self.max_num_vars,
        ensures
            r.wf(),
            r.num_vars == supported_num_vars,
            r.key() == self.trimmed_key(supported_num_vars as int),
    {
        self.build_params(supported_num_vars).unwrap().0
    }

    /// The verifier's parameters for a supported number of variables.
    pub fn extract_verifier_param(&self, supported_num_vars: usize) -> (r: CarinaVerifierParam)
        requires
            self.wf(),
            4 <= supported_num_vars <= self.max_num_vars,
        ensures
            r.grid_bases(
                self.trimmed_key(supported_num_vars as int),
                pow2(split(supported_num_vars as int).0 as nat) as int,
                pow2(split(supported_num_vars as int).1 as nat) as int,
            ),
            r.g2_one == self.g2_one,
            r.g2_tau == self.g2_tau,
            r.g2_tau2 == self.g2_tau2,
            r.g2_sigma == self.g2_sigma,
            r.g2_sigma2 == self.g2_sigma2,
            r.max_num_vars == supported_num_vars,
            (r.m_left as int, r.m_right as int) == split(supported_num_vars as int),
    {
        self.build_params(supported_num_vars).unwrap().1
    }

    /// Prover and verifier parameters for a number of variables.
    pub fn trim(&self, supported_num_vars: usize) -> (r: Result<
        (CarinaProverParam, CarinaVerifierParam),
        PCSError,
    >)
        requires
            self.wf(),
        ensures
            r is Ok <==> 4 <= supported_num_vars <= self.max_num_vars,
            r matches Err(e) ==> e is InvalidParameters,
            r matches Ok((pp, vp)) ==> {
                &&& pp.wf()
                &&& pp.num_vars == supported_num_vars
                &&& pp.key() == self.trimmed_key(supported_num_vars as int)
                &&& vp.grid_bases(pp.key(), pp.ml(), pp.mr())
                &&& vp.g2_one == self.g2_one
                &&& vp.g2_tau == self.g2_tau
                &&& vp.g2_tau2 == self.g2_tau2
                &&& vp.g2_sigma == self.g2_sigma
                &&& vp.g2_sigma2 == self.g2_sigma2
                &&& vp.max_num_vars == supported_num_vars
                &&& vp.m_left == pp.m_left
                &&& vp.m_right == pp.m_right
            },
    {
        self.build_params(supported_num_vars)
    }

    /// Parameters for up to `supported_num_vars` variables from two trapdoors,
    /// nonzero and distinct, and a point of each group. Whoever knows the trapdoors can forge: for
    /// testing only.
    pub fn gen_srs_for_testing(
        tau: Scalar,
        sigma: Scalar,
        g1: G1,
        g2: G2,
        supported_num_vars: usize,
    ) -> (r: Result<CarinaUniversalParams, PCSError>)
        requires
            tau@ != 0,
            sigma@ != 0,
            sigma@ != tau@,
        ensures
            r is Ok <==> 4 <= supported_num_vars < usize::BITS,
            r matches Err(e) ==> e is InvalidParameters,
            r matches Ok(srs) ==> {
                &&& srs.wf()
                &&& srs.max_num_vars == supported_num_vars
                &&& is_grid_key(
                    srs.key(),
                    pow2(srs.m_left as nat) as int,
                    pow2(srs.m_right as nat) as int,
                    g1@,
                    tau@,
                    sigma@,
                )
                &&& srs.g2_one@ == g2@
                &&& srs.g2_tau@ == fmul(g2@, tau@)
                &&& srs.g2_tau2@ == fmul(fmul(g2@, tau@), tau@)
                &&& srs.g2_sigma@ == fmul(g2@, sigma@)
                &&& srs.g2_sigma2@ == fmul(fmul(g2@, sigma@), sigma@)
            },
    {
        if supported_num_vars < 4 {
            return Err(invalid_parameters("carina requires num_vars >= 4"));
        }
        if supported_num_vars >= usize::BITS as usize {
            return Err(invalid_parameters("num_vars too large for platform word size"));
        }
        let (m_left, m_right) = split_exponents(supported_num_vars);
        proof {
            lemma_grid_dims(supported_num_vars as int);
        }
        let big_ml: usize = pow2_usize(m_left);
        let big_mr: usize = pow2_usize(m_right);
        let n: usize = big_ml * big_mr;
        let tau_pows = powers(tau, big_ml);
        let sigma_pows = powers(sigma, big_mr);
        let mut g1_powers: Vec<G1> = Vec::new();
        let mut pos: usize = 0;
        while pos < n
            invariant
                pos <= n,
                3 <= big_ml,
                n == big_ml * big_mr,
                (big_ml - 2) * big_mr <= usize::MAX,
                tau_pows@.len() == big_ml,
                sigma_pows@.len() == big_mr,
                vals(tau_pows@) == power_seq(tau@, big_ml as nat),
                vals(sigma_pows@) == power_seq(sigma@, big_mr as nat),
                g1_powers@.len() == pos,
                forall|p: int|
                    0 <= p < pos ==> (#[trigger] g1_powers@[p])@ == grid_base(
                        g1@,
                        tau@,
                        sigma@,
                        position_base(big_ml as int, big_mr as int, p).0,
                        position_base(big_ml as int, big_mr as int, p).1,
                    ),
            decreases n - pos,
        {
            let end: usize = if n - pos > SRS_GEN_CHUNK { pos + SRS_GEN_CHUNK } else { n };
            let mut chunk: Vec<Scalar> = Vec::new();
            let mut p: usize = pos;
            while p < end
                invariant
                    pos <= p <= end <= n,
                    3 <= big_ml,
                    n == big_ml * big_mr,
                    (big_ml - 2) * big_mr <= usize::MAX,
                    tau_pows@.len() == big_ml,
                    sigma_pows@.len() == big_mr,
                    vals(tau_pows@) == power_seq(tau@, big_ml as nat),
                    vals(sigma_pows@) == power_seq(sigma@, big_mr as nat),
                    chunk@.len() == p - pos,
                    forall|k: int|
                        0 <= k < p - pos ==> (#[trigger] chunk@[k])@ == fmul(
                            fpow(tau@, position_base(big_ml as int, big_mr as int, pos + k).0 as nat),
                            fpow(
                                sigma@,
                                position_base(big_ml as int, big_mr as int, pos + k).1 as nat,
                            ),
                        ),
                decreases end - p,
            {
                let (i, j) = inv_base_index(big_ml, big_mr, p);
                proof {
                    lemma_base_of_position(big_ml as int, big_mr as int, p as int);
                    assert(vals(tau_pows@)[i as int] == tau_pows@[i as int]@);
                    assert(vals(sigma_pows@)[j as int] == sigma_pows@[j as int]@);
                }
                chunk.push(tau_pows[i].mul(sigma_pows[j]));
                p = p + 1;
            }
            let mut points = g1.multiples(chunk.as_slice());
            let ghost before = g1_powers@;
            let ghost added = points@;
            g1_powers.append(&mut points);
            proof {
                assert forall|p: int| 0 <= p < end implies (#[trigger] g1_powers@[p])@ == grid_base(
                    g1@,
                    tau@,
                    sigma@,
                    position_base(big_ml as int, big_mr as int, p).0,
                    position_base(big_ml as int, big_mr as int, p).1,
                ) by {
                    if p < pos {
                        assert(g1_powers@[p] == before[p]);
                    } else {
                        assert(g1_powers@[p] == added[p - pos]);
                    }
                }
            }
            pos = end;
        }
        let g2_tau = g2.mul(&tau);
        let g2_tau2 = g2_tau.mul(&tau);
        let g2_sigma = g2.mul(&sigma);
        let g2_sigma2 = g2_sigma.mul(&sigma);
        Ok(
            CarinaUniversalParams {
                g1_powers,
                g2_one: g2,
                g2_tau,
                g2_tau2,
                g2_sigma,
                g2_sigma2,
                max_num_vars: supported_num_vars,
                m_left,
                m_right,
            },
        )
    }
}

/// Whether a sample may serve as the first trapdoor.
pub fn accepts_tau(tau: &Scalar) -> (r: bool)
    ensures
        r == (tau@ != 0),
{
    !tau.is_zero()
}

/// Whether a sample may serve as the second trapdoor beside the first.
pub fn accepts_sigma(sigma: &Scalar, tau: &Scalar) -> (r: bool)
    ensures
        r == (sigma@ != 0 && sigma@ != tau@),
{
    !sigma.is_zero() && !sigma.equals(tau)
}

/// Trimming keeps the grid: the key for fewer variables is the grid key of
/// the same trapdoors.
pub proof fn law_trimmed_key_is_grid_key(
    srs: &CarinaUniversalParams,
    mu: int,
    g: int,
    tau: int,
    sigma: int,
)
    requires
        srs.wf(),
        4 <= mu <= srs.max_num_vars,
        is_grid_key(
            srs.key(),
            pow2(srs.m_left as nat) as int,
            pow2(srs.m_right as nat) as int,
            g,
            tau,
            sigma,
        ),
    ensures
        is_grid_key(
            srs.trimmed_key(mu),
            pow2(split(mu).0 as nat) as int,
            pow2(split(mu).1 as nat) as int,
            g,
            tau,
            sigma,
        ),
{
    lemma_grid_dims(mu);
    lemma_grid_dims(srs.max_num_vars as int);
    lemma_pow2_mono(split(mu).0, split(srs.max_num_vars as int).0);
    lemma_pow2_mono(split(mu).1, split(srs.max_num_vars as int).1);
    let ml = pow2(split(mu).0 as nat) as int;
    let mr = pow2(split(mu).1 as nat) as int;
    let max_ml = pow2(srs.m_left as nat) as int;
    let max_mr = pow2(srs.m_right as nat) as int;
    let tk = srs.trimmed_key(mu);
    assert forall|p: int| 0 <= p < tk.len() implies #[trigger] tk[p] == grid_base(
        g,
        tau,
        sigma,
        position_base(ml, mr, p).0,
        position_base(ml, mr, p).1,
    ) by {
        lemma_base_of_position(ml, mr, p);
        let (i, j) = position_base(ml, mr, p);
        lemma_position_of_base(max_ml, max_mr, i, j);
        assert(tk[p] == srs.key()[base_position(max_ml, max_mr, i, j)]);
    }
}

} // verus!
