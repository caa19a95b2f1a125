//! Batching of KZG opening claims.
//!
//! Claims that polynomials `f_j` take values `v_j` at points `x_j` are
//! combined into `Q(X) = sum_j nu^j (f_j(X) - v_j) / (X - x_j)` and then, at a
//! point `z`, into `G(X) = Q(X) - sum_j nu^j / (z - x_j) (f_j(X) - v_j)`, which
//! vanishes at `z` where every claim holds. The verifier computes the
//! commitment to `G` from the commitments to `Q` and to the `f_j`.

use crate::bdfg::{add_scaled, divide_by_linear, lemma_fsub_zero, linq, poly_views, subtract_const};
use crate::dims::{copy_scalars, pad_scalars, padded};
use crate::errors::{invalid_parameters, invalid_proof, PCSError};
use crate::field::{
    cong, fadd, finv, fmul, fneg, fpow, fsub, group_reduced, group_shadow, is_inverse,
    lemma_cong_add, lemma_cong_mul, lemma_cong_sub, lemma_cong_symm, lemma_cong_trans, lemma_refl,
    lemma_shadow_eq, reduced, vals, Scalar,
};
use crate::gemini::srs::GeminiProverParam;
use crate::group::{logs, G1};
use crate::poly::{
    at, dot, feval, invertible, lemma_dot_ext, lemma_eval_add_scaled, lemma_eval_cong,
    lemma_eval_sub_const, lemma_linear_division, lemma_tail_reduced, p_add_scaled, p_sub_const,
};
use crate::transcript::{Entry, IOPTranscript};
use vstd::prelude::*;

verus! {

/// A claim about one of the polynomials of an opening.
#[derive(Clone, Copy, Debug)]
pub struct GeminiClaim {
    /// Index of the polynomial: zero for the original one, and the round for
    /// one that was folded.
    pub round: usize,
    /// Point of the claim.
    pub point: Scalar,
    /// Claimed value at the point.
    pub evaluation: Scalar,
}

/// A claim as a mathematical value.
pub struct Opening {
    pub round: int,
    pub point: int,
    pub value: int,
}

/// The claims of an executable list.
pub open spec fn openings(claims: Seq<GeminiClaim>) -> Seq<Opening> {
    Seq::new(
        claims.len(),
        |j: int|
            Opening {
                round: claims[j].round as int,
                point: claims[j].point@,
                value: claims[j].evaluation@,
            },
    )
}

/// Whether every claim is about one of `n` polynomials.
pub open spec fn rounds_within(os: Seq<Opening>, n: int) -> bool {
    forall|j: int| 0 <= j < os.len() ==> 0 <= (#[trigger] os[j]).round < n
}

/// Whether every claim holds.
pub open spec fn claims_hold(os: Seq<Opening>, polys: Seq<Seq<int>>) -> bool {
    forall|j: int|
        0 <= j < os.len() ==> feval(polys[(#[trigger] os[j]).round], os[j].point) == os[j].value
}

/// Whether `z` is the point of some claim.
pub open spec fn collides(os: Seq<Opening>, z: int) -> bool {
    exists|j: int| 0 <= j < os.len() && (#[trigger] os[j]).point == z
}

/// The weight `nu^j / (z - x_j)` of a claim.
pub open spec fn weight(os: Seq<Opening>, nu: int, z: int, j: int) -> int {
    fmul(fpow(nu, j as nat), finv(fsub(z, os[j].point)))
}

/// The first `n` terms of `Q`, added to zeros.
pub open spec fn batched_quotient(
    os: Seq<Opening>,
    polys: Seq<Seq<int>>,
    nu: int,
    len: nat,
    n: int,
) -> Seq<int>
    decreases n,
{
    if n <= 0 {
        Seq::new(len, |i: int| 0int)
    } else {
        p_add_scaled(
            batched_quotient(os, polys, nu, len, n - 1),
            linq(polys[os[n - 1].round], os[n - 1].point),
            fpow(nu, (n - 1) as nat),
        )
    }
}

/// `Q` less the first `n` terms at `z`.
pub open spec fn batched_remainder(
    os: Seq<Opening>,
    polys: Seq<Seq<int>>,
    q: Seq<int>,
    nu: int,
    z: int,
    n: int,
) -> Seq<int>
    decreases n,
{
    if n <= 0 {
        q
    } else {
        let w = weight(os, nu, z, n - 1);
        p_sub_const(
            p_add_scaled(
                batched_remainder(os, polys, q, nu, z, n - 1),
                polys[os[n - 1].round],
                fneg(w),
            ),
            fneg(fmul(w, os[n - 1].value)),
        )
    }
}

/// The first `n` terms of the commitment to `G`.
pub open spec fn remainder_commitment(
    os: Seq<Opening>,
    coms: Seq<int>,
    q_com: int,
    nu: int,
    z: int,
    n: int,
) -> int
    decreases n,
{
    if n <= 0 {
        fmul(q_com, 1)
    } else {
        fadd(
            remainder_commitment(os, coms, q_com, nu, z, n - 1),
            fmul(coms[os[n - 1].round], fneg(weight(os, nu, z, n - 1))),
        )
    }
}

/// The first `n` terms of the constant that the commitment to `G` has beside.
pub open spec fn remainder_constant(os: Seq<Opening>, nu: int, z: int, n: int) -> int
    decreases n,
{
    if n <= 0 {
        0
    } else {
        fadd(
            remainder_constant(os, nu, z, n - 1),
            fmul(weight(os, nu, z, n - 1), os[n - 1].value),
        )
    }
}

/// The commitment to `G` from those to `Q` and to the polynomials, with the
/// point that commits to one.
pub open spec fn reduced_commitment(
    os: Seq<Opening>,
    coms: Seq<int>,
    q_com: int,
    g: int,
    nu: int,
    z: int,
) -> int {
    let n = os.len() as int;
    fadd(
        remainder_commitment(os, coms, q_com, nu, z, n),
        fmul(g, remainder_constant(os, nu, z, n)),
    )
}

/// Quotient of a polynomial, less its claimed value, by `X - point`. The value
/// changes the remainder alone.
pub fn kzg_quotient(coeffs: &[Scalar], point: Scalar, _value: Scalar) -> (q: Vec<Scalar>)
    ensures
        vals(q@) == linq(vals(coeffs@), point@),
{
    let (q, rem) = divide_by_linear(coeffs, point);
    assert(coeffs@.len() == 0 ==> vals(q@) =~= vals(coeffs@));
    q
}

/// `Q`, in `n` coefficients or more where a quotient has more.
pub fn compute_shplonk_batched_quotient(
    claims: &[GeminiClaim],
    a_polys: &[Vec<Scalar>],
    nu: Scalar,
    n: usize,
) -> (r: Vec<Scalar>)
    requires
        rounds_within(openings(claims@), a_polys@.len() as int),
    ensures
        vals(r@) == batched_quotient(
            openings(claims@),
            poly_views(a_polys@),
            nu@,
            n as nat,
            claims@.len() as int,
        ),
{
    let ghost os = openings(claims@);
    let ghost polys = poly_views(a_polys@);
    let none: Vec<Scalar> = Vec::new();
    let mut acc = pad_scalars(none.as_slice(), n);
    assert(vals(acc@) =~= Seq::new(n as nat, |i: int| 0int));
    let mut nu_pow = Scalar::one();
    let mut j: usize = 0;
    while j < claims.len()
        invariant
            j <= claims@.len(),
            os == openings(claims@),
            polys == poly_views(a_polys@),
            rounds_within(os, a_polys@.len() as int),
            nu_pow@ == fpow(nu@, j as nat),
            vals(acc@) == batched_quotient(os, polys, nu@, n as nat, j as int),
        decreases claims@.len() - j,
    {
        let claim = claims[j];
        assert(os[j as int].round == claim.round);
        let q = kzg_quotient(a_polys[claim.round].as_slice(), claim.point, claim.evaluation);
        add_scaled(&mut acc, q.as_slice(), nu_pow);
        nu_pow = nu_pow.mul(nu);
        j = j + 1;
    }
    acc
}

/// `G`; an error where `z` is the point of a claim.
pub fn compute_shplonk_g_coeffs(
    claims: &[GeminiClaim],
    a_polys: &[Vec<Scalar>],
    batched_q: &[Scalar],
    nu: Scalar,
    z: Scalar,
    n: usize,
) -> (r: Result<Vec<Scalar>, PCSError>)
    requires
        rounds_within(openings(claims@), a_polys@.len() as int),
        batched_q@.len() <= n,
    ensures
        r is Ok <==> !collides(openings(claims@), z@),
        r matches Err(e) ==> e is InvalidProof,
        r matches Ok(g) ==> vals(g@) == batched_remainder(
            openings(claims@),
            poly_views(a_polys@),
            padded(vals(batched_q@), n as nat),
            nu@,
            z@,
            claims@.len() as int,
        ) && (forall|j: int|
            0 <= j < claims@.len() ==> invertible(
                fsub(z@, (#[trigger] openings(claims@)[j]).point),
            )),
{
    let ghost os = openings(claims@);
    let ghost polys = poly_views(a_polys@);
    let ghost q = padded(vals(batched_q@), n as nat);
    let mut g = pad_scalars(batched_q, n);
    let mut nu_pow = Scalar::one();
    let mut j: usize = 0;
    while j < claims.len()
        invariant
            j <= claims@.len(),
            os == openings(claims@),
            polys == poly_views(a_polys@),
            rounds_within(os, a_polys@.len() as int),
            nu_pow@ == fpow(nu@, j as nat),
            vals(g@) == batched_remainder(os, polys, q, nu@, z@, j as int),
            forall|k: int|
                0 <= k < j ==> (#[trigger] os[k]).point != z@ && invertible(fsub(z@, os[k].point)),
        decreases claims@.len() - j,
    {
        let claim = claims[j];
        assert(os[j as int].round == claim.round && os[j as int].point == claim.point@);
        proof {
            z.lemma_view_reduced();
            claim.point.lemma_view_reduced();
            lemma_fsub_zero(z@, claim.point@);
        }
        let inv = match z.sub(claim.point).inverse() {
            Some(inv) => inv,
            None => {
                return Err(invalid_proof("Shplonk prover: z collides with a claim point"));
            },
        };
        let scale = nu_pow.mul(inv);
        add_scaled(&mut g, a_polys[claim.round].as_slice(), scale.neg());
        subtract_const(&mut g, scale.mul(claim.evaluation).neg());
        nu_pow = nu_pow.mul(nu);
        j = j + 1;
    }
    Ok(g)
}

/// The commitment to the polynomial of a claim.
pub fn claim_commit(round: usize, original: &G1, fold_comms: &[G1]) -> (r: G1)
    requires
        round <= fold_comms@.len(),
    ensures
        r@ == all_commitments(original@, logs(fold_comms@))[round as int],
{
    if round == 0 {
        *original
    } else {
        fold_comms[round - 1]
    }
}

/// The commitment to the original polynomial, followed by those to the folded
/// ones.
pub open spec fn all_commitments(original: int, folds: Seq<int>) -> Seq<int> {
    seq![original] + folds
}

/// The commitment to `G` from those to the polynomials; an error where `z` is
/// the point of a claim.
fn reduce_commitments(
    claims: &[GeminiClaim],
    coms: &[G1],
    shplonk_q_commit: &G1,
    nu: Scalar,
    z: Scalar,
    vp_g: &G1,
) -> (r: Result<G1, PCSError>)
    requires
        rounds_within(openings(claims@), coms@.len() as int),
    ensures
        r is Ok <==> !collides(openings(claims@), z@),
        r matches Err(e) ==> e is InvalidProof,
        r matches Ok(g) ==> g@ == reduced_commitment(
            openings(claims@),
            logs(coms@),
            shplonk_q_commit@,
            vp_g@,
            nu@,
            z@,
        ),
        r is Ok ==> forall|j: int|
            0 <= j < claims@.len() ==> invertible(
                fsub(z@, (#[trigger] openings(claims@)[j]).point),
            ),
{
    let ghost os = openings(claims@);
    let mut bases: Vec<G1> = Vec::new();
    let mut scalars: Vec<Scalar> = Vec::new();
    bases.push(*shplonk_q_commit);
    scalars.push(Scalar::one());
    let mut identity_scalar = Scalar::zero();
    let mut nu_pow = Scalar::one();
    proof {
        lemma_msm_one(logs(bases@), vals(scalars@), shplonk_q_commit@);
    }
    let mut j: usize = 0;
    while j < claims.len()
        invariant
            j <= claims@.len(),
            os == openings(claims@),
            rounds_within(os, coms@.len() as int),
            nu_pow@ == fpow(nu@, j as nat),
            bases@.len() == j + 1,
            scalars@.len() == j + 1,
            dot(logs(bases@), vals(scalars@), j + 1) == remainder_commitment(
                os,
                logs(coms@),
                shplonk_q_commit@,
                nu@,
                z@,
                j as int,
            ),
            identity_scalar@ == remainder_constant(os, nu@, z@, j as int),
            forall|k: int| 0 <= k < j ==> (#[trigger] os[k]).point != z@,
            forall|k: int| 0 <= k < j ==> invertible(fsub(z@, (#[trigger] os[k]).point)),
        decreases claims@.len() - j,
    {
        let claim = claims[j];
        assert(os[j as int].round == claim.round && os[j as int].point == claim.point@);
        proof {
            z.lemma_view_reduced();
            claim.point.lemma_view_reduced();
            lemma_fsub_zero(z@, claim.point@);
        }
        let commit = coms[claim.round];
        let inv = match z.sub(claim.point).inverse() {
            Some(inv) => inv,
            None => {
                return Err(invalid_proof("Shplonk verifier: z collides with a claim point"));
            },
        };
        let scale = nu_pow.mul(inv);
        let ghost b0 = logs(bases@);
        let ghost s0 = vals(scalars@);
        bases.push(commit);
        scalars.push(scale.neg());
        proof {
            lemma_dot_ext(b0, logs(bases@), s0, vals(scalars@), j + 1);
        }
        identity_scalar = identity_scalar.add(scale.mul(claim.evaluation));
        nu_pow = nu_pow.mul(nu);
        j = j + 1;
    }
    let ghost b0 = logs(bases@);
    let ghost s0 = vals(scalars@);
    bases.push(*vp_g);
    scalars.push(identity_scalar);
    proof {
        lemma_dot_ext(b0, logs(bases@), s0, vals(scalars@), j + 1);
    }
    Ok(G1::msm(bases.as_slice(), scalars.as_slice()))
}

/// The commitment to `G`; an error where `z` is the point of a claim.
pub fn compute_shplonk_g_commit(
    claims: &[GeminiClaim],
    shplonk_q_commit: &G1,
    original_commitment: &G1,
    fold_comms: &[G1],
    nu: Scalar,
    z: Scalar,
    vp_g: &G1,
) -> (r: Result<G1, PCSError>)
    requires
        rounds_within(openings(claims@), (fold_comms@.len() + 1) as int),
    ensures
        r is Ok <==> !collides(openings(claims@), z@),
        r matches Err(e) ==> e is InvalidProof,
        r matches Ok(g) ==> g@ == reduced_commitment(
            openings(claims@),
            all_commitments(original_commitment@, logs(fold_comms@)),
            shplonk_q_commit@,
            vp_g@,
            nu@,
            z@,
        ),
        r is Ok ==> forall|j: int|
            0 <= j < claims@.len() ==> invertible(
                fsub(z@, (#[trigger] openings(claims@)[j]).point),
            ),
{
    let mut coms: Vec<G1> = Vec::new();
    coms.push(*original_commitment);
    let mut i: usize = 0;
    while i < fold_comms.len()
        invariant
            i <= fold_comms@.len(),
            coms@ =~= seq![*original_commitment] + fold_comms@.take(i as int),
        decreases fold_comms@.len() - i,
    {
        coms.push(fold_comms[i]);
        i = i + 1;
    }
    assert(logs(coms@) =~= all_commitments(original_commitment@, logs(fold_comms@)));
    reduce_commitments(claims, coms.as_slice(), shplonk_q_commit, nu, z, vp_g)
}

proof fn lemma_msm_one(bases: Seq<int>, scalars: Seq<int>, q: int)
    requires
        bases.len() == 1,
        scalars.len() == 1,
        bases[0] == q,
        scalars[0] == 1,
    ensures
        dot(bases, scalars, 1) == fmul(q, 1),
{
    broadcast use group_reduced;

    reveal_with_fuel(dot, 2);
    lemma_refl(q);
    lemma_refl(1);
    lemma_refl(0);
    broadcast use group_shadow;

    lemma_shadow_eq(fadd(0, fmul(q, 1)), 0 + q * 1, fmul(q, 1), q * 1);
}

/// The division of a polynomial by `X - x`, at a point.
pub(crate) proof fn lemma_linq_value(p: Seq<int>, x: int, z: int)
    ensures
        feval(p, z) == fadd(fmul(feval(linq(p, x), z), fsub(z, x)), feval(p, x)),
{
    if p.len() == 0 {
        broadcast use group_reduced;

        let d = fsub(z, x);
        lemma_refl(0);
        lemma_refl(d);
        broadcast use group_shadow;

        lemma_shadow_eq(0, 0, fadd(fmul(0, d), 0), 0 * d + 0);
    } else {
        lemma_linear_division(p, x, z);
    }
}

proof fn lemma_ring_remainder(a: int, n: int, i: int, l: int, d: int, v: int)
    ensures
        a + (-(n * i)) * (l * d + v) - (-((n * i) * v)) == a - n * l * (d * i),
{
    assert((-(n * i)) * (l * d + v) == -((n * i) * (l * d)) - (n * i) * v) by (nonlinear_arith);
    assert((n * i) * (l * d) == n * l * (d * i)) by (nonlinear_arith);
}

/// One more term, where its claim holds, takes from `G(z)` what it adds to
/// `Q(z)`.
proof fn lemma_remainder_step(a: int, n: int, i: int, l: int, d: int, v: int)
    requires
        is_inverse(d, i),
    ensures
        fsub(fadd(a, fmul(fneg(fmul(n, i)), fadd(fmul(l, d), v))), fneg(fmul(fmul(n, i), v)))
            == fsub(a, fmul(n, l)),
{
    broadcast use group_reduced;

    lemma_refl(a);
    lemma_refl(n);
    lemma_refl(i);
    lemma_refl(l);
    lemma_refl(d);
    lemma_refl(v);
    lemma_ring_remainder(a, n, i, l, d, v);
    assert(cong(d * i, 1)) by {
        broadcast use group_shadow;

        lemma_refl(1);
        assert(cong(fmul(d, i), d * i));
        lemma_cong_symm(fmul(d, i), d * i);
    }
    assert(cong(a - n * l * (d * i), a - n * l * 1)) by {
        lemma_refl(n * l);
        lemma_cong_mul(n * l, n * l, d * i, 1);
        lemma_cong_sub(a, a, n * l * (d * i), n * l * 1);
    }
    broadcast use group_shadow;

    let left = fsub(
        fadd(a, fmul(fneg(fmul(n, i)), fadd(fmul(l, d), v))),
        fneg(fmul(fmul(n, i), v)),
    );
    assert(cong(left, a + (-(n * i)) * (l * d + v) - (-((n * i) * v))));
    lemma_cong_trans(left, a - n * l * (d * i), a - n * l * 1);
    lemma_shadow_eq(left, a - n * l * 1, fsub(a, fmul(n, l)), a - n * l);
}

/// Where the claims hold, the first `n` terms at `z` take from `q(z)` what they
/// contribute to `Q(z)`.
proof fn lemma_remainder_value(
    os: Seq<Opening>,
    polys: Seq<Seq<int>>,
    q: Seq<int>,
    nu: int,
    z: int,
    len: nat,
    n: int,
)
    requires
        0 <= n <= os.len(),
        claims_hold(os, polys),
        forall|j: int| 0 <= j < os.len() ==> invertible(fsub(z, (#[trigger] os[j]).point)),
    ensures
        feval(batched_remainder(os, polys, q, nu, z, n), z) == fsub(
            feval(q, z),
            feval(batched_quotient(os, polys, nu, len, n), z),
        ),
    decreases n,
{
    broadcast use group_reduced;

    let qz = feval(q, z);
    lemma_tail_reduced(q, z, 0);
    if n == 0 {
        lemma_eval_zeros(len, z);
        lemma_refl(qz);
        lemma_refl(0);
        broadcast use group_shadow;

        lemma_shadow_eq(qz, qz, fsub(qz, 0), qz - 0);
    } else {
        lemma_remainder_value(os, polys, q, nu, z, len, n - 1);
        let o = os[n - 1];
        let p = polys[o.round];
        let np = fpow(nu, (n - 1) as nat);
        let inv = finv(fsub(z, o.point));
        let w = weight(os, nu, z, n - 1);
        let r0 = batched_remainder(os, polys, q, nu, z, n - 1);
        let b0 = batched_quotient(os, polys, nu, len, n - 1);
        let r1 = p_add_scaled(r0, p, fneg(w));
        let lq = linq(p, o.point);
        lemma_eval_add_scaled(r0, p, fneg(w), z);
        lemma_eval_sub_const(r1, fneg(fmul(w, o.value)), z);
        lemma_eval_add_scaled(b0, lq, np, z);
        lemma_linq_value(p, o.point, z);
        assert(feval(p, o.point) == o.value);
        let a = feval(r0, z);
        let b = feval(b0, z);
        let l = feval(lq, z);
        lemma_remainder_step(a, np, inv, l, fsub(z, o.point), o.value);
        assert(a == fsub(qz, b));
        lemma_refl(qz);
        lemma_refl(b);
        lemma_refl(np);
        lemma_refl(l);
        broadcast use group_shadow;

        lemma_shadow_eq(
            fsub(a, fmul(np, l)),
            (qz - b) - np * l,
            fsub(qz, fadd(b, fmul(np, l))),
            qz - (b + np * l),
        );
    }
}

proof fn lemma_eval_zeros(len: nat, x: int)
    ensures
        feval(Seq::new(len, |i: int| 0int), x) == 0,
{
    broadcast use group_reduced;

    let zeros = Seq::new(len, |i: int| 0int);
    let none = Seq::<int>::empty();
    lemma_refl(0);
    assert forall|k: int| 0 <= k implies cong(#[trigger] at(zeros, k), at(none, k)) by {
        assert(at(zeros, k) == 0);
    }
    lemma_eval_cong(zeros, none, x);
}

/// The batched polynomial vanishes at `z` where every claim holds and `z` is
/// the point of none.
pub proof fn law_remainder_vanishes(
    os: Seq<Opening>,
    polys: Seq<Seq<int>>,
    nu: int,
    z: int,
    len: nat,
)
    requires
        claims_hold(os, polys),
        forall|j: int| 0 <= j < os.len() ==> invertible(fsub(z, (#[trigger] os[j]).point)),
    ensures
        feval(
            batched_remainder(
                os,
                polys,
                batched_quotient(os, polys, nu, len, os.len() as int),
                nu,
                z,
                os.len() as int,
            ),
            z,
        ) == 0,
{
    let n = os.len() as int;
    let q = batched_quotient(os, polys, nu, len, n);
    lemma_remainder_value(os, polys, q, nu, z, len, n);
    let qz = feval(q, z);
    lemma_refl(qz);
    lemma_refl(0);
    broadcast use group_reduced, group_shadow;

    lemma_shadow_eq(fsub(qz, qz), qz - qz, 0, 0);
}

/// Lengths of the batched polynomials where every polynomial has at most `len`
/// coefficients.
pub proof fn lemma_batched_lengths(
    os: Seq<Opening>,
    polys: Seq<Seq<int>>,
    q: Seq<int>,
    nu: int,
    z: int,
    len: nat,
    n: int,
)
    requires
        0 <= n <= os.len(),
        0 < len == q.len(),
        forall|j: int| 0 <= j < os.len() ==> polys[(#[trigger] os[j]).round].len() <= len,
    ensures
        batched_quotient(os, polys, nu, len, n).len() == len,
        batched_remainder(os, polys, q, nu, z, n).len() == len,
    decreases n,
{
    if n > 0 {
        lemma_batched_lengths(os, polys, q, nu, z, len, n - 1);
        assert(polys[os[n - 1].round].len() <= len);
    }
}

proof fn lemma_ring_commit(g: int, r: int, p: int, w: int, c: int, v: int)
    ensures
        (g * p) * (-w) + (g * (c + w * v) - g * c) == g * ((r + (-w) * p) - (-(w * v))) - g * r,
{
    assert((g * p) * (-w) == g * ((-w) * p)) by (nonlinear_arith);
    assert(g * (c + w * v) == g * c + g * (w * v)) by (nonlinear_arith);
    assert(g * ((r + (-w) * p) - (-(w * v))) == g * r + g * ((-w) * p) + g * (w * v))
        by (nonlinear_arith);
}

/// Under a power key the first `n` terms of the reduction commit to the first
/// `n` terms of `G`.
proof fn lemma_commitment_value(
    os: Seq<Opening>,
    polys: Seq<Seq<int>>,
    coms: Seq<int>,
    q: Seq<int>,
    q_com: int,
    g: int,
    x: int,
    nu: int,
    z: int,
    n: int,
)
    requires
        0 <= n <= os.len(),
        rounds_within(os, polys.len() as int),
        coms.len() == polys.len(),
        forall|j: int|
            0 <= j < polys.len() ==> #[trigger] coms[j] == fmul(g, feval(polys[j], x)),
        q_com == fmul(g, feval(q, x)),
    ensures
        fadd(
            remainder_commitment(os, coms, q_com, nu, z, n),
            fmul(g, remainder_constant(os, nu, z, n)),
        ) == fmul(g, feval(batched_remainder(os, polys, q, nu, z, n), x)),
    decreases n,
{
    broadcast use group_reduced;

    if n == 0 {
        let qx = feval(q, x);
        lemma_refl(g);
        lemma_refl(qx);
        lemma_refl(0);
        lemma_refl(1);
        broadcast use group_shadow;

        assert((g * qx) * 1 + g * 0 == g * qx) by (nonlinear_arith);
        lemma_shadow_eq(
            fadd(fmul(fmul(g, qx), 1), fmul(g, 0)),
            (g * qx) * 1 + g * 0,
            fmul(g, qx),
            g * qx,
        );
    } else {
        lemma_commitment_value(os, polys, coms, q, q_com, g, x, nu, z, n - 1);
        let o = os[n - 1];
        let p = polys[o.round];
        let w = weight(os, nu, z, n - 1);
        let r0 = batched_remainder(os, polys, q, nu, z, n - 1);
        lemma_eval_add_scaled(r0, p, fneg(w), x);
        lemma_eval_sub_const(p_add_scaled(r0, p, fneg(w)), fneg(fmul(w, o.value)), x);
        assert(coms[o.round] == fmul(g, feval(p, x)));
        lemma_commitment_step(
            remainder_commitment(os, coms, q_com, nu, z, n - 1),
            remainder_constant(os, nu, z, n - 1),
            g,
            feval(r0, x),
            feval(p, x),
            w,
            o.value,
        );
    }
}

proof fn lemma_commitment_step(m: int, c: int, g: int, r: int, p: int, w: int, v: int)
    requires
        fadd(m, fmul(g, c)) == fmul(g, r),
    ensures
        fadd(fadd(m, fmul(fmul(g, p), fneg(w))), fmul(g, fadd(c, fmul(w, v)))) == fmul(
            g,
            fsub(fadd(r, fmul(fneg(w), p)), fneg(fmul(w, v))),
        ),
{
    broadcast use group_reduced;

    lemma_refl(m);
    lemma_refl(c);
    lemma_refl(g);
    lemma_refl(r);
    lemma_refl(p);
    lemma_refl(w);
    lemma_refl(v);
    let delta = (g * p) * (-w) + (g * (c + w * v) - g * c);
    lemma_ring_commit(g, r, p, w, c, v);
    broadcast use group_shadow;

    assert(cong(fadd(m, fmul(g, c)), m + g * c));
    assert(cong(fmul(g, r), g * r));
    lemma_cong_symm(fadd(m, fmul(g, c)), m + g * c);
    lemma_cong_trans(m + g * c, fmul(g, r), g * r);
    lemma_refl(delta);
    lemma_cong_add(m + g * c, g * r, delta, delta);
    let left = fadd(fadd(m, fmul(fmul(g, p), fneg(w))), fmul(g, fadd(c, fmul(w, v))));
    let big = m + (g * p) * (-w) + g * (c + w * v);
    assert(cong(left, big));
    assert(big == m + g * c + delta);
    lemma_cong_trans(left, big, g * r + delta);
    lemma_shadow_eq(
        left,
        g * r + delta,
        fmul(g, fsub(fadd(r, fmul(fneg(w), p)), fneg(fmul(w, v)))),
        g * ((r + (-w) * p) - (-(w * v))),
    );
}

/// Under a power key the verifier's reduction is the commitment to the
/// prover's batched polynomial.
pub proof fn law_reduction_commits(
    os: Seq<Opening>,
    polys: Seq<Seq<int>>,
    coms: Seq<int>,
    q: Seq<int>,
    q_com: int,
    g: int,
    x: int,
    nu: int,
    z: int,
)
    requires
        rounds_within(os, polys.len() as int),
        coms.len() == polys.len(),
        forall|j: int|
            0 <= j < polys.len() ==> #[trigger] coms[j] == fmul(g, feval(polys[j], x)),
        q_com == fmul(g, feval(q, x)),
    ensures
        reduced_commitment(os, coms, q_com, g, nu, z) == fmul(
            g,
            feval(batched_remainder(os, polys, q, nu, z, os.len() as int), x),
        ),
{
    lemma_commitment_value(os, polys, coms, q, q_com, g, x, nu, z, os.len() as int);
}

/// A claim of the prover, with the polynomial that it is about. Where the
/// polynomial is opened at two opposite points, the claim names the negative
/// point, and its value at the positive one is given beside.
#[derive(Clone, Debug)]
pub struct ProverClaim {
    pub coeffs: Vec<Scalar>,
    pub point: Scalar,
    pub value: Scalar,
    /// Whether the polynomial is opened at two opposite points.
    pub gemini_fold: bool,
}

/// A claim for the verifier, with the commitment that it is about.
#[derive(Clone, Debug)]
pub struct VerifierClaim {
    pub commitment: G1,
    pub point: Scalar,
    pub value: Scalar,
}

/// A batched opening.
#[derive(Clone, Debug)]
pub struct ShplonkOutput {
    pub q_commit: G1,
    pub final_witness: G1,
    pub z_challenge: Scalar,
}

/// Number of the first `n` claims that name two points.
pub open spec fn fold_count(claims: Seq<ProverClaim>, n: int) -> int
    decreases n,
{
    if n <= 0 {
        0
    } else if claims[n - 1].gemini_fold {
        fold_count(claims, n - 1) + 1
    } else {
        fold_count(claims, n - 1)
    }
}

/// The claim at `x` to `v`, after that at `-x` to `pos` where there is one.
pub open spec fn opening_pair(round: int, x: int, v: int, pos: Option<int>) -> Seq<Opening> {
    match pos {
        Some(y) => seq![
            Opening { round, point: fneg(x), value: y },
            Opening { round, point: x, value: v },
        ],
        None => seq![Opening { round, point: x, value: v }],
    }
}

/// The first `n` claims of the prover, one point each.
pub open spec fn prover_openings(
    claims: Seq<ProverClaim>,
    pos_evals: Seq<Scalar>,
    n: int,
) -> Seq<Opening>
    decreases n,
{
    if n <= 0 {
        Seq::empty()
    } else {
        let c = claims[n - 1];
        let pos = if c.gemini_fold {
            Some(pos_evals[fold_count(claims, n - 1)]@)
        } else {
            None
        };
        prover_openings(claims, pos_evals, n - 1) + opening_pair(n - 1, c.point@, c.value@, pos)
    }
}

/// The first `n` claims for the verifier, one point each. As many claims as
/// there are positive values name two points.
pub open spec fn verifier_openings(
    claims: Seq<VerifierClaim>,
    pos_evals: Seq<Scalar>,
    n: int,
) -> Seq<Opening>
    decreases n,
{
    if n <= 0 {
        Seq::empty()
    } else {
        let c = claims[n - 1];
        let pos = if n - 1 < pos_evals.len() {
            Some(pos_evals[n - 1]@)
        } else {
            None
        };
        verifier_openings(claims, pos_evals, n - 1) + opening_pair(n - 1, c.point@, c.value@, pos)
    }
}

/// The polynomials of the prover's claims.
pub open spec fn claim_polys(claims: Seq<ProverClaim>) -> Seq<Seq<int>> {
    Seq::new(claims.len(), |i: int| vals(claims[i].coeffs@))
}

/// The commitments of the verifier's claims.
pub open spec fn claim_commitments(claims: Seq<VerifierClaim>) -> Seq<int> {
    Seq::new(claims.len(), |i: int| claims[i].commitment@)
}

/// The greatest degree among the first `n` polynomials.
pub open spec fn max_degree(polys: Seq<Seq<int>>, n: int) -> nat
    decreases n,
{
    if n <= 0 {
        0
    } else {
        let before = max_degree(polys, n - 1);
        let p = polys[n - 1];
        if p.len() > before + 1 {
            (p.len() - 1) as nat
        } else {
            before
        }
    }
}

fn push_pair(
    out: &mut Vec<GeminiClaim>,
    round: usize,
    point: Scalar,
    value: Scalar,
    pos: Option<Scalar>,
)
    ensures
        openings(final(out)@) == openings(old(out)@) + opening_pair(
            round as int,
            point@,
            value@,
            match pos {
                Some(v) => Some(v@),
                None => None,
            },
        ),
{
    if let Some(v) = pos {
        out.push(GeminiClaim { round, point: point.neg(), evaluation: v });
    }
    out.push(GeminiClaim { round, point, evaluation: value });
    assert(openings(out@) =~= openings(old(out)@) + opening_pair(
        round as int,
        point@,
        value@,
        match pos {
            Some(v) => Some(v@),
            None => None,
        },
    ));
}

proof fn lemma_fold_count_mono(claims: Seq<ProverClaim>, a: int, b: int)
    requires
        0 <= a <= b,
    ensures
        0 <= fold_count(claims, a) <= fold_count(claims, b),
    decreases b,
{
    if a < b {
        lemma_fold_count_mono(claims, a, b - 1);
    } else if 0 < a {
        lemma_fold_count_mono(claims, a - 1, a - 1);
    }
}

/// What comes of a batched opening for the challenges `nu` and `z`: the
/// commitments to `Q` and to the quotient of `G` by `X - z`, or an error where
/// `Q` is longer than the key or `z` cannot be used.
pub open spec fn prove_result(
    start: Seq<Entry>,
    end: Seq<Entry>,
    key: Seq<int>,
    os: Seq<Opening>,
    polys: Seq<Seq<int>>,
    res: Result<ShplonkOutput, PCSError>,
    nu: int,
    z: int,
) -> bool {
    let n = os.len() as int;
    let q = batched_quotient(os, polys, nu, max_degree(polys, polys.len() as int), n);
    let w = linq(batched_remainder(os, polys, q, nu, z, n), z);
    let q_commit = dot(key, q, q.len() as int);
    let log = start.push(Entry::Challenge("Shplonk:nu"@, nu));
    let full = log.push(Entry::Point("Shplonk:Q"@, q_commit)).push(
        Entry::Challenge("Shplonk:z"@, z),
    );
    match res {
        Ok(out) => {
            &&& end == full
            &&& q.len() <= key.len()
            &&& z != 0
            &&& !collides(os, z)
            &&& out.q_commit@ == q_commit
            &&& out.final_witness@ == dot(key, w, w.len() as int)
            &&& out.z_challenge@ == z
        },
        Err(e) => {
            &&& e is InvalidParameters
            &&& if q.len() <= key.len() {
                end == full && (z == 0 || collides(os, z))
            } else {
                end == log
            }
        },
    }
}

pub(crate) proof fn lemma_max_degree(polys: Seq<Seq<int>>, k: int, n: int)
    requires
        0 <= k < n,
    ensures
        polys[k].len() <= max_degree(polys, n) + 1,
    decreases n,
{
    if k < n - 1 {
        lemma_max_degree(polys, k, n - 1);
    }
}

pub(crate) proof fn lemma_remainder_len(
    os: Seq<Opening>,
    polys: Seq<Seq<int>>,
    q: Seq<int>,
    nu: int,
    z: int,
    len: nat,
    n: int,
)
    requires
        0 <= n <= os.len(),
        q.len() == len,
        forall|j: int| 0 <= j < os.len() ==> polys[(#[trigger] os[j]).round].len() <= len + 1,
    ensures
        batched_quotient(os, polys, nu, len, n).len() == len,
        batched_remainder(os, polys, q, nu, z, n).len() <= len + 1,
    decreases n,
{
    if n > 0 {
        lemma_remainder_len(os, polys, q, nu, z, len, n - 1);
        assert(polys[os[n - 1].round].len() <= len + 1);
    }
}

/// Opens the claims in one batch. The positive values belong, in their order,
/// to the claims that name two points.
#[verifier::rlimit(40)]
pub fn shplonk_prove(
    pp: &GeminiProverParam,
    claims: &[ProverClaim],
    pos_evals: &[Scalar],
    transcript: &mut IOPTranscript,
) -> (res: Result<ShplonkOutput, PCSError>)
    requires
        fold_count(claims@, claims@.len() as int) <= pos_evals@.len(),
    ensures
        exists|nu: int, z: int| #[trigger]
            prove_result(
                old(transcript)@,
                final(transcript)@,
                pp.key(),
                prover_openings(claims@, pos_evals@, claims@.len() as int),
                claim_polys(claims@),
                res,
                nu,
                z,
            ),
{
    let ghost start = transcript@;
    let ghost key = pp.key();
    let ghost polys = claim_polys(claims@);
    let ghost os = prover_openings(claims@, pos_evals@, claims@.len() as int);
    let nu = transcript.get_and_append_challenge("Shplonk:nu");
    let mut list: Vec<GeminiClaim> = Vec::new();
    let mut coeffs: Vec<Vec<Scalar>> = Vec::new();
    let mut degree: usize = 0;
    let mut fold_idx: usize = 0;
    let mut i: usize = 0;
    assert(openings(list@) =~= prover_openings(claims@, pos_evals@, 0));
    while i < claims.len()
        invariant
            i <= claims@.len(),
            fold_count(claims@, claims@.len() as int) <= pos_evals@.len(),
            polys == claim_polys(claims@),
            fold_idx == fold_count(claims@, i as int),
            degree == max_degree(polys, i as int),
            openings(list@) == prover_openings(claims@, pos_evals@, i as int),
            rounds_within(openings(list@), i as int),
            coeffs@.len() == i,
            forall|k: int| 0 <= k < i ==> vals((#[trigger] coeffs@[k])@) == polys[k],
        decreases claims@.len() - i,
    {
        let ghost before = openings(list@);
        proof {
            lemma_fold_count_mono(claims@, i + 1, claims@.len() as int);
        }
        let c = &claims[i];
        let len: usize = c.coeffs.len();
        assert(polys[i as int].len() == len);
        if len > 0 && len - 1 > degree {
            degree = len - 1;
        }
        coeffs.push(copy_scalars(c.coeffs.as_slice()));
        if c.gemini_fold {
            push_pair(&mut list, i, c.point, c.value, Some(pos_evals[fold_idx]));
            fold_idx = fold_idx + 1;
        } else {
            push_pair(&mut list, i, c.point, c.value, None);
        }
        proof {
            let now = openings(list@);
            assert forall|j: int| 0 <= j < now.len() implies 0 <= (#[trigger] now[j]).round < i
                + 1 by {
                if j < before.len() {
                    assert(now[j] == before[j]);
                }
            }
        }
        i = i + 1;
    }
    assert(openings(list@) == os);
    assert(poly_views(coeffs@) =~= polys);
    let batched_q = compute_shplonk_batched_quotient(
        list.as_slice(),
        coeffs.as_slice(),
        nu,
        degree,
    );
    let ghost q = vals(batched_q@);
    assert(q.len() == batched_q@.len());
    let commit = pp.try_commit(batched_q.as_slice());
    if let Err(e) = commit {
        let res: Result<ShplonkOutput, PCSError> = Err(e);
        assert(prove_result(start, transcript@, key, os, polys, res, nu@, 0));
        return res;
    }
    let q_commit = commit.unwrap();
    transcript.append_point("Shplonk:Q", &q_commit);
    let z = transcript.get_and_append_challenge("Shplonk:z");
    if z.is_zero() {
        let res: Result<ShplonkOutput, PCSError> = Err(invalid_parameters("Shplonk: z is zero"));
        assert(prove_result(start, transcript@, key, os, polys, res, nu@, z@));
        return res;
    }
    let g = match compute_shplonk_g_coeffs(
        list.as_slice(),
        coeffs.as_slice(),
        batched_q.as_slice(),
        nu,
        z,
        batched_q.len(),
    ) {
        Ok(g) => g,
        Err(e) => {
            let res: Result<ShplonkOutput, PCSError> = Err(invalid_parameters(e.message()));
            assert(prove_result(start, transcript@, key, os, polys, res, nu@, z@));
            return res;
        },
    };
    proof {
        assert(padded(q, q.len()) =~= q);
        assert forall|j: int| 0 <= j < os.len() implies polys[(#[trigger] os[j]).round].len()
            <= degree + 1 by {
            lemma_max_degree(polys, os[j].round, polys.len() as int);
        }
        let none = Seq::new(degree as nat, |k: int| 0int);
        lemma_remainder_len(os, polys, none, nu@, z@, degree as nat, os.len() as int);
        lemma_remainder_len(os, polys, q, nu@, z@, degree as nat, os.len() as int);
        assert(vals(g@).len() == g@.len());
    }
    let witness = kzg_quotient(g.as_slice(), z, Scalar::zero());
    assert(vals(witness@).len() == witness@.len());
    let final_witness = pp.try_commit(witness.as_slice())?;
    let res: Result<ShplonkOutput, PCSError> = Ok(
        ShplonkOutput { q_commit, final_witness, z_challenge: z },
    );
    assert(prove_result(start, transcript@, key, os, polys, res, nu@, z@));
    res
}

/// What comes of the verifier's reduction for the challenges `nu` and `z`: the
/// commitment to `G` with `z`, or an error where `z` cannot be used.
pub open spec fn reduce_result(
    start: Seq<Entry>,
    end: Seq<Entry>,
    os: Seq<Opening>,
    coms: Seq<int>,
    q_commit: int,
    g: int,
    res: Result<(G1, Scalar), PCSError>,
    nu: int,
    z: int,
) -> bool {
    &&& end == start.push(Entry::Challenge("Shplonk:nu"@, nu)).push(
        Entry::Point("Shplonk:Q"@, q_commit),
    ).push(Entry::Challenge("Shplonk:z"@, z))
    &&& match res {
        Ok((com, point)) => {
            &&& z != 0
            &&& !collides(os, z)
            &&& com@ == reduced_commitment(os, coms, q_commit, g, nu, z)
            &&& forall|j: int| 0 <= j < os.len() ==> invertible(fsub(z, (#[trigger] os[j]).point))
            &&& point@ == z
        },
        Err(e) => e is InvalidProof && (z == 0 || collides(os, z)),
    }
}

/// Reduces the claims to the commitment to `G`, which has to open at `z` to
/// zero.
pub fn shplonk_verify_reduce(
    claims: &[VerifierClaim],
    pos_evals: &[Scalar],
    q_commit: &G1,
    g1_identity: &G1,
    transcript: &mut IOPTranscript,
) -> (res: Result<(G1, Scalar), PCSError>)
    ensures
        exists|nu: int, z: int| #[trigger]
            reduce_result(
                old(transcript)@,
                final(transcript)@,
                verifier_openings(claims@, pos_evals@, claims@.len() as int),
                claim_commitments(claims@),
                q_commit@,
                g1_identity@,
                res,
                nu,
                z,
            ),
{
    let ghost start = transcript@;
    let ghost os = verifier_openings(claims@, pos_evals@, claims@.len() as int);
    let ghost all = claim_commitments(claims@);
    let nu = transcript.get_and_append_challenge("Shplonk:nu");
    transcript.append_point("Shplonk:Q", q_commit);
    let z = transcript.get_and_append_challenge("Shplonk:z");
    if z.is_zero() {
        let res: Result<(G1, Scalar), PCSError> = Err(
            invalid_proof("Shplonk verifier: z is zero"),
        );
        assert(reduce_result(
            start,
            transcript@,
            os,
            all,
            q_commit@,
            g1_identity@,
            res,
            nu@,
            z@,
        ));
        return res;
    }
    let mut list: Vec<GeminiClaim> = Vec::new();
    let mut coms: Vec<G1> = Vec::new();
    let mut i: usize = 0;
    assert(openings(list@) =~= verifier_openings(claims@, pos_evals@, 0));
    while i < claims.len()
        invariant
            i <= claims@.len(),
            all == claim_commitments(claims@),
            openings(list@) == verifier_openings(claims@, pos_evals@, i as int),
            rounds_within(openings(list@), i as int),
            coms@.len() == i,
            forall|k: int| 0 <= k < i ==> (#[trigger] coms@[k])@ == all[k],
        decreases claims@.len() - i,
    {
        let ghost before = openings(list@);
        let c = &claims[i];
        coms.push(c.commitment);
        if i < pos_evals.len() {
            push_pair(&mut list, i, c.point, c.value, Some(pos_evals[i]));
        } else {
            push_pair(&mut list, i, c.point, c.value, None);
        }
        proof {
            let now = openings(list@);
            assert forall|j: int| 0 <= j < now.len() implies 0 <= (#[trigger] now[j]).round < i
                + 1 by {
                if j < before.len() {
                    assert(now[j] == before[j]);
                }
            }
        }
        i = i + 1;
    }
    assert(logs(coms@) =~= all);
    let reduced = reduce_commitments(
        list.as_slice(),
        coms.as_slice(),
        q_commit,
        nu,
        z,
        g1_identity,
    );
    let res: Result<(G1, Scalar), PCSError> = match reduced {
        Ok(g) => Ok((g, z)),
        Err(e) => Err(e),
    };
    assert(reduce_result(start, transcript@, os, all, q_commit@, g1_identity@, res, nu@, z@));
    res
}

} // verus!
