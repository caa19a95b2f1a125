//! Openings at a point and its inverse.
//!
//! For a table `f`, read as coefficients, and a point `u` with tensor
//! polynomial `T`, the Laurent polynomial `h(X) = f(X) T(1/X)` has the value of
//! the table at `u` as its constant coefficient. The half-length witness `hbar`
//! collects the sums of the coefficients of `X^i` and `X^{-i}`, so that
//! `z hbar(z) + hbar(1/z) / z + 2 y = f(z) T(1/z) + f(1/z) T(z)`.
//! An opening proves the values of `f + alpha hbar` at `z` and `1/z` with one
//! quotient by `X^2 - (z + 1/z) X + 1`.

use crate::bdfg::{add_scaled, poly_eval, poly_sub};
use crate::dims::copy_scalars;
use crate::errors::{invalid_proof, PCSError};
use crate::field::{fadd, finv, fmul, fneg, fsub, is_inverse, vals, Scalar};
use crate::group::{logs, logs2, pairing_check, G1, G2};
use crate::kzg::commit_prefix;
use crate::laurent::sym_witness;
use crate::poly::{dot, feval, invertible, p_add_scaled, p_sub};
use crate::quadratic::{
    div_by_monic_quadratic, line_offset, line_slope, quad_quotient, two_point_remainder,
};
use crate::tensor::{eval_tensor, tensor};
use crate::transcript::{reciprocal, Entry, IOPTranscript};
use vstd::prelude::*;

verus! {

/// The values and points that an opening sends.
pub struct ReciModel {
    pub cm_hbar: int,
    pub pi: int,
    pub f_z: int,
    pub f_z_inv: int,
    pub hbar_z: int,
    pub hbar_z_inv: int,
}

/// The challenges of a run.
pub struct ReciChallenges {
    pub z: int,
    pub alpha: int,
}

/// The verifier's key.
pub struct ReciKey {
    pub g1_one: int,
    pub g1_tau: int,
    pub g2_one: int,
    pub g2_tau: int,
    pub g2_tau2: int,
}

/// The labels under which a scheme writes to its transcript.
pub struct ReciLabels {
    pub cm_hbar: &'static str,
    pub z: &'static str,
    pub f_z: &'static str,
    pub f_z_inv: &'static str,
    pub hbar_z: &'static str,
    pub hbar_z_inv: &'static str,
    pub alpha: &'static str,
}

/// Constant coefficient of the interpolant of `f + alpha hbar`.
pub open spec fn combined_offset(p: ReciModel, c: ReciChallenges) -> int {
    let zi = finv(c.z);
    fadd(
        line_offset(c.z, p.f_z, zi, p.f_z_inv),
        fmul(c.alpha, line_offset(c.z, p.hbar_z, zi, p.hbar_z_inv)),
    )
}

/// Linear coefficient of the interpolant of `f + alpha hbar`.
pub open spec fn combined_slope(p: ReciModel, c: ReciChallenges) -> int {
    let zi = finv(c.z);
    fadd(
        line_slope(c.z, p.f_z, zi, p.f_z_inv),
        fmul(c.alpha, line_slope(c.z, p.hbar_z, zi, p.hbar_z_inv)),
    )
}

/// `f + alpha hbar` less a line.
pub open spec fn combined_numerator(
    f: Seq<int>,
    hbar: Seq<int>,
    alpha: int,
    r0: int,
    r1: int,
) -> Seq<int> {
    p_sub(p_add_scaled(f, hbar, alpha), seq![r0, r1])
}

/// What the honest prover sends, but for the proof of the opening.
pub open spec fn honest_values(key: Seq<int>, f: Seq<int>, hbar: Seq<int>, z: int) -> ReciModel {
    let zi = finv(z);
    ReciModel {
        cm_hbar: dot(key, hbar, hbar.len() as int),
        pi: 0,
        f_z: feval(f, z),
        f_z_inv: feval(f, zi),
        hbar_z: feval(hbar, z),
        hbar_z_inv: feval(hbar, zi),
    }
}

/// The quotient of the honest prover.
pub open spec fn honest_quotient(
    key: Seq<int>,
    f: Seq<int>,
    hbar: Seq<int>,
    c: ReciChallenges,
) -> Seq<int> {
    let v = honest_values(key, f, hbar, c.z);
    quad_quotient(
        combined_numerator(f, hbar, c.alpha, combined_offset(v, c), combined_slope(v, c)),
        fadd(c.z, finv(c.z)),
    )
}

/// What the honest prover sends for the table `f` at `u`.
pub open spec fn honest_proof(
    key: Seq<int>,
    f: Seq<int>,
    u: Seq<int>,
    c: ReciChallenges,
) -> ReciModel {
    let hbar = sym_witness(f, u, u.len() as int);
    let q = honest_quotient(key, f, hbar, c);
    ReciModel { pi: dot(key, q, q.len() as int), ..honest_values(key, f, hbar, c.z) }
}

/// The equation of the batched KZG opening.
pub open spec fn pairing_holds(vk: ReciKey, com: int, p: ReciModel, c: ReciChallenges) -> bool {
    let r0 = combined_offset(p, c);
    let r1 = combined_slope(p, c);
    dot(
        seq![
            fadd(
                fadd(com, fmul(p.cm_hbar, c.alpha)),
                fneg(fadd(fmul(vk.g1_one, r0), fmul(vk.g1_tau, r1))),
            ),
            fneg(p.pi),
        ],
        seq![
            vk.g2_one,
            fadd(fadd(vk.g2_tau2, fmul(vk.g2_tau, fneg(fadd(c.z, finv(c.z))))), vk.g2_one),
        ],
        2,
    ) == 0
}

/// The symmetric identity of the values at `z` and its inverse.
pub open spec fn identity_holds(p: ReciModel, u: Seq<int>, y: int, z: int) -> bool {
    let zi = finv(z);
    let mu = u.len() as int;
    fadd(fadd(fmul(z, p.hbar_z), fmul(zi, p.hbar_z_inv)), fadd(y, y)) == fadd(
        fmul(p.f_z, tensor(u, zi, mu)),
        fmul(p.f_z_inv, tensor(u, z, mu)),
    )
}

/// Whether an opening is accepted for its challenges.
pub open spec fn accepts(
    vk: ReciKey,
    com: int,
    u: Seq<int>,
    y: int,
    p: ReciModel,
    c: ReciChallenges,
) -> bool {
    pairing_holds(vk, com, p, c) && identity_holds(p, u, y, c.z)
}

/// The history of a run from `start` up to `z`.
pub open spec fn after_z(start: Seq<Entry>, l: ReciLabels, cm_hbar: int, z: int) -> Seq<Entry> {
    start.push(Entry::Point(l.cm_hbar@, cm_hbar)).push(Entry::Challenge(l.z@, z))
}

/// The history of a whole run from `start`.
pub open spec fn run_end(
    start: Seq<Entry>,
    l: ReciLabels,
    p: ReciModel,
    c: ReciChallenges,
) -> Seq<Entry> {
    after_z(start, l, p.cm_hbar, c.z).push(Entry::Field(l.f_z@, p.f_z)).push(
        Entry::Field(l.f_z_inv@, p.f_z_inv),
    ).push(Entry::Field(l.hbar_z@, p.hbar_z)).push(Entry::Field(l.hbar_z_inv@, p.hbar_z_inv)).push(
        Entry::Challenge(l.alpha@, c.alpha),
    )
}

/// Whether an opening is what the honest prover sends for the table `f` at `u`
/// and the challenges of a run that leads from the history `start` to `end`.
pub open spec fn is_honest_run(
    start: Seq<Entry>,
    end: Seq<Entry>,
    l: ReciLabels,
    key: Seq<int>,
    f: Seq<int>,
    u: Seq<int>,
    p: ReciModel,
    c: ReciChallenges,
) -> bool {
    &&& p == honest_proof(key, f, u, c)
    &&& end == run_end(start, l, p, c)
    &&& reciprocal()(c.z)
    &&& is_inverse(c.z, finv(c.z))
    &&& invertible(fsub(finv(c.z), c.z))
}

/// Whether the verdict on an opening is `ok` for the challenges of a run that
/// leads from the history `start` to `end`. An opening that names another `z`
/// is rejected.
pub open spec fn is_verdict(
    start: Seq<Entry>,
    end: Seq<Entry>,
    l: ReciLabels,
    vk: ReciKey,
    com: int,
    u: Seq<int>,
    y: int,
    p: ReciModel,
    named: Option<int>,
    ok: bool,
    c: ReciChallenges,
) -> bool {
    if named is Some && named != Some(c.z) {
        !ok && end == after_z(start, l, p.cm_hbar, c.z)
    } else {
        &&& reciprocal()(c.z)
        &&& is_inverse(c.z, finv(c.z))
        &&& invertible(fsub(finv(c.z), c.z))
        &&& end == run_end(start, l, p, c)
        &&& ok == accepts(vk, com, u, y, p, c)
    }
}

/// What an opening sends.
#[derive(Clone, Copy, Debug)]
pub struct ReciParts {
    pub cm_hbar: G1,
    pub pi: G1,
    pub f_z: Scalar,
    pub f_z_inv: Scalar,
    pub hbar_z: Scalar,
    pub hbar_z_inv: Scalar,
    pub z: Scalar,
}

impl ReciParts {
    pub open spec fn model(&self) -> ReciModel {
        ReciModel {
            cm_hbar: self.cm_hbar@,
            pi: self.pi@,
            f_z: self.f_z@,
            f_z_inv: self.f_z_inv@,
            hbar_z: self.hbar_z@,
            hbar_z_inv: self.hbar_z_inv@,
        }
    }
}

/// The points that a verifier of openings needs.
#[derive(Clone, Copy, Debug)]
pub struct ReciPoints {
    pub g1_one: G1,
    pub g1_tau: G1,
    pub g2_one: G2,
    pub g2_tau: G2,
    pub g2_tau2: G2,
}

impl ReciPoints {
    pub open spec fn model(&self) -> ReciKey {
        ReciKey {
            g1_one: self.g1_one@,
            g1_tau: self.g1_tau@,
            g2_one: self.g2_one@,
            g2_tau: self.g2_tau@,
            g2_tau2: self.g2_tau2@,
        }
    }
}

/// Rejects a `z` that is zero or its own inverse, and returns the inverse.
pub fn validate_z(z: Scalar) -> (r: Result<Scalar, PCSError>)
    ensures
        r is Ok <==> reciprocal()(z@),
        r matches Err(e) ==> e is InvalidProof,
        r matches Ok(i) ==> i@ == finv(z@) && is_inverse(z@, i@) && i@ != z@,
{
    if z.is_zero() {
        return Err(invalid_proof("z = 0: two-point divisor degenerates"));
    }
    let sq = z.square();
    if sq.equals(&Scalar::one()) {
        return Err(invalid_proof("z^2 = 1: two-point divisor degenerates (z = 1/z)"));
    }
    match z.inverse() {
        Some(i) => Ok(i),
        None => Err(invalid_proof("z inverse failed after guards")),
    }
}

/// Value of the tensor polynomial at the inverse of a point; an error where the
/// point is zero.
pub fn eval_tensor_inv(r: &[Scalar], x: Scalar) -> (v: Result<Scalar, PCSError>)
    ensures
        v is Ok <==> x@ != 0,
        v matches Err(e) ==> e is InvalidProof,
        v matches Ok(t) ==> t@ == tensor(vals(r@), finv(x@), r@.len() as int),
{
    match x.inverse() {
        Some(x_inv) => Ok(eval_tensor(r, x_inv)),
        None => Err(invalid_proof("z is zero in eval_tensor_inv")),
    }
}

/// The quotient of `f + alpha hbar`, less its interpolant, by
/// `X^2 - s X + 1`.
pub fn build_quotient(
    f_coeffs: &[Scalar],
    hbar_coeffs: &[Scalar],
    rf: &[Scalar; 2],
    rh: &[Scalar; 2],
    alpha: Scalar,
    s: Scalar,
) -> (q: Vec<Scalar>)
    ensures
        vals(q@) == quad_quotient(
            combined_numerator(
                vals(f_coeffs@),
                vals(hbar_coeffs@),
                alpha@,
                fadd(rf@[0]@, fmul(alpha@, rh@[0]@)),
                fadd(rf@[1]@, fmul(alpha@, rh@[1]@)),
            ),
            s@,
        ),
{
    let mut combined = copy_scalars(f_coeffs);
    add_scaled(&mut combined, hbar_coeffs, alpha);
    let r0 = rf[0].add(alpha.mul(rh[0]));
    let r1 = rf[1].add(alpha.mul(rh[1]));
    let line = [r0, r1];
    assert(vals(line@) =~= seq![r0@, r1@]);
    let numerator = poly_sub(combined.as_slice(), line.as_slice());
    let (q, rem) = div_by_monic_quadratic(numerator.as_slice(), s);
    q
}

/// What comes of an opening for the challenges that were drawn: what the honest
/// prover sends, or an error where `z` cannot be used.
pub open spec fn opening_result(
    start: Seq<Entry>,
    end: Seq<Entry>,
    l: ReciLabels,
    key: Seq<int>,
    f: Seq<int>,
    u: Seq<int>,
    res: Result<ReciParts, PCSError>,
    c: ReciChallenges,
) -> bool {
    match res {
        Ok(parts) => is_honest_run(start, end, l, key, f, u, parts.model(), c) && parts.z@ == c.z,
        Err(e) => {
            &&& e is InvalidProof
            &&& !reciprocal()(c.z)
            &&& end == after_z(start, l, honest_proof(key, f, u, c).cm_hbar, c.z)
        },
    }
}

/// Opens a table at a point, with the witness of its value there.
#[verifier::rlimit(30)]
pub(crate) fn reciprocal_open(
    key: &[G1],
    coeffs: &[Scalar],
    hbar: &[Scalar],
    Ghost(u): Ghost<Seq<int>>,
    labels: &ReciLabels,
    transcript: &mut IOPTranscript,
) -> (res: Result<ReciParts, PCSError>)
    requires
        coeffs@.len() == hbar@.len() + 1,
        hbar@.len() <= key@.len(),
        vals(hbar@) == sym_witness(vals(coeffs@), u, u.len() as int),
    ensures
        exists|c: ReciChallenges| #[trigger]
            opening_result(
                old(transcript)@,
                final(transcript)@,
                *labels,
                logs(key@),
                vals(coeffs@),
                u,
                res,
                c,
            ),
{
    let ghost start = transcript@;
    let ghost kv = logs(key@);
    let ghost f = vals(coeffs@);
    let ghost hb = vals(hbar@);
    let cm_hbar = commit_prefix(key, hbar);
    transcript.append_point(labels.cm_hbar, &cm_hbar);
    let z = transcript.get_and_append_challenge(labels.z);
    let z_inv = match validate_z(z) {
        Ok(i) => i,
        Err(e) => {
            let res: Result<ReciParts, PCSError> = Err(e);
            let ghost c = ReciChallenges { z: z@, alpha: 0 };
            assert(opening_result(start, transcript@, *labels, kv, f, u, res, c));
            return res;
        },
    };
    let f_z = poly_eval(coeffs, z);
    let f_z_inv = poly_eval(coeffs, z_inv);
    let hbar_z = poly_eval(hbar, z);
    let hbar_z_inv = poly_eval(hbar, z_inv);
    transcript.append_field_element(labels.f_z, &f_z);
    transcript.append_field_element(labels.f_z_inv, &f_z_inv);
    transcript.append_field_element(labels.hbar_z, &hbar_z);
    transcript.append_field_element(labels.hbar_z_inv, &hbar_z_inv);
    let alpha = transcript.get_and_append_challenge(labels.alpha);
    let ghost c = ReciChallenges { z: z@, alpha: alpha@ };
    let rf = two_point_remainder(z, f_z, z_inv, f_z_inv)?;
    let rh = two_point_remainder(z, hbar_z, z_inv, hbar_z_inv)?;
    let s = z.add(z_inv);
    let q = build_quotient(coeffs, hbar, &rf, &rh, alpha, s);
    assert(vals(q@) == honest_quotient(kv, f, hb, c));
    assert(q@.len() <= key@.len()) by {
        assert(vals(q@).len() == q@.len());
        assert(f.len() == coeffs@.len() && hb.len() == hbar@.len());
    }
    let pi = commit_prefix(key, q.as_slice());
    let parts = ReciParts { cm_hbar, pi, f_z, f_z_inv, hbar_z, hbar_z_inv, z };
    let res: Result<ReciParts, PCSError> = Ok(parts);
    assert(parts.model() == honest_proof(kv, f, u, c));
    assert(opening_result(start, transcript@, *labels, kv, f, u, res, c));
    res
}

/// What comes of a verification for the challenges that were drawn: the
/// verdict, or an error where `z` cannot be used.
pub open spec fn verification_result(
    start: Seq<Entry>,
    end: Seq<Entry>,
    l: ReciLabels,
    vk: ReciKey,
    com: int,
    u: Seq<int>,
    y: int,
    p: ReciModel,
    named: Option<int>,
    res: Result<bool, PCSError>,
    c: ReciChallenges,
) -> bool {
    match res {
        Ok(ok) => is_verdict(start, end, l, vk, com, u, y, p, named, ok, c),
        Err(e) => {
            &&& e is InvalidProof
            &&& named is Some ==> named == Some(c.z)
            &&& !reciprocal()(c.z)
            &&& end == after_z(start, l, p.cm_hbar, c.z)
        },
    }
}

/// The value of an optional scalar.
pub open spec fn option_val(s: Option<Scalar>) -> Option<int> {
    match s {
        Some(v) => Some(v@),
        None => None,
    }
}

/// Whether the equation of the batched KZG opening holds.
fn check_pairing(
    vk: &ReciPoints,
    com: &G1,
    parts: &ReciParts,
    z: Scalar,
    z_inv: Scalar,
    alpha: Scalar,
) -> (r: Result<bool, PCSError>)
    requires
        z@ != z_inv@,
        z_inv@ == finv(z@),
    ensures
        r matches Ok(ok) && ok == pairing_holds(
            vk.model(),
            com@,
            parts.model(),
            (ReciChallenges { z: z@, alpha: alpha@ }),
        ),
        invertible(fsub(z_inv@, z@)),
{
    let rf = two_point_remainder(z, parts.f_z, z_inv, parts.f_z_inv)?;
    let rh = two_point_remainder(z, parts.hbar_z, z_inv, parts.hbar_z_inv)?;
    let r0 = rf[0].add(alpha.mul(rh[0]));
    let r1 = rf[1].add(alpha.mul(rh[1]));
    let cm_r = vk.g1_one.mul(&r0).add(&vk.g1_tau.mul(&r1));
    let cm_comb = com.add(&parts.cm_hbar.mul(&alpha)).add(&cm_r.neg());
    let s = z.add(z_inv);
    let g2_z = vk.g2_tau2.add(&vk.g2_tau.mul(&s.neg())).add(&vk.g2_one);
    let a = [cm_comb, parts.pi.neg()];
    let b = [vk.g2_one, g2_z];
    let ok = pairing_check(a.as_slice(), b.as_slice());
    assert(logs(a@) =~= seq![cm_comb@, fneg(parts.pi@)]);
    assert(logs2(b@) =~= seq![vk.g2_one@, g2_z@]);
    Ok(ok)
}

/// Verifies an opening. Where the opening names its `z`, that has to be the
/// one that is drawn.
pub fn reciprocal_verify(
    vk: &ReciPoints,
    com: &G1,
    point: &[Scalar],
    value: &Scalar,
    parts: &ReciParts,
    named: Option<Scalar>,
    labels: &ReciLabels,
    transcript: &mut IOPTranscript,
) -> (res: Result<bool, PCSError>)
    ensures
        exists|c: ReciChallenges| #[trigger]
            verification_result(
                old(transcript)@,
                final(transcript)@,
                *labels,
                vk.model(),
                com@,
                vals(point@),
                value@,
                parts.model(),
                option_val(named),
                res,
                c,
            ),
{
    let ghost start = transcript@;
    let ghost km = vk.model();
    let ghost u = vals(point@);
    let ghost p = parts.model();
    let ghost nm = option_val(named);
    transcript.append_point(labels.cm_hbar, &parts.cm_hbar);
    let z = transcript.get_and_append_challenge(labels.z);
    let ghost cz = ReciChallenges { z: z@, alpha: 0 };
    if let Some(expected) = named {
        if !z.equals(&expected) {
            let res: Result<bool, PCSError> = Ok(false);
            assert(verification_result(
                start,
                transcript@,
                *labels,
                km,
                com@,
                u,
                value@,
                p,
                nm,
                res,
                cz,
            ));
            return res;
        }
    }
    let z_inv = match validate_z(z) {
        Ok(i) => i,
        Err(e) => {
            let res: Result<bool, PCSError> = Err(e);
            assert(verification_result(
                start,
                transcript@,
                *labels,
                km,
                com@,
                u,
                value@,
                p,
                nm,
                res,
                cz,
            ));
            return res;
        },
    };
    transcript.append_field_element(labels.f_z, &parts.f_z);
    transcript.append_field_element(labels.f_z_inv, &parts.f_z_inv);
    transcript.append_field_element(labels.hbar_z, &parts.hbar_z);
    transcript.append_field_element(labels.hbar_z_inv, &parts.hbar_z_inv);
    let alpha = transcript.get_and_append_challenge(labels.alpha);
    let ghost c = ReciChallenges { z: z@, alpha: alpha@ };
    let pairing = check_pairing(vk, com, parts, z, z_inv, alpha);
    let pairing_ok = pairing?;
    if !pairing_ok {
        let res: Result<bool, PCSError> = Ok(false);
        assert(verification_result(
            start,
            transcript@,
            *labels,
            km,
            com@,
            u,
            value@,
            p,
            nm,
            res,
            c,
        ));
        return res;
    }
    let t_z_inv = eval_tensor_inv(point, z)?;
    let t_z = eval_tensor(point, z);
    let lhs = z.mul(parts.hbar_z).add(z_inv.mul(parts.hbar_z_inv)).add(value.double());
    let rhs = parts.f_z.mul(t_z_inv).add(parts.f_z_inv.mul(t_z));
    let res: Result<bool, PCSError> = Ok(lhs.equals(&rhs));
    assert(verification_result(
        start,
        transcript@,
        *labels,
        km,
        com@,
        u,
        value@,
        p,
        nm,
        res,
        c,
    ));
    res
}

} // verus!
