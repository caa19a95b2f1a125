//! What an accepted opening says: the equations that its values and commitments
//! satisfy, for challenges that the history and the proof determine.

use crate::errors::PCSError;
use crate::field::{
    cong, fadd, finv, fmul, fneg, fpow, fsub, group_reduced, group_shadow, is_inverse,
    lemma_cong_add, lemma_cong_cancel, lemma_cong_eq, lemma_cong_inverse, lemma_cong_move,
    lemma_cong_sub, lemma_cong_symm, lemma_cong_trans, lemma_inverse_unique, lemma_modulus,
    lemma_refl, reduced, vals, Scalar,
};
use crate::laurent::lemma_inverse_pow;
use crate::mulcs::{is_verification, key_model, verification_result, verified, MulcsProof};
use crate::mulcs::model::{accepts, MulcsChallenges};
use crate::mulcs::srs::MulcsVerifierParam;
use crate::mulcs::symmetric::MulcsSymmetricProof;
use crate::poly::{int_dot, invertible, lemma_dot_shadow};
use crate::quadratic::{lemma_line_names, line_offset, line_slope};
use crate::reciprocal::{ReciChallenges, ReciKey, ReciModel};
use crate::reciprocal_laws::{law_opened_value, lemma_accepted_opens, reciprocal_opens, ReciOpening};
use crate::tensor::{p2, tensor};
use crate::transcript::{is_course, Entry};
use vstd::prelude::*;

verus! {

/// What an opening is made of: the challenges, the inverse of `z`, the product
/// `gamma z`, and the lines through the values of `f` and of the helper polynomial.
pub struct MulcsOpening {
    pub delta: int,
    pub z: int,
    pub zi: int,
    pub gz: int,
    pub f0: int,
    pub f1: int,
    pub h0: int,
    pub h1: int,
}

/// Whether a proof opens `com` at `u` to `y`: the lines take the values at `z` and
/// `gamma z`, the values satisfy the Claymore identity with `y`, and the pairing product
/// `e([f] + [hbar] - [line], [1]) == e(pi, [(x - z)(x - gamma z)])` is one, in the
/// exponent.
pub open spec fn values_open(
    vp: &MulcsVerifierParam,
    com: int,
    u: Seq<int>,
    y: int,
    proof: &MulcsProof,
    o: MulcsOpening,
) -> bool {
    let n1 = (p2(u.len() as int) - 1) as nat;
    &&& o.z == proof.z@
    &&& o.z != o.gz
    &&& cong(o.z * o.zi, 1)
    &&& cong(o.gz, vp.gamma@ * o.z)
    &&& cong(o.f0 + o.f1 * o.z, proof.y_f@)
    &&& cong(o.f0 + o.f1 * o.gz, proof.y_f_prime@)
    &&& cong(o.h0 + o.h1 * o.z, proof.y_hbar@)
    &&& cong(o.h0 + o.h1 * o.gz, proof.y_hbar_prime@)
    &&& cong(
        fpow(vp.gamma@, n1) * proof.y_hbar@ - proof.y_hbar_prime@,
        fpow(o.z, n1) * (proof.y_f@ * tensor(u, o.zi, u.len() as int) - y),
    )
    &&& cong(
        (com + proof.cm_hbar@ - (o.f0 + o.h0) * vp.g1_one@ - (o.f1 + o.h1) * vp.g1_x@) * vp.g2_one@,
        proof.pi@ * (vp.g2_x2@ - (o.z + o.gz) * vp.g2_x@ + (o.z * o.gz) * vp.g2_one@),
    )
}

/// Whether a proof opens `com` at `u` to `y` in a transcript with the history `start`,
/// from which the challenges are drawn with what the proof holds for them.
pub open spec fn opens_to(
    start: Seq<Entry>,
    vp: &MulcsVerifierParam,
    com: int,
    u: Seq<int>,
    y: int,
    proof: &MulcsProof,
    o: MulcsOpening,
) -> bool {
    &&& values_open(vp, com, u, y, proof, o)
    &&& is_course(
        start + seq![
            Entry::Challenge("mulcs_delta"@, o.delta),
            Entry::Point("cm_hbar"@, proof.cm_hbar@),
            Entry::Challenge("mulcs_z"@, o.z),
        ],
    )
}

/// A difference of `z` and its multiple that has an inverse leaves one for `z`.
proof fn lemma_z_invertible(z: int, gamma: int)
    requires
        invertible(fsub(fmul(gamma, z), z)),
    ensures
        invertible(z),
{
    broadcast use group_reduced;

    let d = fsub(fmul(gamma, z), z);
    let i = finv(d);
    let w = fmul(fsub(gamma, 1), i);
    lemma_modulus();
    lemma_refl(gamma);
    lemma_refl(z);
    lemma_refl(i);
    lemma_refl(1);
    broadcast use group_shadow;

    assert((gamma * z - z) * i == z * ((gamma - 1) * i)) by (nonlinear_arith);
    assert(cong(fmul(d, i), (gamma * z - z) * i));
    assert(cong(fmul(z, w), z * ((gamma - 1) * i)));
    lemma_cong_symm(1, (gamma * z - z) * i);
    lemma_cong_trans(fmul(z, w), z * ((gamma - 1) * i), 1);
    lemma_cong_eq(fmul(z, w), 1);
    assert(is_inverse(z, w));
    lemma_inverse_unique(z, w);
}

/// What the checks of a verifier say, in integers.
proof fn lemma_accepted(
    vp: &MulcsVerifierParam,
    com: int,
    u: Seq<int>,
    y: int,
    proof: &MulcsProof,
    c: MulcsChallenges,
) -> (o: MulcsOpening)
    requires
        accepts(key_model(vp), com, u, y, proof.model(), c.z),
        c.z == proof.z@,
        c.z != fmul(vp.gamma@, c.z),
        invertible(fsub(fmul(vp.gamma@, c.z), c.z)),
    ensures
        values_open(vp, com, u, y, proof, o),
        o.z == c.z,
        o.zi == finv(c.z),
        o.delta == c.delta,
{
    broadcast use group_reduced;

    let vk = key_model(vp);
    let p = proof.model();
    let z = c.z;
    lemma_z_invertible(z, vk.gamma);
    let zi = finv(z);
    let gz = fmul(vk.gamma, z);
    let o = MulcsOpening {
        delta: c.delta,
        z,
        zi,
        gz,
        f0: line_offset(z, p.y_f, gz, p.y_f_prime),
        f1: line_slope(z, p.y_f, gz, p.y_f_prime),
        h0: line_offset(z, p.y_hbar, gz, p.y_hbar_prime),
        h1: line_slope(z, p.y_hbar, gz, p.y_hbar_prime),
    };
    lemma_cong_inverse(z, zi);
    lemma_line_names(z, p.y_f, gz, p.y_f_prime);
    lemma_line_names(z, p.y_hbar, gz, p.y_hbar_prime);
    let n1 = (p2(u.len() as int) - 1) as nat;
    let t = tensor(u, zi, u.len() as int);
    let gp = fpow(vk.gamma, n1);
    let zp = fpow(z, n1);
    let left = fsub(fmul(gp, p.y_hbar), p.y_hbar_prime);
    let right = fmul(zp, fsub(fmul(p.y_f, t), y));
    let li = gp * p.y_hbar - p.y_hbar_prime;
    let ri = zp * (p.y_f * t - y);
    assert(cong(gz, vk.gamma * z) && cong(left, li) && cong(right, ri)) by {
        lemma_refl(vk.gamma);
        lemma_refl(z);
        lemma_refl(gp);
        lemma_refl(zp);
        lemma_refl(p.y_hbar);
        lemma_refl(p.y_hbar_prime);
        lemma_refl(p.y_f);
        lemma_refl(t);
        lemma_refl(y);
        broadcast use group_shadow;

    }
    lemma_cong_symm(left, li);
    lemma_cong_trans(li, left, ri);
    let r0 = fadd(o.f0, o.h0);
    let r1 = fadd(o.f1, o.h1);
    let i0 = o.f0 + o.h0;
    let i1 = o.f1 + o.h1;
    let a0 = fadd(fadd(com, p.cm_hbar), fneg(fadd(fmul(vk.g1_one, r0), fmul(vk.g1_x, r1))));
    let x0 = com + p.cm_hbar + (-(vk.g1_one * i0 + vk.g1_x * i1));
    let b1 = fadd(
        fadd(vk.g2_x2, fmul(vk.g2_x, fneg(fadd(z, gz)))),
        fmul(vk.g2_one, fmul(z, gz)),
    );
    let y1 = vk.g2_x2 + vk.g2_x * (-(z + gz)) + vk.g2_one * (z * gz);
    assert(cong(r0, i0) && cong(r1, i1)) by {
        lemma_refl(o.f0);
        lemma_refl(o.f1);
        lemma_refl(o.h0);
        lemma_refl(o.h1);
        broadcast use group_shadow;

    }
    assert(cong(a0, x0)) by {
        lemma_refl(com);
        lemma_refl(p.cm_hbar);
        lemma_refl(vk.g1_one);
        lemma_refl(vk.g1_x);
        broadcast use group_shadow;

    }
    assert(cong(b1, y1) && cong(fneg(p.pi), -p.pi) && cong(vk.g2_one, vk.g2_one)) by {
        lemma_refl(vk.g2_one);
        lemma_refl(vk.g2_x);
        lemma_refl(vk.g2_x2);
        lemma_refl(z);
        lemma_refl(gz);
        lemma_refl(p.pi);
        broadcast use group_shadow;

    }
    let a = seq![a0, fneg(p.pi)];
    let x = seq![x0, -p.pi];
    let b = seq![vk.g2_one, b1];
    let w = seq![vk.g2_one, y1];
    assert forall|i: int| 0 <= i < 2 implies cong(#[trigger] a[i], x[i]) by {}
    assert forall|i: int| 0 <= i < 2 implies cong(#[trigger] b[i], w[i]) by {}
    lemma_dot_shadow(a, x, b, w, 2);
    reveal_with_fuel(int_dot, 3);
    assert(int_dot(x, w, 2) == x0 * vk.g2_one + (-p.pi) * y1);
    let ce = com + p.cm_hbar - i0 * vk.g1_one - i1 * vk.g1_x;
    assert(x0 == ce) by (nonlinear_arith)
        requires
            x0 == com + p.cm_hbar + (-(vk.g1_one * i0 + vk.g1_x * i1)),
            ce == com + p.cm_hbar - i0 * vk.g1_one - i1 * vk.g1_x,
    ;
    let d = vk.g2_x2 - (z + gz) * vk.g2_x + (z * gz) * vk.g2_one;
    assert(vk.g2_x * (-(z + gz)) == -((z + gz) * vk.g2_x)) by (nonlinear_arith);
    assert(vk.g2_one * (z * gz) == (z * gz) * vk.g2_one) by (nonlinear_arith);
    assert((-p.pi) * y1 == -(p.pi * d)) by (nonlinear_arith)
        requires
            y1 == d,
    ;
    lemma_cong_move(ce * vk.g2_one, p.pi * d);
    o
}

/// An accepted proof opens the commitment at the point to the value: where the verifier
/// returns `true`, the batched pairing equation and the Claymore identity hold at the
/// `z` that is drawn.
pub proof fn law_accepted_proof_opens(
    start: Seq<Entry>,
    vp: &MulcsVerifierParam,
    com: int,
    point: Seq<Scalar>,
    value: int,
    proof: &MulcsProof,
)
    requires
        is_verification(start, vp, com, point, value, proof, Ok(true)),
    ensures
        exists|o: MulcsOpening| #[trigger] opens_to(start, vp, com, vals(point), value, proof, o),
{
    let u = vals(point);
    let r: Result<bool, PCSError> = Ok(true);
    let end = choose|end: Seq<Entry>|
        is_course(end) && #[trigger] verified(start, end, vp, com, u, value, proof, r);
    assert(verified(start, end, vp, com, u, value, proof, r));
    let c = choose|c: MulcsChallenges| #[trigger]
        verification_result(start, end, vp, com, u, value, proof, r, c);
    assert(verification_result(start, end, vp, com, u, value, proof, r, c));
    let o = lemma_accepted(vp, com, u, value, proof, c);
    assert(end =~= start + seq![
        Entry::Challenge("mulcs_delta"@, o.delta),
        Entry::Point("cm_hbar"@, proof.cm_hbar@),
        Entry::Challenge("mulcs_z"@, o.z),
    ]);
    assert(opens_to(start, vp, com, u, value, proof, o));
}

/// Whether two openings have the same `z` with the same inverse.
pub open spec fn same_z(o: MulcsOpening, q: MulcsOpening) -> bool {
    o.z == q.z && o.zi == q.zi
}

proof fn lemma_one_value(
    vp: &MulcsVerifierParam,
    com: int,
    other: int,
    u: Seq<int>,
    y: int,
    v: int,
    proof: &MulcsProof,
    o: MulcsOpening,
    q: MulcsOpening,
)
    requires
        reduced(y),
        reduced(v),
        values_open(vp, com, u, y, proof, o),
        values_open(vp, other, u, v, proof, q),
        same_z(o, q),
    ensures
        v == y,
{
    let n1 = (p2(u.len() as int) - 1) as nat;
    let a = proof.y_f@ * tensor(u, o.zi, u.len() as int);
    let zp = fpow(o.z, n1);
    let left = fpow(vp.gamma@, n1) * proof.y_hbar@ - proof.y_hbar_prime@;
    lemma_cong_symm(left, zp * (a - v));
    lemma_cong_trans(zp * (a - v), left, zp * (a - y));
    lemma_refl(zp * (a - y));
    lemma_cong_sub(zp * (a - v), zp * (a - y), zp * (a - y), zp * (a - y));
    assert(zp * (a - v) - zp * (a - y) == zp * (y - v)) by (nonlinear_arith);
    // the inverse of z to the power is the inverse of the power
    lemma_modulus();
    assert(fmul(o.z, o.zi) == 1) by {
        broadcast use {group_reduced, group_shadow};

        lemma_refl(o.z);
        lemma_refl(o.zi);
        lemma_refl(1);
        assert(cong(fmul(o.z, o.zi), o.z * o.zi));
        lemma_cong_trans(fmul(o.z, o.zi), o.z * o.zi, 1);
        lemma_cong_eq(fmul(o.z, o.zi), 1);
    }
    lemma_inverse_pow(o.z, o.zi, n1);
    lemma_cong_inverse(zp, fpow(o.zi, n1));
    lemma_cong_cancel(zp, fpow(o.zi, n1), y - v);
    lemma_refl(v);
    lemma_cong_add(y - v, 0, v, v);
    lemma_cong_eq(y, v);
}

/// A proof is accepted for at most one value at a point: the challenges depend on the
/// history and the proof alone, and the Claymore identity leaves one value for them.
pub proof fn law_one_value(
    start: Seq<Entry>,
    vp: &MulcsVerifierParam,
    com: int,
    other: int,
    point: Seq<Scalar>,
    y: int,
    v: int,
    proof: &MulcsProof,
)
    requires
        reduced(y),
        reduced(v),
        is_verification(start, vp, com, point, y, proof, Ok(true)),
        is_verification(start, vp, other, point, v, proof, Ok(true)),
    ensures
        y == v,
{
    let u = vals(point);
    let r: Result<bool, PCSError> = Ok(true);
    let end = choose|end: Seq<Entry>|
        is_course(end) && #[trigger] verified(start, end, vp, com, u, y, proof, r);
    assert(verified(start, end, vp, com, u, y, proof, r));
    let c = choose|c: MulcsChallenges| #[trigger]
        verification_result(start, end, vp, com, u, y, proof, r, c);
    assert(verification_result(start, end, vp, com, u, y, proof, r, c));
    let end2 = choose|end: Seq<Entry>|
        is_course(end) && #[trigger] verified(start, end, vp, other, u, v, proof, r);
    assert(verified(start, end2, vp, other, u, v, proof, r));
    let d = choose|d: MulcsChallenges| #[trigger]
        verification_result(start, end2, vp, other, u, v, proof, r, d);
    assert(verification_result(start, end2, vp, other, u, v, proof, r, d));
    let o = lemma_accepted(vp, com, u, y, proof, c);
    let q = lemma_accepted(vp, other, u, v, proof, d);
    lemma_one_value(vp, com, other, u, y, v, proof, o, q);
}

/// Whether a symmetric proof opens `com` at `u` to `y` in a transcript with the history
/// `start`, from which the challenges are drawn with what the proof holds for them.
pub open spec fn symmetric_opens_to(
    start: Seq<Entry>,
    vp: &MulcsVerifierParam,
    com: int,
    u: Seq<int>,
    y: int,
    proof: &MulcsSymmetricProof,
    o: ReciOpening,
) -> bool {
    &&& o.z == proof.z@
    &&& reciprocal_opens(
        ReciKey {
            g1_one: vp.g1_one@,
            g1_tau: vp.g1_x@,
            g2_one: vp.g2_one@,
            g2_tau: vp.g2_x@,
            g2_tau2: vp.g2_x2@,
        },
        com,
        u,
        y,
        ReciModel {
            cm_hbar: proof.cm_hbar@,
            pi: proof.pi@,
            f_z: proof.f_z@,
            f_z_inv: proof.f_z_inv@,
            hbar_z: proof.hbar_z@,
            hbar_z_inv: proof.hbar_z_inv@,
        },
        o,
    )
    &&& is_course(
        start + seq![
            Entry::Point("cm_hbar"@, proof.cm_hbar@),
            Entry::Challenge("mulcs_sym_z"@, o.z),
            Entry::Field("f_z"@, proof.f_z@),
            Entry::Field("f_z_inv"@, proof.f_z_inv@),
            Entry::Field("hbar_z"@, proof.hbar_z@),
            Entry::Field("hbar_z_inv"@, proof.hbar_z_inv@),
            Entry::Challenge("mulcs_sym_alpha"@, o.alpha),
        ],
    )
}

proof fn lemma_symmetric_accepted(
    start: Seq<Entry>,
    vp: &MulcsVerifierParam,
    com: int,
    point: Seq<Scalar>,
    value: int,
    proof: &MulcsSymmetricProof,
) -> (o: ReciOpening)
    requires
        crate::mulcs::symmetric::is_verification(start, vp, com, point, value, proof, Ok(true)),
    ensures
        symmetric_opens_to(start, vp, com, vals(point), value, proof, o),
        o.zi == finv(o.z),
{
    broadcast use group_reduced;

    let u = vals(point);
    let r: Result<bool, PCSError> = Ok(true);
    let vk = crate::mulcs::symmetric::key_model(vp);
    let l = crate::mulcs::symmetric::labels();
    let end = choose|end: Seq<Entry>|
        is_course(end) && #[trigger] crate::mulcs::symmetric::verified(
            start,
            end,
            vp,
            com,
            u,
            value,
            proof,
            r,
        );
    assert(crate::mulcs::symmetric::verified(start, end, vp, com, u, value, proof, r));
    let p = proof.model();
    let named = Some(proof.z@);
    let c = choose|c: ReciChallenges| #[trigger]
        crate::reciprocal::verification_result(
            start,
            end,
            l,
            vk,
            com,
            u,
            value,
            p,
            named,
            r,
            c,
        );
    assert(crate::reciprocal::verification_result(
        start,
        end,
        l,
        vk,
        com,
        u,
        value,
        p,
        named,
        r,
        c,
    ));
    let o = lemma_accepted_opens(vk, com, u, value, p, c);
    assert(end =~= start + seq![
        Entry::Point("cm_hbar"@, proof.cm_hbar@),
        Entry::Challenge("mulcs_sym_z"@, o.z),
        Entry::Field("f_z"@, proof.f_z@),
        Entry::Field("f_z_inv"@, proof.f_z_inv@),
        Entry::Field("hbar_z"@, proof.hbar_z@),
        Entry::Field("hbar_z_inv"@, proof.hbar_z_inv@),
        Entry::Challenge("mulcs_sym_alpha"@, o.alpha),
    ]);
    o
}

/// An accepted symmetric proof opens the commitment at the point to the value: the
/// pairing product is one and the symmetric identity of the values holds at the `z` that
/// is drawn.
pub proof fn law_accepted_symmetric_proof_opens(
    start: Seq<Entry>,
    vp: &MulcsVerifierParam,
    com: int,
    point: Seq<Scalar>,
    value: int,
    proof: &MulcsSymmetricProof,
)
    requires
        crate::mulcs::symmetric::is_verification(start, vp, com, point, value, proof, Ok(true)),
    ensures
        exists|o: ReciOpening| #[trigger]
            symmetric_opens_to(start, vp, com, vals(point), value, proof, o),
{
    let o = lemma_symmetric_accepted(start, vp, com, point, value, proof);
    assert(symmetric_opens_to(start, vp, com, vals(point), value, proof, o));
}

/// A symmetric proof is accepted for at most one value at a point.
pub proof fn law_one_symmetric_value(
    start: Seq<Entry>,
    vp: &MulcsVerifierParam,
    com: int,
    other: int,
    point: Seq<Scalar>,
    y: int,
    v: int,
    proof: &MulcsSymmetricProof,
)
    requires
        reduced(y),
        reduced(v),
        crate::mulcs::symmetric::is_verification(start, vp, com, point, y, proof, Ok(true)),
        crate::mulcs::symmetric::is_verification(start, vp, other, point, v, proof, Ok(true)),
    ensures
        y == v,
{
    let o = lemma_symmetric_accepted(start, vp, com, point, y, proof);
    let q = lemma_symmetric_accepted(start, vp, other, point, v, proof);
    let vk = crate::mulcs::symmetric::key_model(vp);
    law_opened_value(vk, com, vk, other, vals(point), y, v, proof.model(), o, q);
}

} // verus!
