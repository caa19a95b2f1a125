//! What an accepted opening says: the equations that its values and commitments
//! satisfy, for challenges that the statement and the proof determine.

use crate::bdfg::{claim_sets, commit_scalar, const_term, union_of};
use crate::bdfg_laws::{
    claim_values, int_roots, interpolates, lemma_complements, lemma_interpolates,
    lemma_outside_shadow, lemma_roots_shadow,
};
use crate::errors::PCSError;
use crate::field::{
    cong, fadd, finv, fmul, fneg, fpow, fsub, group_reduced, group_shadow, lemma_cong_add,
    lemma_cong_apart, lemma_cong_cancel, lemma_cong_inverse, lemma_cong_move, lemma_cong_mul,
    lemma_cong_sub, lemma_cong_symm, lemma_cong_trans, lemma_refl, lemma_two_invertible, reduced,
    vals, Scalar,
};
use crate::mercury::{
    fresh_log, is_verification, key_model, verification_ok, verified, MercuryProof,
};
use crate::mercury::batch::aggregate_verified;
use crate::mercury::laws::lemma_union;
use crate::mercury::model::{
    accepts, batch_left, claims_of, folding_left, is_verdict, left_part, points_ok,
    recovered_h_alpha, recovered_values, right_part, stated, z_ok, MercuryChallenges, MercuryKey,
    MercuryModel,
};
use crate::mercury::srs::MercuryVerifierParam;
use crate::poly::{
    dot, feval, int_dot, interp, invertible, lemma_dot_shadow, lemma_eval_vanishing, p_vanishing,
    tail,
};
use crate::reciprocal_laws::lemma_twice;
use crate::tensor::{p2, tensor};
use crate::transcript::{is_course, Entry};
use vstd::prelude::*;

verus! {

/// What an opening is made of: the challenges, the inverse of `zeta`, the value of `h`
/// at `alpha`, and the interpolants of the four claims of the batch.
pub struct MercuryOpening {
    pub alpha: int,
    pub gamma: int,
    pub zeta: int,
    pub zi: int,
    pub beta: int,
    pub z: int,
    pub pair: int,
    pub h_alpha: int,
    pub rg: Seq<int>,
    pub rh: Seq<int>,
    pub rs: Seq<int>,
    pub rd: Seq<int>,
}

/// The values of an opening: `h(alpha)` is what the identity of the two inner products
/// leaves for the claimed value `y`, and the interpolants take the values of the claims.
pub open spec fn values_agree(
    u1: Seq<int>,
    u2: Seq<int>,
    y: int,
    proof: &MercuryProof,
    o: MercuryOpening,
) -> bool {
    let n1 = u1.len() as int;
    let n2 = u2.len() as int;
    let d = fmul(fpow(o.zeta, (p2(n1) - 1) as nat), proof.g_zeta_inv@);
    &&& o.zeta != o.zi
    &&& o.alpha != o.zeta && o.alpha != o.zi
    &&& o.z != o.zeta && o.z != o.zi && o.z != o.alpha
    &&& cong(o.zeta * o.zi, 1)
    &&& cong(
        o.zeta * proof.s_zeta@ + o.zi * proof.s_zeta_inv@ + 2 * o.h_alpha + 2 * (o.gamma * y),
        proof.g_zeta@ * tensor(u1, o.zi, n1) + proof.g_zeta_inv@ * tensor(u1, o.zeta, n1) + o.gamma
            * (proof.h_zeta@ * tensor(u2, o.zi, n2) + proof.h_zeta_inv@ * tensor(u2, o.zeta, n2)),
    )
    &&& interpolates(o.rg, seq![o.zeta, o.zi], seq![proof.g_zeta@, proof.g_zeta_inv@])
    &&& interpolates(
        o.rh,
        seq![o.zeta, o.zi, o.alpha],
        seq![proof.h_zeta@, proof.h_zeta_inv@, o.h_alpha],
    )
    &&& interpolates(o.rs, seq![o.zeta, o.zi], seq![proof.s_zeta@, proof.s_zeta_inv@])
    &&& interpolates(o.rd, seq![o.zeta], seq![d])
}

/// The left side of the folding statement: what it says is `(tau - zeta)` times the
/// quotient.
pub open spec fn folding_side(
    g1_one: int,
    com: int,
    b: int,
    p: MercuryModel,
    zeta: int,
    alpha: int,
) -> int {
    com - (fpow(zeta, b as nat) - alpha) * p.comm_q - p.g_zeta * g1_one + zeta * p.comm_quot_f
}

/// The left side of the batch statement, for the values of the interpolants at `z`.
pub open spec fn batch_side(
    g1_one: int,
    p: MercuryModel,
    o: MercuryOpening,
    vg: int,
    vh: int,
    vs: int,
    vd: int,
) -> int {
    let a = o.z - o.alpha;
    let e = (o.z - o.zi) * a;
    let b2 = o.beta * o.beta;
    let b3 = b2 * o.beta;
    a * p.comm_g + o.beta * p.comm_h + (b2 * a) * p.comm_s + (b3 * e) * p.comm_d - (a * vg + o.beta
        * vh + (b2 * a) * vs + (b3 * e) * vd) * g1_one - ((o.z - o.zeta) * e) * p.comm_w + o.z
        * p.comm_w_prime
}

/// The two-term pairing product of the folding and the batch statement:
/// `e(L1 + pair L2, [1]) == e(quot_f + pair W', [tau])`, in the exponent.
pub open spec fn pairing_agrees(
    vp: &MercuryVerifierParam,
    com: int,
    b: int,
    proof: &MercuryProof,
    o: MercuryOpening,
) -> bool {
    let p = MercuryModel {
        comm_h: proof.comm_h@,
        comm_g: proof.comm_g@,
        comm_q: proof.comm_q@,
        comm_s: proof.comm_s@,
        comm_d: proof.comm_d@,
        comm_quot_f: proof.comm_quot_f@,
        comm_w: proof.comm_w@,
        comm_w_prime: proof.comm_w_prime@,
        g_zeta: proof.g_zeta@,
        g_zeta_inv: proof.g_zeta_inv@,
        h_zeta: proof.h_zeta@,
        h_zeta_inv: proof.h_zeta_inv@,
        s_zeta: proof.s_zeta@,
        s_zeta_inv: proof.s_zeta_inv@,
    };
    let l1 = folding_side(vp.g1_one@, com, b, p, o.zeta, o.alpha);
    let l2 = batch_side(
        vp.g1_one@,
        p,
        o,
        feval(o.rg, o.z),
        feval(o.rh, o.z),
        feval(o.rs, o.z),
        feval(o.rd, o.z),
    );
    cong(
        (l1 + o.pair * l2) * vp.g2_one@,
        (proof.comm_quot_f@ + o.pair * proof.comm_w_prime@) * vp.g2_tau@,
    )
}

/// The history of a run, entry after entry.
pub open spec fn history(
    com: int,
    u: Seq<int>,
    y: int,
    proof: &MercuryProof,
    o: MercuryOpening,
) -> Seq<Entry> {
    let mu = u.len() as int;
    seq![
        Entry::Domain("mercury-mlpcs-v1"@),
        Entry::Field("ver"@, 1),
        Entry::Field("mu"@, mu),
        Entry::Field("t"@, (mu + 1) / 2),
        Entry::Field("b"@, p2((mu + 1) / 2)),
        Entry::Point("cf"@, com),
        Entry::Fields("u"@, u),
        Entry::Field("e"@, y),
        Entry::Point("h"@, proof.comm_h@),
        Entry::Challenge("a"@, o.alpha),
        Entry::Point("q"@, proof.comm_q@),
        Entry::Point("g"@, proof.comm_g@),
        Entry::Challenge("gm"@, o.gamma),
        Entry::Point("s"@, proof.comm_s@),
        Entry::Point("d"@, proof.comm_d@),
        Entry::Challenge("zt"@, o.zeta),
        Entry::Field("gz"@, proof.g_zeta@),
        Entry::Field("gzi"@, proof.g_zeta_inv@),
        Entry::Field("hz"@, proof.h_zeta@),
        Entry::Field("hzi"@, proof.h_zeta_inv@),
        Entry::Field("sz"@, proof.s_zeta@),
        Entry::Field("szi"@, proof.s_zeta_inv@),
        Entry::Point("tf"@, proof.comm_quot_f@),
        Entry::Challenge("bt"@, o.beta),
        Entry::Point("w"@, proof.comm_w@),
        Entry::Challenge("z"@, o.z),
        Entry::Point("wp"@, proof.comm_w_prime@),
        Entry::Challenge("pd"@, o.pair),
    ]
}

/// Whether a proof opens `com` at `u` to `y`, with the given interpolants and
/// challenges, each challenge drawn after the statement and all that the proof holds
/// for it.
pub open spec fn opens_to(
    vp: &MercuryVerifierParam,
    com: int,
    u: Seq<int>,
    y: int,
    proof: &MercuryProof,
    o: MercuryOpening,
) -> bool {
    let m = (u.len() as int + 1) / 2;
    &&& values_agree(u.take(m), u.skip(m), y, proof, o)
    &&& pairing_agrees(vp, com, p2(m), proof, o)
    &&& is_course(history(com, u, y, proof, o))
}

/// The interpolants of a verifier.
pub open spec fn opening_of(
    u1: Seq<int>,
    u2: Seq<int>,
    y: int,
    p: MercuryModel,
    c: MercuryChallenges,
) -> MercuryOpening {
    let v = recovered_values(u1, u2, y, p, c);
    let zi = finv(c.zeta);
    MercuryOpening {
        alpha: c.alpha,
        gamma: c.gamma,
        zeta: c.zeta,
        zi,
        beta: c.beta,
        z: c.z,
        pair: c.pair,
        h_alpha: v.h_alpha,
        rg: interp(seq![c.zeta, zi], seq![v.g_zeta, v.g_zeta_inv]),
        rh: interp(seq![c.zeta, zi, c.alpha], seq![v.h_zeta, v.h_zeta_inv, v.h_alpha]),
        rs: interp(seq![c.zeta, zi], seq![v.s_zeta, v.s_zeta_inv]),
        rd: interp(seq![c.zeta], seq![v.d_zeta]),
    }
}

/// The recovered value of `h` satisfies the identity.
proof fn lemma_h_alpha(
    u1: Seq<int>,
    u2: Seq<int>,
    y: int,
    p: MercuryModel,
    c: MercuryChallenges,
)
    ensures
        ({
            let zi = finv(c.zeta);
            let n1 = u1.len() as int;
            let n2 = u2.len() as int;
            cong(
                c.zeta * p.s_zeta + zi * p.s_zeta_inv + 2 * recovered_h_alpha(u1, u2, y, p, c) + 2
                    * (c.gamma * y),
                p.g_zeta * tensor(u1, zi, n1) + p.g_zeta_inv * tensor(u1, c.zeta, n1) + c.gamma * (
                p.h_zeta * tensor(u2, zi, n2) + p.h_zeta_inv * tensor(u2, c.zeta, n2)),
            )
        }),
{
    let zi = finv(c.zeta);
    let h = recovered_h_alpha(u1, u2, y, p, c);
    let a1 = tensor(u1, zi, u1.len() as int);
    let a2 = tensor(u1, c.zeta, u1.len() as int);
    let b1 = tensor(u2, zi, u2.len() as int);
    let b2 = tensor(u2, c.zeta, u2.len() as int);
    let first = fadd(fmul(p.g_zeta, a1), fmul(p.g_zeta_inv, a2));
    let fi = p.g_zeta * a1 + p.g_zeta_inv * a2;
    let second = fsub(fadd(fmul(p.h_zeta, b1), fmul(p.h_zeta_inv, b2)), fadd(y, y));
    let si = p.h_zeta * b1 + p.h_zeta_inv * b2 - (y + y);
    let total = fsub(
        fsub(fadd(first, fmul(c.gamma, second)), fmul(c.zeta, p.s_zeta)),
        fmul(zi, p.s_zeta_inv),
    );
    let ti = fi + c.gamma * si - c.zeta * p.s_zeta - zi * p.s_zeta_inv;
    let half = finv(fadd(1, 1));
    assert(cong(first, fi) && cong(second, si)) by {
        lemma_refl(p.g_zeta);
        lemma_refl(p.g_zeta_inv);
        lemma_refl(p.h_zeta);
        lemma_refl(p.h_zeta_inv);
        lemma_refl(a1);
        lemma_refl(a2);
        lemma_refl(b1);
        lemma_refl(b2);
        lemma_refl(y);
        broadcast use group_shadow;

    }
    assert(cong(total, ti)) by {
        lemma_refl(c.gamma);
        lemma_refl(c.zeta);
        lemma_refl(zi);
        lemma_refl(p.s_zeta);
        lemma_refl(p.s_zeta_inv);
        broadcast use group_shadow;

    }
    assert(cong(h, ti * half)) by {
        lemma_refl(half);
        broadcast use group_shadow;

    }
    lemma_two_invertible();
    lemma_cong_inverse(2, half);
    lemma_refl(2);
    lemma_refl(ti);
    lemma_cong_mul(2, 2, h, ti * half);
    lemma_cong_mul(2 * half, 1, ti, ti);
    assert(2 * (ti * half) == (2 * half) * ti) by (nonlinear_arith);
    assert(1 * ti == ti) by (nonlinear_arith);
    lemma_cong_trans(2 * h, 2 * (ti * half), ti);
    let rest = c.zeta * p.s_zeta + zi * p.s_zeta_inv + 2 * (c.gamma * y);
    lemma_refl(rest);
    lemma_cong_add(rest, rest, 2 * h, ti);
    assert(rest + ti == fi + c.gamma * (p.h_zeta * b1 + p.h_zeta_inv * b2)) by (nonlinear_arith)
        requires
            rest == c.zeta * p.s_zeta + zi * p.s_zeta_inv + 2 * (c.gamma * y),
            ti == fi + c.gamma * si - c.zeta * p.s_zeta - zi * p.s_zeta_inv,
            si == p.h_zeta * b1 + p.h_zeta_inv * b2 - (y + y),
    ;
}

proof fn lemma_values(
    u1: Seq<int>,
    u2: Seq<int>,
    y: int,
    proof: &MercuryProof,
    c: MercuryChallenges,
)
    requires
        points_ok(c),
        z_ok(c),
    ensures
        values_agree(u1, u2, y, proof, opening_of(u1, u2, y, proof.model(), c)),
{
    broadcast use group_reduced;

    let p = proof.model();
    let v = recovered_values(u1, u2, y, p, c);
    let zi = finv(c.zeta);
    lemma_cong_inverse(c.zeta, zi);
    lemma_h_alpha(u1, u2, y, p, c);
    lemma_interpolates(seq![c.zeta, zi], seq![v.g_zeta, v.g_zeta_inv]);
    lemma_interpolates(seq![c.zeta, zi, c.alpha], seq![v.h_zeta, v.h_zeta_inv, v.h_alpha]);
    lemma_interpolates(seq![c.zeta, zi], seq![v.s_zeta, v.s_zeta_inv]);
    lemma_interpolates(seq![c.zeta], seq![v.d_zeta]);
}

/// The folding statement in integers.
proof fn lemma_folding(vk: MercuryKey, com: int, b: int, p: MercuryModel, c: MercuryChallenges)
    requires
        b >= 1,
    ensures
        cong(
            folding_left(vk, com, b, p, c),
            folding_side(vk.g1_one, com, b, p, c.zeta, c.alpha),
        ),
{
    let zb = fmul(fpow(c.zeta, (b - 1) as nat), c.zeta);
    assert(zb == fpow(c.zeta, b as nat));
    let a = seq![p.comm_q, vk.g1_one, p.comm_quot_f];
    let s = seq![fneg(fsub(zb, c.alpha)), fneg(p.g_zeta), c.zeta];
    let t = seq![-(zb - c.alpha), -p.g_zeta, c.zeta];
    assert(cong(fneg(fsub(zb, c.alpha)), -(zb - c.alpha)) && cong(fneg(p.g_zeta), -p.g_zeta)
        && cong(c.zeta, c.zeta)) by {
        lemma_refl(zb);
        lemma_refl(c.alpha);
        lemma_refl(p.g_zeta);
        lemma_refl(c.zeta);
        broadcast use group_shadow;

    }
    assert forall|i: int| 0 <= i < 3 implies cong(#[trigger] a[i], a[i]) by {
        lemma_refl(a[i]);
    }
    assert forall|i: int| 0 <= i < 3 implies cong(#[trigger] s[i], t[i]) by {}
    lemma_dot_shadow(a, a, s, t, 3);
    reveal_with_fuel(int_dot, 4);
    assert(int_dot(a, t, 3) == p.comm_q * (-(zb - c.alpha)) + vk.g1_one * (-p.g_zeta)
        + p.comm_quot_f * c.zeta);
    assert(p.comm_q * (-(zb - c.alpha)) == -((zb - c.alpha) * p.comm_q)) by (nonlinear_arith);
    assert(vk.g1_one * (-p.g_zeta) == -(p.g_zeta * vk.g1_one)) by (nonlinear_arith);
    assert(p.comm_quot_f * c.zeta == c.zeta * p.comm_quot_f) by (nonlinear_arith);
    lemma_refl(com);
    broadcast use group_shadow;

    assert(cong(fadd(com, dot(a, s, 3)), com + int_dot(a, t, 3)));
}

/// The scalar of a commitment in integers.
proof fn lemma_scalar(
    sets: Seq<Seq<int>>,
    union: Seq<int>,
    rho: int,
    z: int,
    t: int,
    power: int,
    outside: int,
)
    requires
        cong(fpow(rho, t as nat), power),
        cong(feval(crate::bdfg::outside_poly(union, sets[t]), z), outside),
    ensures
        cong(commit_scalar(sets, union, rho, z, t), power * outside),
{
    broadcast use group_shadow;

}

/// The batch statement in integers.
#[verifier::spinoff_prover]
#[verifier::rlimit(60)]
proof fn lemma_batch(
    vk: MercuryKey,
    u1: Seq<int>,
    u2: Seq<int>,
    y: int,
    p: MercuryModel,
    c: MercuryChallenges,
)
    requires
        points_ok(c),
    ensures
        ({
            let o = opening_of(u1, u2, y, p, c);
            cong(
                batch_left(vk, p, recovered_values(u1, u2, y, p, c), c),
                batch_side(
                    vk.g1_one,
                    p,
                    o,
                    feval(o.rg, c.z),
                    feval(o.rh, c.z),
                    feval(o.rs, c.z),
                    feval(o.rd, c.z),
                ),
            )
        }),
{
    let o = opening_of(u1, u2, y, p, c);
    let v = recovered_values(u1, u2, y, p, c);
    let e = Seq::<int>::empty();
    let claims = claims_of(e, e, e, e, v, c.zeta, c.alpha);
    let sets = claim_sets(claims);
    let values = claim_values(claims);
    let zi = finv(c.zeta);
    let un = union_of(sets, 4);
    lemma_union(e, e, e, e, v, c.zeta, c.alpha);
    assert(un == seq![c.zeta, zi, c.alpha]);
    lemma_complements(c.zeta, zi, c.alpha);
    assert(sets[0] == seq![c.zeta, zi]);
    assert(sets[1] == seq![c.zeta, zi, c.alpha]);
    assert(sets[2] == seq![c.zeta, zi]);
    assert(sets[3] == seq![c.zeta]);
    lemma_outside_shadow(un, sets[0], seq![c.alpha], c.z);
    lemma_outside_shadow(un, sets[1], Seq::empty(), c.z);
    lemma_outside_shadow(un, sets[3], seq![zi, c.alpha], c.z);
    lemma_eval_vanishing(un, 3, c.z);
    lemma_roots_shadow(un, c.z, 3);
    reveal_with_fuel(int_roots, 4);
    let a = c.z - c.alpha;
    let z1 = c.z - zi;
    let w = c.z - c.zeta;
    assert(int_roots(seq![c.alpha], c.z, 1) == 1 * a);
    assert(int_roots(Seq::<int>::empty(), c.z, 0) == 1);
    assert(int_roots(seq![zi, c.alpha], c.z, 2) == (1 * z1) * a);
    assert(int_roots(un, c.z, 3) == ((1 * w) * z1) * a);
    assert(1 * a == a && (1 * z1) * a == z1 * a && ((1 * w) * z1) * a == w * (z1 * a))
        by (nonlinear_arith);
    let b = c.beta;
    let b2 = b * b;
    let b3 = b2 * b;
    reveal_with_fuel(fpow, 4);
    assert(cong(fpow(b, 0), 1) && cong(fpow(b, 1), 1 * b) && cong(fpow(b, 2), (1 * b) * b) && cong(
        fpow(b, 3),
        ((1 * b) * b) * b,
    )) by {
        lemma_refl(1);
        lemma_refl(b);
        broadcast use group_shadow;

    }
    assert(1 * b == b && (1 * b) * b == b2 && ((1 * b) * b) * b == b3) by (nonlinear_arith)
        requires
            b2 == b * b,
            b3 == b2 * b,
    ;
    lemma_scalar(sets, un, b, c.z, 0, 1, a);
    lemma_scalar(sets, un, b, c.z, 1, b, 1);
    lemma_scalar(sets, un, b, c.z, 2, b2, a);
    lemma_scalar(sets, un, b, c.z, 3, b3, z1 * a);
    let k0 = commit_scalar(sets, un, b, c.z, 0);
    let k1 = commit_scalar(sets, un, b, c.z, 1);
    let k2 = commit_scalar(sets, un, b, c.z, 2);
    let k3 = commit_scalar(sets, un, b, c.z, 3);
    let vg = feval(o.rg, c.z);
    let vh = feval(o.rh, c.z);
    let vs = feval(o.rs, c.z);
    let vd = feval(o.rd, c.z);
    assert(values[0] == seq![v.g_zeta, v.g_zeta_inv]);
    assert(values[1] == seq![v.h_zeta, v.h_zeta_inv, v.h_alpha]);
    assert(values[2] == seq![v.s_zeta, v.s_zeta_inv]);
    assert(values[3] == seq![v.d_zeta]);
    let ct = const_term(sets, values, un, b, c.z, 4);
    reveal_with_fuel(const_term, 5);
    assert(ct == fadd(
        fadd(fadd(fadd(0, fmul(k0, vg)), fmul(k1, vh)), fmul(k2, vs)),
        fmul(k3, vd),
    ));
    let x0 = 1 * a;
    let x1 = b * 1;
    let x2 = b2 * a;
    let x3 = b3 * (z1 * a);
    let ci = 0 + x0 * vg + x1 * vh + x2 * vs + x3 * vd;
    assert(cong(ct, ci)) by {
        lemma_refl(0);
        lemma_refl(vg);
        lemma_refl(vh);
        lemma_refl(vs);
        lemma_refl(vd);
        broadcast use group_shadow;

    }
    let zv = feval(p_vanishing(un, un.len() as int), c.z);
    assert(un.len() == 3);
    let zvi = w * (z1 * a);
    assert(cong(zv, zvi));
    let l = seq![p.comm_g, p.comm_h, p.comm_s, p.comm_d, vk.g1_one, p.comm_w, p.comm_w_prime];
    let s = seq![k0, k1, k2, k3, fneg(ct), fneg(zv), c.z];
    let t = seq![x0, x1, x2, x3, -ci, -zvi, c.z];
    assert(cong(fneg(ct), -ci) && cong(fneg(zv), -zvi)) by {
        broadcast use group_shadow;

    }
    lemma_refl(c.z);
    assert forall|i: int| 0 <= i < 7 implies cong(#[trigger] l[i], l[i]) by {
        lemma_refl(l[i]);
    }
    assert forall|i: int| 0 <= i < 7 implies cong(#[trigger] s[i], t[i]) by {}
    lemma_dot_shadow(l, l, s, t, 7);
    reveal_with_fuel(int_dot, 8);
    assert(int_dot(l, t, 7) == p.comm_g * x0 + p.comm_h * x1 + p.comm_s * x2 + p.comm_d * x3
        + vk.g1_one * (-ci) + p.comm_w * (-zvi) + p.comm_w_prime * c.z);
    let ee = z1 * a;
    assert(x0 == a && x1 == b) by (nonlinear_arith)
        requires
            x0 == 1 * a,
            x1 == b * 1,
    ;
    assert(p.comm_g * x0 == a * p.comm_g) by (nonlinear_arith)
        requires
            x0 == a,
    ;
    assert(p.comm_h * x1 == b * p.comm_h) by (nonlinear_arith)
        requires
            x1 == b,
    ;
    assert(p.comm_s * x2 == (b2 * a) * p.comm_s) by (nonlinear_arith)
        requires
            x2 == b2 * a,
    ;
    assert(p.comm_d * x3 == (b3 * ee) * p.comm_d) by (nonlinear_arith)
        requires
            x3 == b3 * ee,
    ;
    assert(vk.g1_one * (-ci) == -(ci * vk.g1_one)) by (nonlinear_arith);
    assert(p.comm_w * (-zvi) == -((w * ee) * p.comm_w)) by (nonlinear_arith)
        requires
            zvi == w * ee,
    ;
    assert(p.comm_w_prime * c.z == c.z * p.comm_w_prime) by (nonlinear_arith);
    assert(ci == a * vg + b * vh + (b2 * a) * vs + (b3 * ee) * vd);
}

/// What the equation of the verifier says, in integers.
proof fn lemma_pairing(
    vk: MercuryKey,
    com: int,
    u1: Seq<int>,
    u2: Seq<int>,
    y: int,
    p: MercuryModel,
    c: MercuryChallenges,
)
    requires
        accepts(vk, com, u1, u2, y, p, c),
        points_ok(c),
        p2(u1.len() as int) >= 1,
    ensures
        ({
            let o = opening_of(u1, u2, y, p, c);
            let l1 = folding_side(
                vk.g1_one,
                com,
                p2(u1.len() as int),
                p,
                c.zeta,
                c.alpha,
            );
            let l2 = batch_side(
                vk.g1_one,
                p,
                o,
                feval(o.rg, c.z),
                feval(o.rh, c.z),
                feval(o.rs, c.z),
                feval(o.rd, c.z),
            );
            cong(
                (l1 + c.pair * l2) * vk.g2_one,
                (p.comm_quot_f + c.pair * p.comm_w_prime) * vk.g2_tau,
            )
        }),
{
    let o = opening_of(u1, u2, y, p, c);
    let b = p2(u1.len() as int);
    let f1 = folding_left(vk, com, b, p, c);
    let f2 = batch_left(vk, p, recovered_values(u1, u2, y, p, c), c);
    let l1 = folding_side(vk.g1_one, com, b, p, c.zeta, c.alpha);
    let l2 = batch_side(
        vk.g1_one,
        p,
        o,
        feval(o.rg, c.z),
        feval(o.rh, c.z),
        feval(o.rs, c.z),
        feval(o.rd, c.z),
    );
    lemma_folding(vk, com, b, p, c);
    lemma_batch(vk, u1, u2, y, p, c);
    let left = fadd(f1, fmul(f2, c.pair));
    let q = fneg(fadd(p.comm_quot_f, fmul(p.comm_w_prime, c.pair)));
    let qi = -(p.comm_quot_f + p.comm_w_prime * c.pair);
    assert(cong(left, l1 + l2 * c.pair) && cong(q, qi)) by {
        lemma_refl(c.pair);
        lemma_refl(p.comm_quot_f);
        lemma_refl(p.comm_w_prime);
        broadcast use group_shadow;

    }
    let a = seq![left, q];
    let x = seq![l1 + l2 * c.pair, qi];
    let g = seq![vk.g2_one, vk.g2_tau];
    assert forall|i: int| 0 <= i < 2 implies cong(#[trigger] a[i], x[i]) by {}
    assert forall|i: int| 0 <= i < 2 implies cong(#[trigger] g[i], g[i]) by {
        lemma_refl(g[i]);
    }
    lemma_dot_shadow(a, x, g, g, 2);
    reveal_with_fuel(int_dot, 3);
    assert(int_dot(x, g, 2) == (l1 + l2 * c.pair) * vk.g2_one + qi * vk.g2_tau);
    assert(l2 * c.pair == c.pair * l2) by (nonlinear_arith);
    assert(qi * vk.g2_tau == -((p.comm_quot_f + c.pair * p.comm_w_prime) * vk.g2_tau))
        by (nonlinear_arith)
        requires
            qi == -(p.comm_quot_f + p.comm_w_prime * c.pair),
    ;
    lemma_cong_move(
        (l1 + c.pair * l2) * vk.g2_one,
        (p.comm_quot_f + c.pair * p.comm_w_prime) * vk.g2_tau,
    );
}

/// An accepted proof opens the commitment at the point to the value: where `verify`
/// returns `true`, the two-term pairing product of the folding and the batch statement is
/// one and the identity of the inner products holds, for challenges drawn from the
/// statement and the proof.
pub proof fn law_accepted_proof_opens(
    vp: &MercuryVerifierParam,
    com: int,
    point: Seq<Scalar>,
    value: int,
    proof: &MercuryProof,
)
    requires
        is_verification(vp, com, point, value, proof, Ok(true)),
    ensures
        exists|o: MercuryOpening| #[trigger] opens_to(vp, com, vals(point), value, proof, o),
{
    let u = vals(point);
    let r: Result<bool, PCSError> = Ok(true);
    let end = choose|end: Seq<Entry>|
        is_course(end) && #[trigger] verified(fresh_log(), end, vp, com, u, value, proof, r);
    assert(verified(fresh_log(), end, vp, com, u, value, proof, r));
    let p = proof.model();
    let vk = key_model(vp);
    let start = stated(fresh_log(), com, u, value);
    let c = choose|c: MercuryChallenges| #[trigger]
        is_verdict(start, end, vk, com, u, value, p, true, c);
    assert(is_verdict(start, end, vk, com, u, value, p, true, c));
    let u1 = left_part(u);
    let u2 = right_part(u);
    let o = opening_of(u1, u2, value, p, c);
    let m = (u.len() as int + 1) / 2;
    assert(u1 == u.take(m) && u2 == u.skip(m) && u1.len() == m);
    vstd::arithmetic::power2::lemma_pow2_pos(m as nat);
    lemma_values(u1, u2, value, proof, c);
    lemma_pairing(vk, com, u1, u2, value, p, c);
    assert(pairing_agrees(vp, com, p2(m), proof, o));
    assert(end =~= history(com, u, value, proof, o));
    assert(opens_to(vp, com, u, value, proof, o));
}

/// A polynomial of degree two that vanishes at three points vanishes everywhere.
proof fn lemma_three_roots(d0: int, d1: int, d2: int, a: int, b: int, c: int, i: int, j: int, k: int, x: int)
    requires
        cong(d0 + d1 * a + d2 * (a * a), 0),
        cong(d0 + d1 * b + d2 * (b * b), 0),
        cong(d0 + d1 * c + d2 * (c * c), 0),
        cong((a - b) * i, 1),
        cong((a - c) * j, 1),
        cong((b - c) * k, 1),
    ensures
        cong(d0 + d1 * x + d2 * (x * x), 0),
{
    let pa = d0 + d1 * a + d2 * (a * a);
    let pb = d0 + d1 * b + d2 * (b * b);
    let pc = d0 + d1 * c + d2 * (c * c);
    let e = d1 + d2 * (a + b);
    let f = d1 + d2 * (a + c);
    lemma_cong_sub(pa, 0, pb, 0);
    lemma_cong_sub(pa, 0, pc, 0);
    assert(pa - pb == (a - b) * e) by (nonlinear_arith)
        requires
            pa == d0 + d1 * a + d2 * (a * a),
            pb == d0 + d1 * b + d2 * (b * b),
            e == d1 + d2 * (a + b),
    ;
    assert(pa - pc == (a - c) * f) by (nonlinear_arith)
        requires
            pa == d0 + d1 * a + d2 * (a * a),
            pc == d0 + d1 * c + d2 * (c * c),
            f == d1 + d2 * (a + c),
    ;
    lemma_cong_cancel(a - b, i, e);
    lemma_cong_cancel(a - c, j, f);
    lemma_cong_sub(e, 0, f, 0);
    assert(e - f == (b - c) * d2) by (nonlinear_arith)
        requires
            e == d1 + d2 * (a + b),
            f == d1 + d2 * (a + c),
    ;
    lemma_cong_cancel(b - c, k, d2);
    lemma_refl(a + b);
    lemma_cong_mul(d2, 0, a + b, a + b);
    lemma_cong_sub(e, 0, d2 * (a + b), 0 * (a + b));
    assert(0 * (a + b) == 0 && 0 * a == 0 && 0 * (a * a) == 0 && 0 * x == 0 && 0 * (x * x) == 0)
        by (nonlinear_arith);
    assert(cong(d1, 0));
    lemma_refl(a);
    lemma_refl(a * a);
    lemma_cong_mul(d1, 0, a, a);
    lemma_cong_mul(d2, 0, a * a, a * a);
    lemma_cong_add(d1 * a, 0, d2 * (a * a), 0);
    lemma_cong_sub(pa, 0, d1 * a + d2 * (a * a), 0);
    assert(cong(d0, 0));
    lemma_refl(x);
    lemma_refl(x * x);
    lemma_cong_mul(d1, 0, x, x);
    lemma_cong_mul(d2, 0, x * x, x * x);
    lemma_cong_add(d0, 0, d1 * x, 0);
    lemma_cong_add(d0 + d1 * x, 0, d2 * (x * x), 0);
}

/// The value of a polynomial with three coefficients.
proof fn lemma_eval_three(r: Seq<int>, x: int)
    requires
        r.len() == 3,
    ensures
        cong(feval(r, x), r[0] + r[1] * x + r[2] * (x * x)),
{
    reveal_with_fuel(tail, 5);
    let t2 = fadd(fmul(0, x), r[2]);
    let t1 = fadd(fmul(t2, x), r[1]);
    let t0 = fadd(fmul(t1, x), r[0]);
    assert(feval(r, x) == t0);
    lemma_refl(0);
    lemma_refl(x);
    lemma_refl(r[0]);
    lemma_refl(r[1]);
    lemma_refl(r[2]);
    broadcast use group_shadow;

    assert(cong(t0, ((0 * x + r[2]) * x + r[1]) * x + r[0]));
    assert(((0 * x + r[2]) * x + r[1]) * x + r[0] == r[0] + r[1] * x + r[2] * (x * x))
        by (nonlinear_arith);
}

/// A proof is accepted for at most one value, given the challenges: the interpolant of
/// `h` is determined by its two values and by the pairing product, and with it
/// `h(alpha)` and the value.
#[verifier::spinoff_prover]
#[verifier::rlimit(40)]
pub proof fn law_one_value(
    vp: &MercuryVerifierParam,
    com: int,
    u: Seq<int>,
    y: int,
    v: int,
    proof: &MercuryProof,
    start: Seq<Entry>,
    end: Seq<Entry>,
    begin: Seq<Entry>,
    other: Seq<Entry>,
    c: MercuryChallenges,
)
    requires
        reduced(y),
        reduced(v),
        is_verdict(start, end, key_model(vp), com, u, y, proof.model(), true, c),
        is_verdict(begin, other, key_model(vp), com, u, v, proof.model(), true, c),
        invertible(c.beta),
        invertible(c.gamma),
        invertible(c.pair),
        invertible(vp.g1_one@),
        invertible(vp.g2_one@),
        invertible(fsub(c.zeta, finv(c.zeta))),
        invertible(fsub(c.zeta, c.z)),
        invertible(fsub(finv(c.zeta), c.z)),
    ensures
        y == v,
{
    let p = proof.model();
    let vk = key_model(vp);
    let u1 = left_part(u);
    let u2 = right_part(u);
    let m = (u.len() as int + 1) / 2;
    assert(u1.len() == m);
    vstd::arithmetic::power2::lemma_pow2_pos(m as nat);
    let o = opening_of(u1, u2, y, p, c);
    let q = opening_of(u1, u2, v, p, c);
    lemma_values(u1, u2, y, proof, c);
    lemma_values(u1, u2, v, proof, c);
    lemma_pairing(vk, com, u1, u2, y, p, c);
    lemma_pairing(vk, com, u1, u2, v, p, c);
    let vg = feval(o.rg, c.z);
    let vs = feval(o.rs, c.z);
    let vd = feval(o.rd, c.z);
    let ho = feval(o.rh, c.z);
    let hq = feval(q.rh, c.z);
    let l1 = folding_side(vk.g1_one, com, p2(u1.len() as int), p, c.zeta, c.alpha);
    let a = batch_side(vk.g1_one, p, o, vg, ho, vs, vd);
    let b = batch_side(vk.g1_one, p, q, vg, hq, vs, vd);
    let right = (p.comm_quot_f + c.pair * p.comm_w_prime) * vk.g2_tau;
    lemma_cong_symm((l1 + c.pair * b) * vk.g2_one, right);
    lemma_cong_trans((l1 + c.pair * a) * vk.g2_one, right, (l1 + c.pair * b) * vk.g2_one);
    lemma_cong_apart((l1 + c.pair * a) * vk.g2_one, (l1 + c.pair * b) * vk.g2_one);
    let dh = hq - ho;
    lemma_side_difference(vk.g1_one, p, o, q, vg, ho, hq, vs, vd);
    assert((l1 + c.pair * a) * vk.g2_one - (l1 + c.pair * b) * vk.g2_one == vk.g2_one * (c.pair * (
    c.beta * (vk.g1_one * dh)))) by (nonlinear_arith)
        requires
            a - b == c.beta * (vk.g1_one * dh),
    ;
    lemma_cong_inverse(vk.g2_one, finv(vk.g2_one));
    lemma_cong_cancel(vk.g2_one, finv(vk.g2_one), c.pair * (c.beta * (vk.g1_one * dh)));
    lemma_cong_inverse(c.pair, finv(c.pair));
    lemma_cong_cancel(c.pair, finv(c.pair), c.beta * (vk.g1_one * dh));
    lemma_cong_inverse(c.beta, finv(c.beta));
    lemma_cong_cancel(c.beta, finv(c.beta), vk.g1_one * dh);
    lemma_cong_inverse(vk.g1_one, finv(vk.g1_one));
    lemma_cong_cancel(vk.g1_one, finv(vk.g1_one), dh);
    // the interpolants of h agree at zeta, at its inverse and at z
    let zi = finv(c.zeta);
    let xs = seq![c.zeta, zi, c.alpha];
    assert(feval(o.rh, xs[0]) == p.h_zeta && feval(q.rh, xs[0]) == p.h_zeta);
    assert(feval(o.rh, xs[1]) == p.h_zeta_inv && feval(q.rh, xs[1]) == p.h_zeta_inv);
    assert(feval(o.rh, xs[2]) == o.h_alpha && feval(q.rh, xs[2]) == q.h_alpha);
    let d0 = q.rh[0] - o.rh[0];
    let d1 = q.rh[1] - o.rh[1];
    let d2 = q.rh[2] - o.rh[2];
    lemma_refl(0);
    lemma_difference(o.rh, q.rh, c.zeta);
    lemma_difference(o.rh, q.rh, zi);
    lemma_difference(o.rh, q.rh, c.z);
    lemma_difference(o.rh, q.rh, c.alpha);
    lemma_refl(p.h_zeta);
    lemma_refl(p.h_zeta_inv);
    lemma_cong_symm(feval(q.rh, c.zeta) - feval(o.rh, c.zeta), d0 + d1 * c.zeta + d2 * (c.zeta
        * c.zeta));
    lemma_cong_symm(feval(q.rh, zi) - feval(o.rh, zi), d0 + d1 * zi + d2 * (zi * zi));
    lemma_cong_symm(dh, d0 + d1 * c.z + d2 * (c.z * c.z));
    lemma_cong_trans(d0 + d1 * c.z + d2 * (c.z * c.z), dh, 0);
    lemma_apart_inverse(c.zeta, zi);
    lemma_apart_inverse(c.zeta, c.z);
    lemma_apart_inverse(zi, c.z);
    lemma_three_roots(
        d0,
        d1,
        d2,
        c.zeta,
        zi,
        c.z,
        finv(fsub(c.zeta, zi)),
        finv(fsub(c.zeta, c.z)),
        finv(fsub(zi, c.z)),
        c.alpha,
    );
    let da = q.h_alpha - o.h_alpha;
    lemma_cong_trans(da, d0 + d1 * c.alpha + d2 * (c.alpha * c.alpha), 0);
    lemma_same_value(
        c.zeta * p.s_zeta + zi * p.s_zeta_inv,
        o.h_alpha,
        q.h_alpha,
        c.gamma,
        finv(c.gamma),
        y,
        v,
        p.g_zeta * tensor(u1, zi, u1.len() as int) + p.g_zeta_inv * tensor(
            u1,
            c.zeta,
            u1.len() as int,
        ) + c.gamma * (p.h_zeta * tensor(u2, zi, u2.len() as int) + p.h_zeta_inv * tensor(
            u2,
            c.zeta,
            u2.len() as int,
        )),
    );
}

proof fn lemma_apart_inverse(a: int, b: int)
    requires
        invertible(fsub(a, b)),
    ensures
        cong((a - b) * finv(fsub(a, b)), 1),
{
    let d = fsub(a, b);
    lemma_cong_inverse(d, finv(d));
    lemma_refl(a);
    lemma_refl(b);
    lemma_refl(finv(d));
    assert(cong(d, a - b)) by {
        broadcast use group_shadow;

    }
    lemma_cong_symm(d, a - b);
    lemma_cong_mul(a - b, d, finv(d), finv(d));
    lemma_cong_trans((a - b) * finv(d), d * finv(d), 1);
}

proof fn lemma_difference(r: Seq<int>, s: Seq<int>, x: int)
    requires
        r.len() == 3,
        s.len() == 3,
    ensures
        cong(
            feval(s, x) - feval(r, x),
            (s[0] - r[0]) + (s[1] - r[1]) * x + (s[2] - r[2]) * (x * x),
        ),
{
    lemma_eval_three(r, x);
    lemma_eval_three(s, x);
    let a = r[0] + r[1] * x + r[2] * (x * x);
    let b = s[0] + s[1] * x + s[2] * (x * x);
    lemma_cong_sub(feval(s, x), b, feval(r, x), a);
    assert(b - a == (s[0] - r[0]) + (s[1] - r[1]) * x + (s[2] - r[2]) * (x * x))
        by (nonlinear_arith)
        requires
            a == r[0] + r[1] * x + r[2] * (x * x),
            b == s[0] + s[1] * x + s[2] * (x * x),
    ;
}

/// The batch sides of two values of `h` at `z` differ by a multiple of their
/// difference.
proof fn lemma_side_difference(
    g: int,
    p: MercuryModel,
    o: MercuryOpening,
    q: MercuryOpening,
    vg: int,
    ho: int,
    hq: int,
    vs: int,
    vd: int,
)
    requires
        o.z == q.z,
        o.alpha == q.alpha,
        o.zi == q.zi,
        o.zeta == q.zeta,
        o.beta == q.beta,
    ensures
        batch_side(g, p, o, vg, ho, vs, vd) - batch_side(g, p, q, vg, hq, vs, vd) == o.beta * (g * (
        hq - ho)),
{
    let a = o.z - o.alpha;
    let e = (o.z - o.zi) * a;
    let b2 = o.beta * o.beta;
    let b3 = b2 * o.beta;
    let so = a * vg + o.beta * ho + (b2 * a) * vs + (b3 * e) * vd;
    let sq = a * vg + o.beta * hq + (b2 * a) * vs + (b3 * e) * vd;
    assert(sq * g - so * g == o.beta * (g * (hq - ho))) by (nonlinear_arith)
        requires
            sq - so == o.beta * hq - o.beta * ho,
    ;
}

/// Equal values of `h` at `alpha` leave equal values.
proof fn lemma_same_value(
    head: int,
    ho: int,
    hq: int,
    gamma: int,
    gi: int,
    y: int,
    v: int,
    sum: int,
)
    requires
        reduced(y),
        reduced(v),
        fmul(gamma, gi) == 1,
        cong(hq - ho, 0),
        cong(head + 2 * ho + 2 * (gamma * y), sum),
        cong(head + 2 * hq + 2 * (gamma * v), sum),
    ensures
        y == v,
{
    let a = head + 2 * ho + 2 * (gamma * y);
    let b = head + 2 * hq + 2 * (gamma * v);
    lemma_cong_symm(b, sum);
    lemma_cong_trans(a, sum, b);
    lemma_refl(2);
    lemma_cong_mul(2, 2, hq - ho, 0);
    lemma_cong_add(a, b, 2 * (hq - ho), 0);
    lemma_cong_apart(a + 2 * (hq - ho), b + 0);
    assert(a + 2 * (hq - ho) - (b + 0) == gamma * (2 * y - 2 * v)) by (nonlinear_arith)
        requires
            a == head + 2 * ho + 2 * (gamma * y),
            b == head + 2 * hq + 2 * (gamma * v),
    ;
    lemma_cong_inverse(gamma, gi);
    lemma_cong_cancel(gamma, gi, 2 * y - 2 * v);
    lemma_cong_symm(2 * y - 2 * v, 0);
    lemma_cong_move(2 * y, 2 * v);
    lemma_twice(y, v);
}

/// A batch is accepted only where the proof opens the combined commitment at the final
/// point of the sumcheck to the value that it expects there.
pub proof fn law_accepted_batch_opens(
    vp: &MercuryVerifierParam,
    com: int,
    a: Seq<Scalar>,
    y: int,
    proof: &MercuryProof,
)
    requires
        aggregate_verified(vp, com, a, y, proof, Ok(true)),
    ensures
        verification_ok(vp, a, proof),
        exists|o: MercuryOpening| #[trigger] opens_to(vp, com, vals(a), y, proof, o),
{
    law_accepted_proof_opens(vp, com, a, y, proof);
}

} // verus!
