//! What an accepted opening says: the equations that its values and commitments
//! satisfy, for challenges that the statement and the proof determine.

use crate::bdfg::{claim_sets, commit_scalar, const_term, outside_poly, union_of};
use crate::bdfg_laws::{
    claim_values, int_roots, interpolates, lemma_complements, lemma_interpolates,
    lemma_outside_shadow, lemma_roots_shadow,
};
use crate::chopin::{fresh_log, is_verification, key_model, verification_ok, verified, ChopinProof};
use crate::chopin::batch::aggregate_verified;
use crate::chopin::laws::lemma_union;
use crate::chopin::model::{
    batch_holds, bivariate_holds, claims_of, identity_holds, is_batch_run, is_opening_run,
    is_verdict, left_part, points_apart, right_part, run_end, stated, usable_beta, usable_z,
    with_restriction, with_values, ChopinChallenges, ChopinKey, ChopinModel, ChopinRun,
};
use crate::chopin::srs::ChopinVerifierParam;
use crate::dims::padded;
use crate::errors::PCSError;
use crate::field::{
    cong, fadd, finv, fmul, fneg, fpow, group_reduced, group_shadow, lemma_cong_inverse,
    lemma_cong_move, lemma_cong_sub, lemma_cong_symm, lemma_cong_trans, lemma_refl, reduced, vals,
    Scalar,
};
use crate::poly::{dot, feval, int_dot, interp, lemma_dot_shadow, lemma_eval_vanishing, p_vanishing};
use crate::reciprocal_laws::lemma_twice;
use crate::tensor::tensor;
use crate::transcript::{drawn, is_course, nonzero, Entry};
use vstd::prelude::*;

verus! {

/// What an opening is made of: the challenges, the inverse of `beta`, and the
/// interpolants of the three claims of the batch.
pub struct ChopinOpening {
    pub alpha: int,
    pub gamma: int,
    pub beta: int,
    pub bi: int,
    pub rho: int,
    pub z: int,
    pub r0: Seq<int>,
    pub r1: Seq<int>,
    pub r2: Seq<int>,
}

/// The values of an opening: they satisfy the identity of the two inner products with
/// the claimed value `y`, and the interpolants take them.
pub open spec fn values_agree(
    ul: Seq<int>,
    ur: Seq<int>,
    y: int,
    proof: &ChopinProof,
    o: ChopinOpening,
) -> bool {
    let nl = ul.len() as int;
    let nr = ur.len() as int;
    &&& cong(o.beta * o.bi, 1)
    &&& cong(
        proof.a1@ * tensor(ul, o.bi, nl) + proof.a2@ * tensor(ul, o.beta, nl) + o.gamma * (
        proof.b1@ * tensor(ur, o.bi, nr) + proof.b2@ * tensor(ur, o.beta, nr)),
        2 * (y + o.gamma * proof.a@) + o.beta * proof.s1@ + o.bi * proof.s2@,
    )
    &&& interpolates(
        o.r0,
        seq![o.alpha, o.beta, o.bi],
        seq![proof.a@, proof.a1@, proof.a2@],
    )
    &&& interpolates(o.r1, seq![o.beta, o.bi], seq![proof.b1@, proof.b2@])
    &&& interpolates(o.r2, seq![o.beta, o.bi], seq![proof.s1@, proof.s2@])
}

/// The two pairing products of an opening, in the exponent: that of the bivariate
/// opening at `(alpha, beta)` and that of the batch opening.
pub open spec fn pairings_agree(
    vp: &ChopinVerifierParam,
    com: int,
    proof: &ChopinProof,
    o: ChopinOpening,
) -> bool {
    let a = o.z - o.alpha;
    let k1 = o.rho * a;
    let k2 = (o.rho * o.rho) * a;
    let all = ((o.z - o.beta) * (o.z - o.bi)) * a;
    let values = feval(o.r0, o.z) + k1 * feval(o.r1, o.z) + k2 * feval(o.r2, o.z);
    let left = proof.comm_f_zr@ + k1 * proof.comm_f_alpha@ + k2 * proof.comm_s@ - values
        * vp.g1_one@ - all * proof.batch_w@ + o.z * proof.batch_w_prime@;
    &&& cong(
        (com - proof.b1@ * vp.g1_one@) * vp.g2_one@,
        proof.pi_biv_x@ * (vp.g2_tau@ - o.alpha * vp.g2_one@) + proof.pi_biv_y@ * (vp.g2_sigma@
            - o.beta * vp.g2_one@),
    )
    &&& cong(left * vp.g2_one@, proof.batch_w_prime@ * vp.g2_tau@)
}

/// The challenges of an opening are drawn in turn, each after the statement and all
/// that the proof holds for it.
pub open spec fn challenges_bound(
    com: int,
    u: Seq<int>,
    y: int,
    proof: &ChopinProof,
    o: ChopinOpening,
    h: ChopinRun,
) -> bool {
    let mu = u.len() as int;
    let first = seq![
        Entry::Domain("chopin-mlpcs-v1"@),
        Entry::Field("ver"@, 1),
        Entry::Field("mu"@, mu),
        Entry::Field("ml"@, (mu + 1) / 2),
        Entry::Field("mr"@, mu / 2),
        Entry::Point("cf"@, com),
        Entry::Fields("pt"@, u),
        Entry::Field("eta"@, y),
        Entry::Point("c0"@, proof.comm_f_zr@),
        Entry::Challenge("alpha"@, o.alpha),
        Entry::Point("c1"@, proof.comm_f_alpha@),
        Entry::Field("a"@, proof.a@),
    ];
    let values = seq![
        Entry::Field("a1"@, proof.a1@),
        Entry::Field("a2"@, proof.a2@),
        Entry::Field("b1"@, proof.b1@),
        Entry::Field("b2"@, proof.b2@),
        Entry::Field("s1"@, proof.s1@),
        Entry::Field("s2"@, proof.s2@),
        Entry::Point("px"@, proof.pi_biv_x@),
        Entry::Point("py"@, proof.pi_biv_y@),
    ];
    &&& is_course(h.after_z + seq![Entry::Point("wp"@, proof.batch_w_prime@)])
    &&& drawn(first, h.after_gamma, "gamma"@, |c: int| c != 0, Some(o.gamma))
    &&& drawn(
        h.after_gamma + seq![Entry::Point("cs"@, proof.comm_s@)],
        h.after_beta,
        "beta"@,
        |c: int| c != 0 && fmul(c, c) != 1 && c != o.alpha && finv(c) != o.alpha,
        Some(o.beta),
    )
    &&& drawn(h.after_beta + values, h.after_rho, "rho"@, |c: int| c != 0, Some(o.rho))
    &&& drawn(
        h.after_rho + seq![Entry::Point("w"@, proof.batch_w@)],
        h.after_z,
        "z"@,
        |c: int| c != o.alpha && c != o.beta && c != finv(o.beta),
        Some(o.z),
    )
}

/// Whether a proof opens `com` at `u` to `y`, with the given interpolants and
/// challenges.
pub open spec fn opens_to(
    vp: &ChopinVerifierParam,
    com: int,
    u: Seq<int>,
    y: int,
    proof: &ChopinProof,
    o: ChopinOpening,
    h: ChopinRun,
) -> bool {
    let m = (u.len() as int + 1) / 2;
    &&& values_agree(u.take(m), u.skip(m), y, proof, o)
    &&& pairings_agree(vp, com, proof, o)
    &&& challenges_bound(com, u, y, proof, o, h)
}

/// The interpolants of a verifier.
pub open spec fn opening_of(p: ChopinModel, c: ChopinChallenges) -> ChopinOpening {
    let bi = finv(c.beta);
    ChopinOpening {
        alpha: c.alpha,
        gamma: c.gamma,
        beta: c.beta,
        bi,
        rho: c.rho,
        z: c.z,
        r0: interp(seq![c.alpha, c.beta, bi], seq![p.a, p.a1, p.a2]),
        r1: interp(seq![c.beta, bi], seq![p.b1, p.b2]),
        r2: interp(seq![c.beta, bi], seq![p.s1, p.s2]),
    }
}

proof fn lemma_values(
    ul: Seq<int>,
    ur: Seq<int>,
    y: int,
    proof: &ChopinProof,
    c: ChopinChallenges,
)
    requires
        points_apart(c),
        identity_holds(ul, ur, y, proof.model(), c),
    ensures
        values_agree(ul, ur, y, proof, opening_of(proof.model(), c)),
{
    broadcast use group_reduced;

    let p = proof.model();
    let bi = finv(c.beta);
    lemma_cong_inverse(c.beta, bi);
    lemma_interpolates(seq![c.alpha, c.beta, bi], seq![p.a, p.a1, p.a2]);
    lemma_interpolates(seq![c.beta, bi], seq![p.b1, p.b2]);
    lemma_interpolates(seq![c.beta, bi], seq![p.s1, p.s2]);
    let t1 = tensor(ul, bi, ul.len() as int);
    let t2 = tensor(ul, c.beta, ul.len() as int);
    let t3 = tensor(ur, bi, ur.len() as int);
    let t4 = tensor(ur, c.beta, ur.len() as int);
    let left = fadd(
        fadd(fmul(p.a1, t1), fmul(p.a2, t2)),
        fmul(c.gamma, fadd(fmul(p.b1, t3), fmul(p.b2, t4))),
    );
    let li = p.a1 * t1 + p.a2 * t2 + c.gamma * (p.b1 * t3 + p.b2 * t4);
    let v = fadd(y, fmul(c.gamma, p.a));
    let right = fadd(fadd(fadd(v, v), fmul(c.beta, p.s1)), fmul(bi, p.s2));
    let vi = y + c.gamma * p.a;
    let ri = (vi + vi) + c.beta * p.s1 + bi * p.s2;
    lemma_refl(c.gamma);
    assert(cong(left, li)) by {
        lemma_refl(p.a1);
        lemma_refl(p.a2);
        lemma_refl(p.b1);
        lemma_refl(p.b2);
        lemma_refl(t1);
        lemma_refl(t2);
        lemma_refl(t3);
        lemma_refl(t4);
        broadcast use group_shadow;

    }
    assert(cong(right, ri)) by {
        lemma_refl(y);
        lemma_refl(p.a);
        lemma_refl(c.beta);
        lemma_refl(bi);
        lemma_refl(p.s1);
        lemma_refl(p.s2);
        broadcast use group_shadow;

    }
    lemma_cong_symm(left, li);
    lemma_cong_trans(li, left, ri);
}

/// The pairing check of the bivariate opening in integers.
proof fn lemma_bivariate(vk: ChopinKey, com: int, p: ChopinModel, alpha: int, beta: int)
    requires
        bivariate_holds(vk, com, p, alpha, beta),
    ensures
        cong(
            (com - p.b1 * vk.g1_one) * vk.g2_one,
            p.pi_biv_x * (vk.g2_tau - alpha * vk.g2_one) + p.pi_biv_y * (vk.g2_sigma - beta
                * vk.g2_one),
        ),
{
    let a = seq![fadd(com, fmul(vk.g1_one, fneg(p.b1))), fneg(p.pi_biv_x), fneg(p.pi_biv_y)];
    let x = seq![com + vk.g1_one * (-p.b1), -p.pi_biv_x, -p.pi_biv_y];
    let b = seq![
        vk.g2_one,
        fadd(vk.g2_tau, fmul(vk.g2_one, fneg(alpha))),
        fadd(vk.g2_sigma, fmul(vk.g2_one, fneg(beta))),
    ];
    let y = seq![
        vk.g2_one,
        vk.g2_tau + vk.g2_one * (-alpha),
        vk.g2_sigma + vk.g2_one * (-beta),
    ];
    assert(cong(a[0], x[0]) && cong(a[1], x[1]) && cong(a[2], x[2]) && cong(b[0], y[0]) && cong(
        b[1],
        y[1],
    ) && cong(b[2], y[2])) by {
        lemma_refl(com);
        lemma_refl(vk.g1_one);
        lemma_refl(p.b1);
        lemma_refl(p.pi_biv_x);
        lemma_refl(p.pi_biv_y);
        lemma_refl(vk.g2_one);
        lemma_refl(vk.g2_tau);
        lemma_refl(vk.g2_sigma);
        lemma_refl(alpha);
        lemma_refl(beta);
        broadcast use group_shadow;

    }
    assert forall|i: int| 0 <= i < 3 implies cong(#[trigger] a[i], x[i]) by {}
    assert forall|i: int| 0 <= i < 3 implies cong(#[trigger] b[i], y[i]) by {}
    lemma_dot_shadow(a, x, b, y, 3);
    reveal_with_fuel(int_dot, 4);
    assert(int_dot(x, y, 3) == x[0] * y[0] + x[1] * y[1] + x[2] * y[2]);
    let l = com - p.b1 * vk.g1_one;
    let ya = vk.g2_tau - alpha * vk.g2_one;
    let yb = vk.g2_sigma - beta * vk.g2_one;
    assert(x[0] == l && y[1] == ya && y[2] == yb) by {
        assert(vk.g1_one * (-p.b1) == -(p.b1 * vk.g1_one)) by (nonlinear_arith);
        assert(vk.g2_one * (-alpha) == -(alpha * vk.g2_one)) by (nonlinear_arith);
        assert(vk.g2_one * (-beta) == -(beta * vk.g2_one)) by (nonlinear_arith);
    }
    assert((-p.pi_biv_x) * ya == -(p.pi_biv_x * ya)) by (nonlinear_arith);
    assert((-p.pi_biv_y) * yb == -(p.pi_biv_y * yb)) by (nonlinear_arith);
    lemma_cong_move(l * vk.g2_one, p.pi_biv_x * ya + p.pi_biv_y * yb);
}

proof fn lemma_scalar(
    sets: Seq<Seq<int>>,
    union: Seq<int>,
    rho: int,
    z: int,
    t: int,
    power: int,
    outside: int,
)
    requires
        cong(fpow(rho, t as nat), power),
        cong(feval(outside_poly(union, sets[t]), z), outside),
    ensures
        cong(commit_scalar(sets, union, rho, z, t), power * outside),
{
    broadcast use group_shadow;

}

/// The pairing check of the batch opening in integers.
#[verifier::spinoff_prover]
#[verifier::rlimit(60)]
proof fn lemma_batch(vk: ChopinKey, p: ChopinModel, c: ChopinChallenges)
    requires
        points_apart(c),
        batch_holds(vk, p, c),
    ensures
        ({
            let o = opening_of(p, c);
            let a = o.z - o.alpha;
            let k1 = o.rho * a;
            let k2 = (o.rho * o.rho) * a;
            let all = ((o.z - o.beta) * (o.z - o.bi)) * a;
            let values = feval(o.r0, o.z) + k1 * feval(o.r1, o.z) + k2 * feval(o.r2, o.z);
            cong(
                (p.comm_f_zr + k1 * p.comm_f_alpha + k2 * p.comm_s - values * vk.g1_one - all
                    * p.batch_w + o.z * p.batch_w_prime) * vk.g2_one,
                p.batch_w_prime * vk.g2_tau,
            )
        }),
{
    let o = opening_of(p, c);
    let e = Seq::<int>::empty();
    let claims = claims_of(e, e, e, p, c);
    let sets = claim_sets(claims);
    let values = claim_values(claims);
    let bi = finv(c.beta);
    let un = union_of(sets, 3);
    lemma_union(e, e, e, p, c);
    assert(un == seq![c.alpha, c.beta, bi]);
    lemma_complements(c.alpha, c.beta, bi);
    assert(sets[0] == seq![c.alpha, c.beta, bi]);
    assert(sets[1] == seq![c.beta, bi]);
    assert(sets[2] == seq![c.beta, bi]);
    lemma_outside_shadow(un, sets[0], Seq::empty(), c.z);
    lemma_outside_shadow(un, sets[1], seq![c.alpha], c.z);
    lemma_eval_vanishing(un, 3, c.z);
    lemma_roots_shadow(un, c.z, 3);
    reveal_with_fuel(int_roots, 4);
    let a = c.z - c.alpha;
    let wb = c.z - c.beta;
    let wi = c.z - bi;
    assert(int_roots(seq![c.alpha], c.z, 1) == 1 * a);
    assert(int_roots(Seq::<int>::empty(), c.z, 0) == 1);
    assert(int_roots(un, c.z, 3) == ((1 * a) * wb) * wi);
    assert(1 * a == a && ((1 * a) * wb) * wi == (wb * wi) * a) by (nonlinear_arith);
    let b = c.rho;
    let b2 = b * b;
    reveal_with_fuel(fpow, 4);
    assert(cong(fpow(b, 0), 1) && cong(fpow(b, 1), 1 * b) && cong(fpow(b, 2), (1 * b) * b)) by {
        lemma_refl(1);
        lemma_refl(b);
        broadcast use group_shadow;

    }
    assert(1 * b == b && (1 * b) * b == b2) by (nonlinear_arith)
        requires
            b2 == b * b,
    ;
    lemma_scalar(sets, un, b, c.z, 0, 1, 1);
    lemma_scalar(sets, un, b, c.z, 1, b, a);
    lemma_scalar(sets, un, b, c.z, 2, b2, a);
    let k0 = commit_scalar(sets, un, b, c.z, 0);
    let k1 = commit_scalar(sets, un, b, c.z, 1);
    let k2 = commit_scalar(sets, un, b, c.z, 2);
    let v0 = feval(o.r0, c.z);
    let v1 = feval(o.r1, c.z);
    let v2 = feval(o.r2, c.z);
    assert(values[0] == seq![p.a, p.a1, p.a2]);
    assert(values[1] == seq![p.b1, p.b2]);
    assert(values[2] == seq![p.s1, p.s2]);
    let ct = const_term(sets, values, un, b, c.z, 3);
    reveal_with_fuel(const_term, 4);
    assert(ct == fadd(fadd(fadd(0, fmul(k0, v0)), fmul(k1, v1)), fmul(k2, v2)));
    let x0 = 1int;
    let x1 = b * a;
    let x2 = b2 * a;
    let ci = 0 + x0 * v0 + x1 * v1 + x2 * v2;
    assert(cong(ct, ci)) by {
        lemma_refl(0);
        lemma_refl(v0);
        lemma_refl(v1);
        lemma_refl(v2);
        broadcast use group_shadow;

    }
    let zv = feval(p_vanishing(un, un.len() as int), c.z);
    assert(un.len() == 3);
    let zvi = (wb * wi) * a;
    assert(cong(zv, zvi));
    let l = seq![p.comm_f_zr, p.comm_f_alpha, p.comm_s, vk.g1_one, p.batch_w, p.batch_w_prime];
    let s = seq![k0, k1, k2, fneg(ct), fneg(zv), c.z];
    let t = seq![x0, x1, x2, -ci, -zvi, c.z];
    assert(cong(fneg(ct), -ci) && cong(fneg(zv), -zvi)) by {
        broadcast use group_shadow;

    }
    lemma_refl(c.z);
    assert forall|i: int| 0 <= i < 6 implies cong(#[trigger] l[i], l[i]) by {
        lemma_refl(l[i]);
    }
    assert forall|i: int| 0 <= i < 6 implies cong(#[trigger] s[i], t[i]) by {}
    lemma_dot_shadow(l, l, s, t, 6);
    reveal_with_fuel(int_dot, 7);
    let combined = dot(l, s, 6);
    let left = p.comm_f_zr + x1 * p.comm_f_alpha + x2 * p.comm_s - (v0 + x1 * v1 + x2 * v2)
        * vk.g1_one - zvi * p.batch_w + c.z * p.batch_w_prime;
    assert(int_dot(l, t, 6) == p.comm_f_zr * x0 + p.comm_f_alpha * x1 + p.comm_s * x2 + vk.g1_one
        * (-ci) + p.batch_w * (-zvi) + p.batch_w_prime * c.z);
    assert(p.comm_f_alpha * x1 == x1 * p.comm_f_alpha) by (nonlinear_arith);
    assert(p.comm_s * x2 == x2 * p.comm_s) by (nonlinear_arith);
    assert(vk.g1_one * (-ci) == -(ci * vk.g1_one)) by (nonlinear_arith);
    assert(p.batch_w * (-zvi) == -(zvi * p.batch_w)) by (nonlinear_arith);
    assert(p.batch_w_prime * c.z == c.z * p.batch_w_prime) by (nonlinear_arith);
    assert(ci == v0 + x1 * v1 + x2 * v2);
    assert(cong(combined, left));
    let pa = seq![combined, fneg(p.batch_w_prime)];
    let px = seq![left, -p.batch_w_prime];
    let g = seq![vk.g2_one, vk.g2_tau];
    assert(cong(fneg(p.batch_w_prime), -p.batch_w_prime)) by {
        lemma_refl(p.batch_w_prime);
        broadcast use group_shadow;

    }
    assert forall|i: int| 0 <= i < 2 implies cong(#[trigger] pa[i], px[i]) by {}
    assert forall|i: int| 0 <= i < 2 implies cong(#[trigger] g[i], g[i]) by {
        lemma_refl(g[i]);
    }
    lemma_dot_shadow(pa, px, g, g, 2);
    assert(int_dot(px, g, 2) == left * vk.g2_one + (-p.batch_w_prime) * vk.g2_tau);
    assert((-p.batch_w_prime) * vk.g2_tau == -(p.batch_w_prime * vk.g2_tau)) by (nonlinear_arith);
    lemma_cong_move(left * vk.g2_one, p.batch_w_prime * vk.g2_tau);
}

/// An accepted proof opens the commitment at the point to the value: where `verify`
/// returns `true`, both pairing products are one and the identity of the inner products
/// holds, for challenges drawn from the statement and the proof. The point counts with
/// zeros up to the number of variables of the proof.
pub proof fn law_accepted_proof_opens(
    vp: &ChopinVerifierParam,
    com: int,
    point: Seq<Scalar>,
    value: int,
    proof: &ChopinProof,
)
    requires
        is_verification(vp, com, point, value, proof, Ok(true)),
    ensures
        exists|o: ChopinOpening, h: ChopinRun| #[trigger]
            opens_to(vp, com, padded(vals(point), proof.mu as nat), value, proof, o, h),
{
    let u = padded(vals(point), proof.mu as nat);
    let r: Result<bool, PCSError> = Ok(true);
    let end = choose|end: Seq<Entry>|
        is_course(end) && #[trigger] verified(fresh_log(), end, vp, com, point, value, proof, r);
    assert(verified(fresh_log(), end, vp, com, point, value, proof, r));
    let p = proof.model();
    let vk = key_model(vp);
    let start = stated(fresh_log(), com, u, value);
    let (c, h) = choose|c: ChopinChallenges, h: ChopinRun| #[trigger]
        is_verdict(start, end, vk, com, u, value, p, true, c, h);
    assert(is_verdict(start, end, vk, com, u, value, p, true, c, h));
    let ul = left_part(u);
    let ur = right_part(u);
    let o = opening_of(p, c);
    lemma_values(ul, ur, value, proof, c);
    lemma_bivariate(vk, com, p, c.alpha, c.beta);
    lemma_batch(vk, p, c);
    assert(pairings_agree(vp, com, proof, o));
    lemma_bound(com, u, value, proof, c, h, o, end);
    assert(opens_to(vp, com, u, value, proof, o, h));
}

proof fn lemma_bound(
    com: int,
    u: Seq<int>,
    y: int,
    proof: &ChopinProof,
    c: ChopinChallenges,
    h: ChopinRun,
    o: ChopinOpening,
    end: Seq<Entry>,
)
    requires
        is_course(end),
        end == run_end(proof.model(), h),
        is_opening_run(
            stated(fresh_log(), com, u, y),
            proof.model(),
            c,
            h,
        ),
        is_batch_run(proof.model(), c, h),
        o == opening_of(proof.model(), c),
    ensures
        challenges_bound(com, u, y, proof, o, h),
{
    let p = proof.model();
    let mu = u.len() as int;
    let first = seq![
        Entry::Domain("chopin-mlpcs-v1"@),
        Entry::Field("ver"@, 1),
        Entry::Field("mu"@, mu),
        Entry::Field("ml"@, (mu + 1) / 2),
        Entry::Field("mr"@, mu / 2),
        Entry::Point("cf"@, com),
        Entry::Fields("pt"@, u),
        Entry::Field("eta"@, y),
        Entry::Point("c0"@, proof.comm_f_zr@),
        Entry::Challenge("alpha"@, o.alpha),
        Entry::Point("c1"@, proof.comm_f_alpha@),
        Entry::Field("a"@, proof.a@),
    ];
    let values = seq![
        Entry::Field("a1"@, proof.a1@),
        Entry::Field("a2"@, proof.a2@),
        Entry::Field("b1"@, proof.b1@),
        Entry::Field("b2"@, proof.b2@),
        Entry::Field("s1"@, proof.s1@),
        Entry::Field("s2"@, proof.s2@),
        Entry::Point("px"@, proof.pi_biv_x@),
        Entry::Point("py"@, proof.pi_biv_y@),
    ];
    assert(with_restriction(stated(fresh_log(), com, u, y), p, c.alpha) =~= first);
    assert(with_values(h.after_beta, p) =~= h.after_beta + values);
    assert(h.after_gamma.push(Entry::Point("cs"@, p.comm_s)) =~= h.after_gamma + seq![
        Entry::Point("cs"@, proof.comm_s@),
    ]);
    assert(h.after_rho.push(Entry::Point("w"@, p.batch_w)) =~= h.after_rho + seq![
        Entry::Point("w"@, proof.batch_w@),
    ]);
    assert(end =~= h.after_z + seq![Entry::Point("wp"@, proof.batch_w_prime@)]);
    assert(nonzero() =~= (|c: int| c != 0));
    assert(usable_beta(c.alpha) =~= (|c: int|
        c != 0 && fmul(c, c) != 1 && c != o.alpha && finv(c) != o.alpha));
    assert(usable_z(c.alpha, c.beta) =~= (|c: int|
        c != o.alpha && c != o.beta && c != finv(o.beta)));
}

/// A proof opens to at most one value at a point, given the challenges, whatever the
/// commitment.
pub proof fn law_one_value(
    vp: &ChopinVerifierParam,
    com: int,
    other: int,
    u: Seq<int>,
    y: int,
    v: int,
    proof: &ChopinProof,
    o: ChopinOpening,
    h: ChopinRun,
    q: ChopinOpening,
    k: ChopinRun,
)
    requires
        reduced(y),
        reduced(v),
        opens_to(vp, com, u, y, proof, o, h),
        opens_to(vp, other, u, v, proof, q, k),
        o.gamma == q.gamma,
        o.beta == q.beta,
        o.bi == q.bi,
    ensures
        y == v,
{
    let m = (u.len() as int + 1) / 2;
    let ul = u.take(m);
    let ur = u.skip(m);
    let left = proof.a1@ * tensor(ul, o.bi, ul.len() as int) + proof.a2@ * tensor(
        ul,
        o.beta,
        ul.len() as int,
    ) + o.gamma * (proof.b1@ * tensor(ur, o.bi, ur.len() as int) + proof.b2@ * tensor(
        ur,
        o.beta,
        ur.len() as int,
    ));
    let rest = 2 * (o.gamma * proof.a@) + o.beta * proof.s1@ + o.bi * proof.s2@;
    let ry = 2 * (y + o.gamma * proof.a@) + o.beta * proof.s1@ + o.bi * proof.s2@;
    let rv = 2 * (v + o.gamma * proof.a@) + o.beta * proof.s1@ + o.bi * proof.s2@;
    lemma_cong_symm(left, ry);
    lemma_cong_trans(ry, left, rv);
    lemma_refl(rest);
    lemma_cong_sub(ry, rv, rest, rest);
    lemma_twice(y, v);
}

/// A batch is accepted only where the proof opens the combined commitment at the final
/// point of the sumcheck to the value that it expects there.
pub proof fn law_accepted_batch_opens(
    vp: &ChopinVerifierParam,
    com: int,
    a: Seq<Scalar>,
    y: int,
    proof: &ChopinProof,
)
    requires
        aggregate_verified(vp, com, a, y, proof, Ok(true)),
    ensures
        verification_ok(vp, a, proof),
        exists|o: ChopinOpening, h: ChopinRun| #[trigger]
            opens_to(vp, com, padded(vals(a), proof.mu as nat), y, proof, o, h),
{
    law_accepted_proof_opens(vp, com, a, y, proof);
}

} // verus!
