//! The mathematical model of the scheme: what an honest prover sends and what
//! a verifier accepts, over field elements and logarithms.

use crate::bdfg::{claim_sets, commit_scalar, const_term, union_of, Claim};
use crate::bdfg_laws::{batch_opening, batch_quotient, claim_values};
use crate::chopin::srs::{sigma_bases, tau_bases};
use crate::dims::split;
use crate::field::{fadd, finv, fmul, fneg, reduced};
use crate::grid::{block, block_values, fold_rows};
use crate::laurent::sym_witness;
use crate::poly::{dot, feval, linear_quotient, nodes_ok, p_add_scaled, p_vanishing, tail};
use crate::tensor::{eq_vec, p2, tensor};
use crate::transcript::{drawn, nonzero, Entry};
use vstd::prelude::*;

verus! {

/// The views of a proof.
pub struct ChopinModel {
    pub comm_f_zr: int,
    pub comm_f_alpha: int,
    pub comm_s: int,
    pub pi_biv_x: int,
    pub pi_biv_y: int,
    pub batch_w: int,
    pub batch_w_prime: int,
    pub a: int,
    pub a1: int,
    pub a2: int,
    pub b1: int,
    pub b2: int,
    pub s1: int,
    pub s2: int,
}

/// The challenges of a run.
pub struct ChopinChallenges {
    pub alpha: int,
    pub gamma: int,
    pub beta: int,
    pub rho: int,
    pub z: int,
}

/// Whether a challenge is a `beta` for the given `alpha`.
pub open spec fn usable_beta(alpha: int) -> spec_fn(int) -> bool {
    |c: int| c != 0 && fmul(c, c) != 1 && c != alpha && finv(c) != alpha
}

/// Whether a challenge is not among the evaluation points.
pub open spec fn usable_z(alpha: int, beta: int) -> spec_fn(int) -> bool {
    |c: int| c != alpha && c != beta && c != finv(beta)
}

/// The quotients of the columns by `X - alpha`, column after column.
pub open spec fn quotient_1(f: Seq<int>, ml: int, mr: int, alpha: int) -> Seq<int> {
    Seq::new(
        ((ml - 1) * mr) as nat,
        |k: int| tail(block(f, ml, k / (ml - 1)), alpha, k % (ml - 1) + 1),
    )
}

/// The right restriction `f_zR`.
pub open spec fn right_restriction(f: Seq<int>, ul: Seq<int>, ur: Seq<int>) -> Seq<int> {
    fold_rows(f, eq_vec(ur, ur.len() as int), p2(ul.len() as int), p2(ur.len() as int))
}

/// The coefficients of `f(alpha, Y)`.
pub open spec fn alpha_restriction(
    f: Seq<int>,
    ul: Seq<int>,
    ur: Seq<int>,
    alpha: int,
) -> Seq<int> {
    block_values(f, p2(ul.len() as int), p2(ur.len() as int), alpha)
}

/// The witness `S = S0 + gamma S1` of both inner products.
pub open spec fn s_poly(
    f_zr: Seq<int>,
    f_alpha: Seq<int>,
    ul: Seq<int>,
    ur: Seq<int>,
    gamma: int,
) -> Seq<int> {
    p_add_scaled(
        sym_witness(f_zr, ul, ul.len() as int),
        sym_witness(f_alpha, ur, ur.len() as int),
        gamma,
    )
}

/// The claims of the batch opening.
pub open spec fn claims_of(
    f_zr: Seq<int>,
    f_alpha: Seq<int>,
    s: Seq<int>,
    p: ChopinModel,
    c: ChopinChallenges,
) -> Seq<Claim> {
    let bi = finv(c.beta);
    seq![
        Claim { poly: f_zr, points: seq![c.alpha, c.beta, bi], values: seq![p.a, p.a1, p.a2] },
        Claim { poly: f_alpha, points: seq![c.beta, bi], values: seq![p.b1, p.b2] },
        Claim { poly: s, points: seq![c.beta, bi], values: seq![p.s1, p.s2] },
    ]
}

/// What an honest prover sends, but for the batch opening.
pub open spec fn honest_values(
    key: Seq<int>,
    f: Seq<int>,
    ul: Seq<int>,
    ur: Seq<int>,
    c: ChopinChallenges,
) -> ChopinModel {
    let ml = p2(ul.len() as int);
    let mr = p2(ur.len() as int);
    let tb = tau_bases(key, ml, mr);
    let fz = right_restriction(f, ul, ur);
    let fa = alpha_restriction(f, ul, ur, c.alpha);
    let s = s_poly(fz, fa, ul, ur, c.gamma);
    let bi = finv(c.beta);
    ChopinModel {
        comm_f_zr: dot(tb, fz, ml),
        comm_f_alpha: dot(tb, fa, mr),
        comm_s: dot(tb, s, ml - 1),
        pi_biv_x: dot(key, quotient_1(f, ml, mr, c.alpha), (ml - 1) * mr),
        pi_biv_y: dot(sigma_bases(key, ml, mr), linear_quotient(fa, c.beta), mr - 1),
        batch_w: 0,
        batch_w_prime: 0,
        a: feval(fz, c.alpha),
        a1: feval(fz, c.beta),
        a2: feval(fz, bi),
        b1: feval(fa, c.beta),
        b2: feval(fa, bi),
        s1: feval(s, c.beta),
        s2: feval(s, bi),
    }
}

/// The claims of an honest prover.
pub open spec fn honest_claims(
    key: Seq<int>,
    f: Seq<int>,
    ul: Seq<int>,
    ur: Seq<int>,
    c: ChopinChallenges,
) -> Seq<Claim> {
    let fz = right_restriction(f, ul, ur);
    let fa = alpha_restriction(f, ul, ur, c.alpha);
    claims_of(fz, fa, s_poly(fz, fa, ul, ur, c.gamma), honest_values(key, f, ul, ur, c), c)
}

/// The proof of an honest prover for the table `f` and the point `(ul, ur)`.
pub open spec fn honest_proof(
    key: Seq<int>,
    f: Seq<int>,
    ul: Seq<int>,
    ur: Seq<int>,
    c: ChopinChallenges,
) -> ChopinModel {
    let tb = tau_bases(key, p2(ul.len() as int), p2(ur.len() as int));
    let claims = honest_claims(key, f, ul, ur, c);
    let w = batch_quotient(claims, c.rho);
    let wp = batch_opening(claims, c.rho, c.z);
    ChopinModel {
        batch_w: dot(tb, w, w.len() as int),
        batch_w_prime: dot(tb, wp, wp.len() as int),
        ..honest_values(key, f, ul, ur, c)
    }
}

/// The views of a verifier key.
pub struct ChopinKey {
    pub g1_one: int,
    pub g2_one: int,
    pub g2_tau: int,
    pub g2_sigma: int,
}

/// The field identity of the two inner products.
pub open spec fn identity_holds(
    ul: Seq<int>,
    ur: Seq<int>,
    y: int,
    p: ChopinModel,
    c: ChopinChallenges,
) -> bool {
    let bi = finv(c.beta);
    let nl = ul.len() as int;
    let nr = ur.len() as int;
    let lhs = fadd(
        fadd(fmul(p.a1, tensor(ul, bi, nl)), fmul(p.a2, tensor(ul, c.beta, nl))),
        fmul(
            c.gamma,
            fadd(fmul(p.b1, tensor(ur, bi, nr)), fmul(p.b2, tensor(ur, c.beta, nr))),
        ),
    );
    let v = fadd(y, fmul(c.gamma, p.a));
    lhs == fadd(fadd(fadd(v, v), fmul(c.beta, p.s1)), fmul(bi, p.s2))
}

/// The pairing check of the bivariate opening.
pub open spec fn bivariate_holds(
    vk: ChopinKey,
    com: int,
    p: ChopinModel,
    alpha: int,
    beta: int,
) -> bool {
    dot(
        seq![fadd(com, fmul(vk.g1_one, fneg(p.b1))), fneg(p.pi_biv_x), fneg(p.pi_biv_y)],
        seq![
            vk.g2_one,
            fadd(vk.g2_tau, fmul(vk.g2_one, fneg(alpha))),
            fadd(vk.g2_sigma, fmul(vk.g2_one, fneg(beta))),
        ],
        3,
    ) == 0
}

/// The pairing check of the batch opening.
pub open spec fn batch_holds(vk: ChopinKey, p: ChopinModel, c: ChopinChallenges) -> bool {
    let claims = claims_of(Seq::empty(), Seq::empty(), Seq::empty(), p, c);
    let sets = claim_sets(claims);
    let values = claim_values(claims);
    let u = union_of(sets, 3);
    let combined = dot(
        seq![p.comm_f_zr, p.comm_f_alpha, p.comm_s, vk.g1_one, p.batch_w, p.batch_w_prime],
        seq![
            commit_scalar(sets, u, c.rho, c.z, 0),
            commit_scalar(sets, u, c.rho, c.z, 1),
            commit_scalar(sets, u, c.rho, c.z, 2),
            fneg(const_term(sets, values, u, c.rho, c.z, 3)),
            fneg(feval(p_vanishing(u, u.len() as int), c.z)),
            c.z,
        ],
        6,
    );
    dot(seq![combined, fneg(p.batch_w_prime)], seq![vk.g2_one, vk.g2_tau], 2) == 0
}

/// Whether the two checks that precede the batch opening hold.
pub open spec fn opening_holds(
    vk: ChopinKey,
    com: int,
    ul: Seq<int>,
    ur: Seq<int>,
    y: int,
    p: ChopinModel,
    c: ChopinChallenges,
) -> bool {
    &&& identity_holds(ul, ur, y, p, c)
    &&& bivariate_holds(vk, com, p, c.alpha, c.beta)
}

/// Whether a verifier accepts a proof.
pub open spec fn accepts(
    vk: ChopinKey,
    com: int,
    ul: Seq<int>,
    ur: Seq<int>,
    y: int,
    p: ChopinModel,
    c: ChopinChallenges,
) -> bool {
    &&& opening_holds(vk, com, ul, ur, y, p, c)
    &&& batch_holds(vk, p, c)
}

/// The first part of a point.
pub open spec fn left_part(u: Seq<int>) -> Seq<int> {
    u.take(split(u.len() as int).0)
}

/// The last part of a point.
pub open spec fn right_part(u: Seq<int>) -> Seq<int> {
    u.skip(split(u.len() as int).0)
}

/// The history `log` with the statement that `com` opens at `u` to `y`.
pub open spec fn stated(log: Seq<Entry>, com: int, u: Seq<int>, y: int) -> Seq<Entry> {
    let mu = u.len() as int;
    log.push(Entry::Field("ver"@, 1)).push(Entry::Field("mu"@, mu)).push(
        Entry::Field("ml"@, split(mu).0),
    ).push(Entry::Field("mr"@, split(mu).1)).push(Entry::Point("cf"@, com)).push(
        Entry::Fields("pt"@, u),
    ).push(Entry::Field("eta"@, y))
}

/// The history at the points of a run just after a challenge was drawn.
pub struct ChopinRun {
    pub after_gamma: Seq<Entry>,
    pub after_beta: Seq<Entry>,
    pub after_rho: Seq<Entry>,
    pub after_z: Seq<Entry>,
}

/// The history after the first challenge, which is any.
pub open spec fn after_alpha(start: Seq<Entry>, p: ChopinModel, alpha: int) -> Seq<Entry> {
    start.push(Entry::Point("c0"@, p.comm_f_zr)).push(Entry::Challenge("alpha"@, alpha))
}

/// The history with the values and the bivariate proof appended.
pub open spec fn with_values(log: Seq<Entry>, p: ChopinModel) -> Seq<Entry> {
    log.push(Entry::Field("a1"@, p.a1)).push(Entry::Field("a2"@, p.a2)).push(
        Entry::Field("b1"@, p.b1),
    ).push(Entry::Field("b2"@, p.b2)).push(Entry::Field("s1"@, p.s1)).push(
        Entry::Field("s2"@, p.s2),
    ).push(Entry::Point("px"@, p.pi_biv_x)).push(Entry::Point("py"@, p.pi_biv_y))
}

/// The history with the first restriction and its value appended.
pub open spec fn with_restriction(start: Seq<Entry>, p: ChopinModel, alpha: int) -> Seq<Entry> {
    after_alpha(start, p, alpha).push(Entry::Point("c1"@, p.comm_f_alpha)).push(
        Entry::Field("a"@, p.a),
    )
}

/// Whether the histories are those of a run up to the values, from `start`.
pub open spec fn is_opening_run(
    start: Seq<Entry>,
    p: ChopinModel,
    c: ChopinChallenges,
    h: ChopinRun,
) -> bool {
    &&& drawn(
        with_restriction(start, p, c.alpha),
        h.after_gamma,
        "gamma"@,
        nonzero(),
        Some(c.gamma),
    )
    &&& drawn(
        h.after_gamma.push(Entry::Point("cs"@, p.comm_s)),
        h.after_beta,
        "beta"@,
        usable_beta(c.alpha),
        Some(c.beta),
    )
}

/// Whether the histories are those of the batch opening of a run.
pub open spec fn is_batch_run(p: ChopinModel, c: ChopinChallenges, h: ChopinRun) -> bool {
    &&& drawn(with_values(h.after_beta, p), h.after_rho, "rho"@, nonzero(), Some(c.rho))
    &&& drawn(
        h.after_rho.push(Entry::Point("w"@, p.batch_w)),
        h.after_z,
        "z"@,
        usable_z(c.alpha, c.beta),
        Some(c.z),
    )
}

/// Whether a run from `start` ends in `end` because the draws of one of its
/// challenges were exhausted. The batch opening is come to where `looked` holds.
pub open spec fn is_stopped_run(
    start: Seq<Entry>,
    end: Seq<Entry>,
    p: ChopinModel,
    c: ChopinChallenges,
    h: ChopinRun,
    looked: bool,
) -> bool {
    let before = with_restriction(start, p, c.alpha);
    let to_gamma = drawn(before, h.after_gamma, "gamma"@, nonzero(), Some(c.gamma));
    let to_values = looked && is_opening_run(start, p, c, h);
    let to_rho = to_values && drawn(
        with_values(h.after_beta, p),
        h.after_rho,
        "rho"@,
        nonzero(),
        Some(c.rho),
    );
    ||| drawn(before, end, "gamma"@, nonzero(), None)
    ||| to_gamma && drawn(
        h.after_gamma.push(Entry::Point("cs"@, p.comm_s)),
        end,
        "beta"@,
        usable_beta(c.alpha),
        None,
    )
    ||| to_values && drawn(with_values(h.after_beta, p), end, "rho"@, nonzero(), None)
    ||| to_rho && drawn(
        h.after_rho.push(Entry::Point("w"@, p.batch_w)),
        end,
        "z"@,
        usable_z(c.alpha, c.beta),
        None,
    )
}

/// The history at the end of a run.
pub open spec fn run_end(p: ChopinModel, h: ChopinRun) -> Seq<Entry> {
    h.after_z.push(Entry::Point("wp"@, p.batch_w_prime))
}

/// Whether a proof is the honest proof of an opening of `f` at `u` for the
/// challenges of a run that starts from the history `start`.
pub open spec fn is_honest_run(
    start: Seq<Entry>,
    key: Seq<int>,
    f: Seq<int>,
    u: Seq<int>,
    p: ChopinModel,
    c: ChopinChallenges,
    h: ChopinRun,
) -> bool {
    &&& is_opening_run(start, p, c, h)
    &&& is_batch_run(p, c, h)
    &&& reduced(c.rho)
    &&& fmul(c.beta, finv(c.beta)) == 1
    &&& nodes_ok(seq![c.alpha, c.beta, finv(c.beta)])
    &&& nodes_ok(seq![c.beta, finv(c.beta)])
    &&& p == honest_proof(key, f, left_part(u), right_part(u), c)
}

/// Whether a proof is the honest proof of an opening of `f` at `u` for some
/// run that leads from the history `start` to the history `end`.
pub open spec fn honest_opening(
    start: Seq<Entry>,
    end: Seq<Entry>,
    key: Seq<int>,
    f: Seq<int>,
    u: Seq<int>,
    p: ChopinModel,
) -> bool {
    exists|c: ChopinChallenges, h: ChopinRun|
        run_end(p, h) == end && #[trigger] is_honest_run(start, key, f, u, p, c, h)
}

/// Whether an honest prover's run from the history `start` ends in `end` because
/// the draws of one of its challenges were exhausted.
pub open spec fn is_honest_stop(
    start: Seq<Entry>,
    end: Seq<Entry>,
    key: Seq<int>,
    f: Seq<int>,
    u: Seq<int>,
    c: ChopinChallenges,
    h: ChopinRun,
) -> bool {
    is_stopped_run(
        start,
        end,
        honest_proof(key, f, left_part(u), right_part(u), c),
        c,
        h,
        true,
    )
}

/// Whether `beta` has an inverse and the evaluation points can be interpolated.
pub open spec fn points_apart(c: ChopinChallenges) -> bool {
    let bi = finv(c.beta);
    &&& fmul(c.beta, bi) == 1
    &&& c.alpha != c.beta
    &&& c.alpha != bi
    &&& c.beta != bi
    &&& nodes_ok(seq![c.alpha, c.beta, bi])
    &&& nodes_ok(seq![c.beta, bi])
}

/// Whether `ok` is the verdict on a proof for the challenges of a run that
/// leads from the history `start` to the history `end`. The batch opening is
/// looked at only where the two checks before it hold.
pub open spec fn is_verdict(
    start: Seq<Entry>,
    end: Seq<Entry>,
    vk: ChopinKey,
    com: int,
    u: Seq<int>,
    y: int,
    p: ChopinModel,
    ok: bool,
    c: ChopinChallenges,
    h: ChopinRun,
) -> bool {
    &&& is_opening_run(start, p, c, h)
    &&& ok ==> points_apart(c)
    &&& ok == accepts(vk, com, left_part(u), right_part(u), y, p, c)
    &&& if opening_holds(vk, com, left_part(u), right_part(u), y, p, c) {
        is_batch_run(p, c, h) && end == run_end(p, h)
    } else {
        end == with_values(h.after_beta, p)
    }
}

/// Whether `ok` is the verdict on a proof for some run that leads from the
/// history `start` to the history `end`.
pub open spec fn verdict(
    start: Seq<Entry>,
    end: Seq<Entry>,
    vk: ChopinKey,
    com: int,
    u: Seq<int>,
    y: int,
    p: ChopinModel,
    ok: bool,
) -> bool {
    exists|c: ChopinChallenges, h: ChopinRun|
        #[trigger] is_verdict(start, end, vk, com, u, y, p, ok, c, h)
}

} // verus!
