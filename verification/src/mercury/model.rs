//! The mathematical model of the scheme: what an honest prover sends and what
//! a verifier accepts, over field elements and logarithms.

use crate::bdfg::{claim_sets, commit_scalar, const_term, union_of, Claim};
use crate::bdfg_laws::{batch_opening, batch_quotient, claim_values};
use crate::dims::{padded, split};
use crate::field::{fadd, finv, fmul, fneg, fpow, fsub};
use crate::grid::combine;
use crate::laurent::sym_witness;
use crate::mercury::fold::{block_dots, fold_quotient, fold_remainder, reversed};
use crate::poly::{dot, feval, linear_quotient, nodes_ok, p_add_scaled, p_sub_const, p_vanishing};
use crate::tensor::{eq_vec, p2, tensor};
use crate::transcript::Entry;
use vstd::prelude::*;

verus! {

/// The views of a proof.
pub struct MercuryModel {
    pub comm_h: int,
    pub comm_g: int,
    pub comm_q: int,
    pub comm_s: int,
    pub comm_d: int,
    pub comm_quot_f: int,
    pub comm_w: int,
    pub comm_w_prime: int,
    pub g_zeta: int,
    pub g_zeta_inv: int,
    pub h_zeta: int,
    pub h_zeta_inv: int,
    pub s_zeta: int,
    pub s_zeta_inv: int,
}

/// The challenges of a run.
pub struct MercuryChallenges {
    pub alpha: int,
    pub gamma: int,
    pub zeta: int,
    pub beta: int,
    pub z: int,
    pub pair: int,
}

/// Whether `zeta` and its inverse are distinct points.
pub open spec fn zeta_ok(zeta: int) -> bool {
    zeta != 0 && fmul(zeta, zeta) != 1
}

/// Whether `alpha` is neither `zeta` nor its inverse.
pub open spec fn alpha_ok(c: MercuryChallenges) -> bool {
    c.alpha != c.zeta && c.alpha != finv(c.zeta)
}

/// Whether `z` is not among the evaluation points.
pub open spec fn z_ok(c: MercuryChallenges) -> bool {
    c.z != c.zeta && c.z != finv(c.zeta) && c.z != c.alpha
}

/// The exponent of the number of columns of a table in `mu` variables.
pub open spec fn cols(mu: int) -> int {
    split(mu).0
}

/// The first part of a point.
pub open spec fn left_part(u: Seq<int>) -> Seq<int> {
    u.take(cols(u.len() as int))
}

/// The last part of a point.
pub open spec fn right_part(u: Seq<int>) -> Seq<int> {
    u.skip(cols(u.len() as int))
}

/// The polynomials of an honest prover.
pub struct MercuryPolys {
    pub h: Seq<int>,
    pub g: Seq<int>,
    pub q: Seq<int>,
    pub s: Seq<int>,
    pub d: Seq<int>,
    pub quot_f: Seq<int>,
}

/// The restriction `h`, with zeros up to the number of columns.
pub open spec fn restriction(f: Seq<int>, u1: Seq<int>, u2: Seq<int>) -> Seq<int> {
    let b = p2(u1.len() as int);
    padded(
        block_dots(f, eq_vec(u1, u1.len() as int), b, p2(u2.len() as int)),
        b as nat,
    )
}

/// The witness `S` of the two inner products.
pub open spec fn s_witness(
    g: Seq<int>,
    h: Seq<int>,
    u1: Seq<int>,
    u2: Seq<int>,
    gamma: int,
) -> Seq<int> {
    let t = u1.len() as int;
    combine(sym_witness(g, u1, t), sym_witness(h, padded(u2, u1.len()), t), gamma)
}

/// `f - (zeta^b - alpha) q - g(zeta)`.
pub open spec fn folding_numerator(
    f: Seq<int>,
    q: Seq<int>,
    zeta_b_alpha: int,
    g_zeta: int,
) -> Seq<int> {
    p_sub_const(p_add_scaled(f, q, fneg(zeta_b_alpha)), g_zeta)
}

/// The polynomials of an honest prover for the table `f` and the point
/// `(u1, u2)`.
pub open spec fn honest_polys(
    f: Seq<int>,
    u1: Seq<int>,
    u2: Seq<int>,
    c: MercuryChallenges,
) -> MercuryPolys {
    let b = p2(u1.len() as int);
    let n = p2(u2.len() as int);
    let h = restriction(f, u1, u2);
    let g = fold_remainder(f, b, n, c.alpha);
    let q = fold_quotient(f, b, n, c.alpha);
    let zba = fsub(fpow(c.zeta, b as nat), c.alpha);
    MercuryPolys {
        h,
        g,
        q,
        s: s_witness(g, h, u1, u2, c.gamma),
        d: reversed(g),
        quot_f: linear_quotient(folding_numerator(f, q, zba, feval(g, c.zeta)), c.zeta),
    }
}

/// The values at which the batch opens `g`, `h`, `S` and `D`.
pub struct MercuryValues {
    pub g_zeta: int,
    pub g_zeta_inv: int,
    pub h_zeta: int,
    pub h_zeta_inv: int,
    pub h_alpha: int,
    pub s_zeta: int,
    pub s_zeta_inv: int,
    pub d_zeta: int,
}

/// The claims of the batch opening.
pub open spec fn claims_of(
    g: Seq<int>,
    h: Seq<int>,
    s: Seq<int>,
    d: Seq<int>,
    v: MercuryValues,
    zeta: int,
    alpha: int,
) -> Seq<Claim> {
    let zi = finv(zeta);
    seq![
        Claim { poly: g, points: seq![zeta, zi], values: seq![v.g_zeta, v.g_zeta_inv] },
        Claim {
            poly: h,
            points: seq![zeta, zi, alpha],
            values: seq![v.h_zeta, v.h_zeta_inv, v.h_alpha],
        },
        Claim { poly: s, points: seq![zeta, zi], values: seq![v.s_zeta, v.s_zeta_inv] },
        Claim { poly: d, points: seq![zeta], values: seq![v.d_zeta] },
    ]
}

/// The values of an honest prover's polynomials.
pub open spec fn honest_values(p: MercuryPolys, c: MercuryChallenges) -> MercuryValues {
    let zi = finv(c.zeta);
    MercuryValues {
        g_zeta: feval(p.g, c.zeta),
        g_zeta_inv: feval(p.g, zi),
        h_zeta: feval(p.h, c.zeta),
        h_zeta_inv: feval(p.h, zi),
        h_alpha: feval(p.h, c.alpha),
        s_zeta: feval(p.s, c.zeta),
        s_zeta_inv: feval(p.s, zi),
        d_zeta: feval(p.d, c.zeta),
    }
}

/// The claims of an honest prover.
pub open spec fn honest_claims(p: MercuryPolys, c: MercuryChallenges) -> Seq<Claim> {
    claims_of(p.g, p.h, p.s, p.d, honest_values(p, c), c.zeta, c.alpha)
}

/// A commitment to a polynomial.
pub open spec fn committed(key: Seq<int>, p: Seq<int>) -> int {
    dot(key, p, p.len() as int)
}

/// The proof of an honest prover for the table `f` and the point `(u1, u2)`.
pub open spec fn honest_proof(
    key: Seq<int>,
    f: Seq<int>,
    u1: Seq<int>,
    u2: Seq<int>,
    c: MercuryChallenges,
) -> MercuryModel {
    let p = honest_polys(f, u1, u2, c);
    let v = honest_values(p, c);
    let claims = honest_claims(p, c);
    MercuryModel {
        comm_h: committed(key, p.h),
        comm_g: committed(key, p.g),
        comm_q: committed(key, p.q),
        comm_s: committed(key, p.s),
        comm_d: committed(key, p.d),
        comm_quot_f: committed(key, p.quot_f),
        comm_w: committed(key, batch_quotient(claims, c.beta)),
        comm_w_prime: committed(key, batch_opening(claims, c.beta, c.z)),
        g_zeta: v.g_zeta,
        g_zeta_inv: v.g_zeta_inv,
        h_zeta: v.h_zeta,
        h_zeta_inv: v.h_zeta_inv,
        s_zeta: v.s_zeta,
        s_zeta_inv: v.s_zeta_inv,
    }
}

/// The value `h(alpha)` that the identity of the inner products leaves.
pub open spec fn recovered_h_alpha(
    u1: Seq<int>,
    u2: Seq<int>,
    y: int,
    p: MercuryModel,
    c: MercuryChallenges,
) -> int {
    let zi = finv(c.zeta);
    let n1 = u1.len() as int;
    let n2 = u2.len() as int;
    let first = fadd(
        fmul(p.g_zeta, tensor(u1, zi, n1)),
        fmul(p.g_zeta_inv, tensor(u1, c.zeta, n1)),
    );
    let second = fsub(
        fadd(fmul(p.h_zeta, tensor(u2, zi, n2)), fmul(p.h_zeta_inv, tensor(u2, c.zeta, n2))),
        fadd(y, y),
    );
    fmul(
        fsub(
            fsub(fadd(first, fmul(c.gamma, second)), fmul(c.zeta, p.s_zeta)),
            fmul(zi, p.s_zeta_inv),
        ),
        finv(fadd(1, 1)),
    )
}

/// The values that a verifier puts into the batch check.
pub open spec fn recovered_values(
    u1: Seq<int>,
    u2: Seq<int>,
    y: int,
    p: MercuryModel,
    c: MercuryChallenges,
) -> MercuryValues {
    MercuryValues {
        g_zeta: p.g_zeta,
        g_zeta_inv: p.g_zeta_inv,
        h_zeta: p.h_zeta,
        h_zeta_inv: p.h_zeta_inv,
        h_alpha: recovered_h_alpha(u1, u2, y, p, c),
        s_zeta: p.s_zeta,
        s_zeta_inv: p.s_zeta_inv,
        d_zeta: fmul(fpow(c.zeta, (p2(u1.len() as int) - 1) as nat), p.g_zeta_inv),
    }
}

/// The views of a verifier key.
pub struct MercuryKey {
    pub g1_one: int,
    pub g2_one: int,
    pub g2_tau: int,
}

/// The left side of the folding statement.
pub open spec fn folding_left(
    vk: MercuryKey,
    com: int,
    b: int,
    p: MercuryModel,
    c: MercuryChallenges,
) -> int {
    let zb = fmul(fpow(c.zeta, (b - 1) as nat), c.zeta);
    fadd(
        com,
        dot(
            seq![p.comm_q, vk.g1_one, p.comm_quot_f],
            seq![fneg(fsub(zb, c.alpha)), fneg(p.g_zeta), c.zeta],
            3,
        ),
    )
}

/// The left side of the batch statement.
pub open spec fn batch_left(
    vk: MercuryKey,
    p: MercuryModel,
    v: MercuryValues,
    c: MercuryChallenges,
) -> int {
    let e = Seq::<int>::empty();
    let claims = claims_of(e, e, e, e, v, c.zeta, c.alpha);
    let sets = claim_sets(claims);
    let u = union_of(sets, 4);
    dot(
        seq![p.comm_g, p.comm_h, p.comm_s, p.comm_d, vk.g1_one, p.comm_w, p.comm_w_prime],
        seq![
            commit_scalar(sets, u, c.beta, c.z, 0),
            commit_scalar(sets, u, c.beta, c.z, 1),
            commit_scalar(sets, u, c.beta, c.z, 2),
            commit_scalar(sets, u, c.beta, c.z, 3),
            fneg(const_term(sets, claim_values(claims), u, c.beta, c.z, 4)),
            fneg(feval(p_vanishing(u, u.len() as int), c.z)),
            c.z,
        ],
        7,
    )
}

/// Whether a verifier accepts a proof.
pub open spec fn accepts(
    vk: MercuryKey,
    com: int,
    u1: Seq<int>,
    u2: Seq<int>,
    y: int,
    p: MercuryModel,
    c: MercuryChallenges,
) -> bool {
    let l1 = folding_left(vk, com, p2(u1.len() as int), p, c);
    let l2 = batch_left(vk, p, recovered_values(u1, u2, y, p, c), c);
    dot(
        seq![
            fadd(l1, fmul(l2, c.pair)),
            fneg(fadd(p.comm_quot_f, fmul(p.comm_w_prime, c.pair))),
        ],
        seq![vk.g2_one, vk.g2_tau],
        2,
    ) == 0
}

/// The history `log` with the statement that `com` opens at `u` to `y`.
pub open spec fn stated(log: Seq<Entry>, com: int, u: Seq<int>, y: int) -> Seq<Entry> {
    let mu = u.len() as int;
    log.push(Entry::Field("ver"@, 1)).push(Entry::Field("mu"@, mu)).push(
        Entry::Field("t"@, cols(mu)),
    ).push(Entry::Field("b"@, p2(cols(mu)))).push(Entry::Point("cf"@, com)).push(
        Entry::Fields("u"@, u),
    ).push(Entry::Field("e"@, y))
}

/// The history of a run from `start` up to `zeta`.
pub open spec fn after_zeta(
    start: Seq<Entry>,
    p: MercuryModel,
    c: MercuryChallenges,
) -> Seq<Entry> {
    start.push(Entry::Point("h"@, p.comm_h)).push(Entry::Challenge("a"@, c.alpha)).push(
        Entry::Point("q"@, p.comm_q),
    ).push(Entry::Point("g"@, p.comm_g)).push(Entry::Challenge("gm"@, c.gamma)).push(
        Entry::Point("s"@, p.comm_s),
    ).push(Entry::Point("d"@, p.comm_d)).push(Entry::Challenge("zt"@, c.zeta))
}

/// The history of a run from `start` up to `beta`.
pub open spec fn after_beta(
    start: Seq<Entry>,
    p: MercuryModel,
    c: MercuryChallenges,
) -> Seq<Entry> {
    after_zeta(start, p, c).push(Entry::Field("gz"@, p.g_zeta)).push(
        Entry::Field("gzi"@, p.g_zeta_inv),
    ).push(Entry::Field("hz"@, p.h_zeta)).push(Entry::Field("hzi"@, p.h_zeta_inv)).push(
        Entry::Field("sz"@, p.s_zeta),
    ).push(Entry::Field("szi"@, p.s_zeta_inv)).push(Entry::Point("tf"@, p.comm_quot_f)).push(
        Entry::Challenge("bt"@, c.beta),
    )
}

/// The history of a run from `start` up to `z`.
pub open spec fn after_z(start: Seq<Entry>, p: MercuryModel, c: MercuryChallenges) -> Seq<Entry> {
    after_beta(start, p, c).push(Entry::Point("w"@, p.comm_w)).push(Entry::Challenge("z"@, c.z))
}

/// The history of a whole run from `start`.
pub open spec fn run_end(start: Seq<Entry>, p: MercuryModel, c: MercuryChallenges) -> Seq<Entry> {
    after_z(start, p, c).push(Entry::Point("wp"@, p.comm_w_prime)).push(
        Entry::Challenge("pd"@, c.pair),
    )
}

/// Whether the points of a run are distinct and can be interpolated.
pub open spec fn points_ok(c: MercuryChallenges) -> bool {
    let zi = finv(c.zeta);
    &&& zeta_ok(c.zeta)
    &&& alpha_ok(c)
    &&& c.zeta != zi
    &&& fmul(c.zeta, zi) == 1
    &&& nodes_ok(seq![c.zeta, zi])
    &&& nodes_ok(seq![c.zeta, zi, c.alpha])
    &&& nodes_ok(seq![c.zeta])
}

/// Whether a proof is the honest proof of an opening of `f` at `u` for the
/// challenges of a run that leads from the history `start` to `end`.
pub open spec fn is_honest_run(
    start: Seq<Entry>,
    end: Seq<Entry>,
    key: Seq<int>,
    f: Seq<int>,
    u: Seq<int>,
    p: MercuryModel,
    c: MercuryChallenges,
) -> bool {
    &&& end == run_end(start, p, c)
    &&& points_ok(c)
    &&& z_ok(c)
    &&& p == honest_proof(key, f, left_part(u), right_part(u), c)
}

/// Whether a prover's run from `start` ended in `end` on a challenge that
/// cannot be used.
pub open spec fn prover_stopped(
    start: Seq<Entry>,
    end: Seq<Entry>,
    p: MercuryModel,
    c: MercuryChallenges,
) -> bool {
    ||| !zeta_ok(c.zeta) && end == after_zeta(start, p, c)
    ||| zeta_ok(c.zeta) && !alpha_ok(c) && end == after_beta(start, p, c)
    ||| zeta_ok(c.zeta) && alpha_ok(c) && !z_ok(c) && end == after_z(start, p, c)
}

/// Whether an honest prover's run from `start` ended in `end` on a challenge that
/// cannot be used.
pub open spec fn is_honest_stop(
    start: Seq<Entry>,
    end: Seq<Entry>,
    key: Seq<int>,
    f: Seq<int>,
    u: Seq<int>,
    c: MercuryChallenges,
) -> bool {
    prover_stopped(start, end, honest_proof(key, f, left_part(u), right_part(u), c), c)
}

/// Whether a verifier's run from `start` ended in `end` on a challenge that
/// cannot be used.
pub open spec fn verifier_stopped(
    start: Seq<Entry>,
    end: Seq<Entry>,
    p: MercuryModel,
    c: MercuryChallenges,
) -> bool {
    ||| !zeta_ok(c.zeta) && end == after_zeta(start, p, c)
    ||| zeta_ok(c.zeta) && !(alpha_ok(c) && z_ok(c)) && end == after_z(start, p, c)
}

/// Whether `ok` is the verdict on a proof for the challenges of a run that
/// leads from the history `start` to `end`.
pub open spec fn is_verdict(
    start: Seq<Entry>,
    end: Seq<Entry>,
    vk: MercuryKey,
    com: int,
    u: Seq<int>,
    y: int,
    p: MercuryModel,
    ok: bool,
    c: MercuryChallenges,
) -> bool {
    &&& end == run_end(start, p, c)
    &&& points_ok(c)
    &&& z_ok(c)
    &&& ok == accepts(vk, com, left_part(u), right_part(u), y, p, c)
}

/// Whether `ok` is the verdict on a proof for some run that leads from the
/// history `start` to `end`.
pub open spec fn verdict(
    start: Seq<Entry>,
    end: Seq<Entry>,
    vk: MercuryKey,
    com: int,
    u: Seq<int>,
    y: int,
    p: MercuryModel,
    ok: bool,
) -> bool {
    exists|c: MercuryChallenges| #[trigger] is_verdict(start, end, vk, com, u, y, p, ok, c)
}

} // verus!
