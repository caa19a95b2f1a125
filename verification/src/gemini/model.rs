//! What a Gemini proof holds, what is checked of it, and the history of a run.

use crate::bdfg::linq;
use crate::field::{fadd, fmul, fneg, fsub};
use crate::gemini::fold::{fold_list, fold_relation};
use crate::gemini::shplonk::{
    all_commitments, batched_quotient, batched_remainder, collides, reduced_commitment, Opening,
};
use crate::poly::{dot, feval, invertible};
use crate::transcript::Entry;
use vstd::prelude::*;

verus! {

/// A proof as a mathematical value.
pub struct GeminiModel {
    pub fold_comms: Seq<int>,
    pub fold_evals: Seq<(int, int)>,
    pub c0: int,
    pub c1: int,
    pub q_commit: int,
    pub witness: int,
}

/// The challenges of a run.
pub struct GeminiChallenges {
    pub r: int,
    pub nu: int,
    pub z: int,
}

/// The verifier's key.
pub struct GeminiKey {
    pub g: int,
    pub h: int,
    pub h_x: int,
}

/// `r^{2^i}`.
pub open spec fn squared(r: int, i: int) -> int
    decreases i,
{
    if i <= 0 {
        r
    } else {
        fmul(squared(r, i - 1), squared(r, i - 1))
    }
}

/// Number of folds of a table in `mu` variables.
pub open spec fn num_folds(mu: int) -> int {
    if mu > 0 {
        mu - 1
    } else {
        0
    }
}

/// The claims of a proof, in their order: every table but the last at
/// `r^{2^i}` and at `-r^{2^i}`, and the last at zero and at one.
pub open spec fn gemini_claims(
    mu: int,
    r: int,
    evals: Seq<(int, int)>,
    c0: int,
    c1: int,
) -> Seq<Opening> {
    let n = num_folds(mu);
    Seq::new(
        (2 * n + 2) as nat,
        |j: int|
            if j == 2 * n {
                Opening { round: n, point: 0, value: c0 }
            } else if j > 2 * n {
                Opening { round: n, point: 1, value: fadd(c0, c1) }
            } else if j % 2 == 0 {
                Opening { round: j / 2, point: squared(r, j / 2), value: evals[j / 2].0 }
            } else {
                Opening { round: j / 2, point: fneg(squared(r, j / 2)), value: evals[j / 2].1 }
            },
    )
}

/// The claims of a proof for the challenge `r`.
pub open spec fn claims_of(p: GeminiModel, mu: int, r: int) -> Seq<Opening> {
    gemini_claims(mu, r, p.fold_evals, p.c0, p.c1)
}

/// Value at `r^{2^{i + 1}}` of the fold after the `i`-th table.
pub open spec fn next_value(p: GeminiModel, mu: int, r: int, i: int) -> int {
    if i + 1 < num_folds(mu) {
        p.fold_evals[i + 1].0
    } else {
        fadd(p.c0, fmul(p.c1, squared(r, i + 1)))
    }
}

/// Whether the first `n` fold relations hold.
pub open spec fn folds_hold(p: GeminiModel, u: Seq<int>, r: int, n: int) -> bool {
    forall|i: int|
        0 <= i < n ==> #[trigger] fold_relation(
            squared(r, i),
            u[i],
            p.fold_evals[i].0,
            p.fold_evals[i].1,
            next_value(p, u.len() as int, r, i),
        )
}

/// Value of the last fold at the last variable.
pub open spec fn final_value(p: GeminiModel, u: Seq<int>) -> int {
    let x = u[u.len() - 1];
    fadd(fmul(fsub(1, x), p.c0), fmul(x, p.c1))
}

/// Whether the values of a proof are those of folds that lead to the value `y`.
pub open spec fn values_fit(p: GeminiModel, u: Seq<int>, r: int, y: int) -> bool {
    folds_hold(p, u, r, num_folds(u.len() as int)) && final_value(p, u) == y
}

/// The equation of a KZG opening of `com` at `x` to `y` with a witness.
pub open spec fn kzg_accepts(vk: GeminiKey, com: int, x: int, y: int, witness: int) -> bool {
    dot(
        seq![fadd(com, fmul(fneg(vk.g), y)), fneg(witness)],
        seq![vk.h, fadd(vk.h_x, fmul(vk.h, fneg(x)))],
        2,
    ) == 0
}

/// Whether a proof is accepted for its challenges.
pub open spec fn accepts(
    vk: GeminiKey,
    com: int,
    mu: int,
    p: GeminiModel,
    c: GeminiChallenges,
) -> bool {
    kzg_accepts(
        vk,
        reduced_commitment(
            claims_of(p, mu, c.r),
            all_commitments(com, p.fold_comms),
            p.q_commit,
            vk.g,
            c.nu,
            c.z,
        ),
        c.z,
        0,
        p.witness,
    )
}

/// Commitments to all tables of a list but the first.
pub open spec fn fold_commitments(key: Seq<int>, polys: Seq<Seq<int>>) -> Seq<int> {
    Seq::new(
        (polys.len() - 1) as nat,
        |i: int| dot(key, polys[i + 1], polys[i + 1].len() as int),
    )
}

/// Values of the first `n` tables of a list at `r^{2^i}` and `-r^{2^i}`.
pub open spec fn fold_values(polys: Seq<Seq<int>>, r: int, n: int) -> Seq<(int, int)> {
    Seq::new(
        n as nat,
        |i: int| (feval(polys[i], squared(r, i)), feval(polys[i], fneg(squared(r, i)))),
    )
}

/// The claims of the honest prover.
pub open spec fn honest_claims(f: Seq<int>, u: Seq<int>, r: int) -> Seq<Opening> {
    let mu = u.len() as int;
    let polys = fold_list(f, u, u.len());
    gemini_claims(
        mu,
        r,
        fold_values(polys, r, num_folds(mu)),
        polys[mu - 1][0],
        polys[mu - 1][1],
    )
}

/// `Q` of the honest prover.
pub open spec fn honest_quotient(f: Seq<int>, u: Seq<int>, r: int, nu: int) -> Seq<int> {
    let os = honest_claims(f, u, r);
    batched_quotient(os, fold_list(f, u, u.len()), nu, f.len(), os.len() as int)
}

/// `G` of the honest prover.
pub open spec fn honest_remainder(f: Seq<int>, u: Seq<int>, c: GeminiChallenges) -> Seq<int> {
    let os = honest_claims(f, u, c.r);
    batched_remainder(
        os,
        fold_list(f, u, u.len()),
        honest_quotient(f, u, c.r, c.nu),
        c.nu,
        c.z,
        os.len() as int,
    )
}

/// The proof of the honest prover for the table `f` at `u`.
pub open spec fn honest_proof(
    key: Seq<int>,
    f: Seq<int>,
    u: Seq<int>,
    c: GeminiChallenges,
) -> GeminiModel {
    let mu = u.len() as int;
    let polys = fold_list(f, u, u.len());
    let q = honest_quotient(f, u, c.r, c.nu);
    let w = linq(honest_remainder(f, u, c), c.z);
    GeminiModel {
        fold_comms: fold_commitments(key, polys),
        fold_evals: fold_values(polys, c.r, num_folds(mu)),
        c0: polys[mu - 1][0],
        c1: polys[mu - 1][1],
        q_commit: dot(key, q, q.len() as int),
        witness: dot(key, w, w.len() as int),
    }
}

/// The history of a fresh transcript for a number of variables.
pub open spec fn fresh_log(domain: Seq<char>, mu: int) -> Seq<Entry> {
    seq![Entry::Domain(domain), Entry::Field("mu"@, mu)]
}

/// The history `log` with the statement that `com` opens at `u` to `y`.
pub open spec fn stated(log: Seq<Entry>, com: int, u: Seq<int>, y: int) -> Seq<Entry> {
    log.push(Entry::Point("commitment"@, com)).push(Entry::Fields("point"@, u)).push(
        Entry::Field("eval"@, y),
    )
}

/// The history `log` with the first `n` commitments to folds.
pub open spec fn with_folds(log: Seq<Entry>, coms: Seq<int>, n: int) -> Seq<Entry>
    decreases n,
{
    if n <= 0 {
        log
    } else {
        with_folds(log, coms, n - 1).push(Entry::Point("fold_comm"@, coms[n - 1]))
    }
}

/// The history `log` with the first `n` claims.
pub open spec fn with_claims(log: Seq<Entry>, os: Seq<Opening>, coms: Seq<int>, n: int) -> Seq<
    Entry,
>
    decreases n,
{
    if n <= 0 {
        log
    } else {
        let o = os[n - 1];
        with_claims(log, os, coms, n - 1).push(Entry::Field("Shplonk:claim_idx"@, n - 1)).push(
            Entry::Point("Shplonk:claim_cm"@, coms[o.round]),
        ).push(Entry::Field("Shplonk:claim_pt"@, o.point)).push(
            Entry::Field("Shplonk:claim_ev"@, o.value),
        )
    }
}

/// The history of a run from `start` up to `r`.
pub open spec fn after_r(start: Seq<Entry>, fold_comms: Seq<int>, r: int) -> Seq<Entry> {
    with_folds(start, fold_comms, fold_comms.len() as int).push(Entry::Challenge("r"@, r))
}

/// The history of a run from `start` up to `nu`.
pub open spec fn after_nu(
    start: Seq<Entry>,
    os: Seq<Opening>,
    com: int,
    fold_comms: Seq<int>,
    r: int,
    nu: int,
) -> Seq<Entry> {
    with_claims(
        after_r(start, fold_comms, r),
        os,
        all_commitments(com, fold_comms),
        os.len() as int,
    ).push(Entry::Challenge("Shplonk:nu"@, nu))
}

/// The history of a whole run from `start`.
pub open spec fn run_end(
    start: Seq<Entry>,
    os: Seq<Opening>,
    com: int,
    fold_comms: Seq<int>,
    q_commit: int,
    c: GeminiChallenges,
) -> Seq<Entry> {
    after_nu(start, os, com, fold_comms, c.r, c.nu).push(Entry::Point("Shplonk:Q"@, q_commit)).push(
        Entry::Challenge("Shplonk:z"@, c.z),
    )
}

/// Whether `z` can be used with the claims.
pub open spec fn z_ok(os: Seq<Opening>, z: int) -> bool {
    z != 0 && !collides(os, z)
}

/// Whether the differences of `z` and the points of the claims have inverses.
pub open spec fn z_apart(os: Seq<Opening>, z: int) -> bool {
    forall|j: int| 0 <= j < os.len() ==> invertible(fsub(z, (#[trigger] os[j]).point))
}

/// Whether a proof is the honest proof of an opening of `f` at `u` for the
/// challenges of a run that leads from the history `start` to `end`.
pub open spec fn is_honest_run(
    start: Seq<Entry>,
    end: Seq<Entry>,
    key: Seq<int>,
    f: Seq<int>,
    u: Seq<int>,
    com: int,
    p: GeminiModel,
    c: GeminiChallenges,
) -> bool {
    let os = honest_claims(f, u, c.r);
    &&& p == honest_proof(key, f, u, c)
    &&& c.r != 0
    &&& c.nu != 0
    &&& z_ok(os, c.z)
    &&& z_apart(os, c.z)
    &&& end == run_end(start, os, com, p.fold_comms, p.q_commit, c)
}

/// Whether a run from `start` with the given claims and commitments, for the
/// challenges `c`, ended in `end` on a challenge that cannot be used.
pub open spec fn stopped(
    start: Seq<Entry>,
    end: Seq<Entry>,
    os: Seq<Opening>,
    com: int,
    fold_comms: Seq<int>,
    q_commit: int,
    c: GeminiChallenges,
) -> bool {
    ||| c.r == 0 && end == after_r(start, fold_comms, c.r)
    ||| c.r != 0 && c.nu == 0 && end == after_nu(start, os, com, fold_comms, c.r, c.nu)
    ||| c.r != 0 && c.nu != 0 && !z_ok(os, c.z) && end == run_end(
        start,
        os,
        com,
        fold_comms,
        q_commit,
        c,
    )
}

/// Whether the verdict on a proof is `ok` for the challenges of a run that
/// leads from the history `start` to `end`. A proof whose values do not fit is
/// rejected after the first challenge.
pub open spec fn is_verdict(
    start: Seq<Entry>,
    end: Seq<Entry>,
    vk: GeminiKey,
    com: int,
    u: Seq<int>,
    y: int,
    p: GeminiModel,
    ok: bool,
    c: GeminiChallenges,
) -> bool {
    let mu = u.len() as int;
    let os = claims_of(p, mu, c.r);
    &&& c.r != 0
    &&& if values_fit(p, u, c.r, y) {
        &&& c.nu != 0
        &&& z_ok(os, c.z)
        &&& z_apart(os, c.z)
        &&& end == run_end(start, os, com, p.fold_comms, p.q_commit, c)
        &&& ok == accepts(vk, com, mu, p, c)
    } else {
        &&& end == after_r(start, p.fold_comms, c.r)
        &&& !ok
    }
}

} // verus!
