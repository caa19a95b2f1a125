//! What a Mulcs proof holds, what is checked of it, and the history of a run.

use crate::field::{fadd, fmul, fneg, fsub, reduced};
use crate::mulcs::claymore::claymore_holds;
use crate::mulcs::division::p_div;
use crate::mulcs::util::{claymore_h, claymore_h_bar};
use crate::poly::{dot, feval, interp, invertible, nodes_ok, p_add_scaled, p_sub, p_vanishing};
use crate::quadratic::{line_offset, line_slope};
use crate::tensor::{mle_eval, p2};
use crate::transcript::Entry;
use vstd::prelude::*;

verus! {

/// A proof as a mathematical value.
pub struct MulcsModel {
    pub cm_hbar: int,
    pub y_f: int,
    pub y_f_prime: int,
    pub y_hbar: int,
    pub y_hbar_prime: int,
    pub z: int,
    pub pi: int,
    pub rf: Seq<int>,
    pub rh: Seq<int>,
}

/// The challenges of a run.
pub struct MulcsChallenges {
    pub delta: int,
    pub z: int,
}

/// The verifier's key.
pub struct MulcsKey {
    pub g1_one: int,
    pub g1_x: int,
    pub g2_one: int,
    pub g2_x: int,
    pub g2_x2: int,
    pub gamma: int,
}

/// The helper polynomial of the table `f` at `u`.
pub open spec fn honest_h_bar(f: Seq<int>, u: Seq<int>, gamma: int, delta: int) -> Seq<int> {
    let y = mle_eval(f, u);
    claymore_h_bar(claymore_h(f, u, u.len() as int, y), gamma, f.len() as int, delta)
}

/// The interpolant of a polynomial at two points.
pub open spec fn two_point_interp(p: Seq<int>, a: int, b: int) -> Seq<int> {
    interp(seq![a, b], seq![feval(p, a), feval(p, b)])
}

/// The quotient of a polynomial, less its interpolant at two points, by their
/// vanishing polynomial.
pub open spec fn two_point_quotient(p: Seq<int>, a: int, b: int) -> Seq<int> {
    p_div(p_sub(p, two_point_interp(p, a, b)), p_vanishing(seq![a, b], 2))
}

/// The sum of the two quotients.
pub open spec fn combined_quotient(f: Seq<int>, hb: Seq<int>, z: int, gz: int) -> Seq<int> {
    p_add_scaled(two_point_quotient(f, z, gz), two_point_quotient(hb, z, gz), 1)
}

/// The proof of the honest prover for the table `f` at `u`.
pub open spec fn honest_proof(
    key: Seq<int>,
    gamma: int,
    f: Seq<int>,
    u: Seq<int>,
    c: MulcsChallenges,
) -> MulcsModel {
    let hb = honest_h_bar(f, u, gamma, c.delta);
    let gz = fmul(gamma, c.z);
    let q = combined_quotient(f, hb, c.z, gz);
    MulcsModel {
        cm_hbar: dot(key, hb, hb.len() as int),
        y_f: feval(f, c.z),
        y_f_prime: feval(f, gz),
        y_hbar: feval(hb, c.z),
        y_hbar_prime: feval(hb, gz),
        z: c.z,
        pi: dot(key, q, q.len() as int),
        rf: two_point_interp(f, c.z, gz),
        rh: two_point_interp(hb, c.z, gz),
    }
}

/// The history of a run from `start`.
pub open spec fn run_end(start: Seq<Entry>, cm_hbar: int, c: MulcsChallenges) -> Seq<Entry> {
    start.push(Entry::Challenge("mulcs_delta"@, c.delta)).push(
        Entry::Point("cm_hbar"@, cm_hbar),
    ).push(Entry::Challenge("mulcs_z"@, c.z))
}

/// The history of a fresh transcript for a number of variables.
pub open spec fn fresh_log(mu: int) -> Seq<Entry> {
    seq![Entry::Domain("mulcs-open"@), Entry::Field("mu"@, mu)]
}

/// The history of a fresh transcript for the aggregated polynomial of a batch.
pub open spec fn aggregate_log(a: Seq<int>) -> Seq<Entry> {
    seq![
        Entry::Domain("mulcs-gprime-open"@),
        Entry::Fields("point_a2"@, a),
        Entry::Field("mu"@, a.len() as int),
    ]
}

/// The equation of the batched KZG opening at `z` and `gamma z`.
pub open spec fn pairing_holds(vk: MulcsKey, com: int, p: MulcsModel, z: int) -> bool {
    let gz = fmul(vk.gamma, z);
    let r0 = fadd(line_offset(z, p.y_f, gz, p.y_f_prime), line_offset(z, p.y_hbar, gz, p.y_hbar_prime));
    let r1 = fadd(line_slope(z, p.y_f, gz, p.y_f_prime), line_slope(z, p.y_hbar, gz, p.y_hbar_prime));
    dot(
        seq![
            fadd(
                fadd(com, p.cm_hbar),
                fneg(fadd(fmul(vk.g1_one, r0), fmul(vk.g1_x, r1))),
            ),
            fneg(p.pi),
        ],
        seq![
            vk.g2_one,
            fadd(
                fadd(vk.g2_x2, fmul(vk.g2_x, fneg(fadd(z, gz)))),
                fmul(vk.g2_one, fmul(z, gz)),
            ),
        ],
        2,
    ) == 0
}

/// Whether a proof is accepted for the challenge `z`.
pub open spec fn accepts(
    vk: MulcsKey,
    com: int,
    u: Seq<int>,
    y: int,
    p: MulcsModel,
    z: int,
) -> bool {
    &&& pairing_holds(vk, com, p, z)
    &&& claymore_holds(
        vk.gamma,
        p2(u.len() as int),
        z,
        p.y_f,
        p.y_hbar,
        p.y_hbar_prime,
        u,
        y,
    )
}

/// Whether a proof is the honest proof of an opening of `f` at `u` for the
/// challenges of a run that leads from the history `start` to `end`.
pub open spec fn is_honest_run(
    start: Seq<Entry>,
    end: Seq<Entry>,
    key: Seq<int>,
    gamma: int,
    f: Seq<int>,
    u: Seq<int>,
    p: MulcsModel,
    c: MulcsChallenges,
) -> bool {
    &&& p == honest_proof(key, gamma, f, u, c)
    &&& end == run_end(start, p.cm_hbar, c)
    &&& reduced(c.delta)
    &&& c.z != fmul(gamma, c.z)
    &&& nodes_ok(seq![c.z, fmul(gamma, c.z)])
}

/// Whether the verdict on a proof is `ok` for the challenges of a run that
/// leads from the history `start` to `end`.
pub open spec fn is_verdict(
    start: Seq<Entry>,
    end: Seq<Entry>,
    vk: MulcsKey,
    com: int,
    u: Seq<int>,
    y: int,
    p: MulcsModel,
    ok: bool,
    c: MulcsChallenges,
) -> bool {
    &&& end == run_end(start, p.cm_hbar, c)
    &&& ok == (c.z == p.z && accepts(vk, com, u, y, p, c.z))
    &&& c.z == p.z ==> c.z != fmul(vk.gamma, c.z) && invertible(fsub(fmul(vk.gamma, c.z), c.z))
}

} // verus!
