//! What is served: an opening of every polynomial that the key supports.

use crate::batching::{is_aggregate, BatchPlan};
use crate::dims::lemma_pow2_mono;
use crate::errors::PCSError;
use crate::field::{cong, finv, fmul, lemma_cong_inverse, vals, Scalar};
use crate::mercury::{
    fresh_log, is_opening, is_verification, mu_ok, opened, request_ok, verification_ok, verified,
    MercuryProof,
};
use crate::mercury::batch::aggregate_opened;
use crate::mercury::model::{
    after_beta, after_zeta, committed, honest_proof, is_honest_stop, left_part, prover_stopped,
    right_part, stated, verifier_stopped, MercuryChallenges, MercuryModel,
};
use crate::mercury::srs::{MercuryProverParam, MercuryVerifierParam};
use crate::serving::{heard, lemma_heard};
use crate::tensor::{mle_eval, p2, Mle};
use crate::transcript::{is_course, lemma_prefix_trans, Entry};
use vstd::prelude::*;

verus! {

/// The history of the statement that `com` opens at `u` to `y`.
pub open spec fn statement(com: int, u: Seq<int>, y: int) -> Seq<Entry> {
    let mu = u.len() as int;
    seq![
        Entry::Domain("mercury-mlpcs-v1"@),
        Entry::Field("ver"@, 1),
        Entry::Field("mu"@, mu),
        Entry::Field("t"@, (mu + 1) / 2),
        Entry::Field("b"@, p2((mu + 1) / 2)),
        Entry::Point("cf"@, com),
        Entry::Fields("u"@, u),
        Entry::Field("e"@, y),
    ]
}

/// Whether a course that goes on from `start` ended on evaluation points that coincide:
/// `zeta` with its inverse, `alpha` with one of these, or `z` with one of the three.
pub open spec fn stopped_at(
    start: Seq<Entry>,
    end: Seq<Entry>,
    alpha: int,
    zeta: int,
    z: int,
) -> bool {
    let zi = finv(zeta);
    &&& heard(start, end, "a"@, alpha)
    &&& heard(start, end, "zt"@, zeta)
    &&& {
        ||| zeta == 0 || cong(zeta * zeta, 1)
        ||| alpha == zeta || alpha == zi
        ||| heard(start, end, "z"@, z) && (z == zeta || z == zi || z == alpha)
    }
}

proof fn lemma_stopped(
    start: Seq<Entry>,
    end: Seq<Entry>,
    p: MercuryModel,
    c: MercuryChallenges,
)
    requires
        is_course(end),
        prover_stopped(start, end, p, c) || verifier_stopped(start, end, p, c),
    ensures
        stopped_at(start, end, c.alpha, c.zeta, c.z),
{
    let l1 = start.push(Entry::Point("h"@, p.comm_h));
    let l2 = l1.push(Entry::Challenge("a"@, c.alpha)).push(Entry::Point("q"@, p.comm_q)).push(
        Entry::Point("g"@, p.comm_g),
    ).push(Entry::Challenge("gm"@, c.gamma)).push(Entry::Point("s"@, p.comm_s)).push(
        Entry::Point("d"@, p.comm_d),
    );
    let l3 = after_zeta(start, p, c);
    let l4 = after_beta(start, p, c);
    let l5 = l4.push(Entry::Point("w"@, p.comm_w));
    assert(l3 =~= l2.push(Entry::Challenge("zt"@, c.zeta)));
    assert(l1.push(Entry::Challenge("a"@, c.alpha)).is_prefix_of(l3));
    assert(start.is_prefix_of(l1));
    assert(start.is_prefix_of(l2));
    assert(start.is_prefix_of(l5));
    assert(l3.is_prefix_of(end));
    lemma_prefix_trans(l1.push(Entry::Challenge("a"@, c.alpha)), l3, end);
    lemma_heard(start, l1, end, "a"@, c.alpha);
    lemma_heard(start, l2, end, "zt"@, c.zeta);
    if c.zeta != 0 && fmul(c.zeta, c.zeta) == 1 {
        lemma_cong_inverse(c.zeta, c.zeta);
    }
    if end == l5.push(Entry::Challenge("z"@, c.z)) {
        assert(end.is_prefix_of(end));
        lemma_heard(start, l5, end, "z"@, c.z);
    }
}

/// `open` refuses no request that the key supports: for a polynomial in at least one
/// variable that is no longer than the key, and a point with a coordinate for each
/// variable, it returns the value of the polynomial with a proof, or the error of
/// challenges that coincide.
pub proof fn law_open_serves(
    pp: &MercuryProverParam,
    poly: &Mle,
    point: Seq<Scalar>,
    com: int,
    r: Result<(MercuryProof, Scalar), PCSError>,
)
    requires
        1 <= poly.num_vars < usize::BITS,
        p2(poly.num_vars as int) - 1 <= pp.max_degree,
        point.len() == poly.num_vars,
        !request_ok(pp, poly, point) ==> (r matches Err(e) && e is InvalidParameters),
        request_ok(pp, poly, point) ==> is_opening(pp, poly, point, com, r),
    ensures
        match r {
            Ok((proof, value)) => proof.mu == poly.num_vars && value@ == mle_eval(
                poly.table(),
                vals(point),
            ),
            Err(e) => e is InvalidProof && exists|
                end: Seq<Entry>,
                alpha: int,
                zeta: int,
                z: int,
            | #[trigger]
                stopped_at(
                    statement(com, vals(point), mle_eval(poly.table(), vals(point))),
                    end,
                    alpha,
                    zeta,
                    z,
                ),
        },
{
    let u = vals(point);
    let f = poly.table();
    let y = mle_eval(f, u);
    let end = choose|end: Seq<Entry>|
        is_course(end) && #[trigger] opened(end, pp, poly, u, com, r);
    assert(opened(end, pp, poly, u, com, r));
    if r is Err {
        let start = stated(fresh_log(), com, u, y);
        let c = choose|c: MercuryChallenges| #[trigger]
            is_honest_stop(start, end, pp.key(), f, u, c);
        assert(is_honest_stop(start, end, pp.key(), f, u, c));
        let p = honest_proof(pp.key(), f, left_part(u), right_part(u), c);
        assert(start =~= statement(com, u, y));
        lemma_stopped(start, end, p, c);
    }
}

/// A key that was made for `nv` variables serves all polynomials in fewer or as many.
pub proof fn law_key_serves(pp: &MercuryProverParam, nv: int, poly: &Mle, point: Seq<Scalar>)
    requires
        pp.max_degree == p2(nv) - 1,
        1 <= poly.num_vars <= nv < usize::BITS,
        point.len() == poly.num_vars,
    ensures
        mu_ok(nv),
        mu_ok(poly.num_vars as int),
        request_ok(pp, poly, point),
{
    lemma_pow2_mono(poly.num_vars as int, nv);
}

/// A batch is served like a single opening: under a key that supports it, the
/// opening of the aggregated polynomial returns its value at the final point of the
/// sumcheck with a proof, or the error of challenges that cannot be used.
pub proof fn law_batch_open_serves(
    pp: &MercuryProverParam,
    plan: &BatchPlan,
    a: Seq<Scalar>,
    g: Mle,
    res: Result<(MercuryProof, Scalar), PCSError>,
)
    requires
        1 <= plan.num_var < usize::BITS,
        p2(plan.num_var as int) - 1 <= pp.max_degree,
        a.len() == plan.num_var,
        aggregate_opened(pp, plan, a, g, res),
    ensures
        is_aggregate(plan, a, &g),
        match res {
            Ok((proof, value)) => proof.mu == plan.num_var && value@ == mle_eval(
                g.table(),
                vals(a),
            ),
            Err(e) => e is InvalidProof && exists|
                end: Seq<Entry>,
                alpha: int,
                zeta: int,
                z: int,
            | #[trigger]
                stopped_at(
                    statement(
                        committed(pp.key(), g.table()),
                        vals(a),
                        mle_eval(g.table(), vals(a)),
                    ),
                    end,
                    alpha,
                    zeta,
                    z,
                ),
        },
{
    law_open_serves(pp, &g, a, committed(pp.key(), g.table()), res);
}

/// `open` refuses every request that the key does not support.
pub proof fn law_open_refuses(
    pp: &MercuryProverParam,
    poly: &Mle,
    point: Seq<Scalar>,
    res: Result<(MercuryProof, Scalar), PCSError>,
)
    requires
        poly.num_vars == 0 || point.len() != poly.num_vars || p2(poly.num_vars as int) - 1
            > pp.max_degree || poly.num_vars >= usize::BITS,
        !request_ok(pp, poly, point) ==> (res matches Err(e) && e is InvalidParameters),
    ensures
        res matches Err(e) && e is InvalidParameters,
{
}

/// A verdict is given only on a proof of the form that the key and the point ask for.
pub proof fn law_form_is_checked(
    vp: &MercuryVerifierParam,
    point: Seq<Scalar>,
    proof: &MercuryProof,
    res: Result<bool, PCSError>,
)
    requires
        !verification_ok(vp, point, proof) ==> (res matches Err(e) && e is InvalidProof),
        res is Ok,
    ensures
        1 <= proof.mu < usize::BITS,
        point.len() == proof.mu,
        p2(proof.mu as int) - 1 <= vp.max_degree,
{
}

/// A verdict is given on every proof of the form that the key and the point ask for,
/// unless the challenges cannot be used.
pub proof fn law_verdict_is_given(
    vp: &MercuryVerifierParam,
    com: int,
    point: Seq<Scalar>,
    value: int,
    proof: &MercuryProof,
    res: Result<bool, PCSError>,
)
    requires
        1 <= proof.mu < usize::BITS,
        point.len() == proof.mu,
        p2(proof.mu as int) - 1 <= vp.max_degree,
        verification_ok(vp, point, proof) ==> is_verification(vp, com, point, value, proof, res),
    ensures
        verification_ok(vp, point, proof),
        res matches Err(e) ==> e is InvalidProof && exists|
            end: Seq<Entry>,
            alpha: int,
            zeta: int,
            z: int,
        | #[trigger]
            stopped_at(statement(com, vals(point), value), end, alpha, zeta, z),
{
    let u = vals(point);
    let end = choose|end: Seq<Entry>|
        is_course(end) && #[trigger] verified(fresh_log(), end, vp, com, u, value, proof, res);
    assert(verified(fresh_log(), end, vp, com, u, value, proof, res));
    if res is Err {
        let start = stated(fresh_log(), com, u, value);
        let c = choose|c: MercuryChallenges| #[trigger]
            verifier_stopped(start, end, proof.model(), c);
        assert(start =~= statement(com, u, value));
        lemma_stopped(start, end, proof.model(), c);
    }
}

} // verus!
