//! What is served: an opening of every polynomial that the key supports.

use crate::batching::{is_aggregate, BatchPlan};
use crate::dims::lemma_pow2_mono;
use crate::errors::PCSError;
use crate::field::{fneg, vals, Scalar};
use crate::gemini::{
    aggregate_opened, is_opening, is_short_key_opening, is_verification, mu_ok, opened,
    opening_result, proof_ok, request_ok, verification_result, verified, GeminiProof,
};
use crate::gemini::fold::fold_list;
use crate::gemini::model::{
    after_nu, after_r, fold_values, fresh_log, gemini_claims, honest_proof, num_folds, squared,
    stated, stopped, with_claims, with_folds, GeminiChallenges,
};
use crate::gemini::shplonk::{all_commitments, collides, Opening};
use crate::gemini::srs::{GeminiProverParam, GeminiVerifierParam};
use crate::poly::dot;
use crate::serving::{heard, lemma_heard};
use crate::tensor::{mle_eval, p2, Mle};
use crate::transcript::{is_course, lemma_prefix_trans, Entry};
use vstd::prelude::*;

verus! {

/// The history of the statement that `com` opens at `u` to `y`.
pub open spec fn statement(domain: Seq<char>, com: int, u: Seq<int>, y: int) -> Seq<Entry> {
    seq![
        Entry::Domain(domain),
        Entry::Field("mu"@, u.len() as int),
        Entry::Point("commitment"@, com),
        Entry::Fields("point"@, u),
        Entry::Field("eval"@, y),
    ]
}

/// Whether a course that goes on from `start` ended on a challenge that is zero, or on a
/// `z` that is among the evaluation points.
pub open spec fn stopped_at(
    start: Seq<Entry>,
    end: Seq<Entry>,
    mu: int,
    r: int,
    nu: int,
    z: int,
) -> bool {
    &&& heard(start, end, "r"@, r)
    &&& {
        ||| r == 0
        ||| heard(start, end, "Shplonk:nu"@, nu) && nu == 0
        ||| heard(start, end, "Shplonk:z"@, z) && {
            ||| z == 0 || z == 1
            ||| exists|i: int|
                0 <= i < mu - 1 && (z == #[trigger] squared(r, i) || z == fneg(squared(r, i)))
        }
    }
}

proof fn lemma_folds_prefix(log: Seq<Entry>, coms: Seq<int>, n: int)
    ensures
        log.is_prefix_of(with_folds(log, coms, n)),
    decreases n,
{
    if n > 0 {
        lemma_folds_prefix(log, coms, n - 1);
        let b = with_folds(log, coms, n - 1);
        let c = with_folds(log, coms, n);
        assert(b.is_prefix_of(c));
        lemma_prefix_trans(log, b, c);
    } else {
        assert(log.is_prefix_of(log));
    }
}

proof fn lemma_claims_prefix(log: Seq<Entry>, os: Seq<Opening>, coms: Seq<int>, n: int)
    ensures
        log.is_prefix_of(with_claims(log, os, coms, n)),
    decreases n,
{
    if n > 0 {
        lemma_claims_prefix(log, os, coms, n - 1);
        let b = with_claims(log, os, coms, n - 1);
        let c = with_claims(log, os, coms, n);
        assert(b.is_prefix_of(c));
        lemma_prefix_trans(log, b, c);
    } else {
        assert(log.is_prefix_of(log));
    }
}

proof fn lemma_stopped(
    start: Seq<Entry>,
    end: Seq<Entry>,
    mu: int,
    evals: Seq<(int, int)>,
    c0: int,
    c1: int,
    com: int,
    fold_comms: Seq<int>,
    q_commit: int,
    c: GeminiChallenges,
)
    requires
        mu >= 1,
        is_course(end),
        stopped(start, end, gemini_claims(mu, c.r, evals, c0, c1), com, fold_comms, q_commit, c),
    ensures
        stopped_at(start, end, mu, c.r, c.nu, c.z),
{
    let os = gemini_claims(mu, c.r, evals, c0, c1);
    let l0 = with_folds(start, fold_comms, fold_comms.len() as int);
    lemma_folds_prefix(start, fold_comms, fold_comms.len() as int);
    let l1 = after_r(start, fold_comms, c.r);
    assert(l1 == l0.push(Entry::Challenge("r"@, c.r)));
    assert(l0.is_prefix_of(l1));
    lemma_prefix_trans(start, l0, l1);
    let coms = all_commitments(com, fold_comms);
    let l2 = with_claims(l1, os, coms, os.len() as int);
    lemma_claims_prefix(l1, os, coms, os.len() as int);
    lemma_prefix_trans(start, l1, l2);
    let l3 = after_nu(start, os, com, fold_comms, c.r, c.nu);
    assert(l2.is_prefix_of(l3));
    lemma_prefix_trans(start, l2, l3);
    lemma_prefix_trans(l1, l2, l3);
    let l4 = l3.push(Entry::Point("Shplonk:Q"@, q_commit));
    assert(l3.is_prefix_of(l4));
    lemma_prefix_trans(start, l3, l4);
    assert(end.is_prefix_of(end));
    if end == l1 {
        lemma_heard(start, l0, end, "r"@, c.r);
    } else if end == l3 {
        lemma_heard(start, l0, end, "r"@, c.r);
        lemma_heard(start, l2, end, "Shplonk:nu"@, c.nu);
    } else {
        assert(end == l4.push(Entry::Challenge("Shplonk:z"@, c.z)));
        assert(l4.is_prefix_of(end));
        lemma_prefix_trans(l3, l4, end);
        lemma_prefix_trans(l1, l3, end);
        lemma_heard(start, l0, end, "r"@, c.r);
        lemma_heard(start, l4, end, "Shplonk:z"@, c.z);
    }
    if c.r != 0 && c.nu != 0 && c.z != 0 {
        assert(collides(os, c.z));
        let j = choose|j: int| 0 <= j < os.len() && (#[trigger] os[j]).point == c.z;
        let n = num_folds(mu);
        if j < 2 * n {
            let i = j / 2;
            assert(0 <= i < mu - 1);
            assert(c.z == squared(c.r, i) || c.z == fneg(squared(c.r, i)));
        }
    }
}

proof fn lemma_open_serves(
    domain: Seq<char>,
    pp: &GeminiProverParam,
    poly: &Mle,
    point: Seq<Scalar>,
    com: int,
    res: Result<(GeminiProof, Scalar), PCSError>,
)
    requires
        poly.wf(),
        1 <= poly.num_vars < usize::BITS,
        p2(poly.num_vars as int) <= pp.powers@.len(),
        point.len() == poly.num_vars,
        !request_ok(pp, poly, point) ==> (res matches Err(e) && e is InvalidParameters),
        request_ok(pp, poly, point) ==> is_opening(
            fresh_log(domain, point.len() as int),
            pp,
            poly,
            point,
            com,
            res,
        ),
    ensures
        match res {
            Ok((proof, value)) => {
                &&& proof.mu == poly.num_vars
                &&& proof.fold_comms@.len() == poly.num_vars - 1
                &&& proof.fold_evals@.len() == poly.num_vars - 1
                &&& value@ == mle_eval(poly.table(), vals(point))
            },
            Err(e) => e is InvalidProver && exists|end: Seq<Entry>, r: int, nu: int, z: int|
                #[trigger]
                stopped_at(
                    statement(
                        domain,
                        com,
                        vals(point),
                        mle_eval(poly.table(), vals(point)),
                    ),
                    end,
                    poly.num_vars as int,
                    r,
                    nu,
                    z,
                ),
        },
{
    let u = vals(point);
    let f = poly.table();
    let y = mle_eval(f, u);
    let log = fresh_log(domain, point.len() as int);
    let end = choose|end: Seq<Entry>|
        is_course(end) && #[trigger] opened(log, end, pp, poly, u, com, res);
    assert(opened(log, end, pp, poly, u, com, res));
    let start = stated(log, com, u, y);
    assert(start =~= statement(domain, com, u, y));
    let c = choose|c: GeminiChallenges| #[trigger]
        opening_result(start, end, pp.key(), f, u, com, y, res, c);
    assert(opening_result(start, end, pp.key(), f, u, com, y, res, c));
    let p = honest_proof(pp.key(), f, u, c);
    if let Ok((proof, value)) = res {
        let m = proof.model();
        assert(m.fold_comms.len() == p.fold_comms.len());
        assert(m.fold_evals.len() == p.fold_evals.len());
    } else {
        let mu = u.len() as int;
        let polys = fold_list(f, u, u.len());
        lemma_stopped(
            start,
            end,
            mu,
            fold_values(polys, c.r, num_folds(mu)),
            polys[mu - 1][0],
            polys[mu - 1][1],
            com,
            p.fold_comms,
            p.q_commit,
            c,
        );
    }
}

/// `open` refuses no request that the key supports: for a polynomial in at least one
/// variable that is no longer than the key, and a point with a coordinate for each
/// variable, it returns the value of the polynomial with a proof, or the error of an
/// unusable challenge.
pub proof fn law_open_serves(
    pp: &GeminiProverParam,
    poly: &Mle,
    point: Seq<Scalar>,
    com: int,
    res: Result<(GeminiProof, Scalar), PCSError>,
)
    requires
        poly.wf(),
        1 <= poly.num_vars < usize::BITS,
        p2(poly.num_vars as int) <= pp.powers@.len(),
        point.len() == poly.num_vars,
        !request_ok(pp, poly, point) ==> (res matches Err(e) && e is InvalidParameters),
        request_ok(pp, poly, point) ==> is_opening(
            fresh_log("gemini-open"@, point.len() as int),
            pp,
            poly,
            point,
            com,
            res,
        ),
    ensures
        match res {
            Ok((proof, value)) => {
                &&& proof.mu == poly.num_vars
                &&& proof.fold_comms@.len() == poly.num_vars - 1
                &&& proof.fold_evals@.len() == poly.num_vars - 1
                &&& value@ == mle_eval(poly.table(), vals(point))
            },
            Err(e) => e is InvalidProver && exists|end: Seq<Entry>, r: int, nu: int, z: int|
                #[trigger]
                stopped_at(
                    statement(
                        "gemini-open"@,
                        com,
                        vals(point),
                        mle_eval(poly.table(), vals(point)),
                    ),
                    end,
                    poly.num_vars as int,
                    r,
                    nu,
                    z,
                ),
        },
{
    lemma_open_serves("gemini-open"@, pp, poly, point, com, res);
}

/// A key that was made for `nv` variables serves all polynomials in fewer or as many.
pub proof fn law_key_serves(pp: &GeminiProverParam, nv: int, poly: &Mle, point: Seq<Scalar>)
    requires
        pp.wf(),
        poly.wf(),
        pp.max_degree == p2(nv),
        1 <= poly.num_vars <= nv < usize::BITS,
        point.len() == poly.num_vars,
    ensures
        mu_ok(nv),
        mu_ok(poly.num_vars as int),
        request_ok(pp, poly, point),
{
    lemma_pow2_mono(poly.num_vars as int, nv);
}

/// `open` refuses every request that the key does not support.
pub proof fn law_open_refuses(
    pp: &GeminiProverParam,
    poly: &Mle,
    point: Seq<Scalar>,
    res: Result<(GeminiProof, Scalar), PCSError>,
)
    requires
        poly.num_vars == 0 || poly.num_vars >= usize::BITS || point.len() != poly.num_vars
            || poly.evaluations@.len() > pp.powers@.len(),
        !request_ok(pp, poly, point) ==> (res matches Err(e) && e is InvalidParameters),
    ensures
        res matches Err(e) && e is InvalidParameters,
{
}

/// A verdict is given only on a proof of the form that the key and the point ask for.
pub proof fn law_form_is_checked(
    vp: &GeminiVerifierParam,
    point: Seq<Scalar>,
    proof: &GeminiProof,
    res: Result<bool, PCSError>,
)
    requires
        !proof_ok(vp, point, proof) ==> (res matches Err(e) && e is InvalidProof),
        res is Ok,
    ensures
        1 <= proof.mu <= vp.max_num_vars,
        proof.mu < usize::BITS,
        p2(proof.mu as int) <= vp.max_degree,
        point.len() == proof.mu,
        proof.fold_comms@.len() == proof.mu - 1,
        proof.fold_evals@.len() == proof.mu - 1,
{
}

/// With a key that is shorter than the table there is no proof.
pub proof fn law_short_key_refuses(
    log: Seq<Entry>,
    pp: &GeminiProverParam,
    poly: &Mle,
    point: Seq<Scalar>,
    com: int,
    res: Result<(GeminiProof, Scalar), PCSError>,
)
    requires
        is_short_key_opening(log, pp, poly, point, com, res),
    ensures
        res is Err,
{
}

/// A batch is served like a single opening: under a key that supports it, the opening of
/// the aggregated polynomial returns its value at the final point of the sumcheck with a
/// proof, or the error of an unusable challenge.
pub proof fn law_batch_open_serves(
    pp: &GeminiProverParam,
    plan: &BatchPlan,
    a: Seq<Scalar>,
    g: Mle,
    res: Result<(GeminiProof, Scalar), PCSError>,
)
    requires
        1 <= plan.num_var < usize::BITS,
        p2(plan.num_var as int) <= pp.powers@.len(),
        a.len() == plan.num_var,
        aggregate_opened(pp, plan, a, res, g),
    ensures
        is_aggregate(plan, a, &g),
        match res {
            Ok((proof, value)) => proof.mu == plan.num_var && value@ == mle_eval(
                g.table(),
                vals(a),
            ),
            Err(e) => e is InvalidProver && exists|end: Seq<Entry>, r: int, nu: int, z: int|
                #[trigger]
                stopped_at(
                    statement(
                        "gemini-gprime-open"@,
                        dot(pp.key(), g.table(), g.evaluations@.len() as int),
                        vals(a),
                        mle_eval(g.table(), vals(a)),
                    ),
                    end,
                    plan.num_var as int,
                    r,
                    nu,
                    z,
                ),
        },
{
    lemma_open_serves(
        "gemini-gprime-open"@,
        pp,
        &g,
        a,
        dot(pp.key(), g.table(), g.evaluations@.len() as int),
        res,
    );
}

/// A verdict is given on every proof of the form that the key and the point ask for,
/// unless the challenges cannot be used.
pub proof fn law_verdict_is_given(
    domain: Seq<char>,
    vp: &GeminiVerifierParam,
    com: int,
    point: Seq<Scalar>,
    value: int,
    proof: &GeminiProof,
    res: Result<bool, PCSError>,
)
    requires
        1 <= proof.mu <= vp.max_num_vars,
        proof.mu < usize::BITS,
        p2(proof.mu as int) <= vp.max_degree,
        point.len() == proof.mu,
        proof.fold_comms@.len() == proof.mu - 1,
        proof.fold_evals@.len() == proof.mu - 1,
        proof_ok(vp, point, proof) ==> is_verification(
            fresh_log(domain, point.len() as int),
            vp,
            com,
            point,
            value,
            proof,
            res,
        ),
    ensures
        proof_ok(vp, point, proof),
        res matches Err(e) ==> e is InvalidProof && exists|
            end: Seq<Entry>,
            r: int,
            nu: int,
            z: int,
        | #[trigger]
            stopped_at(
                statement(domain, com, vals(point), value),
                end,
                proof.mu as int,
                r,
                nu,
                z,
            ),
{
    let u = vals(point);
    let log = fresh_log(domain, point.len() as int);
    let end = choose|end: Seq<Entry>|
        is_course(end) && #[trigger] verified(log, end, vp, com, u, value, proof, res);
    assert(verified(log, end, vp, com, u, value, proof, res));
    let start = stated(log, com, u, value);
    assert(start =~= statement(domain, com, u, value));
    let c = choose|c: GeminiChallenges| #[trigger]
        verification_result(start, end, vp, com, u, value, proof, res, c);
    assert(verification_result(start, end, vp, com, u, value, proof, res, c));
    if res is Err {
        let p = proof.model();
        lemma_stopped(
            start,
            end,
            u.len() as int,
            p.fold_evals,
            p.c0,
            p.c1,
            com,
            p.fold_comms,
            p.q_commit,
            c,
        );
    }
}

} // verus!
