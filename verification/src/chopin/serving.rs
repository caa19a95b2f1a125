//! What is served: an opening of every polynomial that the key supports.

use crate::batching::{is_aggregate, BatchPlan};
use crate::chopin::{
    fresh_log, is_opening, is_verification, key_model, key_point, key_table, mu_ok, opened,
    opening_ok, verification_ok, verified, verifier_stopped, ChopinProof,
};
use crate::chopin::batch::aggregate_opened;
use crate::chopin::laws::key_of;
use crate::chopin::model::{
    honest_proof, is_honest_stop, is_stopped_run, left_part, opening_holds, right_part, stated,
    usable_beta, usable_z, with_restriction, with_values, ChopinChallenges, ChopinModel, ChopinRun,
};
use crate::chopin::srs::{
    base_position, grid_base, is_grid_key, law_trimmed_key_is_grid_key, lemma_position_of_base,
    ChopinProverParam, ChopinUniversalParams, ChopinVerifierParam,
};
use crate::dims::{lemma_pow2_mono, padded};
use crate::errors::PCSError;
use crate::field::{finv, fmul, vals, Scalar};
use crate::serving::{exhausted, lemma_exhausted};
use crate::tensor::{lemma_p2_step, lemma_p2_zero, mle_eval, p2, Mle};
use crate::transcript::{drawn, is_course, lemma_drawn_prefix, lemma_prefix_trans, nonzero, Entry};
use vstd::prelude::*;

verus! {

/// The history of the statement that `com` opens at `u` to `y`.
pub open spec fn statement(com: int, u: Seq<int>, y: int) -> Seq<Entry> {
    let mu = u.len() as int;
    seq![
        Entry::Domain("chopin-mlpcs-v1"@),
        Entry::Field("ver"@, 1),
        Entry::Field("mu"@, mu),
        Entry::Field("ml"@, (mu + 1) / 2),
        Entry::Field("mr"@, mu / 2),
        Entry::Point("cf"@, com),
        Entry::Fields("pt"@, u),
        Entry::Field("eta"@, y),
    ]
}

/// Whether a course that goes on from `start` ended because no draw of one of the
/// challenges was usable.
pub open spec fn stopped_at(start: Seq<Entry>, end: Seq<Entry>, alpha: int, beta: int) -> bool {
    ||| exhausted(start, end, "gamma"@, |c: int| c != 0)
    ||| exhausted(
        start,
        end,
        "beta"@,
        |c: int| c != 0 && fmul(c, c) != 1 && c != alpha && finv(c) != alpha,
    )
    ||| exhausted(start, end, "rho"@, |c: int| c != 0)
    ||| exhausted(start, end, "z"@, |c: int| c != alpha && c != beta && c != finv(beta))
}

proof fn lemma_stopped(
    start: Seq<Entry>,
    end: Seq<Entry>,
    p: ChopinModel,
    c: ChopinChallenges,
    h: ChopinRun,
    looked: bool,
)
    requires
        is_course(end),
        is_stopped_run(start, end, p, c, h, looked),
    ensures
        stopped_at(start, end, c.alpha, c.beta),
{
    let (alpha, beta) = (c.alpha, c.beta);
    let non = |c: int| c != 0;
    let ub = |c: int| c != 0 && fmul(c, c) != 1 && c != alpha && finv(c) != alpha;
    let uz = |c: int| c != alpha && c != beta && c != finv(beta);
    assert(nonzero() =~= non);
    assert(usable_beta(alpha) =~= ub);
    assert(usable_z(alpha, beta) =~= uz);
    let l0 = with_restriction(start, p, alpha);
    assert(start.is_prefix_of(l0));
    if drawn(l0, end, "gamma"@, nonzero(), None) {
        lemma_exhausted(start, l0, end, "gamma"@, non);
    } else {
        lemma_drawn_prefix(l0, h.after_gamma, "gamma"@, nonzero(), Some(c.gamma));
        lemma_prefix_trans(start, l0, h.after_gamma);
        let l1 = h.after_gamma.push(Entry::Point("cs"@, p.comm_s));
        assert(h.after_gamma.is_prefix_of(l1));
        lemma_prefix_trans(start, h.after_gamma, l1);
        if drawn(l1, end, "beta"@, usable_beta(alpha), None) {
            lemma_exhausted(start, l1, end, "beta"@, ub);
        } else {
            lemma_drawn_prefix(l1, h.after_beta, "beta"@, usable_beta(alpha), Some(beta));
            lemma_prefix_trans(start, l1, h.after_beta);
            let l2 = with_values(h.after_beta, p);
            assert(h.after_beta.is_prefix_of(l2));
            lemma_prefix_trans(start, h.after_beta, l2);
            if drawn(l2, end, "rho"@, nonzero(), None) {
                lemma_exhausted(start, l2, end, "rho"@, non);
            } else {
                lemma_drawn_prefix(l2, h.after_rho, "rho"@, nonzero(), Some(c.rho));
                lemma_prefix_trans(start, l2, h.after_rho);
                let l3 = h.after_rho.push(Entry::Point("w"@, p.batch_w));
                assert(h.after_rho.is_prefix_of(l3));
                lemma_prefix_trans(start, h.after_rho, l3);
                lemma_exhausted(start, l3, end, "z"@, uz);
            }
        }
    }
}

proof fn lemma_refused(
    pp: &ChopinProverParam,
    f: Seq<int>,
    u: Seq<int>,
    com: int,
    y: int,
    end: Seq<Entry>,
    c: ChopinChallenges,
    h: ChopinRun,
)
    requires
        is_course(end),
        is_honest_stop(stated(fresh_log(), com, u, y), end, pp.key(), f, u, c, h),
    ensures
        stopped_at(statement(com, u, y), end, c.alpha, c.beta),
{
    let p = honest_proof(pp.key(), f, left_part(u), right_part(u), c);
    let start = stated(fresh_log(), com, u, y);
    assert(is_stopped_run(start, end, p, c, h, true));
    lemma_stopped(start, end, p, c, h, true);
    lemma_statement(com, u, y);
}

proof fn lemma_statement(com: int, u: Seq<int>, y: int)
    ensures
        stated(fresh_log(), com, u, y) == statement(com, u, y),
{
    assert(stated(fresh_log(), com, u, y) =~= statement(com, u, y));
}

/// `open` refuses no request that the key supports: for a polynomial in at least two
/// variables and no more than the key, and a point with a coordinate for each variable,
/// it returns the value of the polynomial with a proof for the dimensions of the key, or
/// the error of a challenge whose draws were exhausted.
pub proof fn law_open_serves(
    pp: &ChopinProverParam,
    poly: &Mle,
    point: Seq<Scalar>,
    com: int,
    r: Result<(ChopinProof, Scalar), PCSError>,
)
    requires
        2 <= poly.num_vars <= pp.num_vars < usize::BITS,
        pp.g1_powers@.len() >= p2(pp.num_vars as int),
        point.len() == poly.num_vars,
        opening_ok(pp, poly, point) ==> is_opening(pp, poly, point, com, r),
    ensures
        mu_ok(poly.num_vars as int),
        opening_ok(pp, poly, point),
        match r {
            Ok((proof, value)) => proof.mu == pp.num_vars && value@ == mle_eval(
                poly.table(),
                vals(point),
            ),
            Err(e) => exists|end: Seq<Entry>, alpha: int, beta: int| #[trigger]
                stopped_at(
                    statement(
                        com,
                        padded(vals(point), pp.num_vars as nat),
                        mle_eval(poly.table(), vals(point)),
                    ),
                    end,
                    alpha,
                    beta,
                ),
        },
{
    let u = key_point(pp, point);
    let f = key_table(pp, poly);
    let y = mle_eval(poly.table(), vals(point));
    assert(opening_ok(pp, poly, point));
    let end = choose|end: Seq<Entry>|
        is_course(end) && #[trigger] opened(fresh_log(), end, pp, poly, point, com, r);
    assert(opened(fresh_log(), end, pp, poly, point, com, r));
    if r is Err {
        let start = stated(fresh_log(), com, u, y);
        let (c, h) = choose|c: ChopinChallenges, h: ChopinRun| #[trigger]
            is_honest_stop(start, end, pp.key(), f, u, c, h);
        lemma_refused(pp, f, u, com, y, end, c, h);
    }
}

/// A batch is served like a single opening: under a key that supports it, the
/// opening of the aggregated polynomial returns its value at the final point of the
/// sumcheck with a proof, or the error of challenges that cannot be used.
pub proof fn law_batch_open_serves(
    pp: &ChopinProverParam,
    plan: &BatchPlan,
    a: Seq<Scalar>,
    com: int,
    g: Mle,
    res: Result<(ChopinProof, Scalar), PCSError>,
)
    requires
        2 <= plan.num_var <= pp.num_vars < usize::BITS,
        pp.g1_powers@.len() >= p2(pp.num_vars as int),
        a.len() == plan.num_var,
        aggregate_opened(pp, plan, a, com, g, res),
    ensures
        is_aggregate(plan, a, &g),
        match res {
            Ok((proof, value)) => proof.mu == pp.num_vars && value@ == mle_eval(
                g.table(),
                vals(a),
            ),
            Err(e) => exists|end: Seq<Entry>, alpha: int, beta: int| #[trigger]
                stopped_at(
                    statement(
                        com,
                        padded(vals(a), pp.num_vars as nat),
                        mle_eval(g.table(), vals(a)),
                    ),
                    end,
                    alpha,
                    beta,
                ),
        },
{
    law_open_serves(pp, &g, a, com, res);
}

/// `open` refuses every request that the key does not support.
pub proof fn law_open_refuses(
    pp: &ChopinProverParam,
    poly: &Mle,
    point: Seq<Scalar>,
    res: Result<(ChopinProof, Scalar), PCSError>,
)
    requires
        poly.num_vars < 2 || poly.num_vars >= usize::BITS || poly.num_vars > pp.num_vars
            || point.len() != poly.num_vars || pp.g1_powers@.len() < p2(pp.num_vars as int),
        !opening_ok(pp, poly, point) ==> (res matches Err(e) && e is InvalidParameters),
    ensures
        res matches Err(e) && e is InvalidParameters,
{
}

/// A verdict is given only on a proof of the form that the key and the point ask for.
pub proof fn law_form_is_checked(
    vp: &ChopinVerifierParam,
    point: Seq<Scalar>,
    proof: &ChopinProof,
    res: Result<bool, PCSError>,
)
    requires
        !verification_ok(vp, point, proof) ==> (res matches Err(e) && e is InvalidProof),
        res is Ok,
    ensures
        2 <= proof.mu <= vp.max_num_vars,
        proof.mu < usize::BITS,
        point.len() <= proof.mu,
{
}

/// The keys that `trim` makes from one grid match: the prover's is the grid in its own
/// dimensions, and the verifier's holds the points of the trapdoors.
pub proof fn law_trimmed_keys_match(
    srs: &ChopinUniversalParams,
    pp: &ChopinProverParam,
    vp: &ChopinVerifierParam,
    g: int,
    tau: int,
    sigma: int,
)
    requires
        srs.wf(),
        pp.wf(),
        2 <= pp.num_vars <= srs.max_num_vars,
        is_grid_key(srs.key(), p2(srs.m_left as int), p2(srs.m_right as int), g, tau, sigma),
        srs.g2_tau@ == fmul(srs.g2_one@, tau),
        srs.g2_sigma@ == fmul(srs.g2_one@, sigma),
        pp.key() == srs.trimmed_key(pp.num_vars as int),
        vp.g1_one@ == pp.key()[0],
        vp.g2_one == srs.g2_one,
        vp.g2_tau == srs.g2_tau,
        vp.g2_sigma == srs.g2_sigma,
    ensures
        is_grid_key(pp.key(), pp.ml(), pp.mr(), g, tau, sigma),
        key_model(vp) == key_of(g, tau, sigma, vp.g2_one@),
{
    law_trimmed_key_is_grid_key(srs, pp.num_vars as int, g, tau, sigma);
    let (ml, mr) = (pp.ml(), pp.mr());
    lemma_p2_zero();
    lemma_p2_step(1);
    lemma_pow2_mono(1, pp.m_left as int);
    lemma_pow2_mono(1, pp.m_right as int);
    lemma_position_of_base(ml, mr, 0, 0);
    assert(base_position(ml, mr, 0, 0) == 0) by {
        assert(0 * (ml - 1) == 0);
    }
    lemma_pow2_mono(0, pp.num_vars as int);
    assert(pp.key()[0] == grid_base(g, tau, sigma, 0, 0));
}

/// A verdict is given on every proof of the form that the key and the point ask for,
/// unless the challenges cannot be used.
pub proof fn law_verdict_is_given(
    vp: &ChopinVerifierParam,
    com: int,
    point: Seq<Scalar>,
    value: int,
    proof: &ChopinProof,
    res: Result<bool, PCSError>,
)
    requires
        2 <= proof.mu <= vp.max_num_vars,
        proof.mu < usize::BITS,
        point.len() <= proof.mu,
        verification_ok(vp, point, proof) ==> is_verification(vp, com, point, value, proof, res),
    ensures
        verification_ok(vp, point, proof),
        res is Err ==> exists|end: Seq<Entry>, alpha: int, beta: int| #[trigger]
            stopped_at(
                statement(com, padded(vals(point), proof.mu as nat), value),
                end,
                alpha,
                beta,
            ),
{
    let u = padded(vals(point), proof.mu as nat);
    let end = choose|end: Seq<Entry>|
        is_course(end) && #[trigger] verified(fresh_log(), end, vp, com, point, value, proof, res);
    assert(verified(fresh_log(), end, vp, com, point, value, proof, res));
    if res is Err {
        let start = stated(fresh_log(), com, u, value);
        let (c, h) = choose|c: ChopinChallenges, h: ChopinRun| #[trigger]
            verifier_stopped(start, end, vp, com, u, value, proof, c, h);
        lemma_verifier_stopped(start, end, vp, com, u, value, proof, c, h);
        lemma_statement(com, u, value);
    }
}

proof fn lemma_verifier_stopped(
    start: Seq<Entry>,
    end: Seq<Entry>,
    vp: &ChopinVerifierParam,
    com: int,
    u: Seq<int>,
    value: int,
    proof: &ChopinProof,
    c: ChopinChallenges,
    h: ChopinRun,
)
    requires
        is_course(end),
        verifier_stopped(start, end, vp, com, u, value, proof, c, h),
    ensures
        stopped_at(start, end, c.alpha, c.beta),
{
    let p = proof.model();
    let looked = opening_holds(key_model(vp), com, left_part(u), right_part(u), value, p, c);
    assert(is_stopped_run(start, end, p, c, h, looked));
    lemma_stopped(start, end, p, c, h, looked);
}

} // verus!
