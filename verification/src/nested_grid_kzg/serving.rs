//! What is served: an opening of every polynomial that the key is made for.

use crate::batching::{is_aggregate, BatchPlan};
use crate::carina::srs::{is_grid_key, law_trimmed_key_is_grid_key, lemma_position_of_base};
use crate::dims::lemma_pow2_mono;
use crate::errors::PCSError;
use crate::field::{fmul, vals, Scalar};
use crate::nested_grid_kzg::{
    commitment_ok, fresh_log, is_opening, is_verification, key_model, mu_ok, opened, opening_ok,
    table_commitment, verification_ok, verified, NestedGridKzgProof, NestedGridKzgProverParam,
    NestedGridKzgUniversalParams, NestedGridKzgVerifierParam,
};
use crate::nested_grid_kzg::batch::aggregate_opened;
use crate::nested_grid_kzg::laws::key_of;
use crate::nested_grid_kzg::model::{
    honest_proof, is_honest_stop, is_stopped_run, left_part, right_part, stated, with_inner,
    with_inner_values, with_outer, with_outer_values, NrgChallenges, NrgProof, NrgRun,
};
use crate::serving::{exhausted, lemma_exhausted};
use crate::tensor::{lemma_p2_step, lemma_p2_zero, mle_eval, p2, Mle};
use crate::transcript::{
    drawn, is_course, lemma_drawn_prefix, lemma_prefix_trans, nonzero, reciprocal, Entry,
};
use vstd::prelude::*;

verus! {

/// The history of the statement that `com` opens at `u` to `y`.
pub open spec fn statement(com: int, u: Seq<int>, y: int) -> Seq<Entry> {
    let mu = u.len() as int;
    seq![
        Entry::Domain("nested-grid-kzg-v1"@),
        Entry::Message("nrg::version"@, "nested-grid-kzg-v1"@),
        Entry::Field("nrg::mu"@, mu),
        Entry::Field("nrg::m_left"@, (mu + 1) / 2),
        Entry::Field("nrg::m_right"@, mu / 2),
        Entry::Point("nrg::cm_f"@, com),
        Entry::Fields("nrg::point"@, u),
        Entry::Field("nrg::value"@, y),
    ]
}

/// Whether a course that goes on from `start` ended because no draw of one of the
/// challenges was usable.
pub open spec fn stopped_at(start: Seq<Entry>, end: Seq<Entry>) -> bool {
    ||| exhausted(start, end, "nrg::r"@, |c: int| c != 0 && fmul(c, c) != 1)
    ||| exhausted(start, end, "nrg::lambda"@, |c: int| c != 0)
    ||| exhausted(start, end, "nrg::s"@, |c: int| c != 0 && fmul(c, c) != 1)
    ||| exhausted(start, end, "nrg::eta"@, |c: int| c != 0)
}

proof fn lemma_stopped(
    start: Seq<Entry>,
    end: Seq<Entry>,
    p: NrgProof,
    c: NrgChallenges,
    h: NrgRun,
)
    requires
        is_course(end),
        is_stopped_run(start, end, p, c, h),
    ensures
        stopped_at(start, end),
{
    let rec = |c: int| c != 0 && fmul(c, c) != 1;
    let non = |c: int| c != 0;
    assert(reciprocal() =~= rec);
    assert(nonzero() =~= non);
    let l0 = with_outer(start, p);
    assert(start.is_prefix_of(l0));
    if drawn(l0, end, "nrg::r"@, reciprocal(), None) {
        lemma_exhausted(start, l0, end, "nrg::r"@, rec);
    } else {
        lemma_drawn_prefix(l0, h.after_r, "nrg::r"@, reciprocal(), Some(c.r));
        lemma_prefix_trans(start, l0, h.after_r);
        let l1 = with_outer_values(h.after_r, p);
        assert(h.after_r.is_prefix_of(l1));
        lemma_prefix_trans(start, h.after_r, l1);
        if drawn(l1, end, "nrg::lambda"@, nonzero(), None) {
            lemma_exhausted(start, l1, end, "nrg::lambda"@, non);
        } else {
            lemma_drawn_prefix(l1, h.after_lambda, "nrg::lambda"@, nonzero(), Some(c.lambda));
            lemma_prefix_trans(start, l1, h.after_lambda);
            let l2 = with_inner(h.after_lambda, p);
            assert(h.after_lambda.is_prefix_of(l2));
            lemma_prefix_trans(start, h.after_lambda, l2);
            if drawn(l2, end, "nrg::s"@, reciprocal(), None) {
                lemma_exhausted(start, l2, end, "nrg::s"@, rec);
            } else {
                lemma_drawn_prefix(l2, h.after_s, "nrg::s"@, reciprocal(), Some(c.s));
                lemma_prefix_trans(start, l2, h.after_s);
                let l3 = with_inner_values(h.after_s, p);
                assert(h.after_s.is_prefix_of(l3));
                lemma_prefix_trans(start, h.after_s, l3);
                lemma_exhausted(start, l3, end, "nrg::eta"@, non);
            }
        }
    }
}

proof fn lemma_refused(
    pp: &NestedGridKzgProverParam,
    poly: &Mle,
    u: Seq<int>,
    com: int,
    end: Seq<Entry>,
)
    requires
        is_course(end),
        exists|c: NrgChallenges, h: NrgRun| #[trigger]
            is_honest_stop(fresh_log(), end, pp.key(), poly.table(), u, com, c, h),
    ensures
        stopped_at(statement(com, u, mle_eval(poly.table(), u)), end),
{
    let f = poly.table();
    let y = mle_eval(f, u);
    let (c, h) = choose|c: NrgChallenges, h: NrgRun| #[trigger]
        is_honest_stop(fresh_log(), end, pp.key(), f, u, com, c, h);
    let p = honest_proof(pp.key(), f, left_part(u), right_part(u), y, c);
    let start = stated(fresh_log(), com, u, y);
    assert(is_stopped_run(start, end, p, c, h));
    lemma_stopped(start, end, p, c, h);
    lemma_statement(com, u, y);
}

proof fn lemma_statement(com: int, u: Seq<int>, y: int)
    ensures
        stated(fresh_log(), com, u, y) == statement(com, u, y),
{
    assert(stated(fresh_log(), com, u, y) =~= statement(com, u, y));
}

/// `open` refuses no request that the key is made for: for a polynomial in at least four
/// variables and as many as the key, and a point with a coordinate for each variable, it
/// returns the value of the polynomial with a proof, or the error of a challenge whose
/// draws were exhausted.
pub proof fn law_open_serves(
    pp: &NestedGridKzgProverParam,
    poly: &Mle,
    point: Seq<Scalar>,
    com: int,
    r: Result<(NestedGridKzgProof, Scalar), PCSError>,
)
    requires
        poly.wf(),
        4 <= poly.num_vars < usize::BITS,
        pp.num_vars == poly.num_vars,
        pp.g1_powers@.len() >= p2(poly.num_vars as int),
        point.len() == poly.num_vars,
        opening_ok(pp, poly, point) ==> is_opening(pp, poly, point, com, r),
    ensures
        commitment_ok(pp, poly),
        opening_ok(pp, poly, point),
        match r {
            Ok((proof, value)) => proof.mu == poly.num_vars && value@ == mle_eval(
                poly.table(),
                vals(point),
            ),
            Err(e) => exists|end: Seq<Entry>| #[trigger]
                stopped_at(
                    statement(com, vals(point), mle_eval(poly.table(), vals(point))),
                    end,
                ),
        },
{
    let u = vals(point);
    let f = poly.table();
    let y = mle_eval(f, u);
    assert(opening_ok(pp, poly, point));
    let end = choose|end: Seq<Entry>|
        is_course(end) && #[trigger] opened(fresh_log(), end, pp, poly, point, com, r);
    assert(opened(fresh_log(), end, pp, poly, point, com, r));
    if r is Err {
        lemma_refused(pp, poly, u, com, end);
    }
}

/// Every number of variables from four on is supported.
pub proof fn law_variables_served(mu: int)
    requires
        4 <= mu < usize::BITS,
    ensures
        mu_ok(mu),
{
}

/// A batch is served like a single opening: under a key that is made for it, the
/// opening of the aggregated polynomial returns its value at the final point of the
/// sumcheck with a proof, or the error of challenges that cannot be used.
pub proof fn law_batch_open_serves(
    pp: &NestedGridKzgProverParam,
    plan: &BatchPlan,
    a: Seq<Scalar>,
    g: Mle,
    res: Result<(NestedGridKzgProof, Scalar), PCSError>,
)
    requires
        4 <= plan.num_var < usize::BITS,
        pp.num_vars == plan.num_var,
        pp.g1_powers@.len() >= p2(plan.num_var as int),
        a.len() == plan.num_var,
        aggregate_opened(pp, plan, a, g, res),
    ensures
        is_aggregate(plan, a, &g),
        match res {
            Ok((proof, value)) => proof.mu == plan.num_var && value@ == mle_eval(
                g.table(),
                vals(a),
            ),
            Err(e) => exists|end: Seq<Entry>| #[trigger]
                stopped_at(
                    statement(
                        table_commitment(pp, &g),
                        vals(a),
                        mle_eval(g.table(), vals(a)),
                    ),
                    end,
                ),
        },
{
    law_open_serves(pp, &g, a, table_commitment(pp, &g), res);
}

/// `open` refuses every request that the key does not support.
pub proof fn law_open_refuses(
    pp: &NestedGridKzgProverParam,
    poly: &Mle,
    point: Seq<Scalar>,
    res: Result<(NestedGridKzgProof, Scalar), PCSError>,
)
    requires
        poly.num_vars < 4 || poly.num_vars >= usize::BITS || pp.num_vars != poly.num_vars
            || point.len() != poly.num_vars || poly.evaluations@.len() != p2(poly.num_vars as int)
            || pp.g1_powers@.len() < p2(poly.num_vars as int),
        !opening_ok(pp, poly, point) ==> (res matches Err(e) && e is InvalidParameters),
    ensures
        res matches Err(e) && e is InvalidParameters,
{
}

/// A verdict is given only on a proof of the form that the key and the point ask for.
pub proof fn law_form_is_checked(
    vp: &NestedGridKzgVerifierParam,
    point: Seq<Scalar>,
    proof: &NestedGridKzgProof,
    res: Result<bool, PCSError>,
)
    requires
        !verification_ok(vp, point, proof) ==> (res matches Err(e) && e is InvalidProof),
        res is Ok,
    ensures
        4 <= proof.mu <= vp.max_num_vars,
        proof.mu < usize::BITS,
        point.len() == proof.mu,
{
}

/// The keys that `trim` makes from one grid match: the prover's is the grid in its own
/// dimensions, and the verifier's holds the points of the trapdoors.
pub proof fn law_trimmed_keys_match(
    srs: &NestedGridKzgUniversalParams,
    pp: &NestedGridKzgProverParam,
    vp: &NestedGridKzgVerifierParam,
    g: int,
    tau: int,
    sigma: int,
)
    requires
        srs.wf(),
        pp.wf(),
        4 <= pp.num_vars <= srs.max_num_vars,
        is_grid_key(srs.key(), p2(srs.m_left as int), p2(srs.m_right as int), g, tau, sigma),
        srs.g2_tau@ == fmul(srs.g2_one@, tau),
        srs.g2_tau2@ == fmul(srs.g2_tau@, tau),
        srs.g2_sigma@ == fmul(srs.g2_one@, sigma),
        srs.g2_sigma2@ == fmul(srs.g2_sigma@, sigma),
        pp.key() == srs.trimmed_key(pp.num_vars as int),
        vp.grid_bases(pp.key(), pp.ml(), pp.mr()),
        vp.g2_one == srs.g2_one,
        vp.g2_tau == srs.g2_tau,
        vp.g2_tau2 == srs.g2_tau2,
        vp.g2_sigma == srs.g2_sigma,
        vp.g2_sigma2 == srs.g2_sigma2,
    ensures
        is_grid_key(pp.key(), pp.ml(), pp.mr(), g, tau, sigma),
        key_model(vp) == key_of(g, tau, sigma, vp.g2_one@),
{
    let mu = pp.num_vars as int;
    law_trimmed_key_is_grid_key(srs, mu, g, tau, sigma);
    let (ml, mr) = (pp.ml(), pp.mr());
    assert(is_grid_key(pp.key(), ml, mr, g, tau, sigma));
    lemma_p2_zero();
    lemma_p2_step(1);
    lemma_p2_step(2);
    lemma_pow2_mono(2, pp.m_left as int);
    lemma_pow2_mono(2, pp.m_right as int);
    lemma_position_of_base(ml, mr, 0, 0);
    lemma_position_of_base(ml, mr, 1, 0);
    lemma_position_of_base(ml, mr, 0, 1);
    lemma_position_of_base(ml, mr, 1, 1);
}

/// A verdict is given on every proof of the form that the key and the point ask for,
/// unless the challenges cannot be used.
pub proof fn law_verdict_is_given(
    vp: &NestedGridKzgVerifierParam,
    com: int,
    point: Seq<Scalar>,
    value: int,
    proof: &NestedGridKzgProof,
    res: Result<bool, PCSError>,
)
    requires
        4 <= proof.mu <= vp.max_num_vars,
        proof.mu < usize::BITS,
        point.len() == proof.mu,
        verification_ok(vp, point, proof) ==> is_verification(vp, com, point, value, proof, res),
    ensures
        verification_ok(vp, point, proof),
        res is Err ==> exists|end: Seq<Entry>| #[trigger]
            stopped_at(statement(com, vals(point), value), end),
{
    let u = vals(point);
    let end = choose|end: Seq<Entry>|
        is_course(end) && #[trigger] verified(fresh_log(), end, vp, com, point, value, proof, res);
    assert(verified(fresh_log(), end, vp, com, point, value, proof, res));
    if res is Err {
        let start = stated(fresh_log(), com, u, value);
        let (c, h) = choose|c: NrgChallenges, h: NrgRun| #[trigger]
            is_stopped_run(start, end, proof.model(), c, h);
        lemma_stopped(start, end, proof.model(), c, h);
        lemma_statement(com, u, value);
    }
}

} // verus!
