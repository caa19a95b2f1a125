//! What an opening and a verification of it come to together.

use crate::batching::BatchPlan;
use crate::batching_laws::{
    combined_commitment, is_batch_of, law_reordered_batch_commitment, reordered,
};
use crate::carina::srs::{
    is_grid_key, layout, lemma_base_of_position, lemma_grid_dims, position_base,
};
use crate::dims::lemma_row_major;
use crate::errors::PCSError;
use crate::field::{vals, Scalar};
use crate::group::G1;
use crate::nested_grid_kzg::{
    fresh_log, is_opening, is_verification, key_model, opened, opening_ok, table_commitment,
    verification_ok, verified, NestedGridKzgProof, NestedGridKzgProverParam,
    NestedGridKzgVerifierParam,
};
use crate::nested_grid_kzg::laws::{key_of, law_honest_run_is_accepted};
use crate::nested_grid_kzg::model::{
    h_poly, honest_proof, is_honest_run, is_honest_stop, is_run, is_stopped_run, is_verdict,
    left_part, right_part, stated, with_inner, with_inner_values, with_outer, with_outer_values,
    NrgChallenges, NrgProof, NrgRun,
};
use crate::poly::dot;
use crate::tensor::{mle_eval, Mle};
use crate::transcript::{
    drawn, is_course, law_draw_is_determined, lemma_drawn_prefix, lemma_prefix_trans, nonzero,
    reciprocal, Entry,
};
use vstd::arithmetic::power2::pow2;
use vstd::prelude::*;

verus! {

/// The histories of a run are prefixes of its end.
proof fn lemma_run_prefixes(start: Seq<Entry>, p: NrgProof, c: NrgChallenges, h: NrgRun)
    requires
        is_run(start, p, c, h),
    ensures
        h.after_s.is_prefix_of(h.after_eta),
        h.after_lambda.is_prefix_of(h.after_eta),
        h.after_r.is_prefix_of(h.after_eta),
{
    let l1 = with_outer_values(h.after_r, p);
    let l2 = with_inner(h.after_lambda, p);
    let l3 = with_inner_values(h.after_s, p);
    lemma_drawn_prefix(l1, h.after_lambda, "nrg::lambda"@, nonzero(), Some(c.lambda));
    lemma_drawn_prefix(l2, h.after_s, "nrg::s"@, reciprocal(), Some(c.s));
    lemma_drawn_prefix(l3, h.after_eta, "nrg::eta"@, nonzero(), Some(c.eta));
    assert(h.after_s.is_prefix_of(l3));
    lemma_prefix_trans(h.after_s, l3, h.after_eta);
    assert(h.after_lambda.is_prefix_of(l2));
    lemma_prefix_trans(h.after_lambda, l2, h.after_s);
    lemma_prefix_trans(h.after_lambda, h.after_s, h.after_eta);
    assert(h.after_r.is_prefix_of(l1));
    lemma_prefix_trans(h.after_r, l1, h.after_lambda);
    lemma_prefix_trans(h.after_r, h.after_lambda, h.after_eta);
}

/// The histories of a run that was given up are prefixes of its end, as far as
/// it went.
proof fn lemma_stop_prefixes(
    start: Seq<Entry>,
    end: Seq<Entry>,
    p: NrgProof,
    c: NrgChallenges,
    h: NrgRun,
)
    requires
        is_stopped_run(start, end, p, c, h),
    ensures
        drawn(with_outer(start, p), end, "nrg::r"@, reciprocal(), None)
            || h.after_r.is_prefix_of(end),
        drawn(with_outer(start, p), end, "nrg::r"@, reciprocal(), None) || drawn(
            with_outer_values(h.after_r, p),
            end,
            "nrg::lambda"@,
            nonzero(),
            None,
        ) || h.after_lambda.is_prefix_of(end),
        drawn(with_outer(start, p), end, "nrg::r"@, reciprocal(), None) || drawn(
            with_outer_values(h.after_r, p),
            end,
            "nrg::lambda"@,
            nonzero(),
            None,
        ) || drawn(with_inner(h.after_lambda, p), end, "nrg::s"@, reciprocal(), None)
            || h.after_s.is_prefix_of(end),
{
    let l1 = with_outer_values(h.after_r, p);
    let l2 = with_inner(h.after_lambda, p);
    let l3 = with_inner_values(h.after_s, p);
    assert(h.after_r.is_prefix_of(l1));
    assert(h.after_lambda.is_prefix_of(l2));
    assert(h.after_s.is_prefix_of(l3));
    if drawn(with_outer(start, p), end, "nrg::r"@, reciprocal(), None) {
    } else if drawn(l1, end, "nrg::lambda"@, nonzero(), None) {
        lemma_drawn_prefix(l1, end, "nrg::lambda"@, nonzero(), None);
        lemma_prefix_trans(h.after_r, l1, end);
    } else {
        lemma_drawn_prefix(l1, h.after_lambda, "nrg::lambda"@, nonzero(), Some(c.lambda));
        lemma_prefix_trans(h.after_r, l1, h.after_lambda);
        if drawn(l2, end, "nrg::s"@, reciprocal(), None) {
            lemma_drawn_prefix(l2, end, "nrg::s"@, reciprocal(), None);
        } else {
            lemma_drawn_prefix(l2, h.after_s, "nrg::s"@, reciprocal(), Some(c.s));
            lemma_drawn_prefix(l3, end, "nrg::eta"@, nonzero(), None);
            lemma_prefix_trans(h.after_s, l3, end);
            lemma_prefix_trans(l2, h.after_s, end);
        }
        lemma_prefix_trans(h.after_lambda, l2, end);
        lemma_prefix_trans(h.after_r, h.after_lambda, end);
    }
}

/// The course of a run is determined by what stands before it and what is sent.
/// What is sent later may depend on the challenges, so that two runs agree where
/// they send the same for the same challenges so far.
pub proof fn law_run_is_determined(
    start: Seq<Entry>,
    p: NrgProof,
    c: NrgChallenges,
    h: NrgRun,
    q: NrgProof,
    d: NrgChallenges,
    k: NrgRun,
)
    requires
        is_run(start, p, c, h),
        is_run(start, q, d, k),
        is_course(h.after_eta),
        is_course(k.after_eta),
        p.cm_s0 == q.cm_s0,
        c.r == d.r ==> p.a_plus == q.a_plus && p.a_minus == q.a_minus && p.t0_plus == q.t0_plus,
        c.r == d.r && c.lambda == d.lambda ==> p.cm_s1 == q.cm_s1,
        c.r == d.r && c.lambda == d.lambda && c.s == d.s ==> p.v_pp == q.v_pp && p.v_pn == q.v_pn
            && p.v_np == q.v_np && p.v_nn == q.v_nn && p.t1_plus == q.t1_plus,
    ensures
        c == d,
        h == k,
{
    let end = h.after_eta;
    let other = k.after_eta;
    lemma_run_prefixes(start, p, c, h);
    lemma_run_prefixes(start, q, d, k);
    assert(end.is_prefix_of(end));
    assert(other.is_prefix_of(other));
    law_draw_is_determined(
        with_outer(start, p),
        end,
        other,
        h.after_r,
        k.after_r,
        "nrg::r"@,
        reciprocal(),
        Some(c.r),
        Some(d.r),
    );
    law_draw_is_determined(
        with_outer_values(h.after_r, p),
        end,
        other,
        h.after_lambda,
        k.after_lambda,
        "nrg::lambda"@,
        nonzero(),
        Some(c.lambda),
        Some(d.lambda),
    );
    law_draw_is_determined(
        with_inner(h.after_lambda, p),
        end,
        other,
        h.after_s,
        k.after_s,
        "nrg::s"@,
        reciprocal(),
        Some(c.s),
        Some(d.s),
    );
    law_draw_is_determined(
        with_inner_values(h.after_s, p),
        end,
        other,
        end,
        other,
        "nrg::eta"@,
        nonzero(),
        Some(c.eta),
        Some(d.eta),
    );
}

/// Where one run comes to its end, another from the same history that sends the
/// same is not given up.
proof fn lemma_not_stopped(
    start: Seq<Entry>,
    p: NrgProof,
    c: NrgChallenges,
    h: NrgRun,
    end: Seq<Entry>,
    q: NrgProof,
    d: NrgChallenges,
    k: NrgRun,
)
    requires
        is_run(start, p, c, h),
        is_course(h.after_eta),
        is_course(end),
        p.cm_s0 == q.cm_s0,
        c.r == d.r ==> p.a_plus == q.a_plus && p.a_minus == q.a_minus && p.t0_plus == q.t0_plus,
        c.r == d.r && c.lambda == d.lambda ==> p.cm_s1 == q.cm_s1,
        c.r == d.r && c.lambda == d.lambda && c.s == d.s ==> p.v_pp == q.v_pp && p.v_pn == q.v_pn
            && p.v_np == q.v_np && p.v_nn == q.v_nn && p.t1_plus == q.t1_plus,
    ensures
        !is_stopped_run(start, end, q, d, k),
{
    if is_stopped_run(start, end, q, d, k) {
        let own = h.after_eta;
        lemma_run_prefixes(start, p, c, h);
        lemma_stop_prefixes(start, end, q, d, k);
        assert(own.is_prefix_of(own));
        assert(end.is_prefix_of(end));
        let l0 = with_outer(start, p);
        if drawn(l0, end, "nrg::r"@, reciprocal(), None) {
            law_draw_is_determined(
                l0,
                own,
                end,
                h.after_r,
                end,
                "nrg::r"@,
                reciprocal(),
                Some(c.r),
                None,
            );
        } else {
            law_draw_is_determined(
                l0,
                own,
                end,
                h.after_r,
                k.after_r,
                "nrg::r"@,
                reciprocal(),
                Some(c.r),
                Some(d.r),
            );
            let l1 = with_outer_values(h.after_r, p);
            if drawn(l1, end, "nrg::lambda"@, nonzero(), None) {
                law_draw_is_determined(
                    l1,
                    own,
                    end,
                    h.after_lambda,
                    end,
                    "nrg::lambda"@,
                    nonzero(),
                    Some(c.lambda),
                    None,
                );
            } else {
                law_draw_is_determined(
                    l1,
                    own,
                    end,
                    h.after_lambda,
                    k.after_lambda,
                    "nrg::lambda"@,
                    nonzero(),
                    Some(c.lambda),
                    Some(d.lambda),
                );
                let l2 = with_inner(h.after_lambda, p);
                if drawn(l2, end, "nrg::s"@, reciprocal(), None) {
                    law_draw_is_determined(
                        l2,
                        own,
                        end,
                        h.after_s,
                        end,
                        "nrg::s"@,
                        reciprocal(),
                        Some(c.s),
                        None,
                    );
                } else {
                    law_draw_is_determined(
                        l2,
                        own,
                        end,
                        h.after_s,
                        k.after_s,
                        "nrg::s"@,
                        reciprocal(),
                        Some(c.s),
                        Some(d.s),
                    );
                    law_draw_is_determined(
                        with_inner_values(h.after_s, p),
                        own,
                        end,
                        own,
                        end,
                        "nrg::eta"@,
                        nonzero(),
                        Some(c.eta),
                        None,
                    );
                }
            }
        }
    }
}

/// Completeness: where `open` returned a proof and a value, `verify` under the
/// matching key returns `true` for them, the commitment and the point.
pub proof fn law_opening_is_accepted(
    pp: &NestedGridKzgProverParam,
    vp: &NestedGridKzgVerifierParam,
    g: int,
    tau: int,
    sigma: int,
    poly: &Mle,
    point: Seq<Scalar>,
    proof: NestedGridKzgProof,
    value: Scalar,
    r: Result<bool, PCSError>,
)
    requires
        pp.dims(),
        poly.wf(),
        opening_ok(pp, poly, point),
        is_grid_key(pp.key(), pp.ml(), pp.mr(), g, tau, sigma),
        key_model(vp) == key_of(g, tau, sigma, vp.g2_one@),
        poly.num_vars <= vp.max_num_vars,
        is_opening(pp, poly, point, table_commitment(pp, poly), Ok((proof, value))),
        is_verification(vp, table_commitment(pp, poly), point, value@, &proof, r),
    ensures
        verification_ok(vp, point, &proof),
        value@ == mle_eval(poly.table(), vals(point)),
        r == Ok::<bool, PCSError>(true),
{
    let f = poly.table();
    let u = vals(point);
    let com = table_commitment(pp, poly);
    let p = proof.model();
    let y = mle_eval(f, u);
    let log = fresh_log();
    let res: Result<(NestedGridKzgProof, Scalar), PCSError> = Ok((proof, value));
    let end = choose|end: Seq<Entry>|
        is_course(end) && #[trigger] opened(log, end, pp, poly, point, com, res);
    let (c, h) = choose|c: NrgChallenges, h: NrgRun|
        h.after_eta == end && #[trigger] is_honest_run(log, pp.key(), f, u, com, p, c, h);
    assert(is_honest_run(log, pp.key(), f, u, com, p, c, h));
    let start = stated(log, com, u, y);
    law_honest_run_is_accepted(
        log,
        pp.key(),
        g,
        tau,
        sigma,
        vp.g2_one@,
        f,
        u,
        com,
        p,
        c,
        h,
    );
    let other = choose|other: Seq<Entry>|
        is_course(other) && #[trigger] verified(log, other, vp, com, point, value@, &proof, r);
    match r {
        Ok(ok) => {
            let (d, k) = choose|d: NrgChallenges, k: NrgRun|
                k.after_eta == other && #[trigger]
                    is_verdict(log, key_model(vp), com, u, y, p, ok, d, k);
            assert(is_verdict(log, key_model(vp), com, u, y, p, ok, d, k));
            law_run_is_determined(start, p, c, h, p, d, k);
        },
        Err(e) => {
            let (d, k) = choose|d: NrgChallenges, k: NrgRun| #[trigger]
                is_stopped_run(start, other, p, d, k);
            assert(is_stopped_run(start, other, p, d, k));
            lemma_not_stopped(start, p, c, h, other, p, d, k);
        },
    }
}

/// What an honest prover sends depends on the challenges so far alone.
proof fn lemma_honest_steps(
    key: Seq<int>,
    f: Seq<int>,
    ul: Seq<int>,
    ur: Seq<int>,
    y: int,
    c: NrgChallenges,
    d: NrgChallenges,
)
    ensures
        ({
            let p = honest_proof(key, f, ul, ur, y, c);
            let q = honest_proof(key, f, ul, ur, y, d);
            &&& p.cm_s0 == q.cm_s0
            &&& c.r == d.r ==> p.a_plus == q.a_plus && p.a_minus == q.a_minus && p.t0_plus
                == q.t0_plus
            &&& c.r == d.r && c.lambda == d.lambda ==> p.cm_s1 == q.cm_s1
            &&& c.r == d.r && c.lambda == d.lambda && c.s == d.s ==> p.v_pp == q.v_pp && p.v_pn
                == q.v_pn && p.v_np == q.v_np && p.v_nn == q.v_nn && p.t1_plus == q.t1_plus
        }),
{
    if c.r == d.r && c.lambda == d.lambda {
        assert(h_poly(f, ul, ur, c) == h_poly(f, ul, ur, d));
    }
}

/// Two openings of one polynomial at one point for one commitment agree: both
/// are refused, or both hold the same proof and the same value. In particular
/// `open` and `open_with_commitment` agree where the commitment is the
/// polynomial's.
pub proof fn law_openings_agree(
    pp: &NestedGridKzgProverParam,
    poly: &Mle,
    point: Seq<Scalar>,
    com: int,
    r: Result<(NestedGridKzgProof, Scalar), PCSError>,
    s: Result<(NestedGridKzgProof, Scalar), PCSError>,
)
    requires
        is_opening(pp, poly, point, com, r),
        is_opening(pp, poly, point, com, s),
    ensures
        r is Ok <==> s is Ok,
        r matches Ok((proof, value)) ==> {
            &&& proof.model() == s->Ok_0.0.model()
            &&& proof.mu == s->Ok_0.0.mu
            &&& value@ == s->Ok_0.1@
        },
{
    let end = choose|end: Seq<Entry>|
        is_course(end) && #[trigger] opened(fresh_log(), end, pp, poly, point, com, r);
    let other = choose|other: Seq<Entry>|
        is_course(other) && #[trigger] opened(fresh_log(), other, pp, poly, point, com, s);
    if r is Ok {
        lemma_openings_agree(pp, poly, point, com, end, r->Ok_0, other, s);
    }
    if s is Ok {
        lemma_openings_agree(pp, poly, point, com, other, s->Ok_0, end, r);
    }
}

proof fn lemma_openings_agree(
    pp: &NestedGridKzgProverParam,
    poly: &Mle,
    point: Seq<Scalar>,
    com: int,
    end: Seq<Entry>,
    got: (NestedGridKzgProof, Scalar),
    other: Seq<Entry>,
    s: Result<(NestedGridKzgProof, Scalar), PCSError>,
)
    requires
        is_course(end),
        is_course(other),
        opened(fresh_log(), end, pp, poly, point, com, Ok(got)),
        opened(fresh_log(), other, pp, poly, point, com, s),
    ensures
        s is Ok,
        got.0.model() == s->Ok_0.0.model(),
{
    let f = poly.table();
    let u = vals(point);
    let y = mle_eval(f, u);
    let log = fresh_log();
    let start = stated(log, com, u, y);
    let key = pp.key();
    let p = got.0.model();
    let (c, h) = choose|c: NrgChallenges, h: NrgRun|
        h.after_eta == end && #[trigger] is_honest_run(log, key, f, u, com, p, c, h);
    assert(is_honest_run(log, key, f, u, com, p, c, h));
    match s {
        Ok((proof, value)) => {
            let q = proof.model();
            let (d, k) = choose|d: NrgChallenges, k: NrgRun|
                k.after_eta == other && #[trigger] is_honest_run(log, key, f, u, com, q, d, k);
            assert(is_honest_run(log, key, f, u, com, q, d, k));
            lemma_honest_steps(key, f, left_part(u), right_part(u), y, c, d);
            law_run_is_determined(start, p, c, h, q, d, k);
        },
        Err(e) => {
            let (d, k) = choose|d: NrgChallenges, k: NrgRun| #[trigger]
                is_honest_stop(log, other, key, f, u, com, d, k);
            assert(is_honest_stop(log, other, key, f, u, com, d, k));
            lemma_honest_steps(key, f, left_part(u), right_part(u), y, c, d);
            let q = honest_proof(key, f, left_part(u), right_part(u), y, d);
            lemma_not_stopped(start, p, c, h, other, q, d, k);
        },
    }
}

/// Where the entry at a position of the key stands in a table.
spec fn place(ml: int, mr: int) -> spec_fn(int) -> int {
    |p: int| position_base(ml, mr, p).0 + ml * position_base(ml, mr, p).1
}

/// The commitment to a polynomial is that to its table in the order of the key.
proof fn lemma_commitment_is_reordered(pp: &NestedGridKzgProverParam, poly: &Mle)
    requires
        pp.dims(),
        poly.wf(),
        poly.num_vars == pp.num_vars,
    ensures
        table_commitment(pp, poly) == dot(
            pp.key(),
            reordered(poly.table(), pow2(pp.num_vars as nat), place(pp.ml(), pp.mr())),
            pow2(pp.num_vars as nat) as int,
        ),
{
    let n = pow2(pp.num_vars as nat);
    let (ml, mr) = (pp.ml(), pp.mr());
    lemma_grid_dims(pp.num_vars as int);
    assert(poly.table().len() == n);
    let want = reordered(poly.table(), n, place(ml, mr));
    assert(layout(poly.table(), ml, mr) =~= want) by {
        assert forall|p: int| 0 <= p < n implies layout(poly.table(), ml, mr)[p]
            == #[trigger] want[p] by {
            lemma_base_of_position(ml, mr, p);
            let (i, j) = position_base(ml, mr, p);
            lemma_row_major(ml, mr, i, j);
            assert(j * ml == ml * j) by (nonlinear_arith);
            assert(place(ml, mr)(p) == i + ml * j);
        }
    }
}

/// The combined commitment of a batch is the commitment to the aggregated
/// polynomial.
pub proof fn law_grid_batch_commitment(
    pp: &NestedGridKzgProverParam,
    plan: &BatchPlan,
    polys: Seq<Mle>,
    points: Seq<Vec<Scalar>>,
    a: Seq<Scalar>,
    g: &Mle,
    coms: Seq<G1>,
)
    requires
        pp.dims(),
        a.len() == pp.num_vars,
        is_batch_of(plan, polys, points, a, g),
        coms.len() == polys.len(),
        forall|i: int|
            0 <= i < coms.len() ==> (#[trigger] coms[i])@ == table_commitment(pp, &polys[i]),
    ensures
        combined_commitment(plan.weights@, coms, points, a) == table_commitment(pp, g),
{
    let n = pow2(pp.num_vars as nat);
    let at = place(pp.ml(), pp.mr());
    assert forall|i: int| 0 <= i < coms.len() implies (#[trigger] coms[i])@ == dot(
        pp.key(),
        reordered(polys[i].table(), n, at),
        n as int,
    ) by {
        assert(polys[i].wf());
        lemma_commitment_is_reordered(pp, &polys[i]);
    }
    lemma_commitment_is_reordered(pp, g);
    law_reordered_batch_commitment(pp.key(), plan, polys, points, a, g, coms, n, at);
}

/// A batch is accepted: where the aggregated polynomial was opened to a proof and
/// a value, the verification of the commitment that is combined for the same
/// weights returns `true` under the matching key.
pub proof fn law_batch_is_accepted(
    pp: &NestedGridKzgProverParam,
    vp: &NestedGridKzgVerifierParam,
    g: int,
    tau: int,
    sigma: int,
    plan: &BatchPlan,
    polys: Seq<Mle>,
    points: Seq<Vec<Scalar>>,
    coms: Seq<G1>,
    poly: &Mle,
    point: Seq<Scalar>,
    proof: NestedGridKzgProof,
    value: Scalar,
    r: Result<bool, PCSError>,
)
    requires
        is_batch_of(plan, polys, points, point, poly),
        coms.len() == polys.len(),
        forall|i: int|
            0 <= i < coms.len() ==> (#[trigger] coms[i])@ == table_commitment(pp, &polys[i]),
        pp.dims(),
        poly.wf(),
        opening_ok(pp, poly, point),
        is_grid_key(pp.key(), pp.ml(), pp.mr(), g, tau, sigma),
        key_model(vp) == key_of(g, tau, sigma, vp.g2_one@),
        poly.num_vars <= vp.max_num_vars,
        is_opening(pp, poly, point, table_commitment(pp, poly), Ok((proof, value))),
        is_verification(
            vp,
            combined_commitment(plan.weights@, coms, points, point),
            point,
            value@,
            &proof,
            r,
        ),
    ensures
        verification_ok(vp, point, &proof),
        value@ == mle_eval(poly.table(), vals(point)),
        r == Ok::<bool, PCSError>(true),
{
    law_grid_batch_commitment(pp, plan, polys, points, point, poly, coms);
    law_opening_is_accepted(pp, vp, g, tau, sigma, poly, point, proof, value, r);
}

} // verus!
