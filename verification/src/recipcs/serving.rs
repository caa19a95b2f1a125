//! What is served: an opening of every polynomial that the key supports.

use crate::batching::{is_aggregate, BatchPlan};
use crate::dims::lemma_pow2_mono;
use crate::errors::PCSError;
use crate::field::{cong, lemma_cong_inverse, vals, Scalar};
use crate::poly::dot;
use crate::recipcs::{
    core_opened, is_opening, is_verification, labels, opened, proof_ok, request_ok, stated,
    verified, ReciProof,
};
use crate::recipcs::batch::aggregate_opened;
use crate::recipcs::srs::{ReciProverParam, ReciVerifierParam};
use crate::reciprocal::{honest_proof, verification_result, ReciChallenges};
use crate::serving::{heard, lemma_heard};
use crate::tensor::{mle_eval, p2, Mle};
use crate::transcript::{is_course, Entry};
use vstd::prelude::*;

verus! {

/// Whether an opening of a table ended on a `z` that is zero or its own inverse, drawn
/// after the statement.
pub open spec fn stopped_at(
    com: int,
    u: Seq<int>,
    y: int,
    end: Seq<Entry>,
    z: int,
) -> bool {
    &&& heard(
        seq![
            Entry::Domain("recipcs-v1"@),
            Entry::Field("recipcs::mu"@, u.len() as int),
            Entry::Point("recipcs::cm_f"@, com),
            Entry::Fields("recipcs::point"@, u),
            Entry::Field("recipcs::value"@, y),
        ],
        end,
        "recipcs::z"@,
        z,
    )
    &&& z == 0 || cong(z * z, 1)
}

/// `open` refuses no request that the key supports: for a polynomial in at least one
/// variable that `commit` takes, and a point with a coordinate for each variable, it
/// returns the value of the polynomial with a proof, or the error of an unusable `z`.
pub proof fn law_open_serves(
    pp: &ReciProverParam,
    poly: &Mle,
    point: Seq<Scalar>,
    res: Result<(ReciProof, Scalar), PCSError>,
)
    requires
        1 <= poly.num_vars,
        poly.num_vars + 1 < usize::BITS,
        p2(poly.num_vars as int) - 1 <= pp.max_degree,
        point.len() == poly.num_vars,
        !request_ok(pp, poly, point) ==> (res matches Err(e) && e is InvalidParameters),
        request_ok(pp, poly, point) ==> is_opening(pp, poly, point, res),
    ensures
        match res {
            Ok((proof, value)) => proof.mu == poly.num_vars && value@ == mle_eval(
                poly.table(),
                vals(point),
            ),
            Err(e) => e is InvalidProof && exists|end: Seq<Entry>, z: int| #[trigger]
                stopped_at(
                    dot(pp.key(), poly.table(), poly.evaluations@.len() as int),
                    vals(point),
                    mle_eval(poly.table(), vals(point)),
                    end,
                    z,
                ),
        },
{
    let u = vals(point);
    let f = poly.table();
    let com = dot(pp.key(), f, poly.evaluations@.len() as int);
    let y = mle_eval(f, u);
    let end = choose|end: Seq<Entry>| is_course(end) && #[trigger] opened(end, pp, poly, u, res);
    assert(opened(end, pp, poly, u, res));
    let start = stated(u.len() as int, com, u, y);
    let c = choose|c: ReciChallenges| #[trigger] core_opened(start, end, pp.key(), f, u, res, c);
    assert(core_opened(start, end, pp.key(), f, u, res, c));
    if res is Err {
        let h = honest_proof(pp.key(), f, u, c).cm_hbar;
        let before = start.push(Entry::Point("recipcs::cm_hbar"@, h));
        assert(end =~= before.push(Entry::Challenge("recipcs::z"@, c.z)));
        assert(end.is_prefix_of(end));
        assert(start.is_prefix_of(before));
        lemma_heard(start, before, end, "recipcs::z"@, c.z);
        if c.z != 0 {
            lemma_cong_inverse(c.z, c.z);
        }
        assert(stopped_at(com, u, y, end, c.z));
    }
}

/// A key that was made for `nv` variables serves all polynomials in fewer or as many.
pub proof fn law_key_serves(pp: &ReciProverParam, nv: int, poly: &Mle, point: Seq<Scalar>)
    requires
        pp.max_degree == p2(nv) - 1,
        1 <= poly.num_vars <= nv,
        nv + 1 < usize::BITS,
        point.len() == poly.num_vars,
    ensures
        request_ok(pp, poly, point),
{
    lemma_pow2_mono(poly.num_vars as int, nv);
}

/// A batch is served like a single opening: under a key that supports it, the
/// opening of the aggregated polynomial returns its value at the final point of the
/// sumcheck with a proof, or the error of challenges that cannot be used.
pub proof fn law_batch_open_serves(
    pp: &ReciProverParam,
    plan: &BatchPlan,
    a: Seq<Scalar>,
    g: Mle,
    res: Result<(ReciProof, Scalar), PCSError>,
)
    requires
        1 <= plan.num_var,
        plan.num_var + 1 < usize::BITS,
        p2(plan.num_var as int) - 1 <= pp.max_degree,
        a.len() == plan.num_var,
        aggregate_opened(pp, plan, a, g, res),
    ensures
        is_aggregate(plan, a, &g),
        match res {
            Ok((proof, value)) => proof.mu == plan.num_var && value@ == mle_eval(
                g.table(),
                vals(a),
            ),
            Err(e) => e is InvalidProof && exists|end: Seq<Entry>, z: int| #[trigger]
                stopped_at(
                    dot(pp.key(), g.table(), g.evaluations@.len() as int),
                    vals(a),
                    mle_eval(g.table(), vals(a)),
                    end,
                    z,
                ),
        },
{
    law_open_serves(pp, &g, a, res);
}

/// `open` refuses every request that the key does not support.
pub proof fn law_open_refuses(
    pp: &ReciProverParam,
    poly: &Mle,
    point: Seq<Scalar>,
    res: Result<(ReciProof, Scalar), PCSError>,
)
    requires
        poly.num_vars == 0 || point.len() != poly.num_vars || p2(poly.num_vars as int) - 1
            > pp.max_degree || poly.num_vars + 1 >= usize::BITS,
        !request_ok(pp, poly, point) ==> (res matches Err(e) && e is InvalidParameters),
    ensures
        res matches Err(e) && e is InvalidParameters,
{
}

/// A verdict is given only on a proof of the form that the key and the point ask for.
pub proof fn law_form_is_checked(
    vp: &ReciVerifierParam,
    point: Seq<Scalar>,
    proof: &ReciProof,
    res: Result<bool, PCSError>,
)
    requires
        !proof_ok(vp, point, proof) ==> (res matches Err(e) && e is InvalidProof),
        res is Ok,
    ensures
        1 <= proof.mu < usize::BITS,
        point.len() == proof.mu,
        p2(proof.mu as int) - 1 <= vp.max_degree,
{
}

/// A verdict is given on every proof of the form that the key and the point ask for,
/// unless the challenges cannot be used.
pub proof fn law_verdict_is_given(
    vp: &ReciVerifierParam,
    com: int,
    point: Seq<Scalar>,
    value: int,
    proof: &ReciProof,
    res: Result<bool, PCSError>,
)
    requires
        1 <= proof.mu < usize::BITS,
        point.len() == proof.mu,
        p2(proof.mu as int) - 1 <= vp.max_degree,
        proof_ok(vp, point, proof) ==> is_verification(vp, com, point, value, proof, res),
    ensures
        proof_ok(vp, point, proof),
        res matches Err(e) ==> e is InvalidProof && exists|end: Seq<Entry>, z: int| #[trigger]
            stopped_at(com, vals(point), value, end, z),
{
    let u = vals(point);
    let start = stated(u.len() as int, com, u, value);
    let end = choose|end: Seq<Entry>|
        is_course(end) && #[trigger] verified(start, end, vp, com, u, value, proof, res);
    assert(verified(start, end, vp, com, u, value, proof, res));
    let p = proof.model();
    let c = choose|c: ReciChallenges| #[trigger]
        verification_result(
            start,
            end,
            labels(),
            vp.model(),
            com,
            u,
            value,
            p,
            None,
            res,
            c,
        );
    if res is Err {
        let before = start.push(Entry::Point("recipcs::cm_hbar"@, p.cm_hbar));
        assert(end =~= before.push(Entry::Challenge("recipcs::z"@, c.z)));
        assert(end.is_prefix_of(end));
        assert(start.is_prefix_of(before));
        lemma_heard(start, before, end, "recipcs::z"@, c.z);
        if c.z != 0 {
            lemma_cong_inverse(c.z, c.z);
        }
        assert(stopped_at(com, u, value, end, c.z));
    }
}

} // verus!
