//! What is served: an opening of every polynomial that the key supports, with either
//! variant of the scheme.

use crate::batching::{is_aggregate, BatchPlan};
use crate::dims::lemma_pow2_mono;
use crate::errors::PCSError;
use crate::field::{
    cong, fmul, group_shadow, lemma_cong_inverse, lemma_cong_symm, lemma_refl, vals, Scalar,
};
use crate::mulcs::{
    aggregate_opened, fresh_log, is_opening, is_verification, key_fits, mu_ok, opened,
    opening_result, proof_ok, verification_result, verified, MulcsProof,
};
use crate::mulcs::model::{aggregate_log, honest_proof, MulcsChallenges};
use crate::mulcs::srs::{MulcsProverParam, MulcsVerifierParam};
use crate::mulcs::symmetric::{symmetric_result, MulcsSymmetricProof};
use crate::reciprocal::ReciChallenges;
use crate::serving::{heard, lemma_heard};
use crate::tensor::{mle_eval, p2, Mle};
use crate::transcript::{is_course, Entry};
use vstd::prelude::*;

verus! {

/// The history before an opening.
pub open spec fn single_log(domain: Seq<char>, mu: int) -> Seq<Entry> {
    seq![Entry::Domain(domain), Entry::Field("mu"@, mu)]
}

/// The history before the opening of an aggregated polynomial.
pub open spec fn batch_log(domain: Seq<char>, a: Seq<int>) -> Seq<Entry> {
    seq![
        Entry::Domain(domain),
        Entry::Fields("point_a2"@, a),
        Entry::Field("mu"@, a.len() as int),
    ]
}

/// Whether an opening ended on a `z` that `gamma` does not move.
pub open spec fn stopped_at(gamma: int, start: Seq<Entry>, end: Seq<Entry>, z: int) -> bool {
    &&& heard(start, end, "mulcs_z"@, z)
    &&& cong(gamma * z, z)
}

proof fn lemma_open_serves(
    start: Seq<Entry>,
    pp: &MulcsProverParam,
    poly: &Mle,
    point: Seq<Scalar>,
    res: Result<(MulcsProof, Scalar), PCSError>,
)
    requires
        point.len() == poly.num_vars,
        is_opening(start, pp, poly, point, res),
    ensures
        match res {
            Ok((proof, value)) => proof.mu == poly.num_vars && value@ == mle_eval(
                poly.table(),
                vals(point),
            ),
            Err(e) => e is InvalidProof && exists|end: Seq<Entry>, z: int| #[trigger]
                stopped_at(pp.gamma@, start, end, z),
        },
{
    let u = vals(point);
    let f = poly.table();
    let end = choose|end: Seq<Entry>|
        is_course(end) && #[trigger] opened(start, end, pp, poly, u, res);
    assert(opened(start, end, pp, poly, u, res));
    let g = pp.gamma@;
    let c = choose|c: MulcsChallenges| #[trigger]
        opening_result(start, end, pp.key(), g, f, u, res, c);
    assert(opening_result(start, end, pp.key(), g, f, u, res, c));
    if res is Err {
        let h = honest_proof(pp.key(), g, f, u, c).cm_hbar;
        let before = start.push(Entry::Challenge("mulcs_delta"@, c.delta)).push(
            Entry::Point("cm_hbar"@, h),
        );
        assert(end =~= before.push(Entry::Challenge("mulcs_z"@, c.z)));
        assert(end.is_prefix_of(end));
        assert(start.is_prefix_of(before));
        lemma_heard(start, before, end, "mulcs_z"@, c.z);
        assert(cong(fmul(g, c.z), g * c.z)) by {
            lemma_refl(g);
            lemma_refl(c.z);
            broadcast use group_shadow;

        }
        lemma_cong_symm(fmul(g, c.z), g * c.z);
        assert(stopped_at(g, start, end, c.z));
    }
}

/// `open` refuses no request that the key supports: for a point with a coordinate for
/// each variable it returns the value of the polynomial with a proof, or the error of an
/// unusable `z`.
pub proof fn law_open_serves(
    pp: &MulcsProverParam,
    poly: &Mle,
    point: Seq<Scalar>,
    res: Result<(MulcsProof, Scalar), PCSError>,
)
    requires
        point.len() == poly.num_vars,
        is_opening(fresh_log(point.len() as int), pp, poly, point, res),
    ensures
        match res {
            Ok((proof, value)) => proof.mu == poly.num_vars && value@ == mle_eval(
                poly.table(),
                vals(point),
            ),
            Err(e) => e is InvalidProof && exists|end: Seq<Entry>, z: int| #[trigger]
                stopped_at(
                    pp.gamma@,
                    single_log("mulcs-open"@, poly.num_vars as int),
                    end,
                    z,
                ),
        },
{
    let start = fresh_log(point.len() as int);
    assert(start =~= single_log("mulcs-open"@, poly.num_vars as int));
    lemma_open_serves(start, pp, poly, point, res);
}

/// A key that was made for `nv` variables fits all polynomials in fewer or as many.
pub proof fn law_key_serves(pp: &MulcsProverParam, nv: int, poly: &Mle)
    requires
        pp.wf(),
        poly.wf(),
        pp.max_degree == 2 * p2(nv),
        1 <= poly.num_vars <= nv,
    ensures
        mu_ok(poly.num_vars as int),
        key_fits(pp, poly),
        crate::mulcs::symmetric::key_fits(pp, poly),
{
    lemma_pow2_mono(poly.num_vars as int, nv);
}

/// Whether an opening of the symmetric variant ended on a `z` that is zero or its own
/// inverse.
pub open spec fn symmetric_stopped_at(start: Seq<Entry>, end: Seq<Entry>, z: int) -> bool {
    &&& heard(start, end, "mulcs_sym_z"@, z)
    &&& z == 0 || cong(z * z, 1)
}

proof fn lemma_symmetric_open_serves(
    start: Seq<Entry>,
    pp: &MulcsProverParam,
    poly: &Mle,
    point: Seq<Scalar>,
    res: Result<(MulcsSymmetricProof, Scalar), PCSError>,
)
    requires
        point.len() == poly.num_vars,
        crate::mulcs::symmetric::is_opening(
            start,
            pp,
            poly,
            point,
            res,
        ),
    ensures
        match res {
            Ok((proof, value)) => proof.mu == poly.num_vars && value@ == mle_eval(
                poly.table(),
                vals(point),
            ),
            Err(e) => exists|end: Seq<Entry>, z: int| #[trigger]
                symmetric_stopped_at(start, end, z),
        },
{
    let u = vals(point);
    let f = poly.table();
    let end = choose|end: Seq<Entry>|
        is_course(end) && #[trigger] crate::mulcs::symmetric::opened(start, end, pp, poly, u, res);
    assert(crate::mulcs::symmetric::opened(start, end, pp, poly, u, res));
    let c = choose|c: ReciChallenges| #[trigger]
        symmetric_result(start, end, pp.key(), f, u, res, c);
    assert(symmetric_result(start, end, pp.key(), f, u, res, c));
    if res is Err {
        let h = crate::reciprocal::honest_proof(pp.key(), f, u, c).cm_hbar;
        let before = start.push(Entry::Point("cm_hbar"@, h));
        assert(end =~= before.push(Entry::Challenge("mulcs_sym_z"@, c.z)));
        assert(end.is_prefix_of(end));
        assert(start.is_prefix_of(before));
        lemma_heard(start, before, end, "mulcs_sym_z"@, c.z);
        if c.z != 0 {
            lemma_cong_inverse(c.z, c.z);
        }
        assert(symmetric_stopped_at(start, end, c.z));
    }
}

/// The symmetric variant refuses no request that the key supports: for a point with a
/// coordinate for each variable it returns the value of the polynomial with a proof, or
/// the error of an unusable `z`.
pub proof fn law_symmetric_open_serves(
    pp: &MulcsProverParam,
    poly: &Mle,
    point: Seq<Scalar>,
    res: Result<(MulcsSymmetricProof, Scalar), PCSError>,
)
    requires
        point.len() == poly.num_vars,
        crate::mulcs::symmetric::is_opening(
            crate::mulcs::symmetric::fresh_log(point.len() as int),
            pp,
            poly,
            point,
            res,
        ),
    ensures
        match res {
            Ok((proof, value)) => proof.mu == poly.num_vars && value@ == mle_eval(
                poly.table(),
                vals(point),
            ),
            Err(e) => exists|end: Seq<Entry>, z: int| #[trigger]
                symmetric_stopped_at(
                    single_log("mulcs-sym-open"@, poly.num_vars as int),
                    end,
                    z,
                ),
        },
{
    let start = crate::mulcs::symmetric::fresh_log(point.len() as int);
    assert(start =~= single_log("mulcs-sym-open"@, poly.num_vars as int));
    lemma_symmetric_open_serves(start, pp, poly, point, res);
}

/// A verdict is given only on a proof of the form that the key and the point ask for.
pub proof fn law_form_is_checked(
    vp: &MulcsVerifierParam,
    point: Seq<Scalar>,
    proof: &MulcsProof,
    res: Result<bool, PCSError>,
)
    requires
        !proof_ok(vp, point, proof) ==> (res matches Err(e) && e is InvalidProof),
        res is Ok,
    ensures
        1 <= proof.mu < usize::BITS,
        point.len() == proof.mu,
        p2(proof.mu as int) - 1 <= vp.max_degree,
{
}

/// The same for a proof of the symmetric variant.
pub proof fn law_symmetric_form_is_checked(
    vp: &MulcsVerifierParam,
    point: Seq<Scalar>,
    proof: &MulcsSymmetricProof,
    res: Result<bool, PCSError>,
)
    requires
        !crate::mulcs::symmetric::proof_ok(vp, point, proof) ==> (res matches Err(e) && e
            is InvalidProof),
        res is Ok,
    ensures
        1 <= proof.mu < usize::BITS,
        point.len() == proof.mu,
        p2(proof.mu as int) - 1 <= vp.max_degree,
{
}

/// A batch is served like a single opening: the opening of the aggregated polynomial
/// returns its value at the final point of the sumcheck with a proof, or the error of an
/// unusable `z`.
pub proof fn law_batch_open_serves(
    pp: &MulcsProverParam,
    plan: &BatchPlan,
    a: Seq<Scalar>,
    g: Mle,
    res: Result<(MulcsProof, Scalar), PCSError>,
)
    requires
        a.len() == plan.num_var,
        aggregate_opened(pp, plan, a, res, g),
    ensures
        is_aggregate(plan, a, &g),
        match res {
            Ok((proof, value)) => proof.mu == plan.num_var && value@ == mle_eval(
                g.table(),
                vals(a),
            ),
            Err(e) => e is InvalidProof && exists|end: Seq<Entry>, z: int| #[trigger]
                stopped_at(
                    pp.gamma@,
                    batch_log("mulcs-gprime-open"@, vals(a)),
                    end,
                    z,
                ),
        },
{
    let start = aggregate_log(vals(a));
    assert(start =~= batch_log("mulcs-gprime-open"@, vals(a)));
    lemma_open_serves(start, pp, &g, a, res);
}

/// The same for the symmetric variant.
pub proof fn law_symmetric_batch_open_serves(
    pp: &MulcsProverParam,
    plan: &BatchPlan,
    a: Seq<Scalar>,
    g: Mle,
    res: Result<(MulcsSymmetricProof, Scalar), PCSError>,
)
    requires
        a.len() == plan.num_var,
        crate::mulcs::symmetric::aggregate_opened(pp, plan, a, res, g),
    ensures
        is_aggregate(plan, a, &g),
        match res {
            Ok((proof, value)) => proof.mu == plan.num_var && value@ == mle_eval(
                g.table(),
                vals(a),
            ),
            Err(e) => exists|end: Seq<Entry>, z: int| #[trigger]
                symmetric_stopped_at(
                    batch_log("mulcs-sym-gprime-open"@, vals(a)),
                    end,
                    z,
                ),
        },
{
    let start = crate::mulcs::symmetric::aggregate_log(vals(a));
    assert(start =~= batch_log("mulcs-sym-gprime-open"@, vals(a)));
    lemma_symmetric_open_serves(start, pp, &g, a, res);
}

/// A verdict is given on every proof of the form that the key and the point ask for,
/// unless the challenges cannot be used.
pub proof fn law_verdict_is_given(
    start: Seq<Entry>,
    vp: &MulcsVerifierParam,
    com: int,
    point: Seq<Scalar>,
    value: int,
    proof: &MulcsProof,
    res: Result<bool, PCSError>,
)
    requires
        1 <= proof.mu < usize::BITS,
        point.len() == proof.mu,
        p2(proof.mu as int) - 1 <= vp.max_degree,
        proof_ok(vp, point, proof) ==> is_verification(
            start,
            vp,
            com,
            point,
            value,
            proof,
            res,
        ),
    ensures
        proof_ok(vp, point, proof),
        res matches Err(e) ==> e is InvalidProof && exists|end: Seq<Entry>, z: int| #[trigger]
            stopped_at(vp.gamma@, start, end, z),
{
    let u = vals(point);
    let g = vp.gamma@;
    let end = choose|end: Seq<Entry>|
        is_course(end) && #[trigger] verified(start, end, vp, com, u, value, proof, res);
    assert(verified(start, end, vp, com, u, value, proof, res));
    let c = choose|c: MulcsChallenges| #[trigger]
        verification_result(start, end, vp, com, u, value, proof, res, c);
    assert(verification_result(start, end, vp, com, u, value, proof, res, c));
    if res is Err {
        let before = start.push(Entry::Challenge("mulcs_delta"@, c.delta)).push(
            Entry::Point("cm_hbar"@, proof.model().cm_hbar),
        );
        assert(end =~= before.push(Entry::Challenge("mulcs_z"@, c.z)));
        assert(end.is_prefix_of(end));
        assert(start.is_prefix_of(before));
        lemma_heard(start, before, end, "mulcs_z"@, c.z);
        assert(cong(fmul(g, c.z), g * c.z)) by {
            lemma_refl(g);
            lemma_refl(c.z);
            broadcast use group_shadow;

        }
        lemma_cong_symm(fmul(g, c.z), g * c.z);
        assert(stopped_at(g, start, end, c.z));
    }
}

/// The same for a proof of the symmetric variant.
pub proof fn law_symmetric_verdict_is_given(
    start: Seq<Entry>,
    vp: &MulcsVerifierParam,
    com: int,
    point: Seq<Scalar>,
    value: int,
    proof: &MulcsSymmetricProof,
    res: Result<bool, PCSError>,
)
    requires
        1 <= proof.mu < usize::BITS,
        point.len() == proof.mu,
        p2(proof.mu as int) - 1 <= vp.max_degree,
        crate::mulcs::symmetric::proof_ok(vp, point, proof)
            ==> crate::mulcs::symmetric::is_verification(
            start,
            vp,
            com,
            point,
            value,
            proof,
            res,
        ),
    ensures
        crate::mulcs::symmetric::proof_ok(vp, point, proof),
        res matches Err(e) ==> e is InvalidProof && exists|end: Seq<Entry>, z: int| #[trigger]
            symmetric_stopped_at(start, end, z),
{
    let u = vals(point);
    let end = choose|end: Seq<Entry>|
        is_course(end) && #[trigger] crate::mulcs::symmetric::verified(
            start,
            end,
            vp,
            com,
            u,
            value,
            proof,
            res,
        );
    assert(crate::mulcs::symmetric::verified(start, end, vp, com, u, value, proof, res));
    let p = proof.model();
    let c = choose|c: ReciChallenges| #[trigger]
        crate::reciprocal::verification_result(
            start,
            end,
            crate::mulcs::symmetric::labels(),
            crate::mulcs::symmetric::key_model(vp),
            com,
            u,
            value,
            p,
            Some(proof.z@),
            res,
            c,
        );
    if res is Err {
        let before = start.push(Entry::Point("cm_hbar"@, p.cm_hbar));
        assert(end =~= before.push(Entry::Challenge("mulcs_sym_z"@, c.z)));
        assert(end.is_prefix_of(end));
        assert(start.is_prefix_of(before));
        lemma_heard(start, before, end, "mulcs_sym_z"@, c.z);
        if c.z != 0 {
            lemma_cong_inverse(c.z, c.z);
        }
        assert(symmetric_stopped_at(start, end, c.z));
    }
}

} // verus!
