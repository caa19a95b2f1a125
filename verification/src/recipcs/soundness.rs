//! What an accepted opening says: the equations that its values and commitments
//! satisfy, for challenges that the statement and the proof determine.

use crate::errors::PCSError;
use crate::field::{group_reduced, reduced, vals, Scalar};
use crate::recipcs::{is_verification, labels, proof_ok, stated, verified, ReciProof};
use crate::recipcs::batch::aggregate_verified;
use crate::recipcs::srs::ReciVerifierParam;
use crate::reciprocal::{verification_result, ReciChallenges, ReciKey, ReciModel};
use crate::reciprocal_laws::{law_opened_value, lemma_accepted_opens, reciprocal_opens, ReciOpening};
use crate::transcript::{is_course, Entry};
use vstd::prelude::*;

verus! {

/// Whether a proof opens `com` at `u` to `y`, with the given lines and challenges,
/// each challenge drawn after the statement and all that the proof holds for it.
pub open spec fn opens_to(
    vp: &ReciVerifierParam,
    com: int,
    u: Seq<int>,
    y: int,
    proof: &ReciProof,
    o: ReciOpening,
) -> bool {
    &&& reciprocal_opens(
        ReciKey {
            g1_one: vp.g1_one@,
            g1_tau: vp.g1_tau@,
            g2_one: vp.g2_one@,
            g2_tau: vp.g2_tau@,
            g2_tau2: vp.g2_tau2@,
        },
        com,
        u,
        y,
        ReciModel {
            cm_hbar: proof.cm_hbar@,
            pi: proof.pi@,
            f_z: proof.f_z@,
            f_z_inv: proof.f_z_inv@,
            hbar_z: proof.hbar_z@,
            hbar_z_inv: proof.hbar_z_inv@,
        },
        o,
    )
    &&& is_course(
        seq![
            Entry::Domain("recipcs-v1"@),
            Entry::Field("recipcs::mu"@, u.len() as int),
            Entry::Point("recipcs::cm_f"@, com),
            Entry::Fields("recipcs::point"@, u),
            Entry::Field("recipcs::value"@, y),
            Entry::Point("recipcs::cm_hbar"@, proof.cm_hbar@),
            Entry::Challenge("recipcs::z"@, o.z),
            Entry::Field("recipcs::f_z"@, proof.f_z@),
            Entry::Field("recipcs::f_z_inv"@, proof.f_z_inv@),
            Entry::Field("recipcs::hbar_z"@, proof.hbar_z@),
            Entry::Field("recipcs::hbar_z_inv"@, proof.hbar_z_inv@),
            Entry::Challenge("recipcs::alpha"@, o.alpha),
        ],
    )
}

/// An accepted proof opens the commitment at the point to the value: where `verify`
/// returns `true`, the pairing product is one and the symmetric identity of the values
/// holds, for challenges drawn from the statement and the proof.
pub proof fn law_accepted_proof_opens(
    vp: &ReciVerifierParam,
    com: int,
    point: Seq<Scalar>,
    value: int,
    proof: &ReciProof,
)
    requires
        is_verification(vp, com, point, value, proof, Ok(true)),
    ensures
        exists|o: ReciOpening| #[trigger] opens_to(vp, com, vals(point), value, proof, o),
{
    broadcast use group_reduced;

    let u = vals(point);
    let r: Result<bool, PCSError> = Ok(true);
    let start = stated(u.len() as int, com, u, value);
    let end = choose|end: Seq<Entry>|
        is_course(end) && #[trigger] verified(start, end, vp, com, u, value, proof, r);
    assert(verified(start, end, vp, com, u, value, proof, r));
    let p = proof.model();
    let c = choose|c: ReciChallenges| #[trigger]
        verification_result(start, end, labels(), vp.model(), com, u, value, p, None, r, c);
    assert(verification_result(start, end, labels(), vp.model(), com, u, value, p, None, r, c));
    let o = lemma_accepted_opens(vp.model(), com, u, value, p, c);
    let log = seq![
        Entry::Domain("recipcs-v1"@),
        Entry::Field("recipcs::mu"@, u.len() as int),
        Entry::Point("recipcs::cm_f"@, com),
        Entry::Fields("recipcs::point"@, u),
        Entry::Field("recipcs::value"@, value),
        Entry::Point("recipcs::cm_hbar"@, proof.cm_hbar@),
        Entry::Challenge("recipcs::z"@, o.z),
        Entry::Field("recipcs::f_z"@, proof.f_z@),
        Entry::Field("recipcs::f_z_inv"@, proof.f_z_inv@),
        Entry::Field("recipcs::hbar_z"@, proof.hbar_z@),
        Entry::Field("recipcs::hbar_z_inv"@, proof.hbar_z_inv@),
        Entry::Challenge("recipcs::alpha"@, o.alpha),
    ];
    assert(end =~= log);
    assert(opens_to(vp, com, u, value, proof, o));
}

/// A proof opens to at most one value at a point, given `z`, whatever the commitment.
pub proof fn law_one_value(
    vp: &ReciVerifierParam,
    com: int,
    other: int,
    u: Seq<int>,
    y: int,
    v: int,
    proof: &ReciProof,
    o: ReciOpening,
    q: ReciOpening,
)
    requires
        reduced(y),
        reduced(v),
        opens_to(vp, com, u, y, proof, o),
        opens_to(vp, other, u, v, proof, q),
        o.z == q.z,
        o.zi == q.zi,
    ensures
        y == v,
{
    law_opened_value(vp.model(), com, vp.model(), other, u, y, v, proof.model(), o, q);
}

/// A batch is accepted only where the proof opens the combined commitment at the final
/// point of the sumcheck to the value that it expects there.
pub proof fn law_accepted_batch_opens(
    vp: &ReciVerifierParam,
    com: int,
    a: Seq<Scalar>,
    y: int,
    proof: &ReciProof,
)
    requires
        aggregate_verified(vp, com, a, y, proof, Ok(true)),
    ensures
        proof_ok(vp, a, proof),
        exists|o: ReciOpening| #[trigger] opens_to(vp, com, vals(a), y, proof, o),
{
    law_accepted_proof_opens(vp, com, a, y, proof);
}

} // verus!
