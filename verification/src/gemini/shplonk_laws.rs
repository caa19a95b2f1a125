//! What a batched opening and its reduction come to together.

use crate::bdfg::linq;
use crate::errors::PCSError;
use crate::field::{cong, fmul, fneg, group_shadow, lemma_refl, Scalar};
use crate::gemini::laws::lemma_opening_accepted;
use crate::gemini::model::{kzg_accepts, GeminiKey};
use crate::gemini::shplonk::{
    batched_quotient, batched_remainder, claims_hold, collides, fold_count, law_reduction_commits,
    law_remainder_vanishes, lemma_linq_value, lemma_max_degree, lemma_remainder_len, max_degree,
    prove_result, prover_openings, reduce_result, rounds_within, verifier_openings, Opening,
    ProverClaim, ShplonkOutput, VerifierClaim,
};
use crate::group::G1;
use crate::kzg::{is_power_key, lemma_commit};
use crate::poly::{dot, feval};
use crate::transcript::{is_course, lemma_course_challenge, Entry};
use vstd::prelude::*;

verus! {

/// Prover and verifier open the same claims: where they name the same points and values,
/// and the claims at two points are the first and have a positive value each, the two
/// lists of openings are the same.
pub proof fn law_claims_match(
    claims: Seq<ProverClaim>,
    others: Seq<VerifierClaim>,
    pos_evals: Seq<Scalar>,
    n: int,
)
    requires
        0 <= n <= claims.len(),
        claims.len() == others.len(),
        pos_evals.len() <= claims.len(),
        forall|i: int|
            0 <= i < claims.len() ==> (#[trigger] claims[i]).point@ == others[i].point@
                && claims[i].value@ == others[i].value@ && (claims[i].gemini_fold <==> i
                < pos_evals.len()),
    ensures
        prover_openings(claims, pos_evals, n) == verifier_openings(others, pos_evals, n),
        fold_count(claims, n) == if n <= pos_evals.len() {
            n
        } else {
            pos_evals.len() as int
        },
    decreases n,
{
    if n > 0 {
        law_claims_match(claims, others, pos_evals, n - 1);
        assert(claims[n - 1].point@ == others[n - 1].point@);
    }
}

/// A list of openings holds each claim at its point, and before it the positive value of
/// a claim at two points.
pub proof fn law_claims_are_listed(
    others: Seq<VerifierClaim>,
    pos_evals: Seq<Scalar>,
    n: int,
    i: int,
)
    requires
        0 <= i < n <= others.len(),
        pos_evals.len() <= others.len(),
    ensures
        ({
            let os = verifier_openings(others, pos_evals, n);
            let k = pos_evals.len() as int;
            let at = if i < k {
                2 * i + 1
            } else {
                k + i
            };
            &&& os.len() == if n <= k {
                2 * n
            } else {
                n + k
            }
            &&& os[at].round == i
            &&& os[at].point == others[i].point@
            &&& os[at].value == others[i].value@
            &&& i < k ==> os[at - 1].round == i && cong(os[at - 1].point, -others[i].point@)
                && os[at - 1].value == pos_evals[i]@
        }),
    decreases n,
{
    let k = pos_evals.len() as int;
    let x = others[i].point@;
    if i < n - 1 {
        law_claims_are_listed(others, pos_evals, n - 1, i);
    } else {
        if i > 0 {
            law_claims_are_listed(others, pos_evals, n - 1, i - 1);
        } else {
            assert(verifier_openings(others, pos_evals, 0) =~= Seq::<Opening>::empty());
        }
        assert(cong(fneg(x), -x)) by {
            lemma_refl(x);
            broadcast use group_shadow;

        }
    }
}

/// A batched opening is accepted: where every claim holds, the reduction of the claims
/// under the matching commitments comes to a commitment that the proof opens at `z` to
/// zero.
pub proof fn law_batched_opening_is_accepted(
    start: Seq<Entry>,
    end: Seq<Entry>,
    other: Seq<Entry>,
    key: Seq<int>,
    g: int,
    x: int,
    vk: GeminiKey,
    os: Seq<Opening>,
    polys: Seq<Seq<int>>,
    coms: Seq<int>,
    out: ShplonkOutput,
    nu: int,
    z: int,
    res: Result<(G1, Scalar), PCSError>,
    nu2: int,
    z2: int,
)
    requires
        is_course(end),
        is_course(other),
        is_power_key(key, g, x),
        0 < key.len(),
        vk.g == key[0],
        vk.h_x == fmul(vk.h, x),
        rounds_within(os, polys.len() as int),
        claims_hold(os, polys),
        coms.len() == polys.len(),
        forall|j: int|
            0 <= j < polys.len() ==> (#[trigger] polys[j]).len() <= key.len() && coms[j] == dot(
                key,
                polys[j],
                polys[j].len() as int,
            ),
        prove_result(start, end, key, os, polys, Ok(out), nu, z),
        reduce_result(start, other, os, coms, out.q_commit@, vk.g, res, nu2, z2),
    ensures
        res matches Ok((com, point)) && point@ == out.z_challenge@ && kzg_accepts(
            vk,
            com@,
            point@,
            0,
            out.final_witness@,
        ),
{
    let a1 = start.push(Entry::Challenge("Shplonk:nu"@, nu));
    let b1 = start.push(Entry::Challenge("Shplonk:nu"@, nu2));
    let qc = out.q_commit@;
    let a2 = a1.push(Entry::Point("Shplonk:Q"@, qc));
    let b2 = b1.push(Entry::Point("Shplonk:Q"@, qc));
    assert(a1.is_prefix_of(end));
    assert(b1.is_prefix_of(other));
    lemma_course_challenge(end, start, "Shplonk:nu"@, nu);
    lemma_course_challenge(other, start, "Shplonk:nu"@, nu2);
    assert(a2.push(Entry::Challenge("Shplonk:z"@, z)).is_prefix_of(end));
    assert(b2.push(Entry::Challenge("Shplonk:z"@, z2)).is_prefix_of(other));
    lemma_course_challenge(end, a2, "Shplonk:z"@, z);
    lemma_course_challenge(other, b2, "Shplonk:z"@, z2);
    assert(nu == nu2 && z == z2);
    assert(!collides(os, z));
    let n = os.len() as int;
    let len = max_degree(polys, polys.len() as int);
    let q = batched_quotient(os, polys, nu, len, n);
    let rem = batched_remainder(os, polys, q, nu, z, n);
    let w = linq(rem, z);
    assert forall|j: int| 0 <= j < n implies polys[(#[trigger] os[j]).round].len() <= len + 1 by {
        lemma_max_degree(polys, os[j].round, polys.len() as int);
    }
    let none = Seq::new(len, |i: int| 0int);
    lemma_remainder_len(os, polys, none, nu, z, len, n);
    lemma_remainder_len(os, polys, q, nu, z, len, n);
    assert(w.len() <= key.len());
    assert forall|j: int| 0 <= j < polys.len() implies #[trigger] coms[j] == fmul(
        vk.g,
        feval(polys[j], x),
    ) by {
        assert(polys[j].len() <= key.len());
        lemma_commit(key, g, x, polys[j]);
    }
    lemma_commit(key, g, x, q);
    law_reduction_commits(os, polys, coms, q, qc, vk.g, x, nu, z);
    law_remainder_vanishes(os, polys, nu, z, len);
    lemma_linq_value(rem, z, x);
    lemma_commit(key, g, x, w);
    lemma_opening_accepted(vk, x, z, feval(w, x));
}

} // verus!
