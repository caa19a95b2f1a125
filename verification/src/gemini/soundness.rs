//! What an accepted opening says: the equations that its values and commitments
//! satisfy, for challenges that the statement and the proof determine.

use crate::errors::PCSError;
use crate::field::{
    cong, fadd, finv, fmul, fneg, fpow, fsub, group_shadow, lemma_cong_inverse, lemma_cong_move,
    lemma_cong_mul, lemma_cong_sub, lemma_cong_symm, lemma_cong_trans, lemma_modulus, lemma_refl,
    lemma_shadow_eq, reduced, vals, Scalar,
};
use crate::gemini::{
    is_verification, key_model, proof_ok, verification_result, verified, GeminiProof,
};
use crate::gemini::fold::fold_relation;
use crate::gemini::model::{
    accepts, after_r, claims_of, final_value, is_verdict, kzg_accepts, next_value, num_folds,
    run_end, squared, stated, values_fit, with_claims, with_folds, z_apart, GeminiChallenges,
    GeminiKey, GeminiModel,
};
use crate::gemini::shplonk::{
    all_commitments, reduced_commitment, remainder_commitment, remainder_constant, weight, Opening,
};
use crate::gemini::srs::GeminiVerifierParam;
use crate::poly::{dot, int_dot, invertible, lemma_dot_reduced, lemma_dot_shadow};
use crate::transcript::{is_course, Entry};
use vstd::arithmetic::power::pow;
use vstd::prelude::*;

verus! {

/// What an opening is made of: the powers `r^{2^i}`, the challenges `nu` and `z`, and the
/// weights of the claims.
pub struct GeminiOpening {
    pub rs: Seq<int>,
    pub nu: int,
    pub z: int,
    pub ks: Seq<int>,
}

/// The values of an opening: each pair of values of a table gives the value of its fold,
/// and the last fold takes the claimed value `y` at the last coordinate.
pub open spec fn values_agree(u: Seq<int>, y: int, proof: &GeminiProof, o: GeminiOpening) -> bool {
    let n = u.len() - 1;
    let (c0, c1) = (proof.final_coeffs.0@, proof.final_coeffs.1@);
    let last = u[n];
    &&& o.rs.len() == u.len()
    &&& o.rs[0] != 0
    &&& forall|i: int| 0 < i < u.len() ==> cong(#[trigger] o.rs[i], o.rs[i - 1] * o.rs[i - 1])
    &&& forall|i: int|
        0 <= i < n ==> fold_agrees(
            o.rs[i],
            u[i],
            (#[trigger] proof.fold_evals@[i]).0@,
            proof.fold_evals@[i].1@,
            if i + 1 < n {
                proof.fold_evals@[i + 1].0@
            } else {
                c0 + c1 * o.rs[i + 1]
            },
        )
    &&& cong(y, (1 - last) * c0 + last * c1)
}

/// Twice the fold at `r^2`, from the values at `r` and at `-r`.
pub open spec fn fold_agrees(r: int, x: int, pos: int, neg: int, next: int) -> bool {
    cong((2 * r) * next, ((1 - x) * r) * (pos + neg) + x * (pos - neg))
}

/// The point of a claim.
pub open spec fn claim_point(mu: int, rs: Seq<int>, j: int) -> int {
    if j < 2 * (mu - 1) {
        if j % 2 == 0 {
            rs[j / 2]
        } else {
            -rs[j / 2]
        }
    } else {
        j - 2 * (mu - 1)
    }
}

/// The value of a claim.
pub open spec fn claim_value(mu: int, proof: &GeminiProof, j: int) -> int {
    if j < 2 * (mu - 1) {
        if j % 2 == 0 {
            proof.fold_evals@[j / 2].0@
        } else {
            proof.fold_evals@[j / 2].1@
        }
    } else if j == 2 * (mu - 1) {
        proof.final_coeffs.0@
    } else {
        proof.final_coeffs.0@ + proof.final_coeffs.1@
    }
}

/// The commitment of a claim: that to the table for the first two, then those to the
/// folds.
pub open spec fn claim_com(com: int, proof: &GeminiProof, j: int) -> int {
    if j / 2 == 0 {
        com
    } else {
        proof.fold_comms@[j / 2 - 1]@
    }
}

/// The weights of the claims are `nu^j / (z - x_j)`, for `nu` and `z` that are not zero.
pub open spec fn weights_agree(mu: int, o: GeminiOpening) -> bool {
    &&& o.nu != 0
    &&& o.z != 0
    &&& o.ks.len() == 2 * mu
    &&& forall|j: int|
        0 <= j < 2 * mu ==> cong(
            #[trigger] o.ks[j] * (o.z - claim_point(mu, o.rs, j)),
            pow(o.nu, j as nat),
        )
}

/// The pairing product of an opening, in the exponent.
pub open spec fn pairing_agrees(
    vp: &GeminiVerifierParam,
    com: int,
    mu: int,
    proof: &GeminiProof,
    o: GeminiOpening,
) -> bool {
    let coms = Seq::new((2 * mu) as nat, |j: int| claim_com(com, proof, j));
    let values = Seq::new((2 * mu) as nat, |j: int| claim_value(mu, proof, j));
    let left = proof.shplonk_q_commit@ - int_dot(coms, o.ks, 2 * mu) + int_dot(
        o.ks,
        values,
        2 * mu,
    ) * vp.g@;
    cong(left * vp.h@, proof.kzg_witness@ * (vp.h_x@ - o.z * vp.h@))
}

/// Whether a proof opens `com` at `u` to `y`, with the given challenges and weights.
pub open spec fn opens_to(
    vp: &GeminiVerifierParam,
    com: int,
    u: Seq<int>,
    y: int,
    proof: &GeminiProof,
    o: GeminiOpening,
) -> bool {
    let mu = u.len() as int;
    &&& values_agree(u, y, proof, o)
    &&& weights_agree(mu, o)
    &&& pairing_agrees(vp, com, mu, proof, o)
}

/// Whether the challenges of an opening are drawn in a course that goes on from `log`,
/// each after the statement and all that the proof holds for it.
pub open spec fn challenges_bound(
    log: Seq<Entry>,
    com: int,
    u: Seq<int>,
    y: int,
    proof: &GeminiProof,
    o: GeminiOpening,
    points: Seq<int>,
    values: Seq<int>,
) -> bool {
    let mu = u.len() as int;
    &&& points.len() == 2 * mu
    &&& values.len() == 2 * mu
    &&& forall|j: int| 0 <= j < 2 * mu ==> cong(#[trigger] points[j], claim_point(mu, o.rs, j))
    &&& forall|j: int| 0 <= j < 2 * mu ==> cong(#[trigger] values[j], claim_value(mu, proof, j))
    &&& is_course(
        log + seq![
            Entry::Point("commitment"@, com),
            Entry::Fields("point"@, u),
            Entry::Field("eval"@, y),
        ] + Seq::new(
            (mu - 1) as nat,
            |i: int| Entry::Point("fold_comm"@, proof.fold_comms@[i]@),
        ) + seq![Entry::Challenge("r"@, o.rs[0])] + Seq::new(
            (8 * mu) as nat,
            |i: int|
                if i % 4 == 0 {
                    Entry::Field("Shplonk:claim_idx"@, i / 4)
                } else if i % 4 == 1 {
                    Entry::Point("Shplonk:claim_cm"@, claim_com(com, proof, i / 4))
                } else if i % 4 == 2 {
                    Entry::Field("Shplonk:claim_pt"@, points[i / 4])
                } else {
                    Entry::Field("Shplonk:claim_ev"@, values[i / 4])
                },
        ) + seq![
            Entry::Challenge("Shplonk:nu"@, o.nu),
            Entry::Point("Shplonk:Q"@, proof.shplonk_q_commit@),
            Entry::Challenge("Shplonk:z"@, o.z),
        ],
    )
}

/// The powers and the weights of a verifier.
pub open spec fn opening_of(p: GeminiModel, mu: int, c: GeminiChallenges) -> GeminiOpening {
    GeminiOpening {
        rs: Seq::new(mu as nat, |i: int| squared(c.r, i)),
        nu: c.nu,
        z: c.z,
        ks: Seq::new((2 * mu) as nat, |j: int| weight(claims_of(p, mu, c.r), c.nu, c.z, j)),
    }
}

proof fn lemma_fold(r: int, x: int, pos: int, neg: int, next: int, ni: int)
    requires
        fold_relation(r, x, pos, neg, next),
        cong(next, ni),
    ensures
        fold_agrees(r, x, pos, neg, ni),
{
    let left = fmul(fmul(2, r), next);
    let right = fadd(fmul(fmul(fsub(1, x), r), fadd(pos, neg)), fmul(x, fsub(pos, neg)));
    let li = (2 * r) * ni;
    let ri = ((1 - x) * r) * (pos + neg) + x * (pos - neg);
    assert(cong(left, li) && cong(right, ri)) by {
        lemma_refl(1);
        lemma_refl(2);
        lemma_refl(r);
        lemma_refl(x);
        lemma_refl(pos);
        lemma_refl(neg);
        broadcast use group_shadow;

    }
    lemma_cong_symm(left, li);
    lemma_cong_trans(li, left, ri);
}

proof fn lemma_values(u: Seq<int>, y: int, proof: &GeminiProof, c: GeminiChallenges)
    requires
        u.len() >= 1,
        proof.fold_evals@.len() == u.len() - 1,
        c.r != 0,
        values_fit(proof.model(), u, c.r, y),
    ensures
        values_agree(u, y, proof, opening_of(proof.model(), u.len() as int, c)),
{
    let p = proof.model();
    let mu = u.len() as int;
    let o = opening_of(p, mu, c);
    let n = mu - 1;
    let (c0, c1) = (p.c0, p.c1);
    assert(o.rs[0] == c.r);
    assert forall|i: int| 0 < i < mu implies cong(
        #[trigger] o.rs[i],
        o.rs[i - 1] * o.rs[i - 1],
    ) by {
        let s = squared(c.r, i - 1);
        assert(o.rs[i] == fmul(s, s));
        lemma_refl(s);
        broadcast use group_shadow;

    }
    assert forall|i: int| 0 <= i < n implies fold_agrees(
        o.rs[i],
        u[i],
        (#[trigger] proof.fold_evals@[i]).0@,
        proof.fold_evals@[i].1@,
        if i + 1 < n {
            proof.fold_evals@[i + 1].0@
        } else {
            c0 + c1 * o.rs[i + 1]
        },
    ) by {
        let next = next_value(p, mu, c.r, i);
        assert(fold_relation(
            squared(c.r, i),
            u[i],
            p.fold_evals[i].0,
            p.fold_evals[i].1,
            next,
        ));
        let ni = if i + 1 < n {
            proof.fold_evals@[i + 1].0@
        } else {
            c0 + c1 * o.rs[i + 1]
        };
        let s = squared(c.r, i + 1);
        assert(cong(next, ni)) by {
            lemma_refl(next);
            lemma_refl(c0);
            lemma_refl(c1);
            lemma_refl(s);
            broadcast use group_shadow;

        }
        lemma_fold(squared(c.r, i), u[i], p.fold_evals[i].0, p.fold_evals[i].1, next, ni);
    }
    let x = u[n];
    assert(cong(final_value(p, u), (1 - x) * c0 + x * c1)) by {
        lemma_refl(1);
        lemma_refl(x);
        lemma_refl(c0);
        lemma_refl(c1);
        broadcast use group_shadow;

    }
}

proof fn lemma_power(nu: int, j: nat)
    ensures
        cong(fpow(nu, j), pow(nu, j)),
    decreases j,
{
    if j == 0 {
        vstd::arithmetic::power::lemma_pow0(nu);
        lemma_refl(1);
    } else {
        lemma_power(nu, (j - 1) as nat);
        vstd::arithmetic::power::lemma_pow1(nu);
        vstd::arithmetic::power::lemma_pow_adds(nu, (j - 1) as nat, 1);
        lemma_refl(nu);
        broadcast use group_shadow;

    }
}

proof fn lemma_weight(os: Seq<Opening>, nu: int, z: int, j: int, x: int)
    requires
        0 <= j,
        invertible(fsub(z, os[j].point)),
        cong(os[j].point, x),
    ensures
        cong(weight(os, nu, z, j) * (z - x), pow(nu, j as nat)),
{
    let a = os[j].point;
    let d = fsub(z, a);
    let i = finv(d);
    let f = fpow(nu, j as nat);
    let p = pow(nu, j as nat);
    lemma_power(nu, j as nat);
    lemma_refl(i);
    lemma_refl(z);
    assert(cong(fmul(f, i), p * i)) by {
        broadcast use group_shadow;

    }
    assert(cong(d, z - x)) by {
        broadcast use group_shadow;

    }
    lemma_cong_inverse(d, i);
    lemma_cong_symm(d, z - x);
    lemma_cong_mul(fmul(f, i), p * i, z - x, d);
    lemma_refl(p);
    lemma_cong_mul(p, p, d * i, 1);
    assert((p * i) * d == p * (d * i)) by (nonlinear_arith);
    lemma_cong_trans(fmul(f, i) * (z - x), p * (d * i), p * 1);
}

proof fn lemma_claim(proof: &GeminiProof, com: int, mu: int, r: int, rs: Seq<int>, j: int)
    requires
        mu >= 1,
        0 <= j < 2 * mu,
        proof.fold_evals@.len() == mu - 1,
        proof.fold_comms@.len() == mu - 1,
        rs == Seq::new(mu as nat, |i: int| squared(r, i)),
    ensures
        ({
            let c = claims_of(proof.model(), mu, r)[j];
            &&& cong(c.point, claim_point(mu, rs, j))
            &&& cong(c.value, claim_value(mu, proof, j))
            &&& all_commitments(com, proof.model().fold_comms)[c.round] == claim_com(com, proof, j)
        }),
{
    let p = proof.model();
    let n = num_folds(mu);
    let c = claims_of(p, mu, r)[j];
    let s = squared(r, j / 2);
    lemma_refl(c.point);
    lemma_refl(c.value);
    if j < 2 * n {
        assert(rs[j / 2] == s);
        assert(p.fold_evals[j / 2] == (
            proof.fold_evals@[j / 2].0@,
            proof.fold_evals@[j / 2].1@,
        ));
        lemma_refl(s);
        assert(cong(fneg(s), -s)) by {
            broadcast use group_shadow;

        }
    } else {
        assert(j / 2 == n);
        assert(cong(fadd(p.c0, p.c1), p.c0 + p.c1)) by {
            lemma_refl(p.c0);
            lemma_refl(p.c1);
            broadcast use group_shadow;

        }
    }
    assert(c.round == j / 2);
}

proof fn lemma_remainder(
    os: Seq<Opening>,
    coms: Seq<int>,
    q: int,
    nu: int,
    z: int,
    cs: Seq<int>,
    ks: Seq<int>,
    n: int,
)
    requires
        0 <= n,
        forall|j: int| 0 <= j < n ==> #[trigger] cs[j] == coms[os[j].round],
        forall|j: int| 0 <= j < n ==> #[trigger] ks[j] == weight(os, nu, z, j),
    ensures
        cong(remainder_commitment(os, coms, q, nu, z, n), q - int_dot(cs, ks, n)),
    decreases n,
{
    if n == 0 {
        lemma_refl(q);
        lemma_refl(1);
        assert(cong(fmul(q, 1), q * 1)) by {
            broadcast use group_shadow;

        }
    } else {
        lemma_remainder(os, coms, q, nu, z, cs, ks, n - 1);
        let w = weight(os, nu, z, n - 1);
        let a = coms[os[n - 1].round];
        assert(cs[n - 1] == a && ks[n - 1] == w);
        let before = q - int_dot(cs, ks, n - 1);
        assert(cong(
            fadd(remainder_commitment(os, coms, q, nu, z, n - 1), fmul(a, fneg(w))),
            before + a * (-w),
        )) by {
            lemma_refl(a);
            lemma_refl(w);
            broadcast use group_shadow;

        }
        assert(a * (-w) == -(a * w)) by (nonlinear_arith);
    }
}

proof fn lemma_constant(
    os: Seq<Opening>,
    nu: int,
    z: int,
    ks: Seq<int>,
    vs: Seq<int>,
    n: int,
)
    requires
        0 <= n,
        forall|j: int| 0 <= j < n ==> #[trigger] ks[j] == weight(os, nu, z, j),
        forall|j: int| 0 <= j < n ==> cong((#[trigger] os[j]).value, vs[j]),
    ensures
        cong(remainder_constant(os, nu, z, n), int_dot(ks, vs, n)),
    decreases n,
{
    if n == 0 {
        lemma_refl(0);
    } else {
        lemma_constant(os, nu, z, ks, vs, n - 1);
        let w = weight(os, nu, z, n - 1);
        let v = os[n - 1].value;
        assert(ks[n - 1] == w && cong(v, vs[n - 1]));
        assert(cong(
            fadd(remainder_constant(os, nu, z, n - 1), fmul(w, v)),
            int_dot(ks, vs, n - 1) + w * vs[n - 1],
        )) by {
            lemma_refl(w);
            broadcast use group_shadow;

        }
    }
}

/// The equation of the KZG opening at zero in integers.
proof fn lemma_kzg(vk: GeminiKey, com: int, ci: int, x: int, w: int)
    requires
        kzg_accepts(vk, com, x, 0, w),
        cong(com, ci),
    ensures
        cong(ci * vk.h, w * (vk.h_x - x * vk.h)),
{
    let d = w * (vk.h_x - x * vk.h);
    law_kzg_opens(vk, com, x, 0, w);
    assert(com - 0 * vk.g == com);
    lemma_refl(vk.h);
    lemma_cong_mul(com, ci, vk.h, vk.h);
    lemma_cong_symm(com * vk.h, ci * vk.h);
    lemma_cong_trans(ci * vk.h, com * vk.h, d);
}

proof fn lemma_pairing(
    vp: &GeminiVerifierParam,
    com: int,
    mu: int,
    proof: &GeminiProof,
    c: GeminiChallenges,
)
    requires
        mu >= 1,
        proof.fold_evals@.len() == mu - 1,
        proof.fold_comms@.len() == mu - 1,
        c.nu != 0,
        c.z != 0,
        z_apart(claims_of(proof.model(), mu, c.r), c.z),
        accepts(key_model(vp), com, mu, proof.model(), c),
    ensures
        weights_agree(mu, opening_of(proof.model(), mu, c)),
        pairing_agrees(vp, com, mu, proof, opening_of(proof.model(), mu, c)),
{
    let p = proof.model();
    let o = opening_of(p, mu, c);
    let os = claims_of(p, mu, c.r);
    let n = 2 * mu;
    let coms = all_commitments(com, p.fold_comms);
    let cs = Seq::new(n as nat, |j: int| claim_com(com, proof, j));
    let vs = Seq::new(n as nat, |j: int| claim_value(mu, proof, j));
    assert(os.len() == n);
    assert forall|j: int| 0 <= j < n implies cong(
        #[trigger] o.ks[j] * (o.z - claim_point(mu, o.rs, j)),
        pow(o.nu, j as nat),
    ) by {
        lemma_claim(proof, com, mu, c.r, o.rs, j);
        assert(invertible(fsub(c.z, os[j].point)));
        lemma_weight(os, c.nu, c.z, j, claim_point(mu, o.rs, j));
    }
    assert forall|j: int| 0 <= j < n implies #[trigger] cs[j] == coms[os[j].round] by {
        lemma_claim(proof, com, mu, c.r, o.rs, j);
    }
    assert forall|j: int| 0 <= j < n implies cong((#[trigger] os[j]).value, vs[j]) by {
        lemma_claim(proof, com, mu, c.r, o.rs, j);
    }
    lemma_remainder(os, coms, p.q_commit, c.nu, c.z, cs, o.ks, n);
    lemma_constant(os, c.nu, c.z, o.ks, vs, n);
    let rc = remainder_commitment(os, coms, p.q_commit, c.nu, c.z, n);
    let rk = remainder_constant(os, c.nu, c.z, n);
    let s = int_dot(cs, o.ks, n);
    let k = int_dot(o.ks, vs, n);
    let g = vp.g@;
    let left = p.q_commit - s + k * g;
    assert(cong(fadd(rc, fmul(g, rk)), (p.q_commit - s) + g * k)) by {
        lemma_refl(g);
        broadcast use group_shadow;

    }
    assert(g * k == k * g) by (nonlinear_arith);
    lemma_kzg(
        key_model(vp),
        reduced_commitment(os, coms, p.q_commit, g, c.nu, c.z),
        left,
        c.z,
        p.witness,
    );
}

proof fn lemma_folds(log: Seq<Entry>, coms: Seq<int>, n: int)
    requires
        0 <= n <= coms.len(),
    ensures
        with_folds(log, coms, n) == log + Seq::new(
            n as nat,
            |i: int| Entry::Point("fold_comm"@, coms[i]),
        ),
    decreases n,
{
    if n > 0 {
        lemma_folds(log, coms, n - 1);
    }
    assert(with_folds(log, coms, n) =~= log + Seq::new(
        n as nat,
        |i: int| Entry::Point("fold_comm"@, coms[i]),
    ));
}

/// The entries of the first `n` claims.
spec fn claim_entries(
    com: int,
    proof: &GeminiProof,
    points: Seq<int>,
    values: Seq<int>,
    n: int,
) -> Seq<Entry> {
    Seq::new(
        (4 * n) as nat,
        |i: int|
            if i % 4 == 0 {
                Entry::Field("Shplonk:claim_idx"@, i / 4)
            } else if i % 4 == 1 {
                Entry::Point("Shplonk:claim_cm"@, claim_com(com, proof, i / 4))
            } else if i % 4 == 2 {
                Entry::Field("Shplonk:claim_pt"@, points[i / 4])
            } else {
                Entry::Field("Shplonk:claim_ev"@, values[i / 4])
            },
    )
}

proof fn lemma_claim_entries(
    log: Seq<Entry>,
    os: Seq<Opening>,
    coms: Seq<int>,
    com: int,
    proof: &GeminiProof,
    points: Seq<int>,
    values: Seq<int>,
    n: int,
)
    requires
        0 <= n <= os.len(),
        forall|j: int|
            0 <= j < n ==> coms[(#[trigger] os[j]).round] == claim_com(com, proof, j)
                && os[j].point == points[j] && os[j].value == values[j],
    ensures
        with_claims(log, os, coms, n) == log + claim_entries(com, proof, points, values, n),
    decreases n,
{
    let want = log + claim_entries(com, proof, points, values, n);
    if n > 0 {
        lemma_claim_entries(log, os, coms, com, proof, points, values, n - 1);
        let before = log + claim_entries(com, proof, points, values, n - 1);
        let o = os[n - 1];
        let got = before.push(Entry::Field("Shplonk:claim_idx"@, n - 1)).push(
            Entry::Point("Shplonk:claim_cm"@, coms[o.round]),
        ).push(Entry::Field("Shplonk:claim_pt"@, o.point)).push(
            Entry::Field("Shplonk:claim_ev"@, o.value),
        );
        assert(got.len() == want.len());
        assert(got =~= want);
    } else {
        assert(log =~= want);
    }
}

proof fn lemma_bound(
    log: Seq<Entry>,
    end: Seq<Entry>,
    com: int,
    u: Seq<int>,
    y: int,
    proof: &GeminiProof,
    c: GeminiChallenges,
)
    requires
        u.len() >= 1,
        proof.fold_evals@.len() == u.len() - 1,
        proof.fold_comms@.len() == u.len() - 1,
        is_course(end),
        end == run_end(
            stated(log, com, u, y),
            claims_of(proof.model(), u.len() as int, c.r),
            com,
            proof.model().fold_comms,
            proof.model().q_commit,
            c,
        ),
    ensures
        exists|points: Seq<int>, values: Seq<int>| #[trigger]
            challenges_bound(
                log,
                com,
                u,
                y,
                proof,
                opening_of(proof.model(), u.len() as int, c),
                points,
                values,
            ),
{
    let p = proof.model();
    let mu = u.len() as int;
    let o = opening_of(p, mu, c);
    let os = claims_of(p, mu, c.r);
    let n = 2 * mu;
    let points = Seq::new(n as nat, |j: int| os[j].point);
    let values = Seq::new(n as nat, |j: int| os[j].value);
    let coms = all_commitments(com, p.fold_comms);
    assert forall|j: int| 0 <= j < n implies cong(
        #[trigger] points[j],
        claim_point(mu, o.rs, j),
    ) by {
        lemma_claim(proof, com, mu, c.r, o.rs, j);
    }
    assert forall|j: int| 0 <= j < n implies cong(
        #[trigger] values[j],
        claim_value(mu, proof, j),
    ) by {
        lemma_claim(proof, com, mu, c.r, o.rs, j);
    }
    assert forall|j: int| 0 <= j < n implies coms[(#[trigger] os[j]).round] == claim_com(
        com,
        proof,
        j,
    ) && os[j].point == points[j] && os[j].value == values[j] by {
        lemma_claim(proof, com, mu, c.r, o.rs, j);
    }
    let start = stated(log, com, u, y);
    lemma_folds(start, p.fold_comms, mu - 1);
    let l1 = after_r(start, p.fold_comms, c.r);
    lemma_claim_entries(l1, os, coms, com, proof, points, values, n);
    let statement = seq![
        Entry::Point("commitment"@, com),
        Entry::Fields("point"@, u),
        Entry::Field("eval"@, y),
    ];
    assert(start =~= log + statement);
    let folds = Seq::new(
        (mu - 1) as nat,
        |i: int| Entry::Point("fold_comm"@, proof.fold_comms@[i]@),
    );
    assert(Seq::new((mu - 1) as nat, |i: int| Entry::Point("fold_comm"@, p.fold_comms[i]))
        =~= folds);
    let first = log + statement + folds + seq![Entry::Challenge("r"@, o.rs[0])];
    assert(l1 =~= first);
    let entries = claim_entries(com, proof, points, values, n);
    let tail = seq![
        Entry::Challenge("Shplonk:nu"@, o.nu),
        Entry::Point("Shplonk:Q"@, proof.shplonk_q_commit@),
        Entry::Challenge("Shplonk:z"@, o.z),
    ];
    assert(end =~= first + entries + tail);
    assert(entries =~= Seq::new(
        (8 * mu) as nat,
        |i: int|
            if i % 4 == 0 {
                Entry::Field("Shplonk:claim_idx"@, i / 4)
            } else if i % 4 == 1 {
                Entry::Point("Shplonk:claim_cm"@, claim_com(com, proof, i / 4))
            } else if i % 4 == 2 {
                Entry::Field("Shplonk:claim_pt"@, points[i / 4])
            } else {
                Entry::Field("Shplonk:claim_ev"@, values[i / 4])
            },
    ));
    assert(challenges_bound(log, com, u, y, proof, o, points, values));
}

/// An accepted proof opens the commitment at the point to the value: where `verify`
/// returns `true`, the pairing product is one and the values of the folds lead to the
/// claimed value, for challenges drawn from the statement and the proof.
pub proof fn law_accepted_proof_opens(
    log: Seq<Entry>,
    vp: &GeminiVerifierParam,
    com: int,
    point: Seq<Scalar>,
    value: int,
    proof: &GeminiProof,
)
    requires
        proof_ok(vp, point, proof),
        is_verification(log, vp, com, point, value, proof, Ok(true)),
    ensures
        exists|o: GeminiOpening, points: Seq<int>, values: Seq<int>|
            opens_to(vp, com, vals(point), value, proof, o) && #[trigger] challenges_bound(
                log,
                com,
                vals(point),
                value,
                proof,
                o,
                points,
                values,
            ),
{
    let u = vals(point);
    let res: Result<bool, PCSError> = Ok(true);
    let end = choose|end: Seq<Entry>|
        is_course(end) && #[trigger] verified(log, end, vp, com, u, value, proof, res);
    assert(verified(log, end, vp, com, u, value, proof, res));
    let start = stated(log, com, u, value);
    let c = choose|c: GeminiChallenges| #[trigger]
        verification_result(start, end, vp, com, u, value, proof, res, c);
    assert(verification_result(start, end, vp, com, u, value, proof, res, c));
    let p = proof.model();
    let mu = u.len() as int;
    assert(is_verdict(start, end, key_model(vp), com, u, value, p, true, c));
    let o = opening_of(p, mu, c);
    lemma_values(u, value, proof, c);
    lemma_pairing(vp, com, mu, proof, c);
    assert(opens_to(vp, com, u, value, proof, o));
    lemma_bound(log, end, com, u, value, proof, c);
    let (points, values) = choose|points: Seq<int>, values: Seq<int>| #[trigger]
        challenges_bound(log, com, u, value, proof, o, points, values);
    assert(challenges_bound(log, com, u, value, proof, o, points, values));
}

/// A proof is accepted for at most one value at a point, whatever the history, the key
/// and the commitment.
pub proof fn law_one_value(
    log: Seq<Entry>,
    other: Seq<Entry>,
    vp: &GeminiVerifierParam,
    wp: &GeminiVerifierParam,
    com: int,
    dom: int,
    point: Seq<Scalar>,
    y: int,
    v: int,
    proof: &GeminiProof,
)
    requires
        reduced(y),
        reduced(v),
        proof_ok(vp, point, proof),
        proof_ok(wp, point, proof),
        is_verification(log, vp, com, point, y, proof, Ok(true)),
        is_verification(other, wp, dom, point, v, proof, Ok(true)),
    ensures
        y == v,
{
    law_accepted_proof_opens(log, vp, com, point, y, proof);
    law_accepted_proof_opens(other, wp, dom, point, v, proof);
    let u = vals(point);
    let x = u[u.len() - 1];
    let e = (1 - x) * proof.final_coeffs.0@ + x * proof.final_coeffs.1@;
    assert(cong(y, e) && cong(v, e));
    lemma_shadow_eq(y, e, v, e);
}

/// A KZG opening of `com` at `x` to `y` is accepted exactly where the equation of the
/// quotient by `X - x` holds in the exponent.
pub proof fn law_kzg_opens(vk: GeminiKey, com: int, x: int, y: int, w: int)
    ensures
        kzg_accepts(vk, com, x, y, w) <==> cong(
            (com - y * vk.g) * vk.h,
            w * (vk.h_x - x * vk.h),
        ),
{
    let a = seq![fadd(com, fmul(fneg(vk.g), y)), fneg(w)];
    let ai = seq![com + (-vk.g) * y, -w];
    let b = seq![vk.h, fadd(vk.h_x, fmul(vk.h, fneg(x)))];
    let bi = seq![vk.h, vk.h_x + vk.h * (-x)];
    assert(cong(a[0], ai[0]) && cong(a[1], ai[1]) && cong(b[0], bi[0]) && cong(b[1], bi[1])) by {
        lemma_refl(com);
        lemma_refl(y);
        lemma_refl(vk.g);
        lemma_refl(w);
        lemma_refl(vk.h);
        lemma_refl(vk.h_x);
        lemma_refl(x);
        broadcast use group_shadow;

    }
    assert forall|i: int| 0 <= i < 2 implies cong(#[trigger] a[i], ai[i]) by {}
    assert forall|i: int| 0 <= i < 2 implies cong(#[trigger] b[i], bi[i]) by {}
    lemma_dot_shadow(a, ai, b, bi, 2);
    reveal_with_fuel(int_dot, 3);
    let d = vk.h_x - x * vk.h;
    let l = com - y * vk.g;
    assert(vk.h * (-x) == -(x * vk.h)) by (nonlinear_arith);
    assert((-vk.g) * y == -(y * vk.g)) by (nonlinear_arith);
    assert(int_dot(ai, bi, 2) == l * vk.h + (-w) * d);
    assert((-w) * d == -(w * d)) by (nonlinear_arith);
    let s = dot(a, b, 2);
    assert(cong(s, l * vk.h - w * d));
    lemma_dot_reduced(a, b, 2);
    if cong(l * vk.h, w * d) {
        lemma_refl(w * d);
        lemma_cong_sub(l * vk.h, w * d, w * d, w * d);
        lemma_cong_trans(s, l * vk.h - w * d, 0);
        lemma_refl(0);
        lemma_modulus();
        lemma_shadow_eq(s, 0, 0, 0);
    }
    if s == 0 {
        lemma_cong_move(l * vk.h, w * d);
    }
}

} // verus!
