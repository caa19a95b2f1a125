//! Laws of Gemini: what an honest prover claims holds, and a verifier accepts
//! it.

use crate::bdfg::linq;
use crate::dims::lemma_pow2_mono;
use crate::field::{
    fadd, fmul, fneg, fsub, group_reduced, group_shadow, lemma_refl, lemma_shadow_eq,
};
use crate::gemini::fold::{
    fold_list, fold_relation, folded, folds, law_fold_relation, law_last_fold, lemma_folds_len,
};
use crate::gemini::model::{
    accepts, claims_of, fold_values, honest_claims, honest_proof, honest_quotient, honest_remainder,
    is_honest_run, is_verdict, kzg_accepts, next_value, num_folds, squared, values_fit, z_apart,
    GeminiChallenges, GeminiKey, GeminiModel,
};
use crate::gemini::shplonk::{
    all_commitments, claims_hold, law_reduction_commits, law_remainder_vanishes,
    lemma_batched_lengths, rounds_within,
};
use crate::kzg::{is_power_key, lemma_commit};
use crate::poly::{all_reduced, dot, feval, lemma_eval_two, lemma_linear_division};
use crate::tensor::{lemma_p2_step, lemma_p2_zero, mle_eval, p2};
use crate::transcript::Entry;
use vstd::prelude::*;

verus! {

proof fn lemma_folds_reduced(f: Seq<int>, u: Seq<int>, k: int)
    requires
        all_reduced(f),
    ensures
        all_reduced(folds(f, u, k)),
    decreases k,
{
    broadcast use group_reduced;

    if k > 0 {
        lemma_folds_reduced(f, u, k - 1);
    }
}

/// The values of a polynomial of two coefficients at zero and at one.
proof fn lemma_eval_ends(c: Seq<int>)
    requires
        c.len() == 2,
        all_reduced(c),
    ensures
        feval(c, 0) == c[0],
        feval(c, 1) == fadd(c[0], c[1]),
{
    broadcast use group_reduced;

    let a = c[0];
    let b = c[1];
    lemma_eval_two(c, 0);
    lemma_eval_two(c, 1);
    lemma_refl(0);
    lemma_refl(1);
    lemma_refl(a);
    lemma_refl(b);
    broadcast use group_shadow;

    assert(b * 0 == 0) by (nonlinear_arith);
    lemma_shadow_eq(fadd(a, fmul(b, 0)), a + b * 0, a, a);
    lemma_shadow_eq(fadd(a, fmul(b, 1)), a + b * 1, fadd(a, b), a + b);
}

/// What the honest prover claims holds, of the tables that it folds.
pub proof fn law_honest_claims_hold(f: Seq<int>, u: Seq<int>, r: int)
    requires
        u.len() >= 1,
        f.len() == p2(u.len() as int),
        all_reduced(f),
    ensures
        claims_hold(honest_claims(f, u, r), fold_list(f, u, u.len())),
        rounds_within(honest_claims(f, u, r), u.len() as int),
{
    let mu = u.len() as int;
    let polys = fold_list(f, u, u.len());
    let os = honest_claims(f, u, r);
    lemma_folds_reduced(f, u, mu - 1);
    law_last_fold(f, u);
    lemma_eval_ends(polys[mu - 1]);
    assert forall|j: int| 0 <= j < os.len() implies feval(
        polys[(#[trigger] os[j]).round],
        os[j].point,
    ) == os[j].value by {
        let n = num_folds(mu);
        if j < 2 * n {
            let i = j / 2;
            assert(0 <= i < n);
            assert(fold_values(polys, r, n)[i].0 == feval(polys[i], squared(r, i)));
        }
    }
}

/// Every table has at most as many entries as the first.
pub proof fn lemma_fold_list_lens(f: Seq<int>, u: Seq<int>)
    requires
        u.len() >= 1,
        f.len() == p2(u.len() as int),
    ensures
        forall|k: int|
            0 <= k < u.len() ==> is_fold_len(
                #[trigger] fold_list(f, u, u.len())[k],
                f.len(),
                u.len() - k,
            ),
{
    let mu = u.len() as int;
    let polys = fold_list(f, u, u.len());
    assert forall|k: int| 0 <= k < u.len() implies is_fold_len(
        #[trigger] polys[k],
        f.len(),
        u.len() - k,
    ) by {
        lemma_folds_len(f, u, mu, k);
        lemma_pow2_mono(mu - k, mu);
        lemma_pow2_mono(1, mu - k);
        lemma_p2_zero();
        lemma_p2_step(1);
    }
}

/// Whether a table has one entry per vertex in `m` variables, at least two and
/// at most `n`.
pub open spec fn is_fold_len(c: Seq<int>, n: nat, m: int) -> bool {
    c.len() == p2(m) && 2 <= c.len() <= n
}

/// Lengths of the honest prover's batched polynomials.
pub proof fn lemma_honest_lengths(f: Seq<int>, u: Seq<int>, c: GeminiChallenges)
    requires
        u.len() >= 1,
        f.len() == p2(u.len() as int),
    ensures
        honest_quotient(f, u, c.r, c.nu).len() == f.len(),
        honest_remainder(f, u, c).len() == f.len(),
{
    let mu = u.len() as int;
    let polys = fold_list(f, u, u.len());
    let os = honest_claims(f, u, c.r);
    lemma_fold_list_lens(f, u);
    lemma_p2_step(mu);
    assert forall|j: int| 0 <= j < os.len() implies polys[(#[trigger] os[j]).round].len()
        <= f.len() by {
        assert(0 <= os[j].round < mu);
    }
    let zeros = Seq::new(f.len(), |i: int| 0int);
    lemma_batched_lengths(os, polys, zeros, c.nu, c.z, f.len(), os.len() as int);
    lemma_batched_lengths(
        os,
        polys,
        honest_quotient(f, u, c.r, c.nu),
        c.nu,
        c.z,
        f.len(),
        os.len() as int,
    );
}

/// The honest prover's batched polynomial vanishes at `z`.
pub proof fn law_honest_remainder_vanishes(f: Seq<int>, u: Seq<int>, c: GeminiChallenges)
    requires
        u.len() >= 1,
        f.len() == p2(u.len() as int),
        all_reduced(f),
        z_apart(honest_claims(f, u, c.r), c.z),
    ensures
        feval(honest_remainder(f, u, c), c.z) == 0,
{
    law_honest_claims_hold(f, u, c.r);
    law_remainder_vanishes(
        honest_claims(f, u, c.r),
        fold_list(f, u, u.len()),
        c.nu,
        c.z,
        f.len(),
    );
}

/// The values of the honest prover fit the value at the point.
pub proof fn law_honest_values_fit(key: Seq<int>, f: Seq<int>, u: Seq<int>, c: GeminiChallenges)
    requires
        u.len() >= 1,
        f.len() == p2(u.len() as int),
    ensures
        values_fit(honest_proof(key, f, u, c), u, c.r, mle_eval(f, u)),
{
    let mu = u.len() as int;
    let n = num_folds(mu);
    let p = honest_proof(key, f, u, c);
    let polys = fold_list(f, u, u.len());
    lemma_fold_list_lens(f, u);
    law_last_fold(f, u);
    assert forall|i: int| 0 <= i < n implies #[trigger] fold_relation(
        squared(c.r, i),
        u[i],
        p.fold_evals[i].0,
        p.fold_evals[i].1,
        next_value(p, mu, c.r, i),
    ) by {
        let r = squared(c.r, i);
        lemma_p2_step(mu - i);
        assert(polys[i].len() == p2(mu - i));
        law_fold_relation(polys[i], u[i], r);
        assert(squared(c.r, i + 1) == fmul(r, r));
        assert(polys[i + 1] == folded(polys[i], u[i]));
        assert(polys[i + 1].len() == p2(mu - (i + 1)));
        if i + 1 == n {
            lemma_p2_zero();
            lemma_p2_step(1);
            lemma_eval_two(polys[n], fmul(r, r));
        }
    }
}

proof fn lemma_ring_pairing(g: int, w: int, d: int, h: int, t: int, z: int)
    requires
        d == t - z,
    ensures
        (0 + ((g * (w * d + 0)) + (-g) * 0) * h) + (-(g * w)) * (h * t + h * (-z)) == 0,
{
    assert((-g) * 0 == 0) by (nonlinear_arith);
    assert(h * t + h * (-z) == h * d) by (nonlinear_arith)
        requires
            d == t - z,
    ;
    assert((g * (w * d + 0)) * h == (g * w) * (h * d)) by (nonlinear_arith);
    assert((-(g * w)) * (h * d) == -((g * w) * (h * d))) by (nonlinear_arith);
}

/// A commitment to a polynomial that vanishes at `z` opens there to zero with
/// the commitment to the quotient.
pub(crate) proof fn lemma_opening_accepted(vk: GeminiKey, t: int, z: int, w: int)
    requires
        vk.h_x == fmul(vk.h, t),
    ensures
        kzg_accepts(
            vk,
            fmul(vk.g, fadd(fmul(w, fsub(t, z)), 0)),
            z,
            0,
            fmul(vk.g, w),
        ),
{
    broadcast use group_reduced;

    let g = vk.g;
    let h = vk.h;
    lemma_refl(g);
    lemma_refl(h);
    lemma_refl(t);
    lemma_refl(z);
    lemma_refl(w);
    lemma_refl(0);
    lemma_ring_pairing(g, w, t - z, h, t, z);
    let com = fmul(g, fadd(fmul(w, fsub(t, z)), 0));
    let a = seq![fadd(com, fmul(fneg(g), 0)), fneg(fmul(g, w))];
    let b = seq![h, fadd(fmul(h, t), fmul(h, fneg(z)))];
    reveal_with_fuel(dot, 3);
    assert(dot(a, b, 2) == fadd(fadd(0, fmul(a[0], b[0])), fmul(a[1], b[1])));
    broadcast use group_shadow;

    lemma_shadow_eq(
        fadd(fadd(0, fmul(a[0], b[0])), fmul(a[1], b[1])),
        (0 + ((g * (w * (t - z) + 0)) + (-g) * 0) * h) + (-(g * w)) * (h * t + h * (-z)),
        0,
        0,
    );
}

/// The verifier accepts the honest proof.
pub proof fn law_completeness(
    key: Seq<int>,
    g: int,
    x: int,
    vk: GeminiKey,
    f: Seq<int>,
    u: Seq<int>,
    c: GeminiChallenges,
)
    requires
        is_power_key(key, g, x),
        u.len() >= 1,
        f.len() == p2(u.len() as int),
        f.len() <= key.len(),
        all_reduced(f),
        vk.g == key[0],
        vk.h_x == fmul(vk.h, x),
        z_apart(honest_claims(f, u, c.r), c.z),
    ensures
        accepts(
            vk,
            dot(key, f, f.len() as int),
            u.len() as int,
            honest_proof(key, f, u, c),
            c,
        ),
{
    let mu = u.len() as int;
    let p = honest_proof(key, f, u, c);
    let polys = fold_list(f, u, u.len());
    let os = honest_claims(f, u, c.r);
    let q = honest_quotient(f, u, c.r, c.nu);
    let rem = honest_remainder(f, u, c);
    let w = linq(rem, c.z);
    let com = dot(key, f, f.len() as int);
    let coms = all_commitments(com, p.fold_comms);
    lemma_fold_list_lens(f, u);
    lemma_p2_step(mu);
    lemma_honest_lengths(f, u, c);
    law_honest_claims_hold(f, u, c.r);
    assert(claims_of(p, mu, c.r) == os);
    assert forall|j: int| 0 <= j < polys.len() implies #[trigger] coms[j] == fmul(
        vk.g,
        feval(polys[j], x),
    ) by {
        assert(polys[j].len() <= f.len());
        lemma_commit(key, g, x, polys[j]);
        if j > 0 {
            assert(coms[j] == p.fold_comms[j - 1]);
        } else {
            assert(polys[0] == f);
        }
    }
    lemma_commit(key, g, x, q);
    law_reduction_commits(os, polys, coms, q, p.q_commit, vk.g, x, c.nu, c.z);
    lemma_linear_division(rem, c.z, x);
    law_honest_remainder_vanishes(f, u, c);
    lemma_commit(key, g, x, w);
    lemma_opening_accepted(vk, x, c.z, feval(w, x));
}

/// The verifier accepts what the honest prover sends: from the same statement
/// it draws the same challenges and comes to the verdict `true`.
pub proof fn law_honest_run_is_accepted(
    start: Seq<Entry>,
    end: Seq<Entry>,
    key: Seq<int>,
    g: int,
    x: int,
    vk: GeminiKey,
    f: Seq<int>,
    u: Seq<int>,
    p: GeminiModel,
    c: GeminiChallenges,
)
    requires
        is_power_key(key, g, x),
        u.len() >= 1,
        f.len() == p2(u.len() as int),
        f.len() <= key.len(),
        all_reduced(f),
        vk.g == key[0],
        vk.h_x == fmul(vk.h, x),
        is_honest_run(start, end, key, f, u, dot(key, f, f.len() as int), p, c),
    ensures
        is_verdict(
            start,
            end,
            vk,
            dot(key, f, f.len() as int),
            u,
            mle_eval(f, u),
            p,
            true,
            c,
        ),
{
    assert(claims_of(p, u.len() as int, c.r) == honest_claims(f, u, c.r));
    law_honest_values_fit(key, f, u, c);
    law_completeness(key, g, x, vk, f, u, c);
}

/// A proof determines the value: for given challenges at most one value is
/// accepted.
pub proof fn law_value_is_unique(
    start: Seq<Entry>,
    end: Seq<Entry>,
    vk: GeminiKey,
    com: int,
    u: Seq<int>,
    y: int,
    v: int,
    p: GeminiModel,
    c: GeminiChallenges,
)
    requires
        is_verdict(start, end, vk, com, u, y, p, true, c),
        is_verdict(start, end, vk, com, u, v, p, true, c),
    ensures
        y == v,
{
}

} // verus!
