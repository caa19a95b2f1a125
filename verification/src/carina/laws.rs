//! What commitments under a grid key evaluate to.

use crate::carina::srs::{
    base_position, grid_base, is_grid_key, layout, lemma_position_of_base, sigma_bases, tau_bases,
};
use crate::field::{fadd, fmul, fpow, group_reduced, group_shadow, lemma_refl, lemma_shadow_eq};
use crate::grid::{block, block_values, lemma_block_key, lemma_dot_split};
use crate::poly::{dot, feval, lemma_dot_ext, lemma_eval_split, lemma_power_key};
use crate::tensor::lemma_fpow_add;
use vstd::prelude::*;

verus! {

/// The base at the position of its exponents.
pub proof fn lemma_grid_key_at(
    key: Seq<int>,
    ml: int,
    mr: int,
    g: int,
    tau: int,
    sigma: int,
    i: int,
    j: int,
)
    requires
        3 <= ml,
        0 <= i < ml,
        0 <= j < mr,
        is_grid_key(key, ml, mr, g, tau, sigma),
    ensures
        key[base_position(ml, mr, i, j)] == grid_base(g, tau, sigma, i, j),
{
    lemma_position_of_base(ml, mr, i, j);
}

/// `g (t 1) = g t`.
pub proof fn lemma_base_right(g: int, t: int)
    ensures
        fmul(g, fmul(t, 1)) == fmul(g, t),
        fmul(g, fmul(1, t)) == fmul(g, t),
{
    broadcast use group_reduced;

    lemma_refl(g);
    lemma_refl(t);
    lemma_refl(1);
    assert(g * (t * 1) == g * t) by (nonlinear_arith);
    assert(g * (1 * t) == g * t) by (nonlinear_arith);
    broadcast use group_shadow;

    lemma_shadow_eq(fmul(g, fmul(t, 1)), g * (t * 1), fmul(g, t), g * t);
    lemma_shadow_eq(fmul(g, fmul(1, t)), g * (1 * t), fmul(g, t), g * t);
}

/// A commitment over the bases `[tau^i]` evaluates at `tau`.
pub proof fn law_tau_commitment(
    key: Seq<int>,
    ml: int,
    mr: int,
    g: int,
    tau: int,
    sigma: int,
    c: Seq<int>,
)
    requires
        3 <= ml,
        1 <= mr,
        c.len() <= ml,
        is_grid_key(key, ml, mr, g, tau, sigma),
    ensures
        dot(tau_bases(key, ml, mr), c, c.len() as int) == fmul(g, feval(c, tau)),
{
    let tb = tau_bases(key, ml, mr);
    assert forall|i: int| 0 <= i < c.len() implies #[trigger] tb[i] == fmul(g, fpow(tau, i as nat)) by {
        lemma_grid_key_at(key, ml, mr, g, tau, sigma, i, 0);
        lemma_base_right(g, fpow(tau, i as nat));
    }
    lemma_power_key(tb, g, tau, c);
}

/// A commitment over the bases `[sigma^j]` evaluates at `sigma`.
pub proof fn law_sigma_commitment(
    key: Seq<int>,
    ml: int,
    mr: int,
    g: int,
    tau: int,
    sigma: int,
    c: Seq<int>,
)
    requires
        3 <= ml,
        1 <= mr,
        c.len() <= mr,
        is_grid_key(key, ml, mr, g, tau, sigma),
    ensures
        dot(sigma_bases(key, ml, mr), c, c.len() as int) == fmul(g, feval(c, sigma)),
{
    let sb = sigma_bases(key, ml, mr);
    assert forall|j: int| 0 <= j < c.len() implies #[trigger] sb[j] == fmul(
        g,
        fpow(sigma, j as nat),
    ) by {
        lemma_grid_key_at(key, ml, mr, g, tau, sigma, 0, j);
        lemma_base_right(g, fpow(sigma, j as nat));
    }
    lemma_power_key(sb, g, sigma, c);
}

/// A commitment over the prefix of the key evaluates the bivariate polynomial
/// whose columns are the blocks of length `M_L - 2`.
pub proof fn law_prefix_commitment(
    key: Seq<int>,
    ml: int,
    mr: int,
    g: int,
    tau: int,
    sigma: int,
    c: Seq<int>,
)
    requires
        3 <= ml,
        1 <= mr,
        c.len() == (ml - 2) * mr,
        is_grid_key(key, ml, mr, g, tau, sigma),
    ensures
        dot(key, c, (ml - 2) * mr) == fmul(g, feval(block_values(c, ml - 2, mr, tau), sigma)),
{
    let w = ml - 2;
    assert forall|i: int, j: int| 0 <= i < w && 0 <= j < mr implies #[trigger] key[w * j + i]
        == fmul(g, fmul(fpow(tau, i as nat), fpow(sigma, j as nat))) by {
        lemma_grid_key_at(key, ml, mr, g, tau, sigma, i, j);
        assert(j * w == w * j) by (nonlinear_arith);
    }
    lemma_block_key(key, c, w, mr, g, tau, sigma);
}

/// The commitment to a table evaluates its bivariate twin.
pub proof fn law_table_commitment(
    key: Seq<int>,
    ml: int,
    mr: int,
    g: int,
    tau: int,
    sigma: int,
    f: Seq<int>,
)
    requires
        3 <= ml,
        1 <= mr,
        f.len() == ml * mr,
        is_grid_key(key, ml, mr, g, tau, sigma),
    ensures
        dot(key, layout(f, ml, mr), ml * mr) == fmul(
            g,
            feval(block_values(f, ml, mr, tau), sigma),
        ),
{
    broadcast use group_reduced;

    let w = ml - 2;
    let n1 = w * mr;
    let n2 = 2 * mr;
    assert(ml * mr == n1 + n2) by (nonlinear_arith)
        requires
            n1 == (ml - 2) * mr,
            n2 == 2 * mr,
    ;
    assert(0 <= n1) by (nonlinear_arith)
        requires
            n1 == w * mr,
            1 <= w,
            1 <= mr,
    ;
    let lay = layout(f, ml, mr);
    let c1 = lay.subrange(0, n1);
    let c2 = lay.subrange(n1, n1 + n2);
    let key2 = key.subrange(n1, n1 + n2);
    lemma_dot_split(key, lay, n1, key2, c2, n2);
    lemma_dot_ext(key, key, lay, c1, n1);
    law_prefix_commitment(key, ml, mr, g, tau, sigma, c1);
    let tw = fpow(tau, w as nat);
    let g2 = fmul(g, tw);
    assert forall|i: int, j: int| 0 <= i < 2 && 0 <= j < mr implies #[trigger] key2[2 * j + i]
        == fmul(g2, fmul(fpow(tau, i as nat), fpow(sigma, j as nat))) by {
        lemma_grid_key_at(key, ml, mr, g, tau, sigma, w + i, j);
        assert(key2[2 * j + i] == key[n1 + 2 * j + i]);
        lemma_fpow_add(tau, w as nat, i as nat);
        let a = fpow(tau, i as nat);
        let b = fpow(sigma, j as nat);
        lemma_refl(g);
        lemma_refl(tw);
        lemma_refl(a);
        lemma_refl(b);
        assert(g * ((tw * a) * b) == (g * tw) * (a * b)) by (nonlinear_arith);
        broadcast use group_shadow;

        lemma_shadow_eq(
            fmul(g, fmul(fmul(tw, a), b)),
            g * ((tw * a) * b),
            fmul(fmul(g, tw), fmul(a, b)),
            (g * tw) * (a * b),
        );
    }
    lemma_block_key(key2, c2, 2, mr, g2, tau, sigma);
    let v = block_values(f, ml, mr, tau);
    let v1 = block_values(c1, w, mr, tau);
    let v2 = block_values(c2, 2, mr, tau);
    assert forall|j: int| 0 <= j < mr implies #[trigger] v[j] == fadd(v1[j], fmul(tw, v2[j])) by {
        let col = block(f, ml, j);
        assert(0 <= ml * j && ml * j + ml <= ml * mr && 0 <= w * j && w * j + w <= w * mr)
            by (nonlinear_arith)
            requires
                0 <= j < mr,
                1 <= w,
                ml == w + 2,
        ;
        let lo = col.subrange(0, w);
        let hi = col.subrange(w, ml);
        assert(block(c1, w, j) =~= lo) by {
            assert forall|i: int| 0 <= i < w implies block(c1, w, j)[i] == lo[i] by {
                lemma_position_of_base(ml, mr, i, j);
                assert(j * w == w * j) by (nonlinear_arith);
                assert(lay[base_position(ml, mr, i, j)] == f[i + ml * j]);
            }
        }
        assert(block(c2, 2, j) =~= hi) by {
            assert forall|i: int| 0 <= i < 2 implies block(c2, 2, j)[i] == hi[i] by {
                lemma_position_of_base(ml, mr, w + i, j);
                assert(lay[base_position(ml, mr, w + i, j)] == f[w + i + ml * j]);
            }
        }
        lemma_eval_split(col, w, tau);
    }
    crate::grid::lemma_eval_mix(v, v1, v2, tw, sigma);
    let a = feval(v1, sigma);
    let b = feval(v2, sigma);
    lemma_refl(g);
    lemma_refl(tw);
    lemma_refl(a);
    lemma_refl(b);
    assert(g * a + (g * tw) * b == g * (a + tw * b)) by (nonlinear_arith);
    broadcast use group_shadow;

    lemma_shadow_eq(
        fadd(fmul(g, a), fmul(fmul(g, tw), b)),
        g * a + (g * tw) * b,
        fmul(g, fadd(a, fmul(tw, b))),
        g * (a + tw * b),
    );
}

} // verus!
