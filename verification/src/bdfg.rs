//! The algebra of batched multi-point KZG openings: several polynomials, each
//! claimed to take given values at the points of a set of its own, are reduced
//! to two witnesses `W` and `W'`. Commitments and challenges are the callers'
//! business; this module works on coefficients only.

use crate::dims::copy_scalars;
use crate::errors::{invalid_proof, invalid_prover, PCSError};
use crate::field::{
    cong, fadd, fmul, fneg, fpow, fsub, group_reduced, group_shadow, lemma_cong_add, lemma_cong_eq,
    lemma_cong_symm, lemma_modulus, lemma_refl, lemma_shadow_eq, reduced, vals, Scalar,
};
use crate::poly::{
    all_reduced, basis_den, basis_num, basis_scale, conv, distinct, feval, interp, interp_partial,
    invertible, lemma_basis_num_len, lemma_interp_eval, linear_quotient, nodes_ok, p_add_scaled,
    p_mul, p_mul_linear, p_sub, p_sub_const, p_vanishing, root_product, tail,
};
use vstd::prelude::*;

verus! {

/// Value of a polynomial at a point, by Horner's rule.
pub fn poly_eval(coeffs: &[Scalar], x: Scalar) -> (r: Scalar)
    ensures
        r@ == feval(vals(coeffs@), x@),
{
    let mut acc = Scalar::zero();
    let mut i: usize = coeffs.len();
    while i > 0
        invariant
            i <= coeffs@.len(),
            acc@ == tail(vals(coeffs@), x@, i as int),
        decreases i,
    {
        i = i - 1;
        acc = acc.mul(x).add(coeffs[i]);
    }
    acc
}

/// `p(X) (X - root)`, one longer than `p`.
pub fn mul_by_linear(coeffs: &[Scalar], root: Scalar) -> (r: Vec<Scalar>)
    requires
        coeffs@.len() < usize::MAX,
    ensures
        vals(r@) == p_mul_linear(vals(coeffs@), root@),
{
    let n: usize = coeffs.len();
    let mut out: Vec<Scalar> = Vec::new();
    let ghost want = p_mul_linear(vals(coeffs@), root@);
    let mut i: usize = 0;
    while i <= n
        invariant
            n == coeffs@.len(),
            n < usize::MAX,
            i <= n + 1,
            want == p_mul_linear(vals(coeffs@), root@),
            out@.len() == i,
            forall|k: int| 0 <= k < i ==> (#[trigger] out@[k])@ == want[k],
        decreases n + 1 - i,
    {
        let hi = if i > 0 { coeffs[i - 1] } else { Scalar::zero() };
        let lo = if i < n { coeffs[i] } else { Scalar::zero() };
        out.push(hi.sub(root.mul(lo)));
        i = i + 1;
    }
    assert(vals(out@) =~= want);
    out
}

/// Quotient of a polynomial by `X - root` and its value at the root.
pub fn divide_by_linear(coeffs: &[Scalar], root: Scalar) -> (r: (Vec<Scalar>, Scalar))
    ensures
        coeffs@.len() == 0 ==> r.0@.len() == 0,
        coeffs@.len() > 0 ==> vals(r.0@) == linear_quotient(vals(coeffs@), root@),
        r.1@ == feval(vals(coeffs@), root@),
{
    let n: usize = coeffs.len();
    if n == 0 {
        return (Vec::new(), Scalar::zero());
    }
    let ghost p = vals(coeffs@);
    let ghost want = linear_quotient(p, root@);
    let mut q: Vec<Scalar> = copy_scalars(vstd::slice::slice_subrange(coeffs, 1, n));
    let mut carry = Scalar::zero();
    let mut i: usize = n - 1;
    while i > 0
        invariant
            i < n == coeffs@.len(),
            p == vals(coeffs@),
            want == linear_quotient(p, root@),
            q@.len() == n - 1,
            carry@ == tail(p, root@, i + 1),
            forall|k: int| i <= k < n - 1 ==> (#[trigger] q@[k])@ == want[k],
        decreases i,
    {
        carry = carry.mul(root).add(coeffs[i]);
        i = i - 1;
        q.set(i, carry);
    }
    assert(vals(q@) =~= want);
    (q, carry.mul(root).add(coeffs[0]))
}

/// `dst + scale src`, in place; nothing changes where the scale is zero.
pub fn add_scaled(dst: &mut Vec<Scalar>, src: &[Scalar], scale: Scalar)
    ensures
        vals(final(dst)@) == p_add_scaled(vals(old(dst)@), vals(src@), scale@),
{
    let ghost d0 = vals(dst@);
    let ghost want = p_add_scaled(d0, vals(src@), scale@);
    if scale.is_zero() {
        return;
    }
    let m: usize = src.len();
    let mut i: usize = 0;
    while i < m
        invariant
            m == src@.len(),
            i <= m,
            scale@ != 0,
            d0 == vals(old(dst)@),
            want == p_add_scaled(d0, vals(src@), scale@),
            dst@.len() == (if d0.len() >= i { d0.len() } else { i as nat }),
            forall|k: int| 0 <= k < i ==> (#[trigger] dst@[k])@ == want[k],
            forall|k: int| i <= k < dst@.len() ==> (#[trigger] dst@[k])@ == d0[k],
        decreases m - i,
    {
        let term = scale.mul(src[i]);
        if i < dst.len() {
            let v = dst[i].add(term);
            dst.set(i, v);
        } else {
            dst.push(Scalar::zero().add(term));
        }
        i = i + 1;
    }
    assert(vals(dst@) =~= want);
}

/// `p - q`.
pub fn poly_sub(p: &[Scalar], q: &[Scalar]) -> (r: Vec<Scalar>)
    ensures
        vals(r@) == p_sub(vals(p@), vals(q@)),
{
    let ghost want = p_sub(vals(p@), vals(q@));
    let n: usize = if p.len() >= q.len() { p.len() } else { q.len() };
    let mut out: Vec<Scalar> = Vec::new();
    let mut i: usize = 0;
    while i < n
        invariant
            i <= n,
            n == want.len(),
            n == (if p@.len() >= q@.len() { p@.len() } else { q@.len() }),
            want == p_sub(vals(p@), vals(q@)),
            out@.len() == i,
            forall|k: int| 0 <= k < i ==> (#[trigger] out@[k])@ == want[k],
        decreases n - i,
    {
        if i < q.len() {
            let a = if i < p.len() { p[i] } else { Scalar::zero() };
            out.push(a.sub(q[i]));
        } else {
            out.push(p[i]);
        }
        i = i + 1;
    }
    assert(vals(out@) =~= want);
    out
}

/// `dst - c` for a constant, in place.
pub fn subtract_const(dst: &mut Vec<Scalar>, c: Scalar)
    ensures
        vals(final(dst)@) == p_sub_const(vals(old(dst)@), c@),
{
    if dst.len() == 0 {
        dst.push(c.neg());
    } else {
        let v = dst[0].sub(c);
        dst.set(0, v);
    }
    assert(vals(dst@) =~= p_sub_const(vals(old(dst)@), c@));
}

/// The vanishing polynomial of the roots; the constant one where there is none.
pub fn vanishing_poly(roots: &[Scalar]) -> (r: Vec<Scalar>)
    requires
        roots@.len() < usize::MAX - 1,
    ensures
        vals(r@) == p_vanishing(vals(roots@), roots@.len() as int),
        r@.len() == roots@.len() + 1,
{
    let mut acc: Vec<Scalar> = Vec::new();
    acc.push(Scalar::one());
    assert(vals(acc@) =~= seq![1int]);
    let mut i: usize = 0;
    while i < roots.len()
        invariant
            i <= roots@.len(),
            roots@.len() < usize::MAX - 1,
            acc@.len() == i + 1,
            vals(acc@) == p_vanishing(vals(roots@), i as int),
        decreases roots@.len() - i,
    {
        let next = mul_by_linear(acc.as_slice(), roots[i]);
        assert(vals(next@).len() == i + 2);
        acc = next;
        i = i + 1;
    }
    acc
}

/// Product of two polynomials; empty where one of them is.
pub fn poly_mul(a: &[Scalar], b: &[Scalar]) -> (r: Vec<Scalar>)
    requires
        a@.len() + b@.len() <= usize::MAX,
    ensures
        vals(r@) == p_mul(vals(a@), vals(b@)),
{
    let mut out: Vec<Scalar> = Vec::new();
    if a.len() == 0 || b.len() == 0 {
        assert(vals(out@) =~= p_mul(vals(a@), vals(b@)));
        return out;
    }
    let ghost av = vals(a@);
    let ghost bv = vals(b@);
    let n: usize = a.len() + b.len() - 1;
    let mut k: usize = 0;
    while k < n
        invariant
            k <= n == a@.len() + b@.len() - 1,
            a@.len() + b@.len() <= usize::MAX,
            av == vals(a@),
            bv == vals(b@),
            out@.len() == k,
            forall|m: int| 0 <= m < k ==> (#[trigger] out@[m])@ == conv(av, bv, m, av.len() as int),
        decreases n - k,
    {
        let mut acc = Scalar::zero();
        let mut i: usize = 0;
        while i < a.len()
            invariant
                i <= a@.len(),
                av == vals(a@),
                bv == vals(b@),
                acc@ == conv(av, bv, k as int, i as int),
            decreases a@.len() - i,
        {
            if i <= k && k - i < b.len() {
                acc = acc.add(a[i].mul(b[k - i]));
            }
            i = i + 1;
        }
        out.push(acc);
        k = k + 1;
    }
    assert(vals(out@) =~= p_mul(av, bv));
    out
}

proof fn lemma_zero_factor(a: int, b: int)
    requires
        a == 0 || b == 0,
    ensures
        fmul(a, b) == 0,
{
    broadcast use group_reduced, group_shadow;

    lemma_modulus();
    lemma_refl(a);
    lemma_refl(b);
    lemma_refl(0);
    assert(a * b == 0) by (nonlinear_arith)
        requires
            a == 0 || b == 0,
    ;
    lemma_shadow_eq(fmul(a, b), a * b, 0, 0);
}

/// Distinct elements have a nonzero difference.
pub proof fn lemma_fsub_zero(a: int, b: int)
    requires
        reduced(a),
        reduced(b),
    ensures
        fsub(a, b) == 0 <==> a == b,
{
    broadcast use group_reduced, group_shadow;

    lemma_modulus();
    lemma_refl(a);
    lemma_refl(b);
    lemma_refl(0);
    assert(cong(fsub(a, b), a - b));
    if fsub(a, b) == 0 {
        lemma_cong_add(fsub(a, b), a - b, b, b);
        lemma_cong_symm(0 + b, a);
        lemma_cong_eq(a, b);
    }
    if a == b {
        lemma_shadow_eq(fsub(a, b), a - b, 0, 0);
    }
}

/// Interpolation through `(xs[i], ys[i])`, in the monomial basis.
pub fn lagrange_interpolate(xs: &[Scalar], ys: &[Scalar]) -> (r: Result<Vec<Scalar>, PCSError>)
    requires
        xs@.len() < usize::MAX - 1,
    ensures
        r is Ok <==> xs@.len() == ys@.len() && 0 < xs@.len() && distinct(vals(xs@)),
        r matches Err(e) ==> e is InvalidProof,
        r matches Ok(p) ==> {
            &&& vals(p@) == interp(vals(xs@), vals(ys@))
            &&& p@.len() == xs@.len()
            &&& nodes_ok(vals(xs@))
            &&& forall|k: int|
                0 <= k < xs@.len() ==> feval(vals(p@), (#[trigger] xs@[k])@) == ys@[k]@
        },
{
    broadcast use group_reduced;

    let n: usize = xs.len();
    if n != ys.len() || n == 0 {
        return Err(invalid_proof("interpolation length mismatch"));
    }
    let ghost xv = vals(xs@);
    let ghost yv = vals(ys@);
    let mut coeffs: Vec<Scalar> = Vec::new();
    let mut k: usize = 0;
    while k < n
        invariant
            k <= n,
            coeffs@.len() == k,
            forall|m: int| 0 <= m < k ==> (#[trigger] coeffs@[m])@ == 0,
        decreases n - k,
    {
        coeffs.push(Scalar::zero());
        k = k + 1;
    }
    assert(vals(coeffs@) =~= interp_partial(xv, yv, 0));
    let mut i: usize = 0;
    while i < n
        invariant
            i <= n,
            n == xs@.len() == ys@.len(),
            0 < n < usize::MAX - 1,
            xv == vals(xs@),
            yv == vals(ys@),
            coeffs@.len() == n,
            vals(coeffs@) == interp_partial(xv, yv, i as int),
            forall|a: int| 0 <= a < i ==> invertible(#[trigger] basis_den(xv, a, n as int)),
            forall|a: int, b: int|
                0 <= a < i && 0 <= b < n && a != b ==> #[trigger] xv[a] != #[trigger] xv[b],
        decreases n - i,
    {
        let mut num: Vec<Scalar> = Vec::new();
        num.push(Scalar::one());
        assert(vals(num@) =~= basis_num(xv, i as int, 0));
        let mut denom = Scalar::one();
        let mut j: usize = 0;
        proof {
            lemma_modulus();
        }
        while j < n
            invariant
                i < n,
                j <= n == xs@.len(),
                0 < n < usize::MAX - 1,
                xv == vals(xs@),
                num@.len() <= j + 1,
                vals(num@) == basis_num(xv, i as int, j as int),
                denom@ == basis_den(xv, i as int, j as int),
                denom@ == 0 <==> exists|b: int| 0 <= b < j && b != i && #[trigger] xv[b] == xv[i as int],
            decreases n - j,
        {
            broadcast use group_reduced;

            if j != i {
                let ghost den0 = denom@;
                num = mul_by_linear(num.as_slice(), xs[j]);
                let d = xs[i].sub(xs[j]);
                denom = denom.mul(d);
                proof {
                    lemma_fsub_zero(xv[i as int], xv[j as int]);
                    if den0 == 0 || d@ == 0 {
                        lemma_zero_factor(den0, d@);
                    }
                    lemma_basis_num_len(xv, i as int, j + 1);
                    assert(vals(num@).len() == num@.len());
                    if denom@ == 0 {
                        if d@ == 0 {
                            assert(xv[j as int] == xv[i as int]);
                        } else {
                            let b = choose|b: int|
                                0 <= b < j && b != i && #[trigger] xv[b] == xv[i as int];
                            assert(0 <= b < j + 1 && b != i && xv[b] == xv[i as int]);
                        }
                    } else {
                        assert forall|b: int| 0 <= b < j + 1 && b != i implies #[trigger] xv[b]
                            != xv[i as int] by {
                            if b == j {
                                assert(d@ != 0);
                            }
                        }
                    }
                }
            } else {
                proof {
                    lemma_basis_num_len(xv, i as int, j + 1);
                    assert(vals(num@).len() == num@.len());
                }
            }
            j = j + 1;
        }
        match denom.inverse() {
            None => {
                proof {
                    let b = choose|b: int| 0 <= b < n && b != i && #[trigger] xv[b] == xv[i as int];
                    assert(!distinct(xv)) by {
                        if b < i {
                            assert(xv[b] == xv[i as int]);
                        } else {
                            assert(xv[i as int] == xv[b]);
                        }
                    }
                }
                return Err(invalid_proof("duplicate interpolation nodes"));
            },
            Some(inv) => {
                let scale = ys[i].mul(inv);
                let ghost before = vals(coeffs@);
                let ghost want = interp_partial(xv, yv, i + 1);
                proof {
                    lemma_basis_num_len(xv, i as int, n as int);
                    assert(vals(num@).len() == num@.len());
                    assert(scale@ == basis_scale(xv, yv, i as int));
                }
                let mut m: usize = 0;
                while m < n
                    invariant
                        m <= n,
                        i < n,
                        n == xs@.len() == ys@.len(),
                        xv == vals(xs@),
                        yv == vals(ys@),
                        num@.len() == n,
                        vals(num@) == basis_num(xv, i as int, n as int),
                        scale@ == basis_scale(xv, yv, i as int),
                        before == interp_partial(xv, yv, i as int),
                        want == interp_partial(xv, yv, i + 1),
                        coeffs@.len() == n,
                        forall|q: int| 0 <= q < m ==> (#[trigger] coeffs@[q])@ == want[q],
                        forall|q: int| m <= q < n ==> (#[trigger] coeffs@[q])@ == before[q],
                    decreases n - m,
                {
                    assert(vals(num@)[m as int] == num@[m as int]@);
                    let v = coeffs[m].add(scale.mul(num[m]));
                    coeffs.set(m, v);
                    m = m + 1;
                }
                assert(vals(coeffs@) =~= want);
            },
        }
        i = i + 1;
    }
    proof {
        assert(all_reduced(yv));
        assert forall|k: int| 0 <= k < n implies feval(vals(coeffs@), (#[trigger] xs@[k])@) == ys@[k]@ by {
            lemma_interp_eval(xv, yv, k);
            assert(xv[k] == xs@[k]@);
        }
    }
    Ok(coeffs)
}

/// A claim that a polynomial takes given values at given points.
pub struct BdfgClaim<'a> {
    pub poly: &'a [Scalar],
    pub points: &'a [Scalar],
    pub values: &'a [Scalar],
}

/// The views of a claim's parts.
pub struct Claim {
    pub poly: Seq<int>,
    pub points: Seq<int>,
    pub values: Seq<int>,
}

/// The views of a sequence of claims.
pub open spec fn claim_views(claims: Seq<BdfgClaim>) -> Seq<Claim> {
    Seq::new(
        claims.len(),
        |t: int|
            Claim {
                poly: vals(claims[t].poly@),
                points: vals(claims[t].points@),
                values: vals(claims[t].values@),
            },
    )
}

/// The point sets of a sequence of claims.
pub open spec fn claim_sets(claims: Seq<Claim>) -> Seq<Seq<int>> {
    Seq::new(claims.len(), |t: int| claims[t].points)
}

/// The views of a sequence of point sets.
pub open spec fn set_views(sets: Seq<&[Scalar]>) -> Seq<Seq<int>> {
    Seq::new(sets.len(), |t: int| vals(sets[t]@))
}

/// A union with the first `n` entries of a set, those that are new at the end.
pub open spec fn union_into(u: Seq<int>, set: Seq<int>, n: int) -> Seq<int>
    decreases n,
{
    if n <= 0 {
        u
    } else {
        let v = union_into(u, set, n - 1);
        if v.contains(set[n - 1]) {
            v
        } else {
            v.push(set[n - 1])
        }
    }
}

/// The union of the first `n` sets in the order in which points first occur.
pub open spec fn union_of(sets: Seq<Seq<int>>, n: int) -> Seq<int>
    decreases n,
{
    if n <= 0 {
        Seq::empty()
    } else {
        union_into(union_of(sets, n - 1), sets[n - 1], sets[n - 1].len() as int)
    }
}

/// The first `n` entries of `u` without those that occur among the points.
pub open spec fn complement_of(u: Seq<int>, points: Seq<int>, n: int) -> Seq<int>
    decreases n,
{
    if n <= 0 {
        Seq::empty()
    } else if points.contains(u[n - 1]) {
        complement_of(u, points, n - 1)
    } else {
        complement_of(u, points, n - 1).push(u[n - 1])
    }
}

/// Whether each of the sets has pairwise distinct points.
pub open spec fn all_distinct(sets: Seq<Seq<int>>) -> bool {
    forall|t: int| 0 <= t < sets.len() ==> distinct(#[trigger] sets[t])
}

fn contains(points: &[Scalar], x: &Scalar) -> (r: bool)
    ensures
        r == vals(points@).contains(x@),
{
    let mut i: usize = 0;
    while i < points.len()
        invariant
            i <= points@.len(),
            forall|k: int| 0 <= k < i ==> (#[trigger] points@[k])@ != x@,
        decreases points@.len() - i,
    {
        if points[i].equals(x) {
            assert(vals(points@)[i as int] == x@);
            return true;
        }
        i = i + 1;
    }
    assert forall|k: int| 0 <= k < vals(points@).len() implies vals(points@)[k] != x@ by {
        assert(points@[k]@ != x@);
    }
    false
}

fn has_repeat(points: &[Scalar]) -> (r: bool)
    ensures
        r == !distinct(vals(points@)),
{
    let ghost v = vals(points@);
    let n: usize = points.len();
    let mut a: usize = 0;
    while a < n
        invariant
            a <= n == points@.len(),
            v == vals(points@),
            forall|i: int, j: int| 0 <= i < a && i < j < n ==> #[trigger] v[i] != #[trigger] v[j],
        decreases n - a,
    {
        let mut b: usize = a + 1;
        while b < n
            invariant
                a < b <= n == points@.len(),
                v == vals(points@),
                forall|j: int| a < j < b ==> v[a as int] != #[trigger] v[j],
            decreases n - b,
        {
            if points[a].equals(&points[b]) {
                assert(v[a as int] == v[b as int]);
                return true;
            }
            b = b + 1;
        }
        a = a + 1;
    }
    false
}

/// The union of point sets in the order in which points first occur. A set
/// with a repeated point is an error.
pub fn union_points(point_sets: &[&[Scalar]]) -> (r: Result<Vec<Scalar>, PCSError>)
    ensures
        r is Ok <==> all_distinct(set_views(point_sets@)),
        r matches Err(e) ==> e is InvalidProof,
        r matches Ok(u) ==> vals(u@) == union_of(
            set_views(point_sets@),
            point_sets@.len() as int,
        ),
{
    let ghost sets = set_views(point_sets@);
    let mut union: Vec<Scalar> = Vec::new();
    assert(vals(union@) =~= union_of(sets, 0));
    let mut t: usize = 0;
    while t < point_sets.len()
        invariant
            t <= point_sets@.len(),
            sets == set_views(point_sets@),
            vals(union@) == union_of(sets, t as int),
            forall|q: int| 0 <= q < t ==> distinct(#[trigger] sets[q]),
        decreases point_sets@.len() - t,
    {
        let set: &[Scalar] = point_sets[t];
        if has_repeat(set) {
            assert(!distinct(sets[t as int]));
            return Err(invalid_proof("BDFG20 evaluation set has a repeated point"));
        }
        let ghost u0 = vals(union@);
        let mut k: usize = 0;
        while k < set.len()
            invariant
                k <= set@.len(),
                vals(union@) == union_into(u0, vals(set@), k as int),
            decreases set@.len() - k,
        {
            let ghost v = vals(union@);
            if !contains(union.as_slice(), &set[k]) {
                union.push(set[k]);
                assert(vals(union@) =~= v.push(vals(set@)[k as int]));
            }
            k = k + 1;
        }
        t = t + 1;
    }
    Ok(union)
}

/// The entries of the union that are not among the points.
pub fn complement(union: &[Scalar], points: &[Scalar]) -> (r: Vec<Scalar>)
    ensures
        vals(r@) == complement_of(vals(union@), vals(points@), union@.len() as int),
        r@.len() <= union@.len(),
{
    let mut out: Vec<Scalar> = Vec::new();
    assert(vals(out@) =~= complement_of(vals(union@), vals(points@), 0));
    let mut k: usize = 0;
    while k < union.len()
        invariant
            k <= union@.len(),
            out@.len() <= k,
            vals(out@) == complement_of(vals(union@), vals(points@), k as int),
        decreases union@.len() - k,
    {
        let ghost v = vals(out@);
        if !contains(points, &union[k]) {
            out.push(union[k]);
            assert(vals(out@) =~= v.push(vals(union@)[k as int]));
        }
        k = k + 1;
    }
    out
}

/// Product of `x - u` over the part of the union outside a point set.
pub open spec fn outside_product(union: Seq<int>, points: Seq<int>, x: int) -> int {
    let c = complement_of(union, points, union.len() as int);
    root_product(c, x, c.len() as int)
}

/// The vanishing polynomial of the part of the union outside a point set.
pub open spec fn outside_poly(union: Seq<int>, points: Seq<int>) -> Seq<int> {
    let c = complement_of(union, points, union.len() as int);
    p_vanishing(c, c.len() as int)
}

/// The combined numerator of the first `n` claims:
/// `sum_t rho^t Z_{T \ S_t} (p_t - l_t)`.
pub open spec fn numerator(claims: Seq<Claim>, union: Seq<int>, rho: int, n: int) -> Seq<int>
    decreases n,
{
    if n <= 0 {
        Seq::empty()
    } else {
        let c = claims[n - 1];
        p_add_scaled(
            numerator(claims, union, rho, n - 1),
            p_mul(outside_poly(union, c.points), p_sub(c.poly, interp(c.points, c.values))),
            fpow(rho, (n - 1) as nat),
        )
    }
}

/// Quotient by a linear factor; the empty sequence stays empty.
pub open spec fn linq(p: Seq<int>, root: int) -> Seq<int> {
    if p.len() == 0 {
        p
    } else {
        linear_quotient(p, root)
    }
}

/// The quotient after dividing by the first `n` linear factors.
pub open spec fn quotient_chain(p: Seq<int>, roots: Seq<int>, n: int) -> Seq<int>
    decreases n,
{
    if n <= 0 {
        p
    } else {
        linq(quotient_chain(p, roots, n - 1), roots[n - 1])
    }
}

/// Whether the first `n` divisions leave no remainder.
pub open spec fn chain_exact(p: Seq<int>, roots: Seq<int>, n: int) -> bool {
    forall|k: int| 0 <= k < n ==> feval(#[trigger] quotient_chain(p, roots, k), roots[k]) == 0
}

/// Whether every claim has as many values as points, and at least one.
pub open spec fn claims_shaped(claims: Seq<Claim>) -> bool {
    forall|t: int|
        0 <= t < claims.len() ==> (#[trigger] claims[t]).points.len() == claims[t].values.len()
            && claims[t].points.len() > 0
}

/// Whether the products that the claims give rise to fit in memory.
pub open spec fn claims_fit(claims: Seq<Claim>) -> bool {
    let u = union_of(claim_sets(claims), claims.len() as int);
    forall|t: int|
        0 <= t < claims.len() ==> u.len() + (#[trigger] claims[t]).poly.len()
            + claims[t].points.len() + 4 <= usize::MAX
}

/// What the prover's first round yields.
pub struct BdfgFirstRound {
    pub union: Vec<Scalar>,
    pub interpolants: Vec<Vec<Scalar>>,
    pub m: Vec<Scalar>,
    pub quot_m: Vec<Scalar>,
}

/// What the first round comes to. It fails with `InvalidProof` where a set of
/// points repeats one or does not match its values, and with `InvalidProver` where
/// the values are not those of the polynomials.
pub open spec fn is_first_round(
    cs: Seq<Claim>,
    rho: int,
    r: Result<BdfgFirstRound, PCSError>,
) -> bool {
    let u = union_of(claim_sets(cs), cs.len() as int);
    let m = numerator(cs, u, rho, cs.len() as int);
    let shaped = all_distinct(claim_sets(cs)) && claims_shaped(cs);
    &&& r is Ok <==> shaped && chain_exact(m, u, u.len() as int)
    &&& shaped ==> forall|t: int| 0 <= t < cs.len() ==> nodes_ok((#[trigger] cs[t]).points)
    &&& r matches Err(e) ==> if shaped {
        e is InvalidProver
    } else {
        e is InvalidProof
    }
    &&& r matches Ok(f) ==> {
        &&& vals(f.union@) == u
        &&& f.interpolants@.len() == cs.len()
        &&& forall|t: int|
            0 <= t < cs.len() ==> vals((#[trigger] f.interpolants@[t])@) == interp(
                cs[t].points,
                cs[t].values,
            ) && nodes_ok(cs[t].points)
        &&& vals(f.m@) == m
        &&& vals(f.quot_m@) == quotient_chain(m, u, u.len() as int)
    }
}

/// First round: the numerator `m` of the claims under the challenge `rho`, and
/// its quotient `W` by the vanishing polynomial of all points.
#[verifier::spinoff_prover]
pub fn bdfg_first_round(claims: &[BdfgClaim], rho: Scalar) -> (r: Result<BdfgFirstRound, PCSError>)
    requires
        claims_fit(claim_views(claims@)),
    ensures
        is_first_round(claim_views(claims@), rho@, r),
{
    let ghost cs = claim_views(claims@);
    let ghost sets = claim_sets(cs);
    let mut point_sets: Vec<&[Scalar]> = Vec::new();
    let mut t: usize = 0;
    while t < claims.len()
        invariant
            t <= claims@.len(),
            point_sets@.len() == t,
            forall|q: int| 0 <= q < t ==> #[trigger] point_sets@[q] == claims@[q].points,
        decreases claims@.len() - t,
    {
        point_sets.push(claims[t].points);
        t = t + 1;
    }
    assert(set_views(point_sets@) =~= sets);
    let union: Vec<Scalar> = match union_points(point_sets.as_slice()) {
        Ok(u) => u,
        Err(e) => {
            return Err(e);
        },
    };
    let ghost u = union_of(sets, cs.len() as int);
    let mut interpolants: Vec<Vec<Scalar>> = Vec::new();
    let mut m: Vec<Scalar> = Vec::new();
    assert(vals(m@) =~= numerator(cs, u, rho@, 0));
    let mut rho_pow = Scalar::one();
    let mut t: usize = 0;
    while t < claims.len()
        invariant
            t <= claims@.len(),
            cs == claim_views(claims@),
            claims_fit(cs),
            sets == claim_sets(cs),
            all_distinct(sets),
            u == union_of(sets, cs.len() as int),
            vals(union@) == u,
            rho_pow@ == fpow(rho@, t as nat),
            vals(m@) == numerator(cs, u, rho@, t as int),
            interpolants@.len() == t,
            forall|q: int|
                0 <= q < t ==> (#[trigger] cs[q]).points.len() == cs[q].values.len()
                    && cs[q].points.len() > 0,
            forall|q: int|
                0 <= q < t ==> vals((#[trigger] interpolants@[q])@) == interp(
                    cs[q].points,
                    cs[q].values,
                ) && nodes_ok(cs[q].points),
        decreases claims@.len() - t,
    {
        let claim = &claims[t];
        let ghost c = cs[t as int];
        assert(c.points == vals(claim.points@) && c.values == vals(claim.values@) && c.poly == vals(
            claim.poly@,
        ));
        assert(distinct(sets[t as int]));
        assert(vals(union@).len() == union@.len());
        if claim.points.len() != claim.values.len() {
            assert(!claims_shaped(cs)) by {
                assert(cs[t as int].points.len() != cs[t as int].values.len());
            }
            return Err(invalid_proof("BDFG20 claim points/values length mismatch"));
        }
        let ell: Vec<Scalar> = match lagrange_interpolate(claim.points, claim.values) {
            Ok(p) => p,
            Err(e) => {
                assert(!claims_shaped(cs)) by {
                    assert(cs[t as int].points.len() == 0);
                }
                return Err(e);
            },
        };
        let ghost done = interpolants@;
        assert(vals(ell@) == interp(c.points, c.values) && nodes_ok(c.points));
        let diff = poly_sub(claim.poly, ell.as_slice());
        assert(vals(diff@).len() == diff@.len());
        let comp = complement(union.as_slice(), claim.points);
        let z_comp = vanishing_poly(comp.as_slice());
        assert(vals(comp@).len() == comp@.len());
        let term = poly_mul(z_comp.as_slice(), diff.as_slice());
        add_scaled(&mut m, term.as_slice(), rho_pow);
        interpolants.push(ell);
        assert forall|q: int| 0 <= q <= t implies vals((#[trigger] interpolants@[q])@) == interp(
            cs[q].points,
            cs[q].values,
        ) && nodes_ok(cs[q].points) by {
            if q < t {
                assert(interpolants@[q] == done[q]);
            }
        }
        rho_pow = rho_pow.mul(rho);
        t = t + 1;
    }
    let ghost mm = vals(m@);
    assert forall|t: int| 0 <= t < cs.len() implies nodes_ok((#[trigger] cs[t]).points) by {
        assert(vals(interpolants@[t]@) == interp(cs[t].points, cs[t].values));
    }
    let mut quot: Vec<Scalar> = copy_scalars(m.as_slice());
    let mut k: usize = 0;
    while k < union.len()
        invariant
            k <= union@.len(),
            cs == claim_views(claims@),
            u == union_of(claim_sets(cs), cs.len() as int),
            mm == numerator(cs, u, rho@, cs.len() as int),
            all_distinct(claim_sets(cs)),
            claims_shaped(cs),
            forall|t: int| 0 <= t < cs.len() ==> nodes_ok((#[trigger] cs[t]).points),
            vals(union@) == u,
            vals(quot@) == quotient_chain(mm, u, k as int),
            forall|q: int|
                0 <= q < k ==> feval(#[trigger] quotient_chain(mm, u, q), u[q]) == 0,
        decreases union@.len() - k,
    {
        let (q, rem) = divide_by_linear(quot.as_slice(), union[k]);
        assert(vals(quot@).len() == quot@.len());
        if !rem.is_zero() {
            assert(vals(union@).len() == union@.len());
            assert(feval(quotient_chain(mm, u, k as int), u[k as int]) != 0);
            return Err(invalid_prover("BDFG20 m(X) not divisible by Z_T"));
        }
        proof {
            if quot@.len() == 0 {
                assert(vals(q@) =~= vals(quot@));
            }
        }
        quot = q;
        k = k + 1;
    }
    assert(vals(union@).len() == union@.len());
    Ok(BdfgFirstRound { union, interpolants, m, quot_m: quot })
}

/// What the prover's second round yields.
pub struct BdfgSecondRound {
    pub l: Vec<Scalar>,
    pub quot_l: Vec<Scalar>,
}

/// The part of `L` that comes from the first `n` claims:
/// `sum_t rho^t Z_{T \ S_t}(z) (p_t - l_t(z))`.
pub open spec fn combined_at(
    claims: Seq<Claim>,
    union: Seq<int>,
    interpolants: Seq<Seq<int>>,
    rho: int,
    z: int,
    n: int,
) -> Seq<int>
    decreases n,
{
    if n <= 0 {
        Seq::empty()
    } else {
        let c = claims[n - 1];
        let w = fmul(fpow(rho, (n - 1) as nat), feval(outside_poly(union, c.points), z));
        p_sub_const(
            p_add_scaled(
                combined_at(claims, union, interpolants, rho, z, n - 1),
                c.poly,
                w,
            ),
            fmul(w, feval(interpolants[n - 1], z)),
        )
    }
}

/// The polynomial `L = m_z - Z_T(z) W`.
pub open spec fn l_poly(
    claims: Seq<Claim>,
    union: Seq<int>,
    interpolants: Seq<Seq<int>>,
    quot_m: Seq<int>,
    rho: int,
    z: int,
) -> Seq<int> {
    p_add_scaled(
        combined_at(claims, union, interpolants, rho, z, claims.len() as int),
        quot_m,
        fneg(feval(p_vanishing(union, union.len() as int), z)),
    )
}

/// The views of a sequence of polynomials.
pub open spec fn poly_views(ps: Seq<Vec<Scalar>>) -> Seq<Seq<int>> {
    Seq::new(ps.len(), |t: int| vals(ps[t]@))
}

/// What the second round comes to. It fails where `L` does not vanish at `z`.
pub open spec fn is_second_round(
    cs: Seq<Claim>,
    first: &BdfgFirstRound,
    rho: int,
    z: int,
    r: Result<BdfgSecondRound, PCSError>,
) -> bool {
    let l = l_poly(
        cs,
        vals(first.union@),
        poly_views(first.interpolants@),
        vals(first.quot_m@),
        rho,
        z,
    );
    &&& r is Ok <==> feval(l, z) == 0
    &&& r matches Err(e) ==> e is InvalidProver
    &&& r matches Ok(s) ==> vals(s.l@) == l && vals(s.quot_l@) == linq(l, z)
}

/// Second round: the polynomial `L` under the challenge `z`, and its quotient
/// `W'` by `X - z`.
pub fn bdfg_second_round(
    claims: &[BdfgClaim],
    first: &BdfgFirstRound,
    rho: Scalar,
    z: Scalar,
) -> (r: Result<BdfgSecondRound, PCSError>)
    requires
        first.interpolants@.len() == claims@.len(),
        first.union@.len() < usize::MAX - 1,
    ensures
        is_second_round(claim_views(claims@), first, rho@, z@, r),
{
    let ghost cs = claim_views(claims@);
    let ghost u = vals(first.union@);
    let ghost its = poly_views(first.interpolants@);
    let mut l: Vec<Scalar> = Vec::new();
    assert(vals(l@) =~= combined_at(cs, u, its, rho@, z@, 0));
    let mut rho_pow = Scalar::one();
    let mut t: usize = 0;
    while t < claims.len()
        invariant
            t <= claims@.len(),
            first.interpolants@.len() == claims@.len(),
            first.union@.len() < usize::MAX - 1,
            cs == claim_views(claims@),
            u == vals(first.union@),
            its == poly_views(first.interpolants@),
            rho_pow@ == fpow(rho@, t as nat),
            vals(l@) == combined_at(cs, u, its, rho@, z@, t as int),
        decreases claims@.len() - t,
    {
        let claim = &claims[t];
        let comp = complement(first.union.as_slice(), claim.points);
        assert(vals(comp@).len() == comp@.len());
        let vz = vanishing_poly(comp.as_slice());
        let z_comp_z = poly_eval(vz.as_slice(), z);
        let ell_z = poly_eval(first.interpolants[t].as_slice(), z);
        let w = rho_pow.mul(z_comp_z);
        add_scaled(&mut l, claim.poly, w);
        subtract_const(&mut l, w.mul(ell_z));
        rho_pow = rho_pow.mul(rho);
        t = t + 1;
    }
    let vt = vanishing_poly(first.union.as_slice());
    let z_t_z = poly_eval(vt.as_slice(), z);
    add_scaled(&mut l, first.quot_m.as_slice(), z_t_z.neg());
    let (quot_l, rem) = divide_by_linear(l.as_slice(), z);
    assert(vals(l@).len() == l@.len());
    if !rem.is_zero() {
        return Err(invalid_prover("BDFG20 L(X) not divisible by (X - z)"));
    }
    proof {
        if l@.len() == 0 {
            assert(vals(quot_l@) =~= vals(l@));
        }
    }
    Ok(BdfgSecondRound { l, quot_l })
}

/// The scalars with which the verifier combines commitments.
pub struct BdfgVerifierCombination {
    pub commit_scalars: Vec<Scalar>,
    pub const_scalar: Scalar,
    pub z_t_z: Scalar,
}

/// The scalar of the commitment to the `t`-th polynomial.
pub open spec fn commit_scalar(
    sets: Seq<Seq<int>>,
    union: Seq<int>,
    rho: int,
    z: int,
    t: int,
) -> int {
    fmul(fpow(rho, t as nat), feval(outside_poly(union, sets[t]), z))
}

/// The constant that the first `n` claims contribute.
pub open spec fn const_term(
    sets: Seq<Seq<int>>,
    values: Seq<Seq<int>>,
    union: Seq<int>,
    rho: int,
    z: int,
    n: int,
) -> int
    decreases n,
{
    if n <= 0 {
        0
    } else {
        fadd(
            const_term(sets, values, union, rho, z, n - 1),
            fmul(
                commit_scalar(sets, union, rho, z, n - 1),
                feval(interp(sets[n - 1], values[n - 1]), z),
            ),
        )
    }
}

/// Whether the sets and the values match, each with at least one point.
pub open spec fn sets_shaped(sets: Seq<Seq<int>>, values: Seq<Seq<int>>) -> bool {
    &&& sets.len() == values.len()
    &&& forall|t: int|
        0 <= t < sets.len() ==> (#[trigger] sets[t]).len() == values[t].len() && sets[t].len() > 0
}

/// What the verifier's combination comes to. It fails where a set of points
/// repeats one or does not match its values.
pub open spec fn is_combination(
    sets: Seq<Seq<int>>,
    values: Seq<Seq<int>>,
    rho: int,
    z: int,
    r: Result<BdfgVerifierCombination, PCSError>,
) -> bool {
    let n = sets.len() as int;
    let u = union_of(sets, n);
    &&& r is Ok <==> all_distinct(sets) && sets_shaped(sets, values)
    &&& r matches Err(e) ==> e is InvalidProof
    &&& r matches Ok(c) ==> {
        &&& c.commit_scalars@.len() == n
        &&& forall|t: int|
            0 <= t < n ==> (#[trigger] c.commit_scalars@[t])@ == commit_scalar(sets, u, rho, z, t)
        &&& c.const_scalar@ == const_term(sets, values, u, rho, z, n)
        &&& c.z_t_z@ == feval(p_vanishing(u, u.len() as int), z)
        &&& forall|t: int| 0 <= t < n ==> nodes_ok(#[trigger] sets[t])
    }
}

/// The verifier's combination, from points and values alone.
pub fn bdfg_verifier_combination(
    point_sets: &[&[Scalar]],
    value_sets: &[&[Scalar]],
    rho: Scalar,
    z: Scalar,
) -> (r: Result<BdfgVerifierCombination, PCSError>)
    requires
        union_of(set_views(point_sets@), point_sets@.len() as int).len() < usize::MAX - 1,
        forall|t: int|
            0 <= t < point_sets@.len() ==> (#[trigger] point_sets@[t])@.len() < usize::MAX - 1,
    ensures
        is_combination(set_views(point_sets@), set_views(value_sets@), rho@, z@, r),
{
    let ghost sets = set_views(point_sets@);
    let ghost values = set_views(value_sets@);
    if point_sets.len() != value_sets.len() {
        return Err(invalid_proof("BDFG20 verifier: points/values count mismatch"));
    }
    let union: Vec<Scalar> = match union_points(point_sets) {
        Ok(u) => u,
        Err(e) => {
            return Err(e);
        },
    };
    let ghost u = union_of(sets, sets.len() as int);
    assert(vals(union@).len() == union@.len());
    let vt = vanishing_poly(union.as_slice());
    let z_t_z = poly_eval(vt.as_slice(), z);
    let mut commit_scalars: Vec<Scalar> = Vec::new();
    let mut const_scalar = Scalar::zero();
    let mut rho_pow = Scalar::one();
    let mut t: usize = 0;
    while t < point_sets.len()
        invariant
            t <= point_sets@.len() == value_sets@.len(),
            sets == set_views(point_sets@),
            values == set_views(value_sets@),
            all_distinct(sets),
            u == vals(union@),
            u.len() < usize::MAX - 1,
            forall|q: int|
                0 <= q < point_sets@.len() ==> (#[trigger] point_sets@[q])@.len() < usize::MAX - 1,
            rho_pow@ == fpow(rho@, t as nat),
            commit_scalars@.len() == t,
            forall|q: int|
                0 <= q < t ==> (#[trigger] commit_scalars@[q])@ == commit_scalar(
                    sets,
                    u,
                    rho@,
                    z@,
                    q,
                ),
            const_scalar@ == const_term(sets, values, u, rho@, z@, t as int),
            forall|q: int|
                0 <= q < t ==> (#[trigger] sets[q]).len() == values[q].len() && sets[q].len() > 0
                    && nodes_ok(sets[q]),
        decreases point_sets@.len() - t,
    {
        let points: &[Scalar] = point_sets[t];
        let vs: &[Scalar] = value_sets[t];
        assert(sets[t as int] == vals(points@) && values[t as int] == vals(vs@));
        assert(vals(union@).len() == union@.len());
        if points.len() != vs.len() {
            assert(sets[t as int].len() != values[t as int].len());
            return Err(invalid_proof("BDFG20 verifier: claim points/values length mismatch"));
        }
        assert(point_sets@[t as int]@.len() < usize::MAX - 1);
        let comp = complement(union.as_slice(), points);
        assert(vals(comp@).len() == comp@.len());
        let vz = vanishing_poly(comp.as_slice());
        let z_comp_z = poly_eval(vz.as_slice(), z);
        let ell: Vec<Scalar> = match lagrange_interpolate(points, vs) {
            Ok(p) => p,
            Err(e) => {
                assert(distinct(sets[t as int]));
                assert(sets[t as int].len() == 0);
                return Err(e);
            },
        };
        let ell_z = poly_eval(ell.as_slice(), z);
        let cs = rho_pow.mul(z_comp_z);
        const_scalar = const_scalar.add(cs.mul(ell_z));
        commit_scalars.push(cs);
        rho_pow = rho_pow.mul(rho);
        t = t + 1;
    }
    Ok(BdfgVerifierCombination { commit_scalars, const_scalar, z_t_z })
}

} // verus!
