//! Batching of openings of many polynomials at many points.
//!
//! Claims `f_i(p_i) = y_i` are weighted by `eq(t; i)` for a random `t`. The
//! polynomials that are opened at the same point are merged, and a sumcheck
//! over `sum_d g_d(X) eq(X; p_d)` reduces all claims to one at its final point
//! `a`: that of `g' = sum_d eq(a; p_d) g_d`. The sumcheck itself runs between
//! the two stages that stand here.

use crate::bdfg::poly_views;
use crate::dims::{copy_scalars, lemma_pow2_fits, pad_scalars, pow2_usize};
use crate::errors::{invalid_parameters, invalid_proof, PCSError};
use crate::field::{fadd, fmul, fsub, vals, Scalar};
use crate::grid::{combine, combine_scalars};
use crate::group::{logs, G1};
use crate::poly::dot;
use crate::tensor::{build_eq_vec, eq_vec, lemma_p2_step, lemma_p2_zero, p2, Mle};
use crate::transcript::{vector_fits, Entry, IOPTranscript};
use vstd::prelude::*;

verus! {

/// Tables of polynomials.
pub open spec fn tables(polys: Seq<Mle>) -> Seq<Seq<int>> {
    Seq::new(polys.len(), |i: int| polys[i].table())
}

/// The points that occur, each once, in the order of their first occurrence
/// among the first `n`.
pub open spec fn distinct_points(pts: Seq<Seq<int>>, n: int) -> Seq<Seq<int>>
    decreases n,
{
    if n <= 0 {
        Seq::empty()
    } else {
        let d = distinct_points(pts, n - 1);
        if d.contains(pts[n - 1]) {
            d
        } else {
            d.push(pts[n - 1])
        }
    }
}

/// A table of zeros.
pub open spec fn zeros(len: nat) -> Seq<int> {
    Seq::new(len, |i: int| 0int)
}

/// The weighted sum of those of the first `n` tables that are opened at `p`.
pub open spec fn merged(
    polys: Seq<Seq<int>>,
    pts: Seq<Seq<int>>,
    w: Seq<int>,
    p: Seq<int>,
    len: nat,
    n: int,
) -> Seq<int>
    decreases n,
{
    if n <= 0 {
        zeros(len)
    } else if pts[n - 1] == p {
        combine(merged(polys, pts, w, p, len, n - 1), polys[n - 1], w[n - 1])
    } else {
        merged(polys, pts, w, p, len, n - 1)
    }
}

/// The sum of the first `n` tables with coefficients.
pub open spec fn aggregated(ms: Seq<Seq<int>>, e: Seq<int>, len: nat, n: int) -> Seq<int>
    decreases n,
{
    if n <= 0 {
        zeros(len)
    } else {
        combine(aggregated(ms, e, len, n - 1), ms[n - 1], e[n - 1])
    }
}

/// `eq(x; y)` over the first `n` coordinates.
pub open spec fn eq_pair(x: Seq<int>, y: Seq<int>, n: int) -> int
    decreases n,
{
    if n <= 0 {
        1
    } else {
        fmul(
            eq_pair(x, y, n - 1),
            fadd(fmul(x[n - 1], y[n - 1]), fmul(fsub(1, x[n - 1]), fsub(1, y[n - 1]))),
        )
    }
}

/// `eq(a; p)` for each point of a list.
pub open spec fn eq_values(a: Seq<int>, pts: Seq<Seq<int>>) -> Seq<int> {
    Seq::new(pts.len(), |d: int| eq_pair(a, pts[d], a.len() as int))
}

/// Whether `ell` is the least number of bits that tell `k` claims apart.
pub open spec fn is_bits(k: int, ell: int) -> bool {
    0 <= ell && k <= p2(ell) && (ell > 0 ==> p2(ell - 1) < k)
}

/// The history `log` with the first `n` points.
pub open spec fn with_points(log: Seq<Entry>, pts: Seq<Seq<int>>, n: int) -> Seq<Entry>
    decreases n,
{
    if n <= 0 {
        log
    } else {
        with_points(log, pts, n - 1).push(Entry::Fields("eval_point"@, pts[n - 1]))
    }
}

/// The history `log` with the first `n` values.
pub open spec fn with_evals(log: Seq<Entry>, ys: Seq<int>, n: int) -> Seq<Entry>
    decreases n,
{
    if n <= 0 {
        log
    } else {
        with_evals(log, ys, n - 1).push(Entry::Field("eval"@, ys[n - 1]))
    }
}

/// The history `log` with the claims of a batch.
pub open spec fn with_claims(log: Seq<Entry>, pts: Seq<Seq<int>>, ys: Seq<int>) -> Seq<Entry> {
    with_evals(with_points(log, pts, pts.len() as int), ys, ys.len() as int)
}

/// The history `log` with the first `n` challenges.
pub open spec fn with_draws(log: Seq<Entry>, t: Seq<int>, n: int) -> Seq<Entry>
    decreases n,
{
    if n <= 0 {
        log
    } else {
        with_draws(log, t, n - 1).push(Entry::Challenge("t"@, t[n - 1]))
    }
}

/// The history `log` with the claims and the challenges of a batch.
pub open spec fn with_batch(
    log: Seq<Entry>,
    pts: Seq<Seq<int>>,
    ys: Seq<int>,
    t: Seq<int>,
) -> Seq<Entry> {
    with_draws(with_claims(log, pts, ys), t, t.len() as int)
}

/// Whether `w` are the weights of a batch that leads from the history `start`
/// to `end`, for the challenges `t`.
pub open spec fn is_batch(
    start: Seq<Entry>,
    end: Seq<Entry>,
    pts: Seq<Seq<int>>,
    ys: Seq<int>,
    w: Seq<int>,
    t: Seq<int>,
) -> bool {
    &&& is_bits(pts.len() as int, t.len() as int)
    &&& end == with_batch(start, pts, ys, t)
    &&& w == eq_vec(t, t.len() as int)
}

/// Whether `w` are the weights of a batch that leads from the history `start`
/// to `end`, for some challenges.
pub open spec fn batched(
    start: Seq<Entry>,
    end: Seq<Entry>,
    pts: Seq<Seq<int>>,
    ys: Seq<int>,
    w: Seq<int>,
) -> bool {
    exists|t: Seq<int>| #[trigger] is_batch(start, end, pts, ys, w, t)
}

/// `eq(x; y)`; an error where the dimensions differ.
pub fn eq_eval(x: &[Scalar], y: &[Scalar]) -> (r: Result<Scalar, PCSError>)
    ensures
        r is Ok <==> x@.len() == y@.len(),
        r matches Err(e) ==> e is InvalidParameters,
        r matches Ok(v) ==> v@ == eq_pair(vals(x@), vals(y@), x@.len() as int),
{
    if x.len() != y.len() {
        return Err(invalid_parameters("len mismatch"));
    }
    let one = Scalar::one();
    let mut res = Scalar::one();
    let mut i: usize = 0;
    while i < x.len()
        invariant
            i <= x@.len() == y@.len(),
            one@ == 1,
            res@ == eq_pair(vals(x@), vals(y@), i as int),
        decreases x@.len() - i,
    {
        res = res.mul(x[i].mul(y[i]).add(one.sub(x[i]).mul(one.sub(y[i]))));
        i = i + 1;
    }
    Ok(res)
}

/// The least number of bits that tell `k` claims apart.
fn bits_for(k: usize) -> (ell: usize)
    requires
        1 <= k <= p2(usize::BITS - 1),
    ensures
        is_bits(k as int, ell as int),
        ell < usize::BITS,
{
    proof {
        lemma_p2_zero();
    }
    let mut ell: usize = 0;
    let mut size: usize = 1;
    while size < k
        invariant
            ell < usize::BITS,
            1 <= k <= p2(usize::BITS - 1),
            size == p2(ell as int),
            ell > 0 ==> p2(ell - 1) < k,
        decreases usize::BITS - ell,
    {
        proof {
            if ell == usize::BITS - 1 {
                assert(false);
            }
            lemma_p2_step(ell + 1);
            lemma_pow2_fits(ell + 1);
        }
        size = size * 2;
        ell = ell + 1;
    }
    ell
}

/// Whether each of the points fits in a message of a transcript.
pub open spec fn points_fit(points: Seq<Vec<Scalar>>) -> bool {
    forall|i: int|
        0 <= i < points.len() ==> vector_fits((#[trigger] points[i])@.len() as int)
}

/// Appends claims to a transcript.
pub fn append_claims(points: &[Vec<Scalar>], evals: &[Scalar], transcript: &mut IOPTranscript)
    requires
        points_fit(points@),
    ensures
        final(transcript)@ == with_claims(
            old(transcript)@,
            poly_views(points@),
            vals(evals@),
        ),
{
    let ghost start = transcript@;
    let ghost pts = poly_views(points@);
    let ghost ys = vals(evals@);
    let mut i: usize = 0;
    while i < points.len()
        invariant
            i <= points@.len(),
            points_fit(points@),
            pts == poly_views(points@),
            transcript@ == with_points(start, pts, i as int),
        decreases points@.len() - i,
    {
        transcript.append_field_elements("eval_point", points[i].as_slice());
        i = i + 1;
    }
    let ghost log1 = transcript@;
    let mut i: usize = 0;
    while i < evals.len()
        invariant
            i <= evals@.len(),
            ys == vals(evals@),
            transcript@ == with_evals(log1, ys, i as int),
        decreases evals@.len() - i,
    {
        transcript.append_field_element("eval", &evals[i]);
        i = i + 1;
    }
}

/// Draws the challenges of a batch of `k` claims that were appended, and computes
/// the weights of the claims.
fn draw_weights(k: usize, transcript: &mut IOPTranscript) -> (r: (Vec<Scalar>, Ghost<Seq<int>>))
    requires
        1 <= k <= p2(usize::BITS - 1),
    ensures
        r.0@.len() >= k,
        is_bits(k as int, r.1@.len() as int),
        final(transcript)@ == with_draws(old(transcript)@, r.1@, r.1@.len() as int),
        vals(r.0@) == eq_vec(r.1@, r.1@.len() as int),
{
    let ghost log2 = transcript@;
    let ell: usize = bits_for(k);
    let mut t: Vec<Scalar> = Vec::new();
    while t.len() < ell
        invariant
            t@.len() <= ell,
            transcript@ == with_draws(log2, vals(t@), t@.len() as int),
        decreases ell - t@.len(),
    {
        let ghost t0 = vals(t@);
        let c = transcript.get_and_append_challenge("t");
        t.push(c);
        proof {
            lemma_draws_prefix(log2, t0, vals(t@), t0.len() as int);
        }
    }
    let size: usize = pow2_usize(ell);
    let w = build_eq_vec(t.as_slice(), size);
    assert(vals(w@) =~= eq_vec(vals(t@), vals(t@).len() as int));
    (w, Ghost(vals(t@)))
}

/// Appends claims to a transcript, draws the challenges and computes the
/// weights of the claims.
pub fn batch_weights(
    points: &[Vec<Scalar>],
    evals: &[Scalar],
    transcript: &mut IOPTranscript,
) -> (w: Vec<Scalar>)
    requires
        points_fit(points@),
        1 <= points@.len() <= p2(usize::BITS - 1),
    ensures
        w@.len() >= points@.len(),
        batched(
            old(transcript)@,
            final(transcript)@,
            poly_views(points@),
            vals(evals@),
            vals(w@),
        ),
{
    let ghost start = transcript@;
    append_claims(points, evals, transcript);
    let (w, Ghost(t)) = draw_weights(points.len(), transcript);
    proof {
        let pts = poly_views(points@);
        assert(is_batch(start, transcript@, pts, vals(evals@), vals(w@), t));
    }
    w
}

proof fn lemma_draws_prefix(log: Seq<Entry>, a: Seq<int>, b: Seq<int>, n: int)
    requires
        0 <= n <= a.len(),
        a.len() <= b.len(),
        forall|i: int| 0 <= i < a.len() ==> #[trigger] b[i] == a[i],
    ensures
        with_draws(log, a, n) == with_draws(log, b, n),
    decreases n,
{
    if n > 0 {
        lemma_draws_prefix(log, a, b, n - 1);
    }
}

/// Whether two points are the same.
fn same_point(a: &[Scalar], b: &[Scalar]) -> (r: bool)
    ensures
        r == (vals(a@) == vals(b@)),
{
    if a.len() != b.len() {
        assert(vals(a@).len() != vals(b@).len());
        return false;
    }
    let mut i: usize = 0;
    while i < a.len()
        invariant
            i <= a@.len() == b@.len(),
            forall|k: int| 0 <= k < i ==> (#[trigger] a@[k])@ == b@[k]@,
        decreases a@.len() - i,
    {
        if !a[i].equals(&b[i]) {
            assert(vals(a@)[i as int] != vals(b@)[i as int]);
            return false;
        }
        i = i + 1;
    }
    assert(vals(a@) =~= vals(b@));
    true
}

/// The position of a point in a list, or the list's length.
fn position(list: &[Vec<Scalar>], p: &[Scalar]) -> (r: usize)
    ensures
        r <= list@.len(),
        r < list@.len() ==> poly_views(list@)[r as int] == vals(p@),
        r == list@.len() ==> !poly_views(list@).contains(vals(p@)),
{
    let ghost pts = poly_views(list@);
    let mut i: usize = 0;
    while i < list.len()
        invariant
            i <= list@.len(),
            pts == poly_views(list@),
            forall|k: int| 0 <= k < i ==> #[trigger] pts[k] != vals(p@),
        decreases list@.len() - i,
    {
        if same_point(list[i].as_slice(), p) {
            return i;
        }
        assert(pts[i as int] != vals(p@));
        i = i + 1;
    }
    i
}

/// A batch of claims before its sumcheck.
#[derive(Clone, Debug)]
pub struct BatchPlan {
    /// Number of variables.
    pub num_var: usize,
    /// The weights of the claims.
    pub weights: Vec<Scalar>,
    /// The points, each once.
    pub points: Vec<Vec<Scalar>>,
    /// The merged polynomial of each point.
    pub merged: Vec<Mle>,
    /// The eq polynomial of each point.
    pub eqs: Vec<Mle>,
}

impl BatchPlan {
    /// There is one merged polynomial for each point, in as many variables as
    /// the points have coordinates.
    pub open spec fn wf(&self) -> bool {
        &&& self.num_var < usize::BITS
        &&& self.merged@.len() == self.points@.len()
        &&& forall|i: int|
            0 <= i < self.merged@.len() ==> (#[trigger] self.merged@[i]).wf()
                && self.merged@[i].num_vars == self.num_var
        &&& forall|i: int|
            0 <= i < self.points@.len() ==> (#[trigger] self.points@[i])@.len() == self.num_var
    }
}

/// Whether a plan is that of the claims for its weights.
pub open spec fn is_plan(
    plan: &BatchPlan,
    polys: Seq<Seq<int>>,
    pts: Seq<Seq<int>>,
    num_var: int,
) -> bool {
    let d = distinct_points(pts, pts.len() as int);
    let w = vals(plan.weights@);
    &&& plan.num_var == num_var
    &&& poly_views(plan.points@) == d
    &&& plan.merged@.len() == d.len()
    &&& plan.eqs@.len() == d.len()
    &&& forall|i: int|
        0 <= i < d.len() ==> (#[trigger] plan.merged@[i]).wf() && plan.merged@[i].num_vars
            == num_var && plan.merged@[i].table() == merged(
            polys,
            pts,
            w,
            d[i],
            p2(num_var) as nat,
            pts.len() as int,
        )
    &&& forall|i: int|
        0 <= i < d.len() ==> (#[trigger] plan.eqs@[i]).wf() && plan.eqs@[i].num_vars == num_var
            && plan.eqs@[i].table() == eq_vec(d[i], num_var)
}

/// Whether claims fit together for a batch.
pub open spec fn batch_ok(polys: Seq<Mle>, points: Seq<Vec<Scalar>>, evals: Seq<Scalar>) -> bool {
    &&& polys.len() > 0
    &&& polys.len() == points.len()
    &&& polys.len() == evals.len()
    &&& forall|i: int| 0 <= i < polys.len() ==> (#[trigger] polys[i]).num_vars == polys[0].num_vars
    &&& forall|i: int| 0 <= i < points.len() ==> (#[trigger] points[i])@.len() == polys[0].num_vars
}

fn check_batch(polys: &[Mle], points: &[Vec<Scalar>], evals: &[Scalar]) -> (r: Result<
    (),
    PCSError,
>)
    ensures
        r is Ok <==> batch_ok(polys@, points@, evals@),
        r matches Err(e) ==> e is InvalidParameters,
{
    if polys.len() == 0 {
        return Err(invalid_parameters("empty polynomial list"));
    }
    if polys.len() != points.len() || polys.len() != evals.len() {
        return Err(invalid_parameters("length mismatch"));
    }
    let num_var: usize = polys[0].num_vars;
    let mut i: usize = 0;
    while i < polys.len()
        invariant
            i <= polys@.len(),
            0 < polys@.len() == points@.len(),
            polys@.len() == evals@.len(),
            num_var == polys@[0].num_vars,
            forall|k: int| 0 <= k < i ==> (#[trigger] polys@[k]).num_vars == num_var,
        decreases polys@.len() - i,
    {
        if polys[i].num_vars != num_var {
            return Err(invalid_parameters("inconsistent num_vars"));
        }
        i = i + 1;
    }
    let mut i: usize = 0;
    while i < points.len()
        invariant
            i <= points@.len(),
            0 < polys@.len() == points@.len(),
            polys@.len() == evals@.len(),
            num_var == polys@[0].num_vars,
            forall|k: int| 0 <= k < polys@.len() ==> (#[trigger] polys@[k]).num_vars == num_var,
            forall|k: int| 0 <= k < i ==> (#[trigger] points@[k])@.len() == num_var,
        decreases points@.len() - i,
    {
        if points[i].len() != num_var {
            return Err(invalid_parameters("point length mismatch"));
        }
        i = i + 1;
    }
    Ok(())
}

/// The points of a list, each once.
fn dedup_points(points: &[Vec<Scalar>]) -> (r: Vec<Vec<Scalar>>)
    ensures
        poly_views(r@) == distinct_points(poly_views(points@), points@.len() as int),
{
    let ghost pts = poly_views(points@);
    let mut r: Vec<Vec<Scalar>> = Vec::new();
    let mut i: usize = 0;
    assert(poly_views(r@) =~= distinct_points(pts, 0));
    while i < points.len()
        invariant
            i <= points@.len(),
            pts == poly_views(points@),
            poly_views(r@) == distinct_points(pts, i as int),
        decreases points@.len() - i,
    {
        let at: usize = position(r.as_slice(), points[i].as_slice());
        let ghost before = poly_views(r@);
        if at == r.len() {
            r.push(copy_scalars(points[i].as_slice()));
            assert(poly_views(r@) =~= before.push(pts[i as int]));
        } else {
            assert(before[at as int] == pts[i as int]);
        }
        i = i + 1;
    }
    r
}

/// The weighted sum of the tables that are opened at `p`.
fn merge_at(polys: &[Mle], points: &[Vec<Scalar>], w: &[Scalar], p: &[Scalar], len: usize) -> (r:
    Vec<Scalar>)
    requires
        polys@.len() == points@.len(),
        polys@.len() <= w@.len(),
        forall|i: int| 0 <= i < polys@.len() ==> (#[trigger] polys@[i]).evaluations@.len() == len,
    ensures
        r@.len() == len,
        vals(r@) == merged(
            tables(polys@),
            poly_views(points@),
            vals(w@),
            vals(p@),
            len as nat,
            polys@.len() as int,
        ),
{
    let ghost fs = tables(polys@);
    let ghost pts = poly_views(points@);
    let none: Vec<Scalar> = Vec::new();
    let mut r = pad_scalars(none.as_slice(), len);
    assert(vals(r@) =~= zeros(len as nat));
    let mut i: usize = 0;
    while i < polys.len()
        invariant
            i <= polys@.len() == points@.len(),
            polys@.len() <= w@.len(),
            fs == tables(polys@),
            pts == poly_views(points@),
            forall|k: int|
                0 <= k < polys@.len() ==> (#[trigger] polys@[k]).evaluations@.len() == len,
            r@.len() == len,
            vals(r@) == merged(fs, pts, vals(w@), vals(p@), len as nat, i as int),
        decreases polys@.len() - i,
    {
        if same_point(points[i].as_slice(), p) {
            r = combine_scalars(r.as_slice(), polys[i].evaluations.as_slice(), w[i]);
        }
        i = i + 1;
    }
    r
}

/// The first stage of a batched opening: checks the claims, appends them to the
/// transcript, and merges the polynomials that are opened at the same point.
pub fn plan_batch(
    polys: &[Mle],
    points: &[Vec<Scalar>],
    evals: &[Scalar],
    transcript: &mut IOPTranscript,
) -> (r: Result<BatchPlan, PCSError>)
    requires
        polys@.len() <= p2(usize::BITS - 1),
        forall|i: int| 0 <= i < polys@.len() ==> (#[trigger] polys@[i]).wf(),
    ensures
        r is Ok <==> batch_ok(polys@, points@, evals@),
        r matches Err(e) ==> e is InvalidParameters && final(transcript)@ == old(transcript)@,
        r matches Ok(plan) ==> {
            &&& plan.wf()
            &&& plan.weights@.len() >= polys@.len()
            &&& is_plan(
                &plan,
                tables(polys@),
                poly_views(points@),
                polys@[0].num_vars as int,
            )
            &&& batched(
                    old(transcript)@,
                    final(transcript)@,
                    poly_views(points@),
                    vals(evals@),
                    vals(plan.weights@),
                )
        },
{
    check_batch(polys, points, evals)?;
    let num_var: usize = polys[0].num_vars;
    assert(polys@[0].wf());
    let len: usize = pow2_usize(num_var);
    let weights = batch_weights(points, evals, transcript);
    let distinct = dedup_points(points);
    let ghost d = distinct_points(poly_views(points@), points@.len() as int);
    proof {
        assert(poly_views(distinct@).len() == distinct@.len());
        lemma_distinct_members(poly_views(points@), points@.len() as int, num_var as int);
    }
    let mut merged_polys: Vec<Mle> = Vec::new();
    let mut eqs: Vec<Mle> = Vec::new();
    let mut i: usize = 0;
    while i < distinct.len()
        invariant
            i <= distinct@.len(),
            d == poly_views(distinct@),
            d.len() == distinct@.len(),
            polys@.len() == points@.len(),
            polys@.len() <= weights@.len(),
            num_var < usize::BITS,
            len == p2(num_var as int),
            forall|k: int| 0 <= k < d.len() ==> (#[trigger] d[k]).len() == num_var,
            forall|k: int|
                0 <= k < polys@.len() ==> (#[trigger] polys@[k]).wf() && polys@[k].num_vars
                    == num_var,
            merged_polys@.len() == i,
            eqs@.len() == i,
            forall|k: int|
                0 <= k < i ==> (#[trigger] merged_polys@[k]).wf() && merged_polys@[k].num_vars
                    == num_var && merged_polys@[k].table() == merged(
                    tables(polys@),
                    poly_views(points@),
                    vals(weights@),
                    d[k],
                    p2(num_var as int) as nat,
                    points@.len() as int,
                ),
            forall|k: int|
                0 <= k < i ==> (#[trigger] eqs@[k]).wf() && eqs@[k].num_vars == num_var
                    && eqs@[k].table() == eq_vec(d[k], num_var as int),
        decreases distinct@.len() - i,
    {
        assert(d[i as int] == vals(distinct@[i as int]@));
        let table = merge_at(
            polys,
            points,
            weights.as_slice(),
            distinct[i].as_slice(),
            len,
        );
        merged_polys.push(Mle::from_evaluations_vec(num_var, table));
        let eq = build_eq_vec(distinct[i].as_slice(), len);
        assert(vals(eq@) =~= eq_vec(d[i as int], num_var as int));
        eqs.push(Mle::from_evaluations_vec(num_var, eq));
        i = i + 1;
    }
    let plan = BatchPlan { num_var, weights, points: distinct, merged: merged_polys, eqs };
    assert(plan.wf()) by {
        assert forall|k: int| 0 <= k < plan.points@.len() implies (#[trigger] plan.points@[k])@.len()
            == num_var by {
            assert(d[k].len() == num_var);
        }
    }
    assert(is_plan(&plan, tables(polys@), poly_views(points@), num_var as int));
    Ok(plan)
}

/// The distinct points have the dimension of the points, each occurs once, and
/// every point is among them.
pub proof fn lemma_distinct_members(pts: Seq<Seq<int>>, n: int, m: int)
    requires
        0 <= n <= pts.len(),
        forall|i: int| 0 <= i < n ==> (#[trigger] pts[i]).len() == m,
    ensures
        forall|k: int|
            0 <= k < distinct_points(pts, n).len() ==> (#[trigger] distinct_points(
                pts,
                n,
            )[k]).len() == m,
        distinct_points(pts, n).no_duplicates(),
        forall|i: int| 0 <= i < n ==> distinct_points(pts, n).contains(#[trigger] pts[i]),
    decreases n,
{
    if n > 0 {
        lemma_distinct_members(pts, n - 1, m);
        let d = distinct_points(pts, n - 1);
        let e = distinct_points(pts, n);
        assert forall|i: int| 0 <= i < n implies e.contains(#[trigger] pts[i]) by {
            if i < n - 1 {
                assert(d.contains(pts[i]));
                let k = choose|k: int| 0 <= k < d.len() && d[k] == pts[i];
                assert(e[k] == pts[i]);
            } else if !d.contains(pts[i]) {
                assert(e[d.len() as int] == pts[i]);
            }
        }
    }
}

/// Whether a polynomial aggregates those of a batch for the final point of the
/// sumcheck.
pub open spec fn is_aggregate(plan: &BatchPlan, a: Seq<Scalar>, g: &Mle) -> bool {
    &&& g.wf()
    &&& g.num_vars == plan.num_var
    &&& g.table() == aggregated(
        tables(plan.merged@),
        eq_values(vals(a), poly_views(plan.points@)),
        p2(plan.num_var as int) as nat,
        plan.merged@.len() as int,
    )
}

/// The second stage of a batched opening: `g'` for the final point of the
/// sumcheck.
pub fn aggregate(plan: &BatchPlan, a2: &[Scalar]) -> (r: Result<Mle, PCSError>)
    requires
        plan.wf(),
        a2@.len() == plan.num_var,
    ensures
        r matches Ok(g) && g.wf() && g.num_vars == plan.num_var && g.table() == aggregated(
            tables(plan.merged@),
            eq_values(vals(a2@), poly_views(plan.points@)),
            p2(plan.num_var as int) as nat,
            plan.merged@.len() as int,
        ),
{
    let ghost ms = tables(plan.merged@);
    let ghost e = eq_values(vals(a2@), poly_views(plan.points@));
    let len: usize = pow2_usize(plan.num_var);
    let none: Vec<Scalar> = Vec::new();
    let mut g = pad_scalars(none.as_slice(), len);
    assert(vals(g@) =~= zeros(len as nat));
    let mut i: usize = 0;
    while i < plan.merged.len()
        invariant
            i <= plan.merged@.len() == plan.points@.len(),
            plan.wf(),
            len == p2(plan.num_var as int),
            ms == tables(plan.merged@),
            e == eq_values(vals(a2@), poly_views(plan.points@)),
            a2@.len() == plan.num_var,
            g@.len() == len,
            vals(g@) == aggregated(ms, e, len as nat, i as int),
        decreases plan.merged@.len() - i,
    {
        assert(plan.points@[i as int]@.len() == plan.num_var);
        assert(plan.merged@[i as int].wf());
        let eq = eq_eval(a2, plan.points[i].as_slice())?;
        assert(eq@ == e[i as int]);
        g = combine_scalars(g.as_slice(), plan.merged[i].evaluations.as_slice(), eq);
        i = i + 1;
    }
    Ok(Mle::from_evaluations_vec(plan.num_var, g))
}

/// The weighted sum of the claimed values, over the first `n` claims.
pub open spec fn weighted_sum(w: Seq<int>, ys: Seq<int>, n: int) -> int {
    dot(w, ys, n)
}

/// The claim that the sumcheck of a batch has to prove.
#[derive(Clone, Debug)]
pub struct BatchClaim {
    pub weights: Vec<Scalar>,
    pub sum: Scalar,
}

/// Whether the parts of a batch proof fit together.
pub open spec fn claims_ok(
    coms: Seq<G1>,
    points: Seq<Vec<Scalar>>,
    evals: Seq<Scalar>,
    num_var: int,
) -> bool {
    &&& coms.len() > 0
    &&& coms.len() == points.len()
    &&& coms.len() == evals.len()
    &&& forall|i: int| 0 <= i < points.len() ==> (#[trigger] points[i])@.len() == num_var
}

/// The first stage of a batched verification: checks the claims, appends them
/// to the transcript, and computes the sum that the sumcheck has to prove.
pub fn claim_batch(
    coms: &[G1],
    points: &[Vec<Scalar>],
    evals: &[Scalar],
    num_var: usize,
    transcript: &mut IOPTranscript,
) -> (r: Result<BatchClaim, PCSError>)
    requires
        vector_fits(num_var as int),
        coms@.len() <= p2(usize::BITS - 1),
    ensures
        r is Ok <==> claims_ok(coms@, points@, evals@, num_var as int),
        r matches Err(e) ==> e is InvalidProof && final(transcript)@ == old(transcript)@,
        r matches Ok(c) ==> {
            &&& c.weights@.len() >= coms@.len()
            &&& c.sum@ == weighted_sum(vals(c.weights@), vals(evals@), evals@.len() as int)
            &&& batched(
                    old(transcript)@,
                    final(transcript)@,
                    poly_views(points@),
                    vals(evals@),
                    vals(c.weights@),
                )
        },
{
    if coms.len() == 0 {
        return Err(invalid_proof("empty commitments"));
    }
    if coms.len() != points.len() || coms.len() != evals.len() {
        return Err(invalid_proof("length mismatch"));
    }
    check_points(points, num_var)?;
    let weights = batch_weights(points, evals, transcript);
    let sum = claimed_sum(weights.as_slice(), evals);
    Ok(BatchClaim { weights, sum })
}

/// The weighted sum of the claimed values.
fn claimed_sum(weights: &[Scalar], evals: &[Scalar]) -> (sum: Scalar)
    requires
        evals@.len() <= weights@.len(),
    ensures
        sum@ == weighted_sum(vals(weights@), vals(evals@), evals@.len() as int),
{
    let mut sum = Scalar::zero();
    let mut i: usize = 0;
    while i < evals.len()
        invariant
            i <= evals@.len() <= weights@.len(),
            sum@ == dot(vals(weights@), vals(evals@), i as int),
        decreases evals@.len() - i,
    {
        sum = sum.add(weights[i].mul(evals[i]));
        i = i + 1;
    }
    sum
}

/// Rejects points that do not have the given dimension.
fn check_points(points: &[Vec<Scalar>], num_var: usize) -> (r: Result<(), PCSError>)
    ensures
        r is Ok <==> forall|i: int|
            0 <= i < points@.len() ==> (#[trigger] points@[i])@.len() == num_var,
        r matches Err(e) ==> e is InvalidProof,
{
    let mut i: usize = 0;
    while i < points.len()
        invariant
            i <= points@.len(),
            forall|k: int| 0 <= k < i ==> (#[trigger] points@[k])@.len() == num_var,
        decreases points@.len() - i,
    {
        if points[i].len() != num_var {
            return Err(invalid_proof("point length mismatch"));
        }
        i = i + 1;
    }
    Ok(())
}

/// Whether there is a commitment and a value for each of the points, and any.
pub open spec fn counts_ok(coms: Seq<G1>, points: Seq<Vec<Scalar>>, evals: Seq<Scalar>) -> bool {
    coms.len() > 0 && coms.len() == points.len() && coms.len() == evals.len()
}

/// As [`claim_batch`], but the claims are appended before the dimensions of the
/// points are checked.
pub fn append_and_claim_batch(
    coms: &[G1],
    points: &[Vec<Scalar>],
    evals: &[Scalar],
    num_var: usize,
    transcript: &mut IOPTranscript,
) -> (r: Result<BatchClaim, PCSError>)
    requires
        points_fit(points@),
        coms@.len() <= p2(usize::BITS - 1),
    ensures
        r is Ok <==> claims_ok(coms@, points@, evals@, num_var as int),
        r matches Err(e) ==> e is InvalidProof && final(transcript)@ == if counts_ok(
            coms@,
            points@,
            evals@,
        ) {
            with_claims(old(transcript)@, poly_views(points@), vals(evals@))
        } else {
            old(transcript)@
        },
        r matches Ok(c) ==> {
            &&& c.weights@.len() >= coms@.len()
            &&& c.sum@ == weighted_sum(vals(c.weights@), vals(evals@), evals@.len() as int)
            &&& batched(
                old(transcript)@,
                final(transcript)@,
                poly_views(points@),
                vals(evals@),
                vals(c.weights@),
            )
        },
{
    if coms.len() == 0 {
        return Err(invalid_proof("empty commitments"));
    }
    if coms.len() != points.len() || coms.len() != evals.len() {
        return Err(invalid_proof("length mismatch"));
    }
    let ghost start = transcript@;
    append_claims(points, evals, transcript);
    check_points(points, num_var)?;
    let (weights, Ghost(t)) = draw_weights(points.len(), transcript);
    proof {
        let pts = poly_views(points@);
        assert(is_batch(start, transcript@, pts, vals(evals@), vals(weights@), t));
    }
    let sum = claimed_sum(weights.as_slice(), evals);
    Ok(BatchClaim { weights, sum })
}

/// The coefficients of the commitments in that to `g'`.
pub open spec fn aggregate_scalars(w: Seq<int>, a: Seq<int>, pts: Seq<Seq<int>>) -> Seq<int> {
    Seq::new(pts.len(), |i: int| fmul(eq_pair(a, pts[i], a.len() as int), w[i]))
}

/// The second stage of a batched verification: the commitment to `g'` for the
/// final point of the sumcheck.
pub fn aggregate_commitments(
    coms: &[G1],
    points: &[Vec<Scalar>],
    weights: &[Scalar],
    a2: &[Scalar],
) -> (r: Result<G1, PCSError>)
    requires
        coms@.len() == points@.len(),
        points@.len() <= weights@.len(),
        forall|i: int| 0 <= i < points@.len() ==> (#[trigger] points@[i])@.len() == a2@.len(),
    ensures
        r matches Ok(c) && c@ == dot(
            logs(coms@),
            aggregate_scalars(vals(weights@), vals(a2@), poly_views(points@)),
            coms@.len() as int,
        ),
{
    let ghost want = aggregate_scalars(vals(weights@), vals(a2@), poly_views(points@));
    let mut scalars: Vec<Scalar> = Vec::new();
    let mut i: usize = 0;
    while i < points.len()
        invariant
            i <= points@.len() <= weights@.len(),
            want == aggregate_scalars(vals(weights@), vals(a2@), poly_views(points@)),
            forall|k: int|
                0 <= k < points@.len() ==> (#[trigger] points@[k])@.len() == a2@.len(),
            scalars@.len() == i,
            forall|k: int| 0 <= k < i ==> (#[trigger] scalars@[k])@ == want[k],
        decreases points@.len() - i,
    {
        assert(points@[i as int]@.len() == a2@.len());
        let eq = eq_eval(a2, points[i].as_slice())?;
        scalars.push(eq.mul(weights[i]));
        i = i + 1;
    }
    assert(vals(scalars@) =~= want);
    Ok(G1::msm(coms, scalars.as_slice()))
}

} // verus!
