//! Where the active-set method starts: the conditioned Hessian factor, the
//! first point and the rows that seed the working set.

use vstd::prelude::*;

use crate::dense::{
    amax, amax_s, dot, dot_s, identity_s, mmul_s, msub_s, mvec_s, norm, norm_s, opt_mat, opt_vec,
    shift_diag_s, tabulate, transpose_s, vcopy, vmin, vmin_s, vscale, vscale_s, vsub, vsub_s,
    vzeros, vzeros_s, Mat, Matrix,
};
use crate::kernels::{lu_vec, lu_vec_s, Backend, DenseKernels};
use crate::qp::{opt_vec_ref, row_dot, row_dot_s, Qp, QpConfig, QpProblem, QpWorkspace, Warm};
use crate::scalar::{lit_s, Arith, Scalar};

verus! {

pub open spec fn diag_s<T>(m: Mat<T>) -> Seq<T> {
    Seq::new(m.nrows(), |i: int| m.at(i, i))
}

pub open spec fn vabs_s<T: Arith>(a: Seq<T>) -> Seq<T> {
    Seq::new(a.len(), |i: int| a[i].abs_s())
}

pub(crate) fn diag<S: Scalar>(m: &Matrix<S>) -> (r: Vec<S>)
    requires
        m@.shaped(m@.nrows(), m@.nrows()),
    ensures
        r@ == diag_s(m@),
{
    let r = tabulate(
        m.nrows(),
        |i: usize| -> (v: S)
            requires
                m@.shaped(m@.nrows(), m@.nrows()),
                i < m@.nrows(),
            ensures
                v == m@.at(i as int, i as int)
            { m.at(i, i) },
    );
    assert(r@ =~= diag_s(m@));
    r
}

pub(crate) fn vabs<S: Scalar>(a: &Vec<S>) -> (r: Vec<S>)
    ensures
        r@ == vabs_s(a@),
{
    let r = tabulate(
        a.len(),
        |i: usize| -> (v: S)
            requires
                i < a@.len(),
            ensures
                v == a@[i as int].abs_s()
            { a[i].magnitude() },
    );
    assert(r@ =~= vabs_s(a@));
    r
}

/// The pivots of the factor `l` spread so far that the Hessian counts as ill
/// conditioned: the smallest is at most `1e-4` times the largest.
pub open spec fn ill_s<T: Arith>(l: Mat<T>) -> bool {
    l.nrows() > 0 && vmin_s(vabs_s(diag_s(l))).le_s(lit_s::<T>(1, -4).mul_s(amax_s(diag_s(l))))
}

/// The ridge for an ill conditioned Hessian: `1e-6` of its largest diagonal
/// entry.
pub open spec fn ridge_s<T: Arith>(h: Mat<T>) -> T {
    lit_s::<T>(1, -6).mul_s(amax_s(diag_s(h)).max_s(lit_s::<T>(1, -12)))
}

/// The factor that the iterations use, and the ridge under it: none for a well
/// conditioned Hessian. Nothing where even the ridged Hessian does not factor.
pub open spec fn prepare_s<T: DenseKernels>(h: Mat<T>) -> Option<(Mat<T>, T)> {
    let plain = T::cholesky_s(h);
    if plain is Some && !ill_s(plain->0) {
        Some((plain->0, T::zero_s()))
    } else {
        match T::cholesky_s(shift_diag_s(h, ridge_s(h))) {
            Some(l) => Some((l, ridge_s(h))),
            None => None,
        }
    }
}

/// The Hessian that the iterations see.
pub open spec fn h_it_s<T: Arith>(h: Mat<T>, ridge: T) -> Mat<T> {
    if T::zero_s().lt_s(ridge) {
        shift_diag_s(h, ridge)
    } else {
        h
    }
}

fn ill<S: Scalar>(l: &Matrix<S>) -> (r: bool)
    requires
        l@.shaped(l@.nrows(), l@.nrows()),
    ensures
        r == ill_s(l@),
{
    if l.nrows() == 0 {
        return false;
    }
    let d = diag(l);
    let hi = amax(&d);
    let lo = vmin(&vabs(&d));
    lo.at_most(S::dec(1, -4).times(hi))
}

pub(crate) fn prepare<S: Backend>(h: &Matrix<S>) -> (r: Option<(Matrix<S>, S)>)
    requires
        h@.shaped(h@.nrows(), h@.nrows()),
    ensures
        match r {
            Some(p) => prepare_s(h@) == Some((p.0@, p.1)) && p.0@.shaped(h@.nrows(), h@.nrows()),
            None => prepare_s(h@) is None,
        },
{
    let plain = S::cholesky(h);
    if let Some(l) = plain {
        if !ill(&l) {
            return Some((l, S::zero()));
        }
    }
    let scale = amax(&diag(h)).larger(S::dec(1, -12));
    let ridge = S::dec(1, -6).times(scale);
    match S::cholesky(&h.shift_diag(ridge)) {
        Some(l) => Some((l, ridge)),
        None => None,
    }
}

/// The residual below which the equalities count as met.
pub open spec fn eq_tol_s<T: Arith>(be: Seq<T>, cfg: QpConfig<T>) -> T {
    cfg.feasibility_tol.mul_s(T::one_s().add_s(norm_s(be).max_s(T::one_s())))
}

/// `x` misses the equalities by more than the tolerance.
pub open spec fn eq_off_s<T: Arith>(q: Qp<T>, x: Seq<T>, cfg: QpConfig<T>) -> bool {
    q.be.len() > 0 && eq_tol_s(q.be, cfg).lt_s(norm_s(vsub_s(mvec_s(q.ae, x), q.be)))
}

fn eq_off<S: Scalar>(q: &QpProblem<S>, x: &Vec<S>, cfg: &QpConfig<S>) -> (r: bool)
    requires
        q@.wf(),
        x@.len() == q@.n(),
    ensures
        r == eq_off_s(q@, x@, *cfg),
{
    if q.be.len() == 0 {
        return false;
    }
    let tol = cfg.feasibility_tol.times(S::one().plus(norm(&q.be).larger(S::one())));
    tol.less_than(norm(&vsub(&q.ae.apply(x), &q.be)))
}

/// `x` breaks inequality `i` by more than the tolerance.
pub open spec fn iq_off_s<T: Arith>(q: Qp<T>, x: Seq<T>, i: int, cfg: QpConfig<T>) -> bool {
    q.bi[i].add_s(cfg.feasibility_tol).lt_s(row_dot_s(q.ai, i, x))
}

/// `x` breaks no inequality by more than the tolerance.
pub open spec fn iq_feasible_s<T: Arith>(q: Qp<T>, x: Seq<T>, cfg: QpConfig<T>) -> bool {
    forall|i: int| 0 <= i < q.bi.len() ==> !#[trigger] iq_off_s(q, x, i, cfg)
}

pub(crate) fn iq_feasible<S: Scalar>(q: &QpProblem<S>, x: &Vec<S>, cfg: &QpConfig<S>) -> (r: bool)
    requires
        q@.wf(),
        x@.len() == q@.n(),
    ensures
        r == iq_feasible_s(q@, x@, *cfg),
{
    let mut i: usize = 0;
    while i < q.bi.len()
        invariant
            q@.wf(),
            x@.len() == q@.n(),
            i <= q.bi@.len(),
            forall|k: int| 0 <= k < i ==> !#[trigger] iq_off_s(q@, x@, k, *cfg),
        decreases q.bi@.len() - i,
    {
        if q.bi[i].plus(cfg.feasibility_tol).less_than(row_dot(&q.ai, i, x)) {
            assert(iq_off_s(q@, x@, i as int, *cfg));
            return false;
        }
        i += 1;
    }
    true
}

/// The start is feasible within tolerance.
pub open spec fn feasible_s<T: Arith>(q: Qp<T>, x: Seq<T>, cfg: QpConfig<T>) -> bool {
    !eq_off_s(q, x, cfg) && iq_feasible_s(q, x, cfg)
}

pub(crate) fn feasible<S: Scalar>(q: &QpProblem<S>, x: &Vec<S>, cfg: &QpConfig<S>) -> (r: bool)
    requires
        q@.wf(),
        x@.len() == q@.n(),
    ensures
        r == feasible_s(q@, x@, *cfg),
{
    !eq_off(q, x, cfg) && iq_feasible(q, x, cfg)
}

/// The projector onto the null space of the equalities.
pub open spec fn projector_s<T: DenseKernels>(ae: Mat<T>) -> Option<Mat<T>> {
    let n = ae.ncols();
    if ae.nrows() == 0 {
        Some(identity_s(n))
    } else {
        match T::lu_solve_s(mmul_s(ae, transpose_s(ae)), identity_s(ae.nrows())) {
            Some(inv) => Some(
                msub_s(identity_s(n), mmul_s(mmul_s(transpose_s(ae), inv), ae)),
            ),
            None => None,
        }
    }
}

fn projector<S: Backend>(ae: &Matrix<S>) -> (r: Option<Matrix<S>>)
    requires
        ae@.wf(),
    ensures
        opt_mat(r) == projector_s(ae@),
        r matches Some(p) ==> p@.shaped(ae@.ncols(), ae@.ncols()),
{
    let n = ae.ncols();
    if ae.nrows() == 0 {
        return Some(Matrix::identity(n));
    }
    let at = ae.transpose();
    match S::lu_solve(&ae.mmul(&at), &Matrix::identity(ae.nrows())) {
        Some(inv) => Some(Matrix::identity(n).msub(&at.mmul(&inv).mmul(ae))),
        None => None,
    }
}

/// The largest `vals[i] - bi[i]` of the first `n`, and the first place where
/// it is reached. Unordered differences are passed over.
pub open spec fn worst_s<T: Arith>(vals: Seq<T>, bi: Seq<T>, n: nat) -> Option<(T, int)>
    decreases n,
{
    if n == 0 {
        None
    } else {
        let v = vals[n - 1].sub_s(bi[n - 1]);
        match worst_s(vals, bi, (n - 1) as nat) {
            None => if v.le_s(v) {
                Some((v, n - 1))
            } else {
                None
            },
            Some(w) => if w.0.lt_s(v) {
                Some((v, n - 1))
            } else {
                Some(w)
            },
        }
    }
}

pub proof fn lemma_worst_range<T: Arith>(vals: Seq<T>, bi: Seq<T>, n: nat)
    ensures
        worst_s(vals, bi, n) matches Some(w) ==> 0 <= w.1 < n,
    decreases n,
{
    if n > 0 {
        lemma_worst_range(vals, bi, (n - 1) as nat);
    }
}

fn worst<S: Scalar>(vals: &Vec<S>, bi: &Vec<S>) -> (r: Option<(S, usize)>)
    requires
        vals@.len() == bi@.len(),
    ensures
        match r {
            Some(w) => worst_s(vals@, bi@, bi@.len()) == Some((w.0, w.1 as int)) && w.1
                < bi@.len(),
            None => worst_s(vals@, bi@, bi@.len()) is None,
        },
{
    let mut best: Option<(S, usize)> = None;
    let mut i: usize = 0;
    while i < bi.len()
        invariant
            vals@.len() == bi@.len(),
            i <= bi@.len(),
            match best {
                Some(w) => worst_s(vals@, bi@, i as nat) == Some((w.0, w.1 as int)) && w.1 < i,
                None => worst_s(vals@, bi@, i as nat) is None,
            },
        decreases bi@.len() - i,
    {
        let v = vals[i].minus(bi[i]);
        match best {
            None => {
                if v.at_most(v) {
                    best = Some((v, i));
                }
            },
            Some(w) => {
                if w.0.less_than(v) {
                    best = Some((v, i));
                }
            },
        }
        i += 1;
    }
    best
}

/// One correction: the worst violated row is projected out along the null
/// space `p`. Answers the moved point, or `Err` with the verdict.
pub open spec fn push_step_s<T: Arith>(
    x: Seq<T>,
    p: Mat<T>,
    ai: Mat<T>,
    bi: Seq<T>,
    cfg: QpConfig<T>,
) -> Result<Seq<T>, bool> {
    match worst_s(mvec_s(ai, x), bi, bi.len()) {
        None => Err(true),
        Some(w) => if w.0.le_s(cfg.feasibility_tol) {
            Err(true)
        } else {
            let a = ai.rows[w.1];
            let pa = mvec_s(p, a);
            let denom = dot_s(a, pa);
            if denom.lt_s(lit_s::<T>(1, -15)) {
                Err(false)
            } else {
                Ok(vsub_s(x, vscale_s(w.0.div_s(denom), pa)))
            }
        },
    }
}

/// At most `k` corrections.
pub open spec fn push_run_s<T: Arith>(
    x: Seq<T>,
    p: Mat<T>,
    ai: Mat<T>,
    bi: Seq<T>,
    cfg: QpConfig<T>,
    k: nat,
) -> (Seq<T>, bool)
    decreases k,
{
    if k == 0 {
        (x, false)
    } else {
        match push_step_s(x, p, ai, bi, cfg) {
            Ok(y) => push_run_s(y, p, ai, bi, cfg, (k - 1) as nat),
            Err(verdict) => (x, verdict),
        }
    }
}

/// `x` moved along the equality null space to reduce its inequality
/// violations, worst first, and whether it ended inside.
pub open spec fn push_into_s<T: DenseKernels>(x: Seq<T>, q: Qp<T>, cfg: QpConfig<T>) -> (
    Seq<T>,
    bool,
) {
    if q.bi.len() == 0 {
        (x, true)
    } else {
        match projector_s(q.ae) {
            None => (x, false),
            Some(p) => push_run_s(x, p, q.ai, q.bi, cfg, 200),
        }
    }
}

/// Reduces inequality violations of `x` by moving along the equality null
/// space: violated rows are projected out one at a time, worst first. Tells
/// whether `x` ended inside the feasible set.
pub fn push_into_iq_feasible<S: Backend>(x: &mut Vec<S>, q: &QpProblem<S>, cfg: &QpConfig<S>) -> (r:
    bool)
    requires
        q@.wf(),
        old(x)@.len() == q@.n(),
    ensures
        (final(x)@, r) == push_into_s(old(x)@, q@, *cfg),
        final(x)@.len() == q@.n(),
{
    if q.bi.len() == 0 {
        return true;
    }
    let p = match projector(&q.ae) {
        Some(p) => p,
        None => {
            return false;
        },
    };
    let ghost goal = push_run_s(x@, p@, q@.ai, q@.bi, *cfg, 200);
    let mut k: usize = 200;
    while k > 0
        invariant
            q@.wf(),
            x@.len() == q@.n(),
            p@.shaped(q@.n(), q@.n()),
            k <= 200,
            push_run_s(x@, p@, q@.ai, q@.bi, *cfg, k as nat) == goal,
            goal == push_into_s(old(x)@, q@, *cfg),
        decreases k,
    {
        let vals = q.ai.apply(x);
        match worst(&vals, &q.bi) {
            None => {
                return true;
            },
            Some(w) => {
                if w.0.at_most(cfg.feasibility_tol) {
                    return true;
                }
                let a = q.ai.row(w.1);
                let pa = p.apply(&a);
                let denom = dot(&a, &pa);
                if denom.less_than(S::dec(1, -15)) {
                    return false;
                }
                *x = vsub(x, &vscale(w.0.over(denom), &pa));
            },
        }
        k -= 1;
    }
    false
}

/// The least-norm point of the equalities, pushed into the inequalities.
pub open spec fn initial_feasible_s<T: DenseKernels>(q: Qp<T>, cfg: QpConfig<T>) -> Seq<T> {
    if q.be.len() == 0 {
        vzeros_s(q.n())
    } else {
        match lu_vec_s(mmul_s(q.ae, transpose_s(q.ae)), q.be) {
            None => vzeros_s(q.n()),
            Some(y) => {
                let x = mvec_s(transpose_s(q.ae), y);
                if iq_feasible_s(q, x, cfg) {
                    x
                } else {
                    push_into_s(x, q, cfg).0
                }
            },
        }
    }
}

/// A first point: zero without equalities, else their least-norm solution,
/// pushed into the inequalities where it breaks one.
pub fn initial_feasible<S: Backend>(q: &QpProblem<S>, cfg: &QpConfig<S>) -> (x: Vec<S>)
    requires
        q@.wf(),
    ensures
        x@ == initial_feasible_s(q@, *cfg),
        x@.len() == q@.n(),
{
    let n = q.c.len();
    if q.be.len() == 0 {
        return vzeros(n);
    }
    let at = q.ae.transpose();
    match lu_vec(&q.ae.mmul(&at), &q.be) {
        None => vzeros(n),
        Some(y) => {
            let mut x = at.apply(&y);
            if !iq_feasible(q, &x, cfg) {
                push_into_iq_feasible(&mut x, q, cfg);
            }
            x
        },
    }
}

/// The cold start: the caller's point, else [`initial_feasible_s`].
pub open spec fn cold_start_s<T: DenseKernels>(
    q: Qp<T>,
    x0: Option<Seq<T>>,
    cfg: QpConfig<T>,
) -> Seq<T> {
    match x0 {
        Some(v) => v,
        None => initial_feasible_s(q, cfg),
    }
}

/// Inequality `i` is tight at `x`.
pub open spec fn tight_s<T: Arith>(q: Qp<T>, x: Seq<T>, i: int, cfg: QpConfig<T>) -> bool {
    row_dot_s(q.ai, i, x).sub_s(q.bi[i]).abs_s().le_s(cfg.feasibility_tol.max_s(lit_s::<T>(1, -12)))
}

/// Those of the first `n` entries of `ws` that are tight at `x`.
pub open spec fn still_tight_s<T: Arith>(
    q: Qp<T>,
    x: Seq<T>,
    ws: Seq<usize>,
    n: nat,
    cfg: QpConfig<T>,
) -> Seq<usize>
    decreases n,
{
    if n == 0 {
        Seq::empty()
    } else {
        let head = still_tight_s(q, x, ws, (n - 1) as nat, cfg);
        if tight_s(q, x, ws[n - 1] as int, cfg) {
            head.push(ws[n - 1])
        } else {
            head
        }
    }
}

/// `x` brought back onto the equalities where it misses them.
pub open spec fn reproject_s<T: DenseKernels>(q: Qp<T>, x: Seq<T>, cfg: QpConfig<T>) -> Option<
    Seq<T>,
> {
    if eq_off_s(q, x, cfg) {
        match lu_vec_s(mmul_s(q.ae, transpose_s(q.ae)), vsub_s(mvec_s(q.ae, x), q.be)) {
            Some(y) => Some(vsub_s(x, mvec_s(transpose_s(q.ae), y))),
            None => None,
        }
    } else {
        Some(x)
    }
}

/// The stored state fits this problem.
pub open spec fn fits_s<T>(q: Qp<T>, w: Warm<T>) -> bool {
    &&& w.x matches Some(px) && px.len() == q.n()
    &&& forall|k: int| 0 <= k < w.working_set.len() ==> #[trigger] w.working_set[k] < q.bi.len()
}

/// The warm start and its seed rows, if the stored state can be used.
pub open spec fn warm_start_s<T: DenseKernels>(
    q: Qp<T>,
    cfg: QpConfig<T>,
    prior: Option<Warm<T>>,
) -> Option<(Seq<T>, Seq<usize>)> {
    match prior {
        None => None,
        Some(w) => if fits_s(q, w) {
            match reproject_s(q, w.x->0, cfg) {
                None => None,
                Some(xw) => {
                    let moved = push_into_s(xw, q, cfg);
                    if moved.1 {
                        Some(
                            (
                                moved.0,
                                still_tight_s(
                                    q,
                                    moved.0,
                                    w.working_set,
                                    w.working_set.len(),
                                    cfg,
                                ),
                            ),
                        )
                    } else {
                        None
                    }
                },
            }
        } else {
            None
        },
    }
}

fn still_tight<S: Scalar>(q: &QpProblem<S>, x: &Vec<S>, ws: &Vec<usize>, cfg: &QpConfig<S>) -> (r:
    Vec<usize>)
    requires
        q@.wf(),
        x@.len() == q@.n(),
        forall|k: int| 0 <= k < ws@.len() ==> #[trigger] ws@[k] < q@.bi.len(),
    ensures
        r@ == still_tight_s(q@, x@, ws@, ws@.len(), *cfg),
        forall|k: int| 0 <= k < r@.len() ==> #[trigger] r@[k] < q@.bi.len(),
{
    let tol = cfg.feasibility_tol.larger(S::dec(1, -12));
    let mut r: Vec<usize> = Vec::new();
    let mut k: usize = 0;
    while k < ws.len()
        invariant
            q@.wf(),
            x@.len() == q@.n(),
            k <= ws@.len(),
            tol == cfg.feasibility_tol.max_s(lit_s::<S>(1, -12)),
            forall|k: int| 0 <= k < ws@.len() ==> #[trigger] ws@[k] < q@.bi.len(),
            r@ == still_tight_s(q@, x@, ws@, k as nat, *cfg),
            forall|k: int| 0 <= k < r@.len() ==> #[trigger] r@[k] < q@.bi.len(),
        decreases ws@.len() - k,
    {
        let i = ws[k];
        if row_dot(&q.ai, i, x).minus(q.bi[i]).magnitude().at_most(tol) {
            r.push(i);
        }
        k += 1;
    }
    r
}

fn all_below(ws: &Vec<usize>, m: usize) -> (r: bool)
    ensures
        r == (forall|k: int| 0 <= k < ws@.len() ==> #[trigger] ws@[k] < m),
{
    let mut k: usize = 0;
    while k < ws.len()
        invariant
            k <= ws@.len(),
            forall|j: int| 0 <= j < k ==> #[trigger] ws@[j] < m,
        decreases ws@.len() - k,
    {
        if ws[k] >= m {
            return false;
        }
        k += 1;
    }
    true
}

fn reproject<S: Backend>(q: &QpProblem<S>, x: &Vec<S>, cfg: &QpConfig<S>) -> (r: Option<Vec<S>>)
    requires
        q@.wf(),
        x@.len() == q@.n(),
    ensures
        opt_vec(r) == reproject_s(q@, x@, *cfg),
        r matches Some(v) ==> v@.len() == q@.n(),
{
    if eq_off(q, x, cfg) {
        let at = q.ae.transpose();
        let r = vsub(&q.ae.apply(x), &q.be);
        match lu_vec(&q.ae.mmul(&at), &r) {
            Some(y) => Some(vsub(x, &at.apply(&y))),
            None => None,
        }
    } else {
        Some(vcopy(x))
    }
}

/// The view of an optional workspace argument.
pub open spec fn opt_warm<S>(w: Option<&QpWorkspace<S>>) -> Option<Warm<S>> {
    match w {
        Some(w) => Some(w@),
        None => None,
    }
}

/// The first point, and the rows that seed the working set where the start is
/// warm.
pub open spec fn start_s<T: DenseKernels>(
    q: Qp<T>,
    x0: Option<Seq<T>>,
    cfg: QpConfig<T>,
    prior: Option<Warm<T>>,
) -> (Seq<T>, Option<Seq<usize>>) {
    match warm_start_s(q, cfg, prior) {
        Some(w) => (w.0, Some(w.1)),
        None => (cold_start_s(q, x0, cfg), None),
    }
}

/// A given first point has the length of the decision variable, unless a warm
/// start makes it unused.
pub open spec fn x0_fits_s<T: DenseKernels>(
    q: Qp<T>,
    x0: Option<Seq<T>>,
    cfg: QpConfig<T>,
    prior: Option<Warm<T>>,
) -> bool {
    x0 matches Some(v) ==> v.len() == q.n() || warm_start_s(q, cfg, prior) is Some
}

fn warm_start<S: Backend>(
    q: &QpProblem<S>,
    cfg: &QpConfig<S>,
    prior: Option<&QpWorkspace<S>>,
) -> (r: Option<(Vec<S>, Vec<usize>)>)
    requires
        q@.wf(),
    ensures
        match r {
            Some(p) => warm_start_s(q@, *cfg, opt_warm(prior)) == Some((p.0@, p.1@)) && p.0@.len()
                == q@.n() && forall|k: int|
                0 <= k < p.1@.len() ==> #[trigger] p.1@[k] < q@.bi.len(),
            None => warm_start_s(q@, *cfg, opt_warm(prior)) is None,
        },
{
    let w = match prior {
        Some(w) => w,
        None => {
            return None;
        },
    };
    let (px, ws) = w.parts();
    let px = match px {
        Some(px) => px,
        None => {
            return None;
        },
    };
    if px.len() != q.c.len() || !all_below(ws, q.bi.len()) {
        return None;
    }
    assert(fits_s(q@, w@));
    match reproject(q, px, cfg) {
        None => None,
        Some(xw) => {
            let mut xw = xw;
            if push_into_iq_feasible(&mut xw, q, cfg) {
                let seed = still_tight(q, &xw, ws, cfg);
                Some((xw, seed))
            } else {
                None
            }
        },
    }
}

/// Chooses the first point: the warm start, else the caller's point, else a
/// cold one.
pub(crate) fn start<S: Backend>(
    q: &QpProblem<S>,
    x0: Option<&Vec<S>>,
    cfg: &QpConfig<S>,
    prior: Option<&QpWorkspace<S>>,
) -> (r: (Vec<S>, Option<Vec<usize>>))
    requires
        q@.wf(),
        x0_fits_s(q@, opt_vec_ref(x0), *cfg, opt_warm(prior)),
    ensures
        (r.0@, opt_vec(r.1)) == start_s(q@, opt_vec_ref(x0), *cfg, opt_warm(prior)),
        r.0@.len() == q@.n(),
        r.1 matches Some(seed) ==> forall|k: int|
            0 <= k < seed@.len() ==> #[trigger] seed@[k] < q@.bi.len(),
{
    match warm_start(q, cfg, prior) {
        Some(w) => (w.0, Some(w.1)),
        None => match x0 {
            Some(v) => (vcopy(v), None),
            None => (initial_feasible(q, cfg), None),
        },
    }
}

/// Inequality `i` is active at `x`.
pub open spec fn near_s<T: Arith>(q: Qp<T>, x: Seq<T>, i: int, cfg: QpConfig<T>) -> bool {
    q.bi[i].sub_s(cfg.feasibility_tol).le_s(row_dot_s(q.ai, i, x))
}

/// The inequalities among the first `n` that are active at `x`, in order.
pub open spec fn active_at_s<T: Arith>(q: Qp<T>, x: Seq<T>, n: nat, cfg: QpConfig<T>) -> Seq<usize>
    decreases n,
{
    if n == 0 {
        Seq::empty()
    } else {
        let head = active_at_s(q, x, (n - 1) as nat, cfg);
        if near_s(q, x, n - 1, cfg) {
            head.push((n - 1) as usize)
        } else {
            head
        }
    }
}

pub(crate) fn active_at<S: Scalar>(q: &QpProblem<S>, x: &Vec<S>, cfg: &QpConfig<S>) -> (r: Vec<
    usize,
>)
    requires
        q@.wf(),
        x@.len() == q@.n(),
    ensures
        r@ == active_at_s(q@, x@, q@.bi.len(), *cfg),
        forall|k: int| 0 <= k < r@.len() ==> #[trigger] r@[k] < q@.bi.len(),
{
    let mut r: Vec<usize> = Vec::new();
    let mut i: usize = 0;
    while i < q.bi.len()
        invariant
            q@.wf(),
            x@.len() == q@.n(),
            i <= q.bi@.len(),
            r@ == active_at_s(q@, x@, i as nat, *cfg),
            forall|k: int| 0 <= k < r@.len() ==> #[trigger] r@[k] < q@.bi.len(),
        decreases q.bi@.len() - i,
    {
        if q.bi[i].minus(cfg.feasibility_tol).at_most(row_dot(&q.ai, i, x)) {
            r.push(i);
        }
        i += 1;
    }
    r
}

} // verus!
