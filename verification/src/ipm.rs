//! The built-in primal-dual interior-point solver: Mehrotra's
//! predictor-corrector method.
//!
//! A slack `s >= 0` turns the inequalities into `A_iq x + s = b_iq`. Each
//! iteration takes an affine step to measure the reachable reduction of the
//! duality gap, derives the centering parameter from it, and solves once more
//! with the corrected target.

use vstd::prelude::*;

use crate::dense::{
    dot, dot_s, madd_s, mmul_s, mvec_s, norm, norm_s, shift_diag_s, tabulate, transpose_s, vadd,
    vadd_s, vfill, vfill_s, vneg, vneg_s, vscale, vscale_s, vsub, vsub_s, vzeros, vzeros_s, Mat,
    Matrix,
};
use crate::kernels::{lu_vec, lu_vec_s, Backend, DenseKernels};
use crate::qp::{make_sol, make_sol_s, Qp, QpConfig, QpProblem, QpSolution, QpStatus, Sol};
use crate::scalar::{clamp, clamp_s, lit_s, Arith, Scalar};
use crate::triangular::{chol_solve, chol_solve_mat, chol_solve_mat_s, chol_solve_s};

verus! {

/// `A' diag(w) A`.
pub open spec fn weighted_normal_eq_s<T: Arith>(a: Mat<T>, w: Seq<T>) -> Mat<T> {
    mmul_s(
        transpose_s(a),
        Mat::build(a.nrows(), a.ncols(), |i: int, j: int| a.at(i, j).mul_s(w[i])),
    )
}

/// `A' diag(w) A`, the barrier's part of the Hessian.
pub fn weighted_normal_eq<S: Scalar>(a: &Matrix<S>, w: &Vec<S>) -> (r: Matrix<S>)
    requires
        a@.shaped(w@.len(), a@.ncols()),
    ensures
        r@ == weighted_normal_eq_s(a@, w@),
        r@.shaped(a@.ncols(), a@.ncols()),
{
    let scaled = Matrix::tabulate(
        a.nrows(),
        a.ncols(),
        |i: usize, j: usize| -> (v: S)
            requires
                a@.shaped(w@.len(), a@.ncols()),
                i < a@.nrows(),
                j < a@.ncols(),
            ensures
                v == a@.at(i as int, j as int).mul_s(w@[i as int])
            { a.at(i, j).times(w[i]) },
    );
    proof {
        crate::dense::lemma_mat_eq(
            scaled@,
            Mat::build(a@.nrows(), a@.ncols(), |i: int, j: int| a@.at(i, j).mul_s(w@[i])),
        );
    }
    a.transpose().mmul(&scaled)
}

/// The factor of `h`, or of `h + 1e-10 * I` where `h` itself does not factor.
pub open spec fn kkt_factor_s<T: DenseKernels>(h: Mat<T>) -> Option<Mat<T>> {
    match T::cholesky_s(h) {
        Some(l) => Some(l),
        None => T::cholesky_s(shift_diag_s(h, lit_s::<T>(1, -10))),
    }
}

/// The solution of `[H A'; A 0] [dx; dy] = [rx; ry]` through the factor of `H`
/// and a Schur complement on the equalities.
pub open spec fn reduced_kkt_s<T: DenseKernels>(
    h: Mat<T>,
    ae: Mat<T>,
    rx: Seq<T>,
    ry: Seq<T>,
) -> Option<(Seq<T>, Seq<T>)> {
    match kkt_factor_s(h) {
        None => None,
        Some(l) => {
            let hr = chol_solve_s(l.rows, rx);
            if ae.nrows() == 0 {
                Some((hr, Seq::empty()))
            } else {
                let hat = chol_solve_mat_s(l.rows, transpose_s(ae));
                match lu_vec_s(mmul_s(ae, hat), vsub_s(mvec_s(ae, hr), ry)) {
                    Some(dy) => Some((vsub_s(hr, mvec_s(hat, dy)), dy)),
                    None => None,
                }
            }
        },
    }
}

/// Solves the reduced (equality-only) KKT system.
pub fn solve_reduced_kkt<S: Backend>(h: &Matrix<S>, ae: &Matrix<S>, rx: &Vec<S>, ry: &Vec<S>) -> (r:
    Option<(Vec<S>, Vec<S>)>)
    requires
        h@.shaped(rx@.len(), rx@.len()),
        ae@.shaped(ry@.len(), rx@.len()),
    ensures
        match r {
            Some(d) => reduced_kkt_s(h@, ae@, rx@, ry@) == Some((d.0@, d.1@)) && d.0@.len()
                == rx@.len() && d.1@.len() == ry@.len(),
            None => reduced_kkt_s(h@, ae@, rx@, ry@) is None,
        },
{
    let l = match S::cholesky(h) {
        Some(l) => l,
        None => match S::cholesky(&h.shift_diag(S::dec(1, -10))) {
            Some(l) => l,
            None => {
                return None;
            },
        },
    };
    let hr = chol_solve(l.rows_ref(), rx);
    if ae.nrows() == 0 {
        let none: Vec<S> = Vec::new();
        assert(none@ =~= Seq::<S>::empty());
        return Some((hr, none));
    }
    let hat = chol_solve_mat(l.rows_ref(), &ae.transpose());
    let rhs = vsub(&ae.apply(&hr), ry);
    match lu_vec(&ae.mmul(&hat), &rhs) {
        Some(dy) => Some((vsub(&hr, &hat.apply(&dy)), dy)),
        None => None,
    }
}

/// The bound that the first `n` entries put on a step along `dv`, at most one.
pub open spec fn boundary_s<T: Arith>(v: Seq<T>, dv: Seq<T>, tau: T, n: nat) -> T
    decreases n,
{
    if n == 0 {
        T::one_s()
    } else {
        let head = boundary_s(v, dv, tau, (n - 1) as nat);
        if dv[n - 1].lt_s(T::zero_s()) {
            head.min_s(tau.neg_s().mul_s(v[n - 1]).div_s(dv[n - 1]))
        } else {
            head
        }
    }
}

pub open spec fn fraction_to_boundary_s<T: Arith>(v: Seq<T>, dv: Seq<T>, tau: T) -> T {
    clamp_s(boundary_s(v, dv, tau, v.len()), T::zero_s(), T::one_s())
}

/// The largest step of at most one along `dv` that keeps every entry of `v` at
/// `(1 - tau)` of its value or above.
pub fn fraction_to_boundary<S: Scalar>(v: &Vec<S>, dv: &Vec<S>, tau: S) -> (alpha: S)
    requires
        v@.len() == dv@.len(),
    ensures
        alpha == fraction_to_boundary_s(v@, dv@, tau),
{
    let mut alpha = S::one();
    let mut i: usize = 0;
    while i < v.len()
        invariant
            v@.len() == dv@.len(),
            i <= v@.len(),
            alpha == boundary_s(v@, dv@, tau, i as nat),
        decreases v@.len() - i,
    {
        if dv[i].less_than(S::zero()) {
            alpha = alpha.smaller(tau.negated().times(v[i]).over(dv[i]));
        }
        i += 1;
    }
    clamp(alpha, S::zero(), S::one())
}

/// The iterate: point, slacks, and multipliers of inequalities and equalities.
#[verifier::ext_equal]
pub struct IpmState<T> {
    pub x: Seq<T>,
    pub s: Seq<T>,
    pub z: Seq<T>,
    pub y: Seq<T>,
}

impl<T> IpmState<T> {
    pub open spec fn wf(self, q: Qp<T>) -> bool {
        &&& self.x.len() == q.n()
        &&& self.s.len() == q.bi.len()
        &&& self.z.len() == q.bi.len()
        &&& self.y.len() == q.be.len()
    }
}

/// Gradient of the Lagrangian.
pub open spec fn r_stat_s<T: Arith>(q: Qp<T>, st: IpmState<T>) -> Seq<T> {
    vadd_s(
        vadd_s(
            vadd_s(mvec_s(q.h, st.x), q.c),
            mvec_s(transpose_s(q.ae), st.y),
        ),
        mvec_s(transpose_s(q.ai), st.z),
    )
}

pub open spec fn r_eq_s<T: Arith>(q: Qp<T>, st: IpmState<T>) -> Seq<T> {
    vsub_s(mvec_s(q.ae, st.x), q.be)
}

pub open spec fn r_iq_s<T: Arith>(q: Qp<T>, st: IpmState<T>) -> Seq<T> {
    vsub_s(vadd_s(mvec_s(q.ai, st.x), st.s), q.bi)
}

/// The barrier parameter: the mean complementarity.
pub open spec fn mu_s<T: Arith>(s: Seq<T>, z: Seq<T>) -> T {
    if s.len() == 0 {
        T::zero_s()
    } else {
        dot_s(s, z).div_s(T::nat_s(s.len() as usize))
    }
}

pub open spec fn ipm_done_s<T: Arith>(q: Qp<T>, st: IpmState<T>, cfg: QpConfig<T>) -> bool {
    let scale = T::one_s().add_s(norm_s(q.c));
    &&& norm_s(r_stat_s(q, st)).lt_s(cfg.optimality_tol.mul_s(scale))
    &&& norm_s(r_eq_s(q, st)).lt_s(cfg.feasibility_tol.mul_s(scale))
    &&& norm_s(r_iq_s(q, st)).lt_s(cfg.feasibility_tol.mul_s(scale))
    &&& mu_s(st.s, st.z).lt_s(cfg.optimality_tol)
}

/// The Newton step towards the complementarity target `t`.
#[verifier::ext_equal]
pub struct IpmStep<T> {
    pub dx: Seq<T>,
    pub dy: Seq<T>,
    pub ds: Seq<T>,
    pub dz: Seq<T>,
}

pub open spec fn ratio_s<T: Arith>(st: IpmState<T>) -> Seq<T> {
    Seq::new(st.s.len(), |i: int| st.z[i].div_s(st.s[i]))
}

pub open spec fn newton_s<T: DenseKernels>(q: Qp<T>, st: IpmState<T>, t: Seq<T>) -> Option<
    IpmStep<T>,
> {
    let zs = ratio_s(st);
    let r_iq = r_iq_s(q, st);
    let h_bar = madd_s(q.h, weighted_normal_eq_s(q.ai, zs));
    let inner = Seq::new(
        st.s.len(),
        |i: int| zs[i].mul_s(r_iq[i]).add_s(t[i].div_s(st.s[i])),
    );
    let rx = vsub_s(vneg_s(r_stat_s(q, st)), mvec_s(transpose_s(q.ai), inner));
    match reduced_kkt_s(h_bar, q.ae, rx, vneg_s(r_eq_s(q, st))) {
        None => None,
        Some(d) => {
            let ds = vsub_s(vneg_s(r_iq), mvec_s(q.ai, d.0));
            Some(
                IpmStep {
                    dx: d.0,
                    dy: d.1,
                    ds,
                    dz: Seq::new(
                        st.s.len(),
                        |i: int| t[i].div_s(st.s[i]).sub_s(zs[i].mul_s(ds[i])),
                    ),
                },
            )
        },
    }
}

/// The predictor's target drives the complementarity to zero.
pub open spec fn t_aff_s<T: Arith>(st: IpmState<T>) -> Seq<T> {
    Seq::new(st.s.len(), |i: int| st.s[i].mul_s(st.z[i]).neg_s())
}

/// Mehrotra's centering parameter after the predictor step.
pub open spec fn sigma_s<T: Arith>(st: IpmState<T>, aff: IpmStep<T>) -> T {
    let mu = mu_s(st.s, st.z);
    let s_aff = vadd_s(
        st.s,
        vscale_s(fraction_to_boundary_s(st.s, aff.ds, T::one_s()), aff.ds),
    );
    let z_aff = vadd_s(
        st.z,
        vscale_s(fraction_to_boundary_s(st.z, aff.dz, T::one_s()), aff.dz),
    );
    if lit_s::<T>(1, -14).lt_s(mu) {
        let ratio = mu_s(s_aff, z_aff).div_s(mu);
        clamp_s(ratio.mul_s(ratio).mul_s(ratio), T::zero_s(), T::one_s())
    } else {
        T::zero_s()
    }
}

/// The corrector's target: centered, less the predictor's second-order term.
pub open spec fn t_cor_s<T: Arith>(st: IpmState<T>, aff: IpmStep<T>) -> Seq<T> {
    let sigma_mu = sigma_s(st, aff).mul_s(mu_s(st.s, st.z));
    Seq::new(
        st.s.len(),
        |i: int|
            st.s[i].mul_s(st.z[i]).neg_s().add_s(sigma_mu).sub_s(aff.ds[i].mul_s(aff.dz[i])),
    )
}

/// The iterate after a step of the fraction-to-boundary length, margin
/// `tau = 0.995`.
pub open spec fn ipm_move_s<T: Arith>(st: IpmState<T>, d: IpmStep<T>) -> IpmState<T> {
    let tau = lit_s::<T>(995, -3);
    let ap = fraction_to_boundary_s(st.s, d.ds, tau);
    let ad = fraction_to_boundary_s(st.z, d.dz, tau);
    IpmState {
        x: vadd_s(st.x, vscale_s(ap, d.dx)),
        s: vadd_s(st.s, vscale_s(ap, d.ds)),
        z: vadd_s(st.z, vscale_s(ad, d.dz)),
        y: vadd_s(st.y, vscale_s(ad, d.dy)),
    }
}

/// The next iterate, unless a linear system fails. Without inequalities it is
/// one exact Newton step.
pub open spec fn ipm_step_s<T: DenseKernels>(q: Qp<T>, st: IpmState<T>) -> Option<IpmState<T>> {
    if q.bi.len() == 0 {
        match reduced_kkt_s(q.h, q.ae, vneg_s(r_stat_s(q, st)), vneg_s(r_eq_s(q, st))) {
            Some(d) => Some(
                IpmState { x: vadd_s(st.x, d.0), s: st.s, z: st.z, y: vadd_s(st.y, d.1) },
            ),
            None => None,
        }
    } else {
        match newton_s(q, st, t_aff_s(st)) {
            None => None,
            Some(aff) => match newton_s(q, st, t_cor_s(st, aff)) {
                None => None,
                Some(d) => Some(ipm_move_s(st, d)),
            },
        }
    }
}

/// The iterations from `iter` on.
pub open spec fn ipm_run_s<T: DenseKernels>(
    q: Qp<T>,
    cfg: QpConfig<T>,
    st: IpmState<T>,
    iter: usize,
) -> Sol<T>
    decreases cfg.max_iters - iter,
{
    if iter >= cfg.max_iters {
        make_sol_s(q, st.x, st.y, st.z, QpStatus::MaxIterations, cfg.max_iters)
    } else {
        let done = (iter + 1) as usize;
        if ipm_done_s(q, st, cfg) {
            make_sol_s(q, st.x, st.y, st.z, QpStatus::Optimal, done)
        } else {
            match ipm_step_s(q, st) {
                Some(next) => ipm_run_s(q, cfg, next, done),
                None => make_sol_s(q, st.x, st.y, st.z, QpStatus::NumericalFailure, done),
            }
        }
    }
}

/// The start: the point and equality multipliers zero, slacks and inequality
/// multipliers one.
pub open spec fn ipm_start_s<T: Arith>(q: Qp<T>) -> IpmState<T> {
    IpmState {
        x: vzeros_s(q.n()),
        s: vfill_s(q.bi.len(), T::one_s()),
        z: vfill_s(q.bi.len(), T::one_s()),
        y: vzeros_s(q.be.len()),
    }
}

struct IpmWork<S> {
    x: Vec<S>,
    s: Vec<S>,
    z: Vec<S>,
    y: Vec<S>,
}

impl<S> View for IpmWork<S> {
    type V = IpmState<S>;

    closed spec fn view(&self) -> IpmState<S> {
        IpmState { x: self.x@, s: self.s@, z: self.z@, y: self.y@ }
    }
}

/// The residuals of an iterate.
struct IpmRes<S> {
    stat: Vec<S>,
    eq: Vec<S>,
    iq: Vec<S>,
}

impl<S: Scalar> IpmRes<S> {
    spec fn at(self, q: Qp<S>, st: IpmState<S>) -> bool {
        &&& self.stat@ == r_stat_s(q, st)
        &&& self.eq@ == r_eq_s(q, st)
        &&& self.iq@ == r_iq_s(q, st)
    }
}

fn ipm_residuals<S: Scalar>(q: &QpProblem<S>, w: &IpmWork<S>) -> (r: IpmRes<S>)
    requires
        q@.wf(),
        w@.wf(q@),
    ensures
        r.at(q@, w@),
{
    let stat = vadd(
        &vadd(&vadd(&q.h.apply(&w.x), q.c), &q.ae.transpose().apply(&w.y)),
        &q.ai.transpose().apply(&w.z),
    );
    let eq = vsub(&q.ae.apply(&w.x), &q.be);
    let iq = vsub(&vadd(&q.ai.apply(&w.x), &w.s), &q.bi);
    IpmRes { stat, eq, iq }
}

fn mu<S: Scalar>(s: &Vec<S>, z: &Vec<S>) -> (r: S)
    requires
        s@.len() == z@.len(),
    ensures
        r == mu_s(s@, z@),
{
    if s.len() == 0 {
        S::zero()
    } else {
        dot(s, z).over(S::of_count(s.len()))
    }
}

fn ipm_done<S: Scalar>(q: &QpProblem<S>, w: &IpmWork<S>, r: &IpmRes<S>, cfg: &QpConfig<S>) -> (d:
    bool)
    requires
        q@.wf(),
        w@.wf(q@),
        r.at(q@, w@),
    ensures
        d == ipm_done_s(q@, w@, *cfg),
{
    let scale = S::one().plus(norm(q.c));
    norm(&r.stat).less_than(cfg.optimality_tol.times(scale)) && norm(&r.eq).less_than(
        cfg.feasibility_tol.times(scale),
    ) && norm(&r.iq).less_than(cfg.feasibility_tol.times(scale)) && mu(&w.s, &w.z).less_than(
        cfg.optimality_tol,
    )
}

struct IpmDir<S> {
    dx: Vec<S>,
    dy: Vec<S>,
    ds: Vec<S>,
    dz: Vec<S>,
}

impl<S> View for IpmDir<S> {
    type V = IpmStep<S>;

    closed spec fn view(&self) -> IpmStep<S> {
        IpmStep { dx: self.dx@, dy: self.dy@, ds: self.ds@, dz: self.dz@ }
    }
}

fn newton<S: Backend>(q: &QpProblem<S>, w: &IpmWork<S>, r: &IpmRes<S>, t: &Vec<S>) -> (d: Option<
    IpmDir<S>,
>)
    requires
        q@.wf(),
        w@.wf(q@),
        r.at(q@, w@),
        t@.len() == q@.bi.len(),
    ensures
        match d {
            Some(d) => newton_s(q@, w@, t@) == Some(d@) && d@.dx.len() == q@.n() && d@.dy.len()
                == q@.be.len() && d@.ds.len() == q@.bi.len() && d@.dz.len() == q@.bi.len(),
            None => newton_s(q@, w@, t@) is None,
        },
{
    let m = w.s.len();
    let s = &w.s;
    let z = &w.z;
    let zs = tabulate(
        m,
        |i: usize| -> (v: S)
            requires
                i < s@.len(),
                i < z@.len(),
            ensures
                v == z@[i as int].div_s(s@[i as int])
            { z[i].over(s[i]) },
    );
    assert(zs@ =~= ratio_s(w@));
    let iq = &r.iq;
    let inner = tabulate(
        m,
        |i: usize| -> (v: S)
            requires
                i < s@.len(),
                i < zs@.len(),
                i < iq@.len(),
                i < t@.len(),
            ensures
                v == zs@[i as int].mul_s(iq@[i as int]).add_s(
                    t@[i as int].div_s(s@[i as int]),
                )
            { zs[i].times(iq[i]).plus(t[i].over(s[i])) },
    );
    assert(inner@ =~= Seq::new(
        w@.s.len(),
        |i: int| zs@[i].mul_s(r.iq@[i]).add_s(t@[i].div_s(w@.s[i])),
    ));
    let h_bar = q.h.madd(&weighted_normal_eq(&q.ai, &zs));
    let rx = vsub(&vneg(&r.stat), &q.ai.transpose().apply(&inner));
    match solve_reduced_kkt(&h_bar, &q.ae, &rx, &vneg(&r.eq)) {
        None => None,
        Some((dx, dy)) => {
            let ds = vsub(&vneg(&r.iq), &q.ai.apply(&dx));
            let dz = tabulate(
                m,
                |i: usize| -> (v: S)
                    requires
                        i < s@.len(),
                        i < zs@.len(),
                        i < ds@.len(),
                        i < t@.len(),
                    ensures
                        v == t@[i as int].div_s(s@[i as int]).sub_s(
                            zs@[i as int].mul_s(ds@[i as int]),
                        )
                    { t[i].over(s[i]).minus(zs[i].times(ds[i])) },
            );
            assert(dz@ =~= Seq::new(
                w@.s.len(),
                |i: int| t@[i].div_s(w@.s[i]).sub_s(zs@[i].mul_s(ds@[i])),
            ));
            Some(IpmDir { dx, dy, ds, dz })
        },
    }
}

fn sigma<S: Scalar>(w: &IpmWork<S>, aff: &IpmDir<S>, Ghost(q): Ghost<Qp<S>>) -> (r: S)
    requires
        w@.wf(q),
        aff@.ds.len() == q.bi.len(),
        aff@.dz.len() == q.bi.len(),
    ensures
        r == sigma_s(w@, aff@),
{
    let m = mu(&w.s, &w.z);
    let ap = fraction_to_boundary(&w.s, &aff.ds, S::one());
    let ad = fraction_to_boundary(&w.z, &aff.dz, S::one());
    let s_aff = vadd(&w.s, &vscale(ap, &aff.ds));
    let z_aff = vadd(&w.z, &vscale(ad, &aff.dz));
    if S::dec(1, -14).less_than(m) {
        let ratio = mu(&s_aff, &z_aff).over(m);
        clamp(ratio.times(ratio).times(ratio), S::zero(), S::one())
    } else {
        S::zero()
    }
}

fn t_aff<S: Scalar>(w: &IpmWork<S>) -> (t: Vec<S>)
    requires
        w@.s.len() == w@.z.len(),
    ensures
        t@ == t_aff_s(w@),
{
    let s = &w.s;
    let z = &w.z;
    let t = tabulate(
        s.len(),
        |i: usize| -> (v: S)
            requires
                i < s@.len(),
                i < z@.len(),
            ensures
                v == s@[i as int].mul_s(z@[i as int]).neg_s()
            { s[i].times(z[i]).negated() },
    );
    assert(t@ =~= t_aff_s(w@));
    t
}

fn t_cor<S: Scalar>(w: &IpmWork<S>, aff: &IpmDir<S>, Ghost(q): Ghost<Qp<S>>) -> (t: Vec<S>)
    requires
        w@.wf(q),
        aff@.ds.len() == q.bi.len(),
        aff@.dz.len() == q.bi.len(),
    ensures
        t@ == t_cor_s(w@, aff@),
{
    let sigma_mu = sigma(w, aff, Ghost(q)).times(mu(&w.s, &w.z));
    let s = &w.s;
    let z = &w.z;
    let ds = &aff.ds;
    let dz = &aff.dz;
    let t = tabulate(
        s.len(),
        |i: usize| -> (v: S)
            requires
                i < s@.len(),
                i < z@.len(),
                i < ds@.len(),
                i < dz@.len(),
            ensures
                v == s@[i as int].mul_s(z@[i as int]).neg_s().add_s(sigma_mu).sub_s(
                    ds@[i as int].mul_s(dz@[i as int]),
                )
            { s[i].times(z[i]).negated().plus(sigma_mu).minus(ds[i].times(dz[i])) },
    );
    assert(t@ =~= t_cor_s(w@, aff@));
    t
}

fn ipm_step<S: Backend>(q: &QpProblem<S>, w: &IpmWork<S>, r: &IpmRes<S>) -> (next: Option<
    IpmWork<S>,
>)
    requires
        q@.wf(),
        w@.wf(q@),
        r.at(q@, w@),
    ensures
        match next {
            Some(n) => ipm_step_s(q@, w@) == Some(n@) && n@.wf(q@),
            None => ipm_step_s(q@, w@) is None,
        },
{
    if q.bi.len() == 0 {
        return match solve_reduced_kkt(q.h, &q.ae, &vneg(&r.stat), &vneg(&r.eq)) {
            Some((dx, dy)) => Some(
                IpmWork {
                    x: vadd(&w.x, &dx),
                    s: crate::dense::vcopy(&w.s),
                    z: crate::dense::vcopy(&w.z),
                    y: vadd(&w.y, &dy),
                },
            ),
            None => None,
        };
    }
    let aff = match newton(q, w, r, &t_aff(w)) {
        Some(aff) => aff,
        None => {
            return None;
        },
    };
    let d = match newton(q, w, r, &t_cor(w, &aff, Ghost(q@))) {
        Some(d) => d,
        None => {
            return None;
        },
    };
    let tau = S::dec(995, -3);
    let ap = fraction_to_boundary(&w.s, &d.ds, tau);
    let ad = fraction_to_boundary(&w.z, &d.dz, tau);
    Some(
        IpmWork {
            x: vadd(&w.x, &vscale(ap, &d.dx)),
            s: vadd(&w.s, &vscale(ap, &d.ds)),
            z: vadd(&w.z, &vscale(ad, &d.dz)),
            y: vadd(&w.y, &vscale(ad, &d.dy)),
        },
    )
}

/// The interior-point solve.
pub fn solve_qp_ipm<S: Backend>(q: &QpProblem<S>, cfg: &QpConfig<S>) -> (r: QpSolution<S>)
    requires
        q@.wf(),
    ensures
        r@ == ipm_run_s(q@, *cfg, ipm_start_s(q@), 0),
        r@.x.len() == q@.n(),
{
    let n = q.c.len();
    let m_iq = q.bi.len();
    let mut w = IpmWork {
        x: vzeros(n),
        s: vfill(m_iq, S::one()),
        z: vfill(m_iq, S::one()),
        y: vzeros(q.be.len()),
    };
    let mut iter: usize = 0;
    while iter < cfg.max_iters
        invariant
            q@.wf(),
            w@.wf(q@),
            iter <= cfg.max_iters,
            ipm_run_s(q@, *cfg, w@, iter) == ipm_run_s(q@, *cfg, ipm_start_s(q@), 0),
        decreases cfg.max_iters - iter,
    {
        let r = ipm_residuals(q, &w);
        if ipm_done(q, &w, &r, cfg) {
            return make_sol(q, w.x, w.y, w.z, QpStatus::Optimal, iter + 1);
        }
        match ipm_step(q, &w, &r) {
            Some(next) => {
                w = next;
            },
            None => {
                return make_sol(q, w.x, w.y, w.z, QpStatus::NumericalFailure, iter + 1);
            },
        }
        iter += 1;
    }
    make_sol(q, w.x, w.y, w.z, QpStatus::MaxIterations, cfg.max_iters)
}

} // verus!
