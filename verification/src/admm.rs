//! The built-in operator-splitting (ADMM) solver, in the form of OSQP.
//!
//! `min 1/2 x'Hx + c'x` subject to `l <= A x <= u`, with the equalities as a
//! zero-width box and the inequalities as a one-sided one. The linear system
//! `H + sigma * I + rho * A'A` is factorised once and again only where the
//! balance of the residuals asks for another `rho`.

use vstd::prelude::*;

use crate::dense::{
    madd_s, mmul_s, mscale_s, mvec_s, peak, peak_s, shift_diag_s, slice, slice_s, stack_rows_s,
    stack_vec, tabulate, transpose_s, vadd, vadd_s, vneg, vneg_s, vscale, vscale_s, vsub, vsub_s,
    vzeros, vzeros_s, Mat, Matrix,
};
use crate::kernels::{Backend, DenseKernels};
use crate::qp::{
    fail, fail_s, make_sol, make_sol_s, Qp, QpConfig, QpProblem, QpSolution, QpStatus, Sol,
};
use crate::scalar::{clamp, clamp_s, lit_s, Arith, Scalar};
use crate::triangular::{chol_solve, chol_solve_s};

verus! {

/// The stacked problem: equality rows first.
pub struct AdmmCtx<T> {
    pub q: Qp<T>,
    pub a: Mat<T>,
    pub at: Mat<T>,
    pub ata: Mat<T>,
    /// The upper bounds. The lower bound of an equality row is the same; an
    /// inequality row has none.
    pub u: Seq<T>,
    pub cfg: QpConfig<T>,
}

impl<T> AdmmCtx<T> {
    pub open spec fn wf(self) -> bool {
        &&& self.q.wf()
        &&& self.a.shaped(self.u.len(), self.q.n())
        &&& self.at.shaped(self.q.n(), self.u.len())
        &&& self.ata.shaped(self.q.n(), self.q.n())
        &&& self.u.len() == self.q.be.len() + self.q.bi.len()
    }
}

pub open spec fn admm_ctx_s<T: Arith>(q: Qp<T>, cfg: QpConfig<T>) -> AdmmCtx<T> {
    let a = stack_rows_s(q.ae, q.ai);
    AdmmCtx {
        q,
        a,
        at: transpose_s(a),
        ata: mmul_s(transpose_s(a), a),
        u: q.be + q.bi,
        cfg,
    }
}

/// What the iterations change.
#[verifier::ext_equal]
pub struct AdmmState<T> {
    pub x: Seq<T>,
    pub z: Seq<T>,
    pub y: Seq<T>,
    pub rho: T,
    /// The factor of the system for this `rho`.
    pub chol: Mat<T>,
}

impl<T> AdmmState<T> {
    pub open spec fn wf(self, p: AdmmCtx<T>) -> bool {
        &&& self.x.len() == p.q.n()
        &&& self.z.len() == p.u.len()
        &&& self.y.len() == p.u.len()
        &&& self.chol.shaped(p.q.n(), p.q.n())
    }
}

/// `H + sigma * I + rho * A'A`, with `sigma = 1e-6`.
pub open spec fn admm_system_s<T: Arith>(p: AdmmCtx<T>, rho: T) -> Mat<T> {
    madd_s(shift_diag_s(p.q.h, lit_s::<T>(1, -6)), mscale_s(rho, p.ata))
}

/// Row `i` of the box projection of `v`.
pub open spec fn box_s<T: Arith>(p: AdmmCtx<T>, i: int, v: T) -> T {
    if i < p.q.be.len() {
        clamp_s(v, p.u[i], p.u[i])
    } else if p.u[i].lt_s(v) {
        p.u[i]
    } else {
        v
    }
}

/// The relaxed step `alpha * new + (1 - alpha) * old`, with `alpha = 1.6`.
pub open spec fn relax_s<T: Arith>(new: Seq<T>, old: Seq<T>) -> Seq<T> {
    vadd_s(
        vscale_s(lit_s::<T>(16, -1), new),
        vscale_s(T::one_s().sub_s(lit_s::<T>(16, -1)), old),
    )
}

/// The solution of the linear subproblem.
pub open spec fn admm_x_tilde_s<T: Arith>(p: AdmmCtx<T>, st: AdmmState<T>) -> Seq<T> {
    chol_solve_s(
        st.chol.rows,
        vadd_s(
            vsub_s(vscale_s(lit_s::<T>(1, -6), st.x), p.q.c),
            mvec_s(p.at, vsub_s(vscale_s(st.rho, st.z), st.y)),
        ),
    )
}

/// The auxiliary variable before the projection.
pub open spec fn admm_z_relaxed_s<T: Arith>(p: AdmmCtx<T>, st: AdmmState<T>) -> Seq<T> {
    relax_s(mvec_s(p.a, admm_x_tilde_s(p, st)), st.z)
}

pub open spec fn admm_z_s<T: Arith>(p: AdmmCtx<T>, st: AdmmState<T>) -> Seq<T> {
    let zr = admm_z_relaxed_s(p, st);
    Seq::new(p.u.len(), |i: int| box_s(p, i, zr[i].add_s(st.y[i].div_s(st.rho))))
}

/// The iterate after one splitting step, with the penalty as it was.
pub open spec fn admm_move_s<T: Arith>(p: AdmmCtx<T>, st: AdmmState<T>) -> AdmmState<T> {
    let z = admm_z_s(p, st);
    AdmmState {
        x: relax_s(admm_x_tilde_s(p, st), st.x),
        z,
        y: vadd_s(st.y, vscale_s(st.rho, vsub_s(admm_z_relaxed_s(p, st), z))),
        rho: st.rho,
        chol: st.chol,
    }
}

/// The residuals and their scales at an iterate.
pub struct Residuals<T> {
    pub prim: T,
    pub dual: T,
    pub scale_p: T,
    pub scale_d: T,
}

pub open spec fn residuals_s<T: Arith>(p: AdmmCtx<T>, st: AdmmState<T>) -> Residuals<T> {
    let ax = mvec_s(p.a, st.x);
    let hx = mvec_s(p.q.h, st.x);
    let aty = mvec_s(p.at, st.y);
    Residuals {
        prim: peak_s(vsub_s(ax, st.z)),
        dual: peak_s(vadd_s(vadd_s(hx, p.q.c), aty)),
        scale_p: T::one_s().add_s(peak_s(ax).max_s(peak_s(st.z))),
        scale_d: T::one_s().add_s(peak_s(hx).max_s(peak_s(aty)).max_s(peak_s(p.q.c))),
    }
}

pub open spec fn admm_done_s<T: Arith>(r: Residuals<T>, cfg: QpConfig<T>) -> bool {
    r.prim.lt_s(cfg.feasibility_tol.mul_s(r.scale_p)) && r.dual.lt_s(
        cfg.optimality_tol.mul_s(r.scale_d),
    )
}

/// The factor by which the residual balance asks the penalty to change.
pub open spec fn rho_ratio_s<T: Arith>(r: Residuals<T>) -> T {
    r.prim.div_s(r.scale_p).div_s(r.dual.div_s(r.scale_d).max_s(lit_s::<T>(1, -300))).sqrt_s()
}

/// The iterate with the penalty retuned: only where the ratio leaves
/// `[0.2, 5]`, within `[1e-6, 1e6]`, and only if the new system factors.
pub open spec fn retune_s<T: DenseKernels>(
    p: AdmmCtx<T>,
    st: AdmmState<T>,
    r: Residuals<T>,
) -> AdmmState<T> {
    let ratio = rho_ratio_s(r);
    if lit_s::<T>(2, -1).le_s(ratio) && ratio.le_s(lit_s::<T>(5, 0)) {
        st
    } else {
        let rho = clamp_s(st.rho.mul_s(ratio), lit_s::<T>(1, -6), lit_s::<T>(1, 6));
        match T::cholesky_s(admm_system_s(p, rho)) {
            Some(chol) => AdmmState { rho, chol, ..st },
            None => st,
        }
    }
}

/// The multipliers are the parts of `y`.
pub open spec fn admm_sol_s<T: Arith>(
    p: AdmmCtx<T>,
    st: AdmmState<T>,
    status: QpStatus,
    iters: usize,
) -> Sol<T> {
    make_sol_s(
        p.q,
        st.x,
        slice_s(st.y, 0, p.q.be.len()),
        slice_s(st.y, p.q.be.len(), p.q.bi.len()),
        status,
        iters,
    )
}

/// The iterations from `iter` on. The penalty is looked at every third one.
pub open spec fn admm_run_s<T: DenseKernels>(p: AdmmCtx<T>, st: AdmmState<T>, iter: usize) -> Sol<T>
    decreases p.cfg.max_iters - iter,
{
    if iter >= p.cfg.max_iters {
        admm_sol_s(p, st, QpStatus::MaxIterations, p.cfg.max_iters)
    } else {
        let next = admm_move_s(p, st);
        let r = residuals_s(p, next);
        if admm_done_s(r, p.cfg) {
            admm_sol_s(p, next, QpStatus::Optimal, (iter + 1) as usize)
        } else if (iter + 1) % 3 == 0 {
            admm_run_s(p, retune_s(p, next, r), (iter + 1) as usize)
        } else {
            admm_run_s(p, next, (iter + 1) as usize)
        }
    }
}

/// The start: all zero, penalty ten.
pub open spec fn admm_start_s<T: Arith>(p: AdmmCtx<T>, chol: Mat<T>) -> AdmmState<T> {
    AdmmState {
        x: vzeros_s(p.q.n()),
        z: vzeros_s(p.u.len()),
        y: vzeros_s(p.u.len()),
        rho: lit_s::<T>(10, 0),
        chol,
    }
}

/// The whole solve. Without constraints it is one linear solve.
pub open spec fn admm_s<T: DenseKernels>(q: Qp<T>, cfg: QpConfig<T>) -> Sol<T> {
    if q.be.len() + q.bi.len() == 0 {
        match T::cholesky_s(q.h) {
            Some(l) => make_sol_s(
                q,
                chol_solve_s(l.rows, vneg_s(q.c)),
                Seq::empty(),
                Seq::empty(),
                QpStatus::Optimal,
                0,
            ),
            None => fail_s(q, QpStatus::NumericalFailure),
        }
    } else {
        let p = admm_ctx_s(q, cfg);
        match T::cholesky_s(admm_system_s(p, lit_s::<T>(10, 0))) {
            Some(l) => admm_run_s(p, admm_start_s(p, l), 0),
            None => fail_s(q, QpStatus::NumericalFailure),
        }
    }
}

struct AdmmProblem<'a, S> {
    q: &'a QpProblem<'a, S>,
    a: Matrix<S>,
    at: Matrix<S>,
    ata: Matrix<S>,
    u: Vec<S>,
    cfg: &'a QpConfig<S>,
}

impl<'a, S> View for AdmmProblem<'a, S> {
    type V = AdmmCtx<S>;

    closed spec fn view(&self) -> AdmmCtx<S> {
        AdmmCtx {
            q: self.q@,
            a: self.a@,
            at: self.at@,
            ata: self.ata@,
            u: self.u@,
            cfg: *self.cfg,
        }
    }
}

struct AdmmWork<S> {
    x: Vec<S>,
    z: Vec<S>,
    y: Vec<S>,
    rho: S,
    chol: Matrix<S>,
}

impl<S> View for AdmmWork<S> {
    type V = AdmmState<S>;

    closed spec fn view(&self) -> AdmmState<S> {
        AdmmState { x: self.x@, z: self.z@, y: self.y@, rho: self.rho, chol: self.chol@ }
    }
}

fn factorise<S: Backend>(p: &AdmmProblem<S>, rho: S) -> (r: Option<Matrix<S>>)
    requires
        p@.wf(),
    ensures
        crate::dense::opt_mat(r) == S::cholesky_s(admm_system_s(p@, rho)),
        r matches Some(l) ==> l@.shaped(p@.q.n(), p@.q.n()),
{
    S::cholesky(&p.q.h.shift_diag(S::dec(1, -6)).madd(&p.ata.mscale(rho)))
}

fn relax<S: Scalar>(new: &Vec<S>, old: &Vec<S>) -> (r: Vec<S>)
    requires
        new@.len() == old@.len(),
    ensures
        r@ == relax_s(new@, old@),
{
    let alpha = S::dec(16, -1);
    vadd(&vscale(alpha, new), &vscale(S::one().minus(alpha), old))
}

fn admm_move<S: Backend>(p: &AdmmProblem<S>, w: AdmmWork<S>) -> (r: AdmmWork<S>)
    requires
        p@.wf(),
        w@.wf(p@),
    ensures
        r@ == admm_move_s(p@, w@),
        r@.wf(p@),
{
    let rhs = vadd(
        &vsub(&vscale(S::dec(1, -6), &w.x), p.q.c),
        &p.at.apply(&vsub(&vscale(w.rho, &w.z), &w.y)),
    );
    let x_tilde = chol_solve(w.chol.rows_ref(), &rhs);
    let x = relax(&x_tilde, &w.x);
    let zr = relax(&p.a.apply(&x_tilde), &w.z);
    let m_eq = p.q.be.len();
    let u = &p.u;
    let y0 = &w.y;
    let rho = w.rho;
    let z = tabulate(
        u.len(),
        |i: usize| -> (v: S)
            requires
                i < u@.len(),
                u@.len() == zr@.len(),
                u@.len() == y0@.len(),
                u@ == p@.u,
                m_eq == p@.q.be.len(),
            ensures
                v == box_s(p@, i as int, zr@[i as int].add_s(y0@[i as int].div_s(rho)))
            {
                let v = zr[i].plus(y0[i].over(rho));
                if i < m_eq {
                    clamp(v, u[i], u[i])
                } else if u[i].less_than(v) {
                    u[i]
                } else {
                    v
                }
            },
    );
    assert(z@ =~= admm_z_s(p@, w@));
    let y = vadd(&w.y, &vscale(w.rho, &vsub(&zr, &z)));
    AdmmWork { x, z, y, rho: w.rho, chol: w.chol }
}

fn residuals<S: Scalar>(p: &AdmmProblem<S>, w: &AdmmWork<S>) -> (r: Residuals<S>)
    requires
        p@.wf(),
        w@.wf(p@),
    ensures
        r == residuals_s(p@, w@),
{
    let ax = p.a.apply(&w.x);
    let hx = p.q.h.apply(&w.x);
    let aty = p.at.apply(&w.y);
    Residuals {
        prim: peak(&vsub(&ax, &w.z)),
        dual: peak(&vadd(&vadd(&hx, p.q.c), &aty)),
        scale_p: S::one().plus(peak(&ax).larger(peak(&w.z))),
        scale_d: S::one().plus(peak(&hx).larger(peak(&aty)).larger(peak(p.q.c))),
    }
}

fn retune<S: Backend>(p: &AdmmProblem<S>, w: AdmmWork<S>, r: &Residuals<S>) -> (next: AdmmWork<S>)
    requires
        p@.wf(),
        w@.wf(p@),
    ensures
        next@ == retune_s(p@, w@, *r),
        next@.wf(p@),
{
    let num = r.prim.over(r.scale_p);
    let den = r.dual.over(r.scale_d).larger(S::dec(1, -300));
    let ratio = num.over(den).root();
    if S::dec(2, -1).at_most(ratio) && ratio.at_most(S::dec(5, 0)) {
        return w;
    }
    let rho = clamp(w.rho.times(ratio), S::dec(1, -6), S::dec(1, 6));
    match factorise(p, rho) {
        Some(chol) => AdmmWork { x: w.x, z: w.z, y: w.y, rho, chol },
        None => w,
    }
}

fn admm_sol<S: Scalar>(p: &AdmmProblem<S>, w: AdmmWork<S>, status: QpStatus, iters: usize) -> (r:
    QpSolution<S>)
    requires
        p@.wf(),
        w@.wf(p@),
    ensures
        r@ == admm_sol_s(p@, w@, status, iters),
        r@.x.len() == p@.q.n(),
{
    let m_eq = p.q.be.len();
    let le = slice(&w.y, 0, m_eq);
    let li = slice(&w.y, m_eq, p.q.bi.len());
    make_sol(p.q, w.x, le, li, status, iters)
}

fn admm_run<S: Backend>(p: &AdmmProblem<S>, w: AdmmWork<S>) -> (r: QpSolution<S>)
    requires
        p@.wf(),
        w@.wf(p@),
    ensures
        r@ == admm_run_s(p@, w@, 0),
        r@.x.len() == p@.q.n(),
{
    let mut cur = w;
    let mut iter: usize = 0;
    while iter < p.cfg.max_iters
        invariant
            p@.wf(),
            cur@.wf(p@),
            iter <= p.cfg.max_iters,
            admm_run_s(p@, cur@, iter) == admm_run_s(p@, w@, 0),
        decreases p.cfg.max_iters - iter,
    {
        let next = admm_move(p, cur);
        let r = residuals(p, &next);
        if r.prim.less_than(p.cfg.feasibility_tol.times(r.scale_p)) && r.dual.less_than(
            p.cfg.optimality_tol.times(r.scale_d),
        ) {
            return admm_sol(p, next, QpStatus::Optimal, iter + 1);
        }
        iter += 1;
        cur = if iter % 3 == 0 {
            retune(p, next, &r)
        } else {
            next
        };
    }
    admm_sol(p, cur, QpStatus::MaxIterations, p.cfg.max_iters)
}

/// The ADMM solve.
pub fn solve_qp_admm<S: Backend>(q: &QpProblem<S>, cfg: &QpConfig<S>) -> (r: QpSolution<S>)
    requires
        q@.wf(),
    ensures
        r@ == admm_s(q@, *cfg),
        r@.x.len() == q@.n(),
{
    if q.be.len() == 0 && q.bi.len() == 0 {
        return match S::cholesky(q.h) {
            Some(l) => {
                let x = chol_solve(l.rows_ref(), &vneg(q.c));
                let none_e: Vec<S> = Vec::new();
                let none_i: Vec<S> = Vec::new();
                assert(none_e@ =~= Seq::<S>::empty());
                make_sol(q, x, none_e, none_i, QpStatus::Optimal, 0)
            },
            None => fail(q, QpStatus::NumericalFailure),
        };
    }
    let a = q.ae.stack_rows(&q.ai);
    let at = a.transpose();
    let ata = at.mmul(&a);
    let u = stack_vec(&q.be, &q.bi);
    let n = q.c.len();
    let m = a.nrows();
    let p = AdmmProblem { q, a, at, ata, u, cfg };
    let rho = S::dec(10, 0);
    match factorise(&p, rho) {
        Some(chol) => {
            let w = AdmmWork { x: vzeros(n), z: vzeros(m), y: vzeros(m), rho, chol };
            admm_run(&p, w)
        },
        None => fail(q, QpStatus::NumericalFailure),
    }
}

} // verus!
