//! The quadratic program in the form of an outside conic solver, and the way
//! back: compressed column matrices, the cones, and the reading of the reply.

use vstd::prelude::*;

use crate::dense::{
    slice, slice_s, stack_rows_s, stack_vec, tabulate, vcopy, Mat, Matrix,
};
use crate::kernels::{
    cone_rows_s, Backend, Cone, Conic, ConicAnswer, ConicProblem, ConicReply, ConicStatus, Csc,
    CscView, DenseKernels,
};
use crate::qp::{
    objective, objective_s, Qp, QpConfig, QpProblem, QpSolution, QpStatus, Sol,
};
use crate::scalar::{lit_s, Arith, Scalar};

verus! {

/// Entries of at most `1e-15` are not stored.
pub open spec fn kept_s<T: Arith>(v: T) -> bool {
    lit_s::<T>(1, -15).lt_s(v.abs_s())
}

/// The stored entries among the first `h` of column `j`, each with its row.
pub open spec fn column_s<T: Arith>(m: Mat<T>, j: int, h: nat) -> Seq<(int, T)>
    decreases h,
{
    if h == 0 {
        Seq::empty()
    } else {
        let head = column_s(m, j, (h - 1) as nat);
        if kept_s(m.at(h - 1, j)) {
            head.push((h - 1, m.at(h - 1, j)))
        } else {
            head
        }
    }
}

/// How many rows of column `j` are looked at: all, or those on and above the
/// diagonal.
pub open spec fn height_s<T>(m: Mat<T>, upper: bool, j: int) -> nat {
    if upper {
        (j + 1) as nat
    } else {
        m.nrows()
    }
}

/// The stored entries of the first `n` columns, column after column.
pub open spec fn entries_s<T: Arith>(m: Mat<T>, upper: bool, n: nat) -> Seq<(int, T)>
    decreases n,
{
    if n == 0 {
        Seq::empty()
    } else {
        entries_s(m, upper, (n - 1) as nat) + column_s(m, n - 1, height_s(m, upper, n - 1))
    }
}

/// `m` in compressed column storage.
pub open spec fn csc_s<T: Arith>(m: Mat<T>, upper: bool) -> CscView<T> {
    let e = entries_s(m, upper, m.ncols());
    CscView {
        rows: m.nrows(),
        cols: m.ncols(),
        col_ptr: Seq::new(m.ncols() + 1, |j: int| entries_s(m, upper, j as nat).len() as usize),
        row_idx: Seq::new(e.len(), |k: int| e[k].0 as usize),
        vals: Seq::new(e.len(), |k: int| e[k].1),
    }
}

/// A stored column ascends, holds the matrix entries, and misses none that is
/// to be kept.
pub proof fn lemma_column<T: Arith>(m: Mat<T>, j: int, h: nat)
    ensures
        forall|a: int|
            0 <= a < column_s(m, j, h).len() ==> {
                let c = #[trigger] column_s(m, j, h)[a];
                0 <= c.0 < h && c.1 == m.at(c.0, j) && kept_s(c.1)
            },
        forall|a: int, b: int|
            0 <= a < b < column_s(m, j, h).len() ==> (#[trigger] column_s(m, j, h)[a]).0 < (
            #[trigger] column_s(m, j, h)[b]).0,
        forall|i: int|
            0 <= i < h && kept_s(#[trigger] m.at(i, j)) ==> exists|a: int|
                0 <= a < column_s(m, j, h).len() && (#[trigger] column_s(m, j, h)[a]).0 == i,
    decreases h,
{
    if h > 0 {
        lemma_column(m, j, (h - 1) as nat);
        let head = column_s(m, j, (h - 1) as nat);
        let c = column_s(m, j, h);
        assert forall|i: int| 0 <= i < h && kept_s(#[trigger] m.at(i, j)) implies exists|a: int|
            0 <= a < c.len() && (#[trigger] c[a]).0 == i by {
            if i < h - 1 {
                let a = choose|a: int| 0 <= a < head.len() && (#[trigger] head[a]).0 == i;
                assert(c[a] == head[a]);
            } else {
                assert(c[head.len() as int].0 == i);
            }
        }
    }
}

/// The entries of fewer columns are a prefix of those of more.
pub proof fn lemma_entries_prefix<T: Arith>(m: Mat<T>, upper: bool, j: nat, n: nat)
    requires
        j <= n,
    ensures
        entries_s(m, upper, j).len() <= entries_s(m, upper, n).len(),
        forall|k: int|
            0 <= k < entries_s(m, upper, j).len() ==> #[trigger] entries_s(m, upper, n)[k]
                == entries_s(m, upper, j)[k],
    decreases n,
{
    if j < n {
        lemma_entries_prefix(m, upper, j, (n - 1) as nat);
    }
}

/// Entry `k` of column `j` in the whole.
pub proof fn lemma_entry_at<T: Arith>(m: Mat<T>, upper: bool, j: nat, n: nat, k: int)
    requires
        j < n,
        entries_s(m, upper, j).len() <= k < entries_s(m, upper, j + 1).len(),
    ensures
        k < entries_s(m, upper, n).len(),
        entries_s(m, upper, n)[k] == column_s(m, j as int, height_s(m, upper, j as int))[k
            - entries_s(m, upper, j).len()],
        entries_s(m, upper, j + 1).len() == entries_s(m, upper, j).len() + column_s(
            m,
            j as int,
            height_s(m, upper, j as int),
        ).len(),
{
    lemma_entries_prefix(m, upper, j + 1, n);
}

proof fn lemma_entries_rows<T: Arith>(m: Mat<T>, upper: bool, n: nat)
    requires
        !upper || n <= m.nrows(),
    ensures
        forall|k: int|
            0 <= k < entries_s(m, upper, n).len() ==> 0 <= (#[trigger] entries_s(m, upper, n)[k]).0
                < m.nrows(),
    decreases n,
{
    if n > 0 {
        lemma_entries_rows(m, upper, (n - 1) as nat);
        lemma_column(m, n - 1, height_s(m, upper, n - 1));
        let head = entries_s(m, upper, (n - 1) as nat);
        let col = column_s(m, n - 1, height_s(m, upper, n - 1));
        let e = entries_s(m, upper, n);
        assert forall|k: int| 0 <= k < e.len() implies 0 <= (#[trigger] e[k]).0 < m.nrows() by {
            if k < head.len() {
                assert(e[k] == head[k]);
            } else {
                assert(e[k] == col[k - head.len()]);
            }
        }
    }
}

/// Compressed storage of a matrix is well formed.
pub proof fn lemma_csc_wf<T: Arith>(m: Mat<T>, upper: bool)
    requires
        m.wf(),
        upper ==> m.nrows() == m.ncols(),
        m.nrows() <= usize::MAX,
        entries_s(m, upper, m.ncols()).len() <= usize::MAX,
    ensures
        csc_s(m, upper).wf(),
{
    reveal(CscView::wf);
    let n = m.ncols();
    let c = csc_s(m, upper);
    let e = entries_s(m, upper, n);
    lemma_entries_rows(m, upper, n);
    assert forall|i: int, j: int| 0 <= i <= j <= n implies #[trigger] c.col_ptr[i]
        <= #[trigger] c.col_ptr[j] by {
        lemma_entries_prefix(m, upper, i as nat, j as nat);
        lemma_entries_prefix(m, upper, j as nat, n);
    }
    assert forall|j: int, k: int, l: int|
        0 <= j < n && #[trigger] c.col_ptr[j] <= k < l < c.col_ptr[j + 1] implies #[trigger]
        c.row_idx[k] < #[trigger] c.row_idx[l] by {
        lemma_entries_prefix(m, upper, j as nat, n);
        lemma_entries_prefix(m, upper, (j + 1) as nat, n);
        lemma_entry_at(m, upper, j as nat, n, k);
        lemma_entry_at(m, upper, j as nat, n, l);
        lemma_column(m, j, height_s(m, upper, j));
    }
}

/// Compressed storage loses nothing but negligible entries: within the part
/// that is looked at, row `i` occurs in column `j` exactly if the entry there
/// exceeds `1e-15` in magnitude, and what is stored is that entry.
pub proof fn law_csc_faithful<T: Arith>(m: Mat<T>, upper: bool, i: int, j: int)
    requires
        m.wf(),
        upper ==> m.nrows() == m.ncols(),
        m.nrows() <= usize::MAX,
        entries_s(m, upper, m.ncols()).len() <= usize::MAX,
        0 <= j < m.ncols(),
        0 <= i < height_s(m, upper, j),
    ensures
        ({
            let c = csc_s(m, upper);
            &&& kept_s(m.at(i, j)) <==> exists|k: int|
                c.col_ptr[j] <= k < c.col_ptr[j + 1] && #[trigger] c.row_idx[k] == i
            &&& forall|k: int|
                c.col_ptr[j] <= k < c.col_ptr[j + 1] && #[trigger] c.row_idx[k] == i ==> c.vals[k]
                    == m.at(i, j)
        }),
{
    let n = m.ncols();
    let c = csc_s(m, upper);
    let h = height_s(m, upper, j);
    let col = column_s(m, j, h);
    let off = entries_s(m, upper, j as nat).len();
    lemma_column(m, j, h);
    lemma_entries_prefix(m, upper, j as nat, n);
    lemma_entries_prefix(m, upper, (j + 1) as nat, n);
    if kept_s(m.at(i, j)) {
        let a = choose|a: int| 0 <= a < col.len() && (#[trigger] col[a]).0 == i;
        lemma_entry_at(m, upper, j as nat, n, off + a);
        assert(c.row_idx[off + a] == i);
    }
    assert forall|k: int|
        c.col_ptr[j] <= k < c.col_ptr[j + 1] && #[trigger] c.row_idx[k] == i implies c.vals[k]
        == m.at(i, j) && kept_s(m.at(i, j)) by {
        lemma_entry_at(m, upper, j as nat, n, k);
        assert(col[k - off].0 < h);
    }
}

/// `rows` and `vals` hold the entries `e`.
spec fn holds<T>(rows: Seq<usize>, vals: Seq<T>, e: Seq<(int, T)>) -> bool {
    &&& rows.len() == e.len()
    &&& vals.len() == e.len()
    &&& forall|k: int| 0 <= k < e.len() ==> #[trigger] rows[k] == e[k].0 && vals[k] == e[k].1
}

fn dense_to_csc<S: Scalar>(m: &Matrix<S>, upper: bool) -> (r: Csc<S>)
    requires
        m@.wf(),
        upper ==> m@.nrows() == m@.ncols(),
    ensures
        r@ == csc_s(m@, upper),
        r@.wf(),
{
    let rows = m.nrows();
    let cols = m.ncols();
    let tiny = S::dec(1, -15);
    let mut col_ptr: Vec<usize> = Vec::new();
    let mut row_idx: Vec<usize> = Vec::new();
    let mut vals: Vec<S> = Vec::new();
    col_ptr.push(0);
    let mut j: usize = 0;
    while j < cols
        invariant
            m@.wf(),
            upper ==> m@.nrows() == m@.ncols(),
            rows == m@.nrows(),
            cols == m@.ncols(),
            tiny == lit_s::<S>(1, -15),
            j <= cols,
            col_ptr@.len() == j + 1,
            forall|k: int|
                0 <= k <= j ==> #[trigger] col_ptr@[k] == entries_s(m@, upper, k as nat).len(),
            holds(row_idx@, vals@, entries_s(m@, upper, j as nat)),
        decreases cols - j,
    {
        let h = if upper {
            j + 1
        } else {
            rows
        };
        let ghost before = entries_s(m@, upper, j as nat);
        let mut i: usize = 0;
        while i < h
            invariant
                m@.wf(),
                j < cols,
                cols == m@.ncols(),
                h <= m@.nrows(),
                tiny == lit_s::<S>(1, -15),
                i <= h,
                holds(row_idx@, vals@, before + column_s(m@, j as int, i as nat)),
            decreases h - i,
        {
            let v = m.at(i, j);
            if tiny.less_than(v.magnitude()) {
                row_idx.push(i);
                vals.push(v);
            }
            i += 1;
        }
        col_ptr.push(row_idx.len());
        j += 1;
    }
    let end = row_idx.len();
    proof {
        lemma_csc_wf(m@, upper);
    }
    let r = Csc { rows, cols, col_ptr, row_idx, vals };
    assert forall|k: int| 0 <= k <= cols implies r@.col_ptr[k] == csc_s(m@, upper).col_ptr[k] by {
        assert(r@.col_ptr[k] == entries_s(m@, upper, k as nat).len());
    }
    assert(r@.col_ptr =~= csc_s(m@, upper).col_ptr);
    assert forall|k: int| 0 <= k < end implies #[trigger] r@.row_idx[k] == csc_s(
        m@,
        upper,
    ).row_idx[k] by {
        assert(r@.row_idx[k] == entries_s(m@, upper, m@.ncols())[k].0);
    }
    assert forall|k: int| 0 <= k < end implies #[trigger] r@.vals[k] == csc_s(
        m@,
        upper,
    ).vals[k] by {
        assert(r@.row_idx[k] == entries_s(m@, upper, m@.ncols())[k].0);
    }
    assert(r@.row_idx =~= csc_s(m@, upper).row_idx);
    assert(r@.vals =~= csc_s(m@, upper).vals);
    r
}

/// The upper triangle of a square matrix in compressed column storage.
pub fn dense_to_csc_upper<S: Scalar>(m: &Matrix<S>) -> (r: Csc<S>)
    requires
        m@.shaped(m@.nrows(), m@.nrows()),
    ensures
        r@ == csc_s(m@, true),
        r@.wf(),
{
    dense_to_csc(m, true)
}

/// A matrix in compressed column storage.
pub fn dense_to_csc_full<S: Scalar>(m: &Matrix<S>) -> (r: Csc<S>)
    requires
        m@.wf(),
    ensures
        r@ == csc_s(m@, false),
        r@.wf(),
{
    dense_to_csc(m, false)
}

/// The cones of the stacked rows; an empty block has none.
pub open spec fn cones_s(m_eq: nat, m_iq: nat) -> Seq<Cone> {
    let eq = if m_eq > 0 {
        seq![Cone::Zero(m_eq as usize)]
    } else {
        Seq::empty()
    };
    let iq = if m_iq > 0 {
        seq![Cone::Nonnegative(m_iq as usize)]
    } else {
        Seq::empty()
    };
    eq + iq
}

proof fn lemma_cone_rows(m_eq: nat, m_iq: nat)
    requires
        m_eq <= usize::MAX,
        m_iq <= usize::MAX,
    ensures
        cone_rows_s(cones_s(m_eq, m_iq)) == m_eq + m_iq,
{
    reveal_with_fuel(cone_rows_s, 3);
    let c = cones_s(m_eq, m_iq);
    if m_iq > 0 {
        assert(c.last() == Cone::Nonnegative(m_iq as usize));
        assert(c.drop_last() =~= cones_s(m_eq, 0));
    }
    if m_eq > 0 {
        assert(cones_s(m_eq, 0).last() == Cone::Zero(m_eq as usize));
        assert(cones_s(m_eq, 0).drop_last() =~= Seq::<Cone>::empty());
    }
}

/// The problem that is handed to the conic solver.
pub open spec fn conic_problem_s<T: Arith>(q: Qp<T>, cfg: QpConfig<T>) -> Conic<T> {
    Conic {
        p: csc_s(q.h, true),
        q: q.c,
        a: csc_s(stack_rows_s(q.ae, q.ai), false),
        b: q.be + q.bi,
        cones: cones_s(q.be.len(), q.bi.len()),
        max_iter: cfg.max_iters as u32,
        tol_gap: cfg.optimality_tol,
        tol_feas: cfg.feasibility_tol,
    }
}

/// Builds the problem for the conic solver.
pub fn conic_problem<S: Scalar>(q: &QpProblem<S>, cfg: &QpConfig<S>) -> (r: ConicProblem<S>)
    requires
        q@.wf(),
    ensures
        r@ == conic_problem_s(q@, *cfg),
        r@.wf(),
{
    let a = q.ae.stack_rows(&q.ai);
    let m_eq = q.be.len();
    let m_iq = q.bi.len();
    let mut cones: Vec<Cone> = Vec::new();
    if m_eq > 0 {
        cones.push(Cone::Zero(m_eq));
    }
    if m_iq > 0 {
        cones.push(Cone::Nonnegative(m_iq));
    }
    proof {
        assert(cones@ =~= cones_s(m_eq as nat, m_iq as nat));
        lemma_cone_rows(m_eq as nat, m_iq as nat);
    }
    let p = dense_to_csc_upper(q.h);
    let a = dense_to_csc_full(&a);
    ConicProblem {
        p,
        q: vcopy(q.c),
        a,
        b: stack_vec(&q.be, &q.bi),
        cones,
        max_iter: #[verifier::truncate] (cfg.max_iters as u32),
        tol_gap: cfg.optimality_tol,
        tol_feas: cfg.feasibility_tol,
    }
}

/// What a conic outcome means for the quadratic program.
pub open spec fn status_s(s: ConicStatus) -> QpStatus {
    match s {
        ConicStatus::Solved => QpStatus::Optimal,
        ConicStatus::AlmostSolved => QpStatus::Optimal,
        ConicStatus::MaxIterations => QpStatus::MaxIterations,
        ConicStatus::PrimalInfeasible => QpStatus::Infeasible,
        ConicStatus::DualInfeasible => QpStatus::Infeasible,
        ConicStatus::AlmostPrimalInfeasible => QpStatus::Infeasible,
        ConicStatus::AlmostDualInfeasible => QpStatus::Infeasible,
        ConicStatus::Other => QpStatus::NumericalFailure,
    }
}

/// What a conic outcome means for the quadratic program.
pub fn status_of(s: ConicStatus) -> (r: QpStatus)
    ensures
        r == status_s(s),
{
    match s {
        ConicStatus::Solved | ConicStatus::AlmostSolved => QpStatus::Optimal,
        ConicStatus::MaxIterations => QpStatus::MaxIterations,
        ConicStatus::PrimalInfeasible
        | ConicStatus::DualInfeasible
        | ConicStatus::AlmostPrimalInfeasible
        | ConicStatus::AlmostDualInfeasible => QpStatus::Infeasible,
        ConicStatus::Other => QpStatus::NumericalFailure,
    }
}

/// The solution that a reply stands for. The multipliers are the parts of the
/// dual; those of the inequalities are cut off at zero.
pub open spec fn conic_solution_s<T: Arith>(q: Qp<T>, ans: ConicAnswer<T>) -> Sol<T> {
    Sol {
        x: ans.x,
        objective: objective_s(q.h, q.c, ans.x),
        lambda_eq: slice_s(ans.z, 0, q.be.len()),
        lambda_iq: Seq::new(
            q.bi.len(),
            |i: int| ans.z[q.be.len() + i].max_s(T::zero_s()),
        ),
        status: status_s(ans.status),
        iterations: ans.iterations as usize,
    }
}

/// Reads the solution off a reply.
pub fn conic_solution<S: Scalar>(q: &QpProblem<S>, reply: ConicReply<S>) -> (r: QpSolution<S>)
    requires
        q@.wf(),
        reply.x@.len() == q@.n(),
        reply.z@.len() == q@.be.len() + q@.bi.len(),
    ensures
        r@ == conic_solution_s(q@, reply@),
{
    let m_eq = q.be.len();
    let z = &reply.z;
    let total = z.len();
    let lambda_iq = tabulate(
        q.bi.len(),
        |i: usize| -> (v: S)
            requires
                total == z@.len(),
                m_eq + i < total,
            ensures
                v == z@[m_eq + i].max_s(S::zero_s())
            { z[m_eq + i].larger(S::zero()) },
    );
    let lambda_eq = slice(z, 0, m_eq);
    let objective = objective(q.h, q.c, &reply.x);
    let r = QpSolution {
        x: reply.x,
        objective,
        lambda_eq,
        lambda_iq,
        status: status_of(reply.status),
        iterations: reply.iterations as usize,
    };
    assert(r@.lambda_iq =~= conic_solution_s(q@, reply@).lambda_iq);
    r
}

/// The whole conic solve.
pub open spec fn clarabel_s<T: DenseKernels>(q: Qp<T>, cfg: QpConfig<T>) -> Sol<T> {
    conic_solution_s(q, T::conic_s(conic_problem_s(q, cfg)))
}

/// Solves through the conic solver of the scalar's backend.
pub fn solve_qp_clarabel<S: Backend>(q: &QpProblem<S>, cfg: &QpConfig<S>) -> (r: QpSolution<S>)
    requires
        q@.wf(),
    ensures
        r@ == clarabel_s(q@, *cfg),
        r@.x.len() == q@.n(),
{
    let problem = conic_problem(q, cfg);
    let reply = S::conic(&problem);
    conic_solution(q, reply)
}

} // verus!
