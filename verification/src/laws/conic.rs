//! What the conic solver is asked, and what is made of its answer.

use vstd::prelude::*;

use crate::conic::{
    clarabel_s, cones_s, conic_problem_s, conic_solution_s, csc_s, entries_s, height_s, kept_s,
    law_csc_faithful,
};
use crate::dense::{
    lemma_mat_eq, mvec_s, slice_s, stack_rows_s, transpose_s, vadd_s, vsub_s, vzeros_s, Mat,
};
use crate::exact::lemma_stack_mvec;
use crate::kernels::{cone_rows_s, Cone, Conic, ConicAnswer, ConicStatus, CscView, DenseKernels};
use crate::laws::accuracy::lemma_stack_transpose;
use crate::laws::agree::room_s;
use crate::laws::kkt::lagrangian_s;
use crate::qp::{Qp, QpConfig, QpStatus};
use crate::scalar::{lit_s, Arith};

verus! {

/// Place `k` of the storage holds row `i` of column `j`.
pub open spec fn stored_at(c: CscView<real>, i: int, j: int, k: int) -> bool {
    c.col_ptr[j] <= k < c.col_ptr[j + 1] && c.row_idx[k] == i
}

/// The entry that a matrix in compressed columns has in row `i` and column `j`.
pub open spec fn entry_s(c: CscView<real>, i: int, j: int) -> real {
    if exists|k: int| #[trigger] stored_at(c, i, j, k) {
        c.vals[choose|k: int| #[trigger] stored_at(c, i, j, k)]
    } else {
        0real
    }
}

/// The matrix that the storage stands for.
pub open spec fn dense_s(c: CscView<real>) -> Mat<real> {
    Mat::build(c.rows, c.cols, |i: int, j: int| entry_s(c, i, j))
}

/// The symmetric matrix whose upper triangle the storage holds.
pub open spec fn symmetric_s(c: CscView<real>) -> Mat<real> {
    Mat::build(
        c.rows,
        c.cols,
        |i: int, j: int|
            if i <= j {
                entry_s(c, i, j)
            } else {
                entry_s(c, j, i)
            },
    )
}

/// Storage can count the entries.
pub open spec fn storable(m: Mat<real>, upper: bool) -> bool {
    m.nrows() <= usize::MAX && entries_s(m, upper, m.ncols()).len() <= usize::MAX
}

/// The compressed form has the entries of the matrix, but for those of at most
/// `1e-15`, which are left out; where the upper triangle is asked for, nothing
/// below the diagonal is stored.
pub proof fn law_csc_entries(m: Mat<real>, upper: bool, i: int, j: int)
    requires
        m.wf(),
        upper ==> m.nrows() == m.ncols(),
        storable(m, upper),
        0 <= i < m.nrows(),
        0 <= j < m.ncols(),
    ensures
        csc_s(m, upper).rows == m.nrows(),
        csc_s(m, upper).cols == m.ncols(),
        !upper || i <= j ==> entry_s(csc_s(m, upper), i, j) == (if m.at(i, j) > lit_s::<real>(1, -15)
            || m.at(i, j) < -lit_s::<real>(1, -15) {
            m.at(i, j)
        } else {
            0real
        }),
        upper && i > j ==> forall|k: int| !#[trigger] stored_at(csc_s(m, upper), i, j, k),
{
    let c = csc_s(m, upper);
    if !upper || i <= j {
        law_csc_faithful(m, upper, i, j);
        assert(kept_s(m.at(i, j)) <==> (m.at(i, j) > lit_s::<real>(1, -15) || m.at(i, j) < -lit_s::<
            real,
        >(1, -15)));
        if kept_s(m.at(i, j)) {
            let k = choose|k: int|
                c.col_ptr[j] <= k < c.col_ptr[j + 1] && #[trigger] c.row_idx[k] == i;
            assert(stored_at(c, i, j, k));
            let l = choose|k: int| #[trigger] stored_at(c, i, j, k);
            assert(c.vals[l] == m.at(i, j)) by {
                assert(c.row_idx[l] == i);
            }
        } else {
            assert forall|k: int| !#[trigger] stored_at(c, i, j, k) by {
                if stored_at(c, i, j, k) {
                    assert(c.row_idx[k] == i);
                }
            }
        }
    } else {
        assert forall|k: int| !#[trigger] stored_at(c, i, j, k) by {
            if stored_at(c, i, j, k) {
                crate::conic::lemma_entries_prefix(m, upper, j as nat, m.ncols());
                crate::conic::lemma_entries_prefix(m, upper, (j + 1) as nat, m.ncols());
                crate::conic::lemma_entry_at(m, upper, j as nat, m.ncols(), k);
                crate::conic::lemma_column(m, j, height_s(m, upper, j));
            }
        }
    }
}

/// No entry is so small that storage leaves it out, unless it is zero.
pub open spec fn no_tiny(m: Mat<real>) -> bool {
    forall|i: int, j: int|
        0 <= i < m.nrows() && 0 <= j < m.ncols() ==> #[trigger] m.at(i, j) == 0real || m.at(i, j)
            > lit_s::<real>(1, -15) || m.at(i, j) < -lit_s::<real>(1, -15)
}

/// The cone of row `i`.
pub open spec fn cone_at(cones: Seq<Cone>, i: int) -> Cone
    decreases cones.len(),
{
    if cones.len() == 0 {
        Cone::Zero(0)
    } else if i < cone_rows_s(cones.drop_last()) {
        cone_at(cones.drop_last(), i)
    } else {
        cones.last()
    }
}

/// Slack and dual of a row fit its cone: no slack in the zero cone; in the other
/// one neither is negative, and one of them vanishes.
pub open spec fn cone_ok(cone: Cone, s: real, z: real) -> bool {
    match cone {
        Cone::Zero(_) => s == 0real,
        Cone::Nonnegative(_) => s >= 0real && z >= 0real && (s == 0real || z == 0real),
    }
}

/// The answer meets the optimality conditions of the conic problem.
pub open spec fn conic_optimal(p: Conic<real>, a: ConicAnswer<real>) -> bool {
    let am = dense_s(p.a);
    let s = vsub_s(p.b, mvec_s(am, a.x));
    &&& vadd_s(vadd_s(mvec_s(symmetric_s(p.p), a.x), p.q), mvec_s(transpose_s(am), a.z))
        == vzeros_s::<real>(p.q.len())
    &&& forall|i: int|
        0 <= i < p.b.len() ==> #[trigger] cone_ok(cone_at(p.cones, i), s[i], a.z[i])
}

/// `x` and the multipliers meet the optimality conditions of the program:
/// stationarity, both constraint blocks, signs and complementary slackness.
pub open spec fn qp_optimal(q: Qp<real>, x: Seq<real>, le: Seq<real>, li: Seq<real>) -> bool {
    &&& lagrangian_s(q, q.h, x, le, li) == vzeros_s::<real>(q.n())
    &&& mvec_s(q.ae, x) == q.be
    &&& forall|i: int|
        0 <= i < q.bi.len() ==> #[trigger] room_s(q, x)[i] >= 0real && li[i] >= 0real && (room_s(
            q,
            x,
        )[i] == 0real || li[i] == 0real)
}

proof fn lemma_dense(m: Mat<real>)
    requires
        m.wf(),
        storable(m, false),
        no_tiny(m),
    ensures
        dense_s(csc_s(m, false)) == m,
{
    let d = dense_s(csc_s(m, false));
    assert forall|i: int, j: int| 0 <= i < m.nrows() && 0 <= j < m.ncols() implies #[trigger] d.at(
        i,
        j,
    ) == m.at(i, j) by {
        law_csc_entries(m, false, i, j);
        assert(m.at(i, j) == 0real || m.at(i, j) > lit_s::<real>(1, -15) || m.at(i, j) < -lit_s::<
            real,
        >(1, -15));
    }
    lemma_mat_eq(d, m);
}

proof fn lemma_symmetric(h: Mat<real>)
    requires
        h.shaped(h.nrows(), h.nrows()),
        storable(h, true),
        no_tiny(h),
        transpose_s(h) == h,
    ensures
        symmetric_s(csc_s(h, true)) == h,
{
    let d = symmetric_s(csc_s(h, true));
    assert forall|i: int, j: int| 0 <= i < h.nrows() && 0 <= j < h.ncols() implies #[trigger] d.at(
        i,
        j,
    ) == h.at(i, j) by {
        assert(transpose_s(h).at(i, j) == h.at(j, i));
        let (r, c) = if i <= j {
            (i, j)
        } else {
            (j, i)
        };
        law_csc_entries(h, true, r, c);
        assert(h.at(r, c) == 0real || h.at(r, c) > lit_s::<real>(1, -15) || h.at(r, c) < -lit_s::<
            real,
        >(1, -15));
    }
    lemma_mat_eq(d, h);
}

/// The rows of the two blocks lie in their cones.
proof fn lemma_cones(me: nat, mi: nat, i: int)
    requires
        me + mi <= usize::MAX,
        0 <= i < me + mi,
    ensures
        i < me ==> cone_at(cones_s(me, mi), i) == Cone::Zero(me as usize),
        i >= me ==> cone_at(cones_s(me, mi), i) == Cone::Nonnegative(mi as usize),
{
    let c = cones_s(me, mi);
    reveal_with_fuel(cone_at, 3);
    reveal_with_fuel(cone_rows_s, 3);
    if me > 0 && mi > 0 {
        assert(c.drop_last() =~= seq![Cone::Zero(me as usize)]);
        assert(c.drop_last().drop_last() =~= Seq::empty());
    } else {
        assert(c.drop_last() =~= Seq::empty());
    }
}

/// The conic solver is asked the stated question: an answer meets the optimality
/// conditions of the conic problem exactly where its point, with the duals of the
/// two blocks as multipliers, meets those of the program. The solver is given the
/// configured limits.
pub proof fn law_conic_question(q: Qp<real>, cfg: QpConfig<real>, a: ConicAnswer<real>)
    requires
        q.wf(),
        transpose_s(q.h) == q.h,
        no_tiny(q.h),
        no_tiny(stack_rows_s(q.ae, q.ai)),
        storable(q.h, true),
        storable(stack_rows_s(q.ae, q.ai), false),
        a.x.len() == q.n(),
        a.z.len() == q.be.len() + q.bi.len(),
    ensures
        conic_optimal(conic_problem_s(q, cfg), a) <==> qp_optimal(
            q,
            a.x,
            slice_s(a.z, 0, q.be.len()),
            slice_s(a.z, q.be.len(), q.bi.len()),
        ),
        conic_problem_s(q, cfg).tol_feas == cfg.feasibility_tol,
        conic_problem_s(q, cfg).tol_gap == cfg.optimality_tol,
        cfg.max_iters <= u32::MAX ==> conic_problem_s(q, cfg).max_iter == cfg.max_iters,
{
    let p = conic_problem_s(q, cfg);
    let am = stack_rows_s(q.ae, q.ai);
    let (me, mi, x) = (q.be.len(), q.bi.len(), a.x);
    let (le, li) = (slice_s(a.z, 0, me), slice_s(a.z, me, mi));
    lemma_dense(am);
    lemma_symmetric(q.h);
    assert(a.z =~= le + li);
    lemma_stack_transpose(q.ae, q.ai, le, li);
    lemma_stack_mvec(q.ae, q.ai, x);
    let at = transpose_s(am);
    let lag = lagrangian_s(q, q.h, x, le, li);
    assert(lag =~= vadd_s(vadd_s(mvec_s(q.h, x), q.c), mvec_s(at, a.z)));
    let s = vsub_s(p.b, mvec_s(am, x));
    assert forall|i: int| 0 <= i < me implies s[i] == q.be[i] - mvec_s(q.ae, x)[i] by {}
    assert forall|i: int| 0 <= i < mi implies s[me + i] == #[trigger] room_s(q, x)[i] && a.z[me + i]
        == li[i] by {}
    if conic_optimal(p, a) {
        assert forall|i: int| 0 <= i < me implies mvec_s(q.ae, x)[i] == q.be[i] by {
            lemma_cones(me, mi, i);
            assert(cone_ok(cone_at(p.cones, i), s[i], a.z[i]));
        }
        assert(mvec_s(q.ae, x) =~= q.be);
        assert forall|i: int| 0 <= i < mi implies #[trigger] room_s(q, x)[i] >= 0real && li[i]
            >= 0real && (room_s(q, x)[i] == 0real || li[i] == 0real) by {
            lemma_cones(me, mi, me + i);
            assert(cone_ok(cone_at(p.cones, me + i), s[me + i], a.z[me + i]));
        }
    }
    if qp_optimal(q, x, le, li) {
        assert forall|i: int| 0 <= i < p.b.len() implies #[trigger] cone_ok(
            cone_at(p.cones, i),
            s[i],
            a.z[i],
        ) by {
            lemma_cones(me, mi, i);
            if i >= me {
                let j = i - me;
                assert(s[me + j] == room_s(q, x)[j]);
                assert(room_s(q, x)[j] >= 0real);
            }
        }
    }
}

/// What is made of a conic answer: the point and the duals as they are, a
/// negative dual of an inequality being taken for zero; it is optimal exactly
/// where the solver says solved or almost solved, infeasible where the solver
/// says so of either problem, and otherwise spent or failed.
pub proof fn law_conic_answer(q: Qp<real>, a: ConicAnswer<real>)
    requires
        a.z.len() == q.be.len() + q.bi.len(),
    ensures
        ({
            let sol = conic_solution_s(q, a);
            &&& sol.x == a.x
            &&& sol.lambda_eq.len() == q.be.len()
            &&& sol.lambda_iq.len() == q.bi.len()
            &&& forall|i: int| 0 <= i < q.be.len() ==> #[trigger] sol.lambda_eq[i] == a.z[i]
            &&& forall|i: int|
                0 <= i < q.bi.len() ==> #[trigger] sol.lambda_iq[i] >= 0real && (a.z[q.be.len() + i]
                    >= 0real ==> sol.lambda_iq[i] == a.z[q.be.len() + i]) && (a.z[q.be.len() + i]
                    < 0real ==> sol.lambda_iq[i] == 0real)
            &&& sol.iterations == a.iterations
            &&& sol.status == QpStatus::Optimal <==> a.status == ConicStatus::Solved || a.status
                == ConicStatus::AlmostSolved
            &&& sol.status == QpStatus::MaxIterations <==> a.status == ConicStatus::MaxIterations
            &&& sol.status == QpStatus::NumericalFailure <==> a.status == ConicStatus::Other
        }),
{
}

/// A conic solve whose answer is optimal gives an optimum of the program.
pub proof fn law_conic_solve(q: Qp<real>, cfg: QpConfig<real>)
    requires
        q.wf(),
        transpose_s(q.h) == q.h,
        no_tiny(q.h),
        no_tiny(stack_rows_s(q.ae, q.ai)),
        storable(q.h, true),
        storable(stack_rows_s(q.ae, q.ai), false),
        conic_optimal(conic_problem_s(q, cfg), real::conic_s(conic_problem_s(q, cfg))),
    ensures
        ({
            let sol = clarabel_s(q, cfg);
            qp_optimal(q, sol.x, sol.lambda_eq, sol.lambda_iq)
        }),
{
    let p = conic_problem_s(q, cfg);
    let a = real::conic_s(p);
    crate::kernels::lemma_conic_fits(p);
    law_conic_question(q, cfg, a);
    law_conic_answer(q, a);
    let sol = clarabel_s(q, cfg);
    let li = slice_s(a.z, q.be.len(), q.bi.len());
    assert forall|i: int| 0 <= i < q.bi.len() implies sol.lambda_iq[i] == li[i] by {
        assert(room_s(q, a.x)[i] >= 0real);
        assert(sol.lambda_iq[i] >= 0real);
    }
    assert(sol.lambda_iq =~= li);
    assert(sol.lambda_eq =~= slice_s(a.z, 0, q.be.len()));
}

} // verus!
