//! The incrementally factorised block of active constraints.
//!
//! An [`ActiveFactor`] holds the active rows `a_i` (equalities first, then the
//! working set), their cached columns `y_i = H^-1 * a_i`, and a lower
//! triangular factor `L` of the Schur complement `S_ij = a_i . y_j`. Rows are
//! appended and deleted without factorising anew.

use vstd::prelude::*;

use crate::dense::{
    deep, dot, dot_s, norm_sq, norm_sq_s, tabulate, vadd, vadd_s, vcopy, vscale, vscale_s,
};
use crate::scalar::{lit_s, Arith, Scalar};
use crate::triangular::{below_s, chol_solve, chol_solve_s, forward, forward_s, lower_rows};

verus! {

/// The model of an [`ActiveFactor`].
#[verifier::ext_equal]
pub struct Fac<T> {
    pub rows: Seq<Seq<T>>,
    pub y: Seq<Seq<T>>,
    pub l: Seq<Seq<T>>,
}

impl<T> Fac<T> {
    pub open spec fn len(self) -> nat {
        self.rows.len()
    }

    /// One cached column and one factor row per active row; row `i` of the
    /// factor has `i + 1` entries.
    pub open spec fn shaped(self) -> bool {
        &&& self.y.len() == self.rows.len()
        &&& self.l.len() == self.rows.len()
        &&& forall|i: int| 0 <= i < self.rows.len() ==> (#[trigger] self.l[i]).len() == i + 1
    }

    /// Well shaped, with active rows and cached columns of `n` entries.
    pub open spec fn wf(self, n: nat) -> bool {
        &&& self.shaped()
        &&& forall|i: int| 0 <= i < self.rows.len() ==> (#[trigger] self.rows[i]).len() == n
        &&& forall|i: int| 0 <= i < self.rows.len() ==> (#[trigger] self.y[i]).len() == n
    }

    pub open spec fn empty() -> Fac<T> {
        Fac { rows: Seq::empty(), y: Seq::empty(), l: Seq::empty() }
    }
}

/// The products of the active rows with `z`.
pub open spec fn dot_rows_s<T: Arith>(f: Fac<T>, z: Seq<T>) -> Seq<T> {
    Seq::new(f.rows.len(), |j: int| dot_s(f.rows[j], z))
}

/// What is left of `row . y` once the part that the active rows explain is
/// taken out: the squared last pivot of the enlarged factor.
pub open spec fn pivot_sq_s<T: Arith>(d: T, w: Seq<T>) -> T {
    d.sub_s(norm_sq_s(w))
}

/// Whether a row with these values counts as linearly dependent on the
/// active ones.
pub open spec fn dependent_s<T: Arith>(d: T, w: Seq<T>) -> bool {
    pivot_sq_s(d, w).le_s(lit_s::<T>(1, -12).mul_s(d.abs_s().max_s(T::one_s())))
}

/// `f` with `row` appended, or nothing where `row` depends linearly on the
/// active rows. `chol` is the factor of the Hessian.
pub open spec fn try_push_s<T: Arith>(f: Fac<T>, row: Seq<T>, chol: Seq<Seq<T>>) -> Option<
    Fac<T>,
> {
    let y = chol_solve_s(chol, row);
    let w = forward_s(f.l, dot_rows_s(f, y));
    let d = dot_s(row, y);
    if dependent_s(d, w) {
        None
    } else {
        Some(
            Fac {
                rows: f.rows.push(row),
                y: f.y.push(y),
                l: f.l.push(w.push(pivot_sq_s(d, w).sqrt_s())),
            },
        )
    }
}

/// The factor rows with row and column `k` taken out.
pub open spec fn dropped_s<T>(l: Seq<Seq<T>>, k: int) -> Seq<Seq<T>> {
    Seq::new(
        (l.len() - 1) as nat,
        |i: int|
            if i < k {
                l[i]
            } else {
                l[i + 1].remove(k)
            },
    )
}

/// The cosine-like ratio `r / l_jj` of one update step.
pub open spec fn ratio_c_s<T: Arith>(ljj: T, vj: T) -> T {
    ljj.hypot_s(vj).div_s(ljj)
}

/// The sine-like ratio `v_j / l_jj` of one update step.
pub open spec fn ratio_s_s<T: Arith>(ljj: T, vj: T) -> T {
    vj.div_s(ljj)
}

/// Column `k + j` of the factor after one step of the rank-one update by `v`.
pub open spec fn update_l_s<T: Arith>(l: Seq<Seq<T>>, v: Seq<T>, k: int, j: int) -> Seq<Seq<T>> {
    let q = k + j;
    let c = ratio_c_s(l[q][q], v[j]);
    let s = ratio_s_s(l[q][q], v[j]);
    Seq::new(
        l.len(),
        |i: int|
            if i < q {
                l[i]
            } else if i == q {
                l[i].update(q, l[q][q].hypot_s(v[j]))
            } else {
                l[i].update(q, l[i][q].add_s(s.mul_s(v[i - k])).div_s(c))
            },
    )
}

/// The update vector after that step.
pub open spec fn update_v_s<T: Arith>(l: Seq<Seq<T>>, v: Seq<T>, k: int, j: int) -> Seq<T> {
    let q = k + j;
    let c = ratio_c_s(l[q][q], v[j]);
    let s = ratio_s_s(l[q][q], v[j]);
    Seq::new(
        v.len(),
        |i: int|
            if i <= j {
                v[i]
            } else {
                c.mul_s(v[i]).sub_s(s.mul_s(l[k + i][q].add_s(s.mul_s(v[i])).div_s(c)))
            },
    )
}

/// The rank-one update of the block from row `k` on, from its column `j` on.
pub open spec fn repair_s<T: Arith>(l: Seq<Seq<T>>, v: Seq<T>, k: int, j: nat) -> Seq<Seq<T>>
    decreases v.len() - j,
{
    if j >= v.len() {
        l
    } else {
        repair_s(update_l_s(l, v, k, j as int), update_v_s(l, v, k, j as int), k, j + 1)
    }
}

/// `f` without its active row `k`.
pub open spec fn remove_s<T: Arith>(f: Fac<T>, k: int) -> Fac<T> {
    Fac {
        rows: f.rows.remove(k),
        y: f.y.remove(k),
        l: repair_s(dropped_s(f.l, k), below_s(f.l, k), k, 0),
    }
}

/// `h_inv_r` minus the cached columns weighted by the first `n` entries of
/// `nu`.
pub open spec fn project_upto_s<T: Arith>(f: Fac<T>, h_inv_r: Seq<T>, nu: Seq<T>, n: nat) -> Seq<T>
    decreases n,
{
    if n == 0 {
        h_inv_r
    } else {
        vadd_s(
            vscale_s(nu[n - 1].neg_s(), f.y[n - 1]),
            project_upto_s(f, h_inv_r, nu, (n - 1) as nat),
        )
    }
}

/// `h_inv_r - (H^-1 * A^T) * nu`.
pub open spec fn project_s<T: Arith>(f: Fac<T>, h_inv_r: Seq<T>, nu: Seq<T>) -> Seq<T> {
    project_upto_s(f, h_inv_r, nu, f.len())
}

/// The solution of `S * nu = rhs` through the factor.
pub open spec fn solve_schur_s<T: Arith>(f: Fac<T>, rhs: Seq<T>) -> Seq<T> {
    chol_solve_s(f.l, rhs)
}

/// See the module's description.
pub struct ActiveFactor<S> {
    rows: Vec<Vec<S>>,
    y: Vec<Vec<S>>,
    l: Vec<Vec<S>>,
}

impl<S> View for ActiveFactor<S> {
    type V = Fac<S>;

    closed spec fn view(&self) -> Fac<S> {
        Fac { rows: deep(self.rows), y: deep(self.y), l: deep(self.l) }
    }
}

/// Appends `row` to the rows that `v` holds.
proof fn lemma_deep_push<T>(v: Vec<Vec<T>>, w: Vec<Vec<T>>, row: Vec<T>)
    requires
        w@ == v@.push(row),
    ensures
        deep(w) == deep(v).push(row@),
{
    assert(deep(w) =~= deep(v).push(row@));
}

proof fn lemma_deep_remove<T>(v: Vec<Vec<T>>, w: Vec<Vec<T>>, k: int)
    requires
        0 <= k < v@.len(),
        w@ == v@.remove(k),
    ensures
        deep(w) == deep(v).remove(k),
{
    assert(deep(w) =~= deep(v).remove(k));
}

pub proof fn lemma_repair_shape<T: Arith>(l: Seq<Seq<T>>, v: Seq<T>, k: int, j: nat)
    requires
        0 <= k,
        k + v.len() == l.len(),
        forall|i: int| 0 <= i < l.len() ==> (#[trigger] l[i]).len() == i + 1,
    ensures
        repair_s(l, v, k, j).len() == l.len(),
        forall|i: int| 0 <= i < l.len() ==> (#[trigger] repair_s(l, v, k, j)[i]).len() == i + 1,
    decreases v.len() - j,
{
    if j < v.len() {
        lemma_repair_shape(
            update_l_s(l, v, k, j as int),
            update_v_s(l, v, k, j as int),
            k,
            j + 1,
        );
    }
}

/// Taking a row out keeps the factor well formed.
pub proof fn lemma_remove_wf<T: Arith>(f: Fac<T>, k: int, n: nat)
    requires
        f.wf(n),
        0 <= k < f.len(),
    ensures
        remove_s(f, k).wf(n),
        remove_s(f, k).len() == f.len() - 1,
{
    lemma_repair_shape(dropped_s(f.l, k), below_s(f.l, k), k, 0);
}

/// One step of the rank-one update: the factor rows and the vector after
/// column `k + j` has been treated.
fn update_column<S: Scalar>(l: &Vec<Vec<S>>, v: &Vec<S>, k: usize, j: usize) -> (r: (
    Vec<Vec<S>>,
    Vec<S>,
))
    requires
        j < v@.len(),
        k + v@.len() == l@.len(),
        forall|i: int| 0 <= i < l@.len() ==> (#[trigger] deep(*l)[i]).len() == i + 1,
    ensures
        deep(r.0) == update_l_s(deep(*l), v@, k as int, j as int),
        r.1@ == update_v_s(deep(*l), v@, k as int, j as int),
{
    let ghost lv = deep(*l);
    let n = l.len();
    let q = k + j;
    assert(l@[q as int]@ == lv[q as int]);
    let ljj = l[q][q];
    let r = ljj.hypotenuse(v[j]);
    let c = r.over(ljj);
    let s = v[j].over(ljj);
    let rows = tabulate(
        n,
        |i: usize| -> (row: Vec<S>)
            requires
                lv == deep(*l),
                n == l@.len(),
                i < n,
                q == k + j,
                j < v@.len(),
                k + v@.len() == n,
                ljj == lv[q as int][q as int],
                r == ljj.hypot_s(v@[j as int]),
                c == ratio_c_s(ljj, v@[j as int]),
                s == ratio_s_s(ljj, v@[j as int]),
                lv[i as int].len() == i + 1,
            ensures
                row@ == update_l_s(lv, v@, k as int, j as int)[i as int]
            {
                assert(l@[i as int]@ == lv[i as int]);
                let mut row = vcopy(&l[i]);
                if i == q {
                    row[q] = r;
                } else if q < i {
                    let lij = row[q];
                    row[q] = lij.plus(s.times(v[i - k])).over(c);
                }
                row
            },
    );
    assert(deep(rows) =~= update_l_s(lv, v@, k as int, j as int));
    let w = tabulate(
        v.len(),
        |i: usize| -> (x: S)
            requires
                lv == deep(*l),
                n == l@.len(),
                i < v@.len(),
                q == k + j,
                j < v@.len(),
                k + v@.len() == n,
                ljj == lv[q as int][q as int],
                c == ratio_c_s(ljj, v@[j as int]),
                s == ratio_s_s(ljj, v@[j as int]),
                lv[k + i].len() == k + i + 1,
            ensures
                x == update_v_s(lv, v@, k as int, j as int)[i as int]
            {
                if i <= j {
                    v[i]
                } else {
                    assert(l@[k + i]@ == lv[k + i]);
                    let lij = l[k + i][q];
                    c.times(v[i]).minus(s.times(lij.plus(s.times(v[i])).over(c)))
                }
            },
    );
    assert(w@ =~= update_v_s(lv, v@, k as int, j as int));
    (rows, w)
}

impl<S: Scalar> ActiveFactor<S> {
    /// An empty factor with room for `cap` rows.
    pub fn with_capacity(cap: usize) -> (f: ActiveFactor<S>)
        ensures
            f@ == Fac::<S>::empty(),
    {
        let f = ActiveFactor {
            rows: Vec::with_capacity(cap),
            y: Vec::with_capacity(cap),
            l: Vec::with_capacity(cap),
        };
        assert(f@.rows =~= Seq::empty());
        assert(f@.y =~= Seq::empty());
        assert(f@.l =~= Seq::empty());
        f
    }

    /// The number of active rows.
    pub fn len(&self) -> (n: usize)
        ensures
            n == self@.len(),
    {
        self.rows.len()
    }

    /// Appends one row and returns `true`, or leaves the factor as it is and
    /// returns `false` where the row depends linearly on the active rows.
    pub fn try_push(&mut self, row: Vec<S>, chol: &Vec<Vec<S>>) -> (ok: bool)
        requires
            old(self)@.wf(chol@.len()),
            row@.len() == chol@.len(),
            lower_rows(deep(*chol)),
        ensures
            final(self)@.wf(chol@.len()),
            match try_push_s(old(self)@, row@, deep(*chol)) {
                Some(f) => ok && final(self)@ == f,
                None => !ok && final(self)@ == old(self)@,
            },
    {
        let ghost f0 = self@;
        let y = chol_solve(chol, &row);
        let s = self.dot_rows(&y);
        let mut w = forward(&self.l, &s);
        let d = dot(&row, &y);
        let d2 = d.minus(norm_sq(&w));
        if d2.at_most(S::dec(1, -12).times(d.magnitude().larger(S::one()))) {
            return false;
        }
        let ghost w0 = w@;
        w.push(d2.root());
        let ghost (r0, y0, l0) = (self.rows, self.y, self.l);
        self.rows.push(row);
        self.y.push(y);
        self.l.push(w);
        proof {
            lemma_deep_push(r0, self.rows, row);
            lemma_deep_push(y0, self.y, y);
            lemma_deep_push(l0, self.l, w);
        }
        true
    }

    /// Takes the active row at position `k` out: its row and column leave the
    /// factor, and the block behind it is repaired by a rank-one update with
    /// the deleted column.
    pub fn remove(&mut self, k: usize)
        requires
            old(self)@.shaped(),
            k < old(self)@.len(),
        ensures
            final(self)@ == remove_s(old(self)@, k as int),
            final(self)@.shaped(),
    {
        let ghost f0 = self@;
        let ghost l0 = deep(self.l);
        let m = self.l.len();
        let t = m - k - 1;
        let mut v = tabulate(
            t,
            |i: usize| -> (x: S)
                requires
                    l0 == deep(self.l),
                    m == self.l@.len(),
                    k + 1 + i < m,
                    l0[k + 1 + i].len() == k + 1 + i + 1,
                ensures
                    x == below_s(l0, k as int)[i as int]
                {
                    assert(self.l@[k + 1 + i]@ == l0[k + 1 + i]);
                    self.l[k + 1 + i][k]
                },
        );
        assert(v@ =~= below_s(l0, k as int));
        let mut l = tabulate(
            m - 1,
            |i: usize| -> (row: Vec<S>)
                requires
                    l0 == deep(self.l),
                    m == self.l@.len(),
                    i + 1 < m,
                    k < m,
                    l0[i as int].len() == i + 1,
                    l0[i + 1].len() == i + 2,
                ensures
                    row@ == dropped_s(l0, k as int)[i as int]
                {
                    if i < k {
                        assert(self.l@[i as int]@ == l0[i as int]);
                        vcopy(&self.l[i])
                    } else {
                        assert(self.l@[i + 1]@ == l0[i + 1]);
                        let mut row = vcopy(&self.l[i + 1]);
                        row.remove(k);
                        row
                    }
                },
        );
        assert(deep(l) =~= dropped_s(l0, k as int));
        let ghost goal = repair_s(deep(l), v@, k as int, 0);
        proof {
            lemma_repair_shape(deep(l), v@, k as int, 0);
        }
        let mut j: usize = 0;
        while j < t
            invariant
                t == m - k - 1,
                k < m,
                j <= t,
                v@.len() == t,
                l@.len() == m - 1,
                forall|i: int| 0 <= i < l@.len() ==> (#[trigger] deep(l)[i]).len() == i + 1,
                repair_s(deep(l), v@, k as int, j as nat) == goal,
            decreases t - j,
        {
            let (l2, v2) = update_column(&l, &v, k, j);
            assert(l2@.len() == deep(l2).len());
            l = l2;
            v = v2;
            j += 1;
        }
        let ghost (r0, y0) = (self.rows, self.y);
        self.l = l;
        self.rows.remove(k);
        self.y.remove(k);
        proof {
            lemma_deep_remove(r0, self.rows, k as int);
            lemma_deep_remove(y0, self.y, k as int);
        }
    }

    /// The products of the active rows with `z`.
    pub fn dot_rows(&self, z: &Vec<S>) -> (r: Vec<S>)
        requires
            self@.wf(z@.len()),
        ensures
            r@ == dot_rows_s(self@, z@),
    {
        let r = tabulate(
            self.rows.len(),
            |j: usize| -> (v: S)
                requires
                    self@.wf(z@.len()),
                    j < self.rows@.len(),
                ensures
                    v == dot_s(self@.rows[j as int], z@)
                {
                    assert(self.rows@[j as int]@ == self@.rows[j as int]);
                    dot(&self.rows[j], z)
                },
        );
        assert(r@ =~= dot_rows_s(self@, z@));
        r
    }

    /// Solves `S * nu = rhs`.
    pub fn solve_schur(&self, rhs: &Vec<S>) -> (nu: Vec<S>)
        requires
            self@.shaped(),
            rhs@.len() == self@.len(),
        ensures
            nu@ == solve_schur_s(self@, rhs@),
            nu@.len() == self@.len(),
    {
        chol_solve(&self.l, rhs)
    }

    /// `h_inv_r - (H^-1 * A^T) * nu`, from the cached columns.
    pub fn project(&self, h_inv_r: &Vec<S>, nu: &Vec<S>) -> (p: Vec<S>)
        requires
            self@.wf(h_inv_r@.len()),
            nu@.len() == self@.len(),
        ensures
            p@ == project_s(self@, h_inv_r@, nu@),
            p@.len() == h_inv_r@.len(),
    {
        let mut p = vcopy(h_inv_r);
        let mut j: usize = 0;
        while j < self.y.len()
            invariant
                self@.wf(h_inv_r@.len()),
                nu@.len() == self@.len(),
                self.y@.len() == self@.len(),
                j <= self.y@.len(),
                p@.len() == h_inv_r@.len(),
                p@ == project_upto_s(self@, h_inv_r@, nu@, j as nat),
            decreases self.y@.len() - j,
        {
            assert(self.y@[j as int]@ == self@.y[j as int]);
            p = vadd(&vscale(nu[j].negated(), &self.y[j]), &p);
            j += 1;
        }
        p
    }
}

} // verus!
