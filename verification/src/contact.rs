//! Distribution of a body wrench over the feet in contact, with friction and
//! unilaterality as hard constraints.

use vstd::prelude::*;

use crate::affine::{coef_affine_s, var_affine_s, Aff, Affine, Block, Var};
use crate::dense::{identity_s, vfill, vfill_s, vzeros, vzeros_s, Mat, Matrix};
use crate::kernels::{Backend, DenseKernels};
use crate::scalar::{Arith, Scalar};
use crate::solve::{
    default_solve_config_s, levels_ok_s, solve, solve_s, tasks_of, SolveConfig, WbcError,
};
use crate::task::{empty_s, ge_s, le_s, plus_s, weight_s, Task, Tsk};
use crate::tasks::{friction_pyramid, friction_pyramid_s, regularize, track, track_s};

verus! {

/// Why a distribution did not run.
#[derive(Debug, Clone, Copy, PartialEq, Eq, Structural)]
pub enum ContactError {
    /// The wrench map is not six rows by three columns per leg.
    MapShape { legs: usize, rows: usize, cols: usize },
    /// The wrench does not have six entries.
    WrenchLength { found: usize },
    /// The solve itself was refused.
    Solve(WbcError),
}

/// The force block of a leg.
pub open spec fn leg_s(leg: nat, n: nat) -> Block {
    Block { offset: 3 * leg, size: 3, n }
}

/// The row that picks the vertical force.
pub open spec fn vertical_s<T: Arith>() -> Mat<T> {
    Mat { cols: 3, rows: seq![seq![T::zero_s(), T::zero_s(), T::one_s()]] }
}

/// `hard` with the constraints of one leg: friction pyramid and vertical cap
/// in stance, zero force in swing.
pub open spec fn with_leg_s<T: Arith>(
    hard: Tsk<T>,
    f: Aff<T>,
    in_stance: bool,
    mu: T,
    fz_max: T,
) -> Tsk<T> {
    if in_stance {
        plus_s(
            plus_s(hard, friction_pyramid_s(f, mu)),
            le_s(coef_affine_s(vertical_s(), f), vfill_s(1, fz_max)),
        )
    } else {
        plus_s(plus_s(hard, le_s(f, vzeros_s(3))), ge_s(f, vzeros_s(3)))
    }
}

/// The hard constraints of the first `k` legs.
pub open spec fn hard_s<T: Arith>(stance: Seq<bool>, mu: T, fz_max: T, n: nat, k: nat) -> Tsk<T>
    decreases k,
{
    if k == 0 {
        empty_s(n)
    } else {
        with_leg_s(
            hard_s(stance, mu, fz_max, n, (k - 1) as nat),
            var_affine_s(leg_s((k - 1) as nat, n)),
            stance[k - 1],
            mu,
            fz_max,
        )
    }
}

/// All forces.
pub open spec fn all_forces_s<T: Arith>(n: nat) -> Aff<T> {
    Aff { m: identity_s(n), q: vzeros_s(n) }
}

/// The levels: hard constraints, then the wrench, then the regularisation.
pub open spec fn contact_levels_s<T: Arith>(
    wrench_map: Mat<T>,
    wrench: Seq<T>,
    stance: Seq<bool>,
    mu: T,
    fz_max: T,
    reg: T,
) -> Seq<Tsk<T>> {
    let n = 3 * stance.len();
    let f = all_forces_s::<T>(n);
    seq![
        hard_s(stance, mu, fz_max, n, stance.len()),
        track_s(coef_affine_s(wrench_map, f), wrench),
        weight_s(track_s(f, vzeros_s(n)), reg),
    ]
}

/// The forces, or why there are none. A degraded solve still gives its point.
pub open spec fn distribute_s<T: DenseKernels>(
    wrench_map: Mat<T>,
    wrench: Seq<T>,
    stance: Seq<bool>,
    mu: T,
    fz_max: T,
    reg: T,
) -> Result<Seq<T>, ContactError> {
    if wrench_map.nrows() != 6 || wrench_map.ncols() != 3 * stance.len() {
        Err(
            ContactError::MapShape {
                legs: stance.len() as usize,
                rows: wrench_map.nrows() as usize,
                cols: wrench_map.ncols() as usize,
            },
        )
    } else if wrench.len() != 6 {
        Err(ContactError::WrenchLength { found: wrench.len() as usize })
    } else {
        match solve_s(
            contact_levels_s(wrench_map, wrench, stance, mu, fz_max, reg),
            default_solve_config_s(),
            None,
        ) {
            Ok(s) => Ok(s.x),
            Err(e) => Err(ContactError::Solve(e)),
        }
    }
}

fn hard<S: Scalar>(stance: &Vec<bool>, mu: S, fz_max: S, n: usize) -> (t: Task<S>)
    requires
        n == 3 * stance@.len(),
    ensures
        t@ == hard_s(stance@, mu, fz_max, n as nat, stance@.len()),
        t@.wf(),
        t@.n() == n,
{
    let mut t: Task<S> = Task::empty(n);
    let mut leg: usize = 0;
    while leg < stance.len()
        invariant
            n == 3 * stance@.len(),
            leg <= stance@.len(),
            t@ == hard_s(stance@, mu, fz_max, n as nat, leg as nat),
            t@.wf(),
            t@.n() == n,
        decreases stance@.len() - leg,
    {
        let f: Affine<S> = Var::block(3 * leg, 3, n).affine();
        if stance[leg] {
            t = t.plus(&friction_pyramid(&f, mu));
            let sel = Matrix::from_rows(3, vec![vec![S::zero(), S::zero(), S::one()]]);
            assert(sel@.rows =~~= vertical_s::<S>().rows);
            t = t.plus(&Task::le(&Affine::coef_affine(&sel, &f), &vfill(1, fz_max)));
        } else {
            t = t.plus(&Task::le(&f, &vzeros(3)));
            t = t.plus(&Task::ge(&f, &vzeros(3)));
        }
        leg += 1;
    }
    t
}

/// Distributes a body wrench over the legs in stance. Friction, the vertical
/// bounds and the zero force of swing legs are hard; the wrench is tracked
/// below them, and the forces are regularised last.
///
/// - `wrench_map`: 6 rows, 3 columns per leg.
/// - `wrench`: the target, 6 entries.
/// - `stance`: which legs are in contact.
/// - `mu`: friction coefficient; `fz_max`: vertical cap per leg; `reg`: weight
///   of the regularisation.
///
/// The forces come stacked, three per leg.
pub fn distribute_contact_forces<S: Backend>(
    wrench_map: &Matrix<S>,
    wrench: &Vec<S>,
    stance: &Vec<bool>,
    mu: S,
    fz_max: S,
    reg: S,
) -> (r: Result<Vec<S>, ContactError>)
    requires
        wrench_map@.wf(),
    ensures
        match r {
            Ok(f) => distribute_s(wrench_map@, wrench@, stance@, mu, fz_max, reg) == Ok::<
                Seq<S>,
                ContactError,
            >(f@) && f@.len() == 3 * stance@.len(),
            Err(e) => distribute_s(wrench_map@, wrench@, stance@, mu, fz_max, reg) == Err::<
                Seq<S>,
                ContactError,
            >(e),
        },
{
    let legs = stance.len();
    let rows = wrench_map.nrows();
    let n = wrench_map.ncols();
    if rows != 6 || n / 3 != legs || n % 3 != 0 {
        return Err(ContactError::MapShape { legs, rows, cols: n });
    }
    if wrench.len() != 6 {
        return Err(ContactError::WrenchLength { found: wrench.len() });
    }
    let f_all: Affine<S> = Affine::new(Matrix::identity(n), vzeros(n));
    let top = hard(stance, mu, fz_max, n);
    let middle = track(&Affine::coef_affine(wrench_map, &f_all), wrench);
    let low = regularize(&f_all, &vzeros(n)).weight(reg);
    let levels = vec![top, middle, low];
    let ghost ts = tasks_of(levels@);
    assert(ts =~= contact_levels_s(wrench_map@, wrench@, stance@, mu, fz_max, reg));
    proof {
        assert(ts[0] == top@ && ts[1] == middle@ && ts[2] == low@);
        reveal_with_fuel(crate::solve::shared_n_s, 4);
        assert forall|i: int| 0 <= i < ts.len() implies (#[trigger] ts[i]).wf() && ts[i].n()
            == n by {
            if i == 0 {
            } else if i == 1 {
            } else {
                assert(i == 2);
            }
        }
        assert(levels_ok_s(ts));
    }
    match solve(levels.as_slice(), &SolveConfig::default()) {
        Ok(s) => Ok(s.x),
        Err(e) => Err(ContactError::Solve(e)),
    }
}

} // verus!
