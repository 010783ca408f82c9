# misa-wbc

Model-agnostic whole-body control: a hierarchical quadratic program and, on top
of it, a vocabulary of tasks, constraints and affine optimization variables. The
library solves a prioritized QP over the matrices it is handed (mass matrix,
nonlinear term, contact Jacobians and their bias); it knows no robot model.

The library is verified with Verus. Every function states which value it
computes, and the laws of the library are proved from those statements.

## Layout

- `src/` - the verified library.
  - `scalar`, `dense`, `triangular`, `kernels` - arithmetic, matrices, triangular
    solves, and the factorisations that a scalar type provides.
  - `qp` with `active_set`, `active_start`, `factor`, `ipm`, `admm`, `conic` - the
    QP solver, its four methods and its warm-start workspace.
  - `task`, `affine`, `tasks`, `refgen`, `dynamics` - tasks, named variables, the
    task catalogue, reference generators, and the equation of motion in three
    formulations.
  - `ho_qp`, `solve`, `stack`, `contact` - the hierarchy, its two strategies, named
    stacks with a report, contact-force distribution.
  - `fixed`, `elimination` - a fixed-point scalar with its factorisations.
  - `exact`, `laws` - linear algebra over `real`, and the laws.
- `tests/` - tests on double-precision floats and on fixed-point numbers.
- `app/` - the library on `f64`, with `nalgebra` for the factorisations and
  Clarabel for the conic problems; printing; the Python module.

## Scalars

Everything is generic in the scalar type, and a contract names the operations
that are applied, in order, so it is true of rounded arithmetic too. What those
operations amount to is proved over `real`, where arithmetic is exact: that an
optimal answer meets the optimality conditions within the solver's tolerances
(stationarity, feasibility, signs and complementary slackness) and within the
ridge, where the active-set method ridged the Hessian; that the solvers agree on
a strongly convex problem, that priority is strict, that a factor stays a
factor. Verus has no square root of reals; where a law needs one, the law says
so. Nothing is proved of what a conic solver outside the library returns.
