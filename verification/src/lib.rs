//! # misa-wbc: model-agnostic whole-body control
//!
//! A hierarchical whole-body-control library: a hierarchical quadratic program
//! and, on top of it, a vocabulary of tasks, constraints and affine
//! optimization variables. It computes joint accelerations, contact forces and
//! torques by solving a prioritized quadratic program over matrices that the
//! caller hands it; it knows no robot model.
//!
//! ## Layers
//!
//! - [`scalar`], [`dense`], [`triangular`] - arithmetic over any scalar type.
//! - [`kernels`] - the factorisations and the conic solver that a scalar type
//!   provides; [`fixed`] and [`elimination`] provide them for a fixed-point
//!   number.
//! - [`qp`] - the dense QP solver and its four methods: [`active_set`] (with
//!   [`active_start`] and [`factor`]), [`ipm`], [`admm`] and [`conic`].
//! - [`task`] - the elementary task, [`affine`] - variables and affine
//!   expressions, [`tasks`] - the catalogue, [`refgen`] - reference generators,
//!   [`dynamics`] - the equation of motion in three formulations.
//! - [`ho_qp`] - one level of the hierarchy, [`solve`](mod@solve) - the whole
//!   of it, [`stack`] - named levels with a report, [`contact`] - contact-force
//!   distribution, [`text`] - numbers and padding for the texts.
//! - [`exact`] - linear algebra over `real`, [`laws`] - what holds of the library
//!   as a whole.
//!
//! ## Contracts
//!
//! Everything is generic in the scalar, and every contract says exactly which
//! operations are applied, so it holds for rounded arithmetic as it is. The
//! laws of the library are proved in exact arithmetic, over `real`.

pub mod active_set;
pub mod active_start;
pub mod admm;
pub mod affine;
pub mod conic;
pub mod contact;
pub mod dense;
pub mod dynamics;
pub mod elimination;
pub mod exact;
pub mod factor;
pub mod fixed;
pub mod ho_qp;
pub mod ipm;
pub mod kernels;
pub mod laws;
pub mod qp;
pub mod refgen;
pub mod scalar;
pub mod solve;
pub mod stack;
pub mod task;
pub mod tasks;
pub mod text;
pub mod triangular;

pub use affine::{Affine, AsAffine, Var, VarLayout, VarLayoutBuilder};
pub use dense::Matrix;
pub use dynamics::{Dynamics, Extracted, Formulation};
pub use ho_qp::{HoQp, WarmStart};
pub use qp::{
    solve_qp, solve_qp_warm, QpConfig, QpSolution, QpSolver, QpStatus, QpWorkspace,
};
pub use solve::{
    solve, solve_warm, HqpStrategy, Solution, SolveConfig, SolveStatus, Solver, WbcError,
};
pub use stack::{
    Entry, Level, LevelBuilder, LevelReport, Report, Stack, StackSolution, TaskReport,
};
pub use task::Task;
