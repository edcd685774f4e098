//! Solver support library for square systems of nonlinear equations.
//!
//! The library carries the structural side of the solver: the Jacobian
//! sparsity pattern probed at the initial guess, its block lower-triangular
//! decomposition into an ordered solution plan, the index bookkeeping that
//! projects a full problem onto one block, and the per-block solver
//! waterfall policy. The numeric side (automatic differentiation and the
//! floating-point optimizers) lives with the caller, which hands this
//! library plain values and receives plain values back.

pub mod decompose;
pub mod error;
pub mod graph;
pub mod matching;
pub mod orchestrate;
pub mod params;
pub mod pattern;
pub mod residuals;
pub mod solution_plan;
pub mod sub_problem;
