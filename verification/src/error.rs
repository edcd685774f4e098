//! Error taxonomy of the equation-system core.

use vstd::prelude::*;

verus! {

/// Errors raised while building or solving an equation system.
#[derive(Debug, Clone, PartialEq, Eq, Structural)]
pub enum EqSysError {
    /// The probed Jacobian is not square: the number of residual equations
    /// differs from the number of unknowns.
    DimensionMismatch { n_eqs: usize, n_unks: usize },
    /// The sparsity pattern admits no perfect row/column matching, so no
    /// block-triangular plan with square diagonal blocks exists. Carries the
    /// first equation row for which every augmenting search failed.
    StructurallySingular { row: usize },
    /// Parameter scaling was requested but some prior is zero, so the
    /// logarithmic link function cannot be built. Carries the offending
    /// coordinate.
    ZeroPrior { index: usize },
    /// A sub-problem operation received a vector whose length does not match
    /// the expected one.
    SubproblemShapeMismatch { expected: usize, got: usize },
    /// Gauss-Newton failed: non-finite residuals, rank-deficient normal
    /// equations, or a failed line search.
    GaussNewtonDiverged,
    /// Simulated annealing failed to produce a usable iterate.
    SimulatedAnnealingFailed,
    /// The quasi-Newton polish failed: line-search failure or non-finite cost.
    LbfgsFailed,
}

/// Top-level error of a solver run.
#[derive(Debug, Clone, PartialEq, Eq, Structural)]
pub enum SolverError {
    EqSysError(EqSysError),
}

impl SolverError {
    /// Wraps an equation-system error.
    pub fn from_eq_sys(e: EqSysError) -> (r: SolverError)
        ensures
            r == SolverError::EqSysError(e),
    {
        SolverError::EqSysError(e)
    }
}

} // verus!
