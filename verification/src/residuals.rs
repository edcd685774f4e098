//! Residual bookkeeping: block filtering, element-wise transforms, and
//! aggregation shapes.
//!
//! The residual functions themselves are numeric values held by the caller;
//! here live the pieces the plan logic needs: which residuals belong to a
//! block, and how many outputs an objective has under each aggregation.

use vstd::prelude::*;
use crate::solution_plan::SolutionBlock;

verus! {

/// Keeps, in block order, the entries of `fns` whose index is an equation of
/// the block. Residual lists are indexed by equation row, so this projects a
/// full residual list onto one block.
pub fn filter_res_fns_to_block<T: Copy>(fns: &Vec<T>, block: &SolutionBlock) -> (r: Vec<T>)
    requires
        crate::solution_plan::idxs_below(block.equation_idxs@, fns@.len() as int),
    ensures
        r@.len() == block.equation_idxs@.len(),
        forall|j: int|
            0 <= j < r@.len() ==> #[trigger] r@[j] == fns@[block.equation_idxs@[j] as int],
{
    let mut out: Vec<T> = Vec::new();
    let mut j: usize = 0;
    while j < block.equation_idxs.len()
        invariant
            j <= block.equation_idxs@.len(),
            crate::solution_plan::idxs_below(block.equation_idxs@, fns@.len() as int),
            out@.len() == j,
            forall|t: int|
                0 <= t < j ==> #[trigger] out@[t] == fns@[block.equation_idxs@[t] as int],
        decreases block.equation_idxs@.len() - j,
    {
        let idx = block.equation_idxs[j];
        out.push(fns[idx]);
        j = j + 1;
    }
    out
}

/// Element-wise identity transform over `n` residuals.
pub struct ResidTransIdentity {
    pub n: usize,
}

impl ResidTransIdentity {
    pub fn new(n: usize) -> (r: ResidTransIdentity)
        ensures
            r.n == n,
    {
        ResidTransIdentity { n }
    }
}

/// Element-wise unscaled square transform (each residual squared) over `n`
/// residuals.
pub struct ResidTransUnscaledL2 {
    pub n: usize,
}

impl ResidTransUnscaledL2 {
    pub fn new(n: usize) -> (r: ResidTransUnscaledL2)
        ensures
            r.n == n,
    {
        ResidTransUnscaledL2 { n }
    }
}

/// Aggregation of the transformed residuals into their sum: one output.
pub struct ResidAggSum;

impl ResidAggSum {
    /// A scalar aggregation always has a single output.
    pub fn num_outputs(&self) -> (r: usize)
        ensures
            r == 1,
    {
        1
    }
}

/// No aggregation: the residual vector is passed through unchanged, as the
/// vector-valued solvers expect.
pub struct ResidNoOpGaussNewton {
    n: usize,
}

impl ResidNoOpGaussNewton {
    /// Number of outputs of the pass-through aggregation.
    pub closed spec fn num_outputs_spec(self) -> int {
        self.n as int
    }

    /// Pass-through over all residuals of the full problem.
    pub fn new_fullprob(n: usize) -> (r: ResidNoOpGaussNewton)
        ensures
            r.num_outputs_spec() == n,
    {
        ResidNoOpGaussNewton { n }
    }

    /// Pass-through over the residuals of one block.
    pub fn new_subprob(block: &SolutionBlock) -> (r: ResidNoOpGaussNewton)
        ensures
            r.num_outputs_spec() == block.equation_idxs@.len(),
    {
        ResidNoOpGaussNewton { n: block.equation_idxs.len() }
    }

    pub fn num_outputs(&self) -> (r: usize)
        ensures
            r == self.num_outputs_spec(),
    {
        self.n
    }
}

} // verus!
