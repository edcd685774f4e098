//! The per-block solver waterfall and the write-back of block results.
//!
//! Each block is attacked by Gauss-Newton first; on failure the orchestrator
//! falls back to simulated annealing, and a successful annealing result is
//! refined by Gauss-Newton again. A failure of the annealing fallback, or of
//! the refinement after it, aborts the plan (the documented fatal policy).
//! The numeric solvers run outside this library; the caller reports each
//! attempt's outcome and performs the directive this policy hands back.

use vstd::prelude::*;
use crate::error::EqSysError;
use crate::solution_plan::SolutionBlock;

verus! {

/// Which solver the current attempt used.
#[derive(Debug, Clone, Copy, PartialEq, Eq, Structural)]
pub enum BlockStage {
    /// First attempt: Gauss-Newton from the current unknowns.
    GaussNewton,
    /// Fallback: simulated annealing from the current unknowns.
    Annealing,
    /// Refinement: Gauss-Newton from the annealing result.
    Refinement,
}

/// Outcome of one solver attempt, as reported by the caller.
#[derive(Debug, Clone, Copy, PartialEq, Eq, Structural)]
pub enum SolveAttempt {
    Succeeded,
    Failed,
}

/// What the orchestrator does next.
#[derive(Debug, Clone, Copy, PartialEq, Eq, Structural)]
pub enum BlockDirective {
    /// Write the attempt's result into the current unknowns and move to the
    /// next block.
    CommitAndAdvance,
    /// Run simulated annealing from the current unknowns.
    TryAnnealing,
    /// Run Gauss-Newton from the annealing result.
    RefineWithGaussNewton,
    /// Abort the plan and surface the attempt's error.
    AbortPlan,
}

/// The waterfall policy for one block, as a function of the stage just run
/// and its outcome.
pub open spec fn directive_after(stage: BlockStage, outcome: SolveAttempt) -> BlockDirective {
    match (stage, outcome) {
        (BlockStage::GaussNewton, SolveAttempt::Succeeded) => BlockDirective::CommitAndAdvance,
        (BlockStage::GaussNewton, SolveAttempt::Failed) => BlockDirective::TryAnnealing,
        (BlockStage::Annealing, SolveAttempt::Succeeded) => BlockDirective::RefineWithGaussNewton,
        (BlockStage::Annealing, SolveAttempt::Failed) => BlockDirective::AbortPlan,
        (BlockStage::Refinement, SolveAttempt::Succeeded) => BlockDirective::CommitAndAdvance,
        (BlockStage::Refinement, SolveAttempt::Failed) => BlockDirective::AbortPlan,
    }
}

/// Decides the next step of the waterfall after one solver attempt.
pub fn next_block_directive(stage: BlockStage, outcome: SolveAttempt) -> (d: BlockDirective)
    ensures
        d == directive_after(stage, outcome),
{
    match (stage, outcome) {
        (BlockStage::GaussNewton, SolveAttempt::Succeeded) => BlockDirective::CommitAndAdvance,
        (BlockStage::GaussNewton, SolveAttempt::Failed) => BlockDirective::TryAnnealing,
        (BlockStage::Annealing, SolveAttempt::Succeeded) => BlockDirective::RefineWithGaussNewton,
        (BlockStage::Annealing, SolveAttempt::Failed) => BlockDirective::AbortPlan,
        (BlockStage::Refinement, SolveAttempt::Succeeded) => BlockDirective::CommitAndAdvance,
        (BlockStage::Refinement, SolveAttempt::Failed) => BlockDirective::AbortPlan,
    }
}

/// Writes a solved block's values into the current unknowns: exactly the
/// coordinates the block owns change, every other coordinate is untouched.
/// Fails, leaving the unknowns unchanged, exactly when the value vector does
/// not have the block's size.
pub fn commit_block_result<T: Copy>(
    current: &mut Vec<T>,
    block: &SolutionBlock,
    values: &Vec<T>,
) -> (res: Result<(), EqSysError>)
    requires
        block.wf(old(current)@.len() as int),
        forall|j1: int, j2: int|
            0 <= j1 < j2 < block.unknown_idxs@.len() ==> (#[trigger] block.unknown_idxs@[j1]) != (
            #[trigger] block.unknown_idxs@[j2]),
    ensures
        final(current)@.len() == old(current)@.len(),
        match res {
            Ok(()) => {
                &&& values@.len() == block.unknown_idxs@.len()
                &&& forall|j: int|
                    0 <= j < values@.len()
                        ==> final(current)@[(#[trigger] block.unknown_idxs@[j]) as int] == values@[j]
                &&& forall|i: int|
                    0 <= i < old(current)@.len() && !crate::decompose::seq_contains(
                        block.unknown_idxs@,
                        i,
                    ) ==> #[trigger] final(current)@[i] == old(current)@[i]
            },
            Err(e) => {
                &&& values@.len() != block.unknown_idxs@.len()
                &&& final(current)@ == old(current)@
                &&& e == (EqSysError::SubproblemShapeMismatch {
                    expected: block.unknown_idxs@.len() as usize,
                    got: values@.len() as usize,
                })
            },
        },
{
    let k = block.unknown_idxs.len();
    if values.len() != k {
        return Err(EqSysError::SubproblemShapeMismatch { expected: k, got: values.len() });
    }
    let mut j: usize = 0;
    while j < k
        invariant
            j <= k,
            k == block.unknown_idxs@.len(),
            values@.len() == k,
            block.wf(old(current)@.len() as int),
            forall|j1: int, j2: int|
                0 <= j1 < j2 < block.unknown_idxs@.len() ==> (#[trigger] block.unknown_idxs@[j1])
                    != (#[trigger] block.unknown_idxs@[j2]),
            current@.len() == old(current)@.len(),
            forall|t: int|
                0 <= t < j ==> current@[(#[trigger] block.unknown_idxs@[t]) as int] == values@[t],
            forall|i: int|
                0 <= i < current@.len() && !(exists|t: int|
                    0 <= t < j && (#[trigger] block.unknown_idxs@[t]) as int == i)
                    ==> #[trigger] current@[i] == old(current)@[i],
        decreases k - j,
    {
        let idx = block.unknown_idxs[j];
        current.set(idx, values[j]);
        j = j + 1;
    }
    proof {
        assert forall|i: int|
            0 <= i < old(current)@.len() && !crate::decompose::seq_contains(
                block.unknown_idxs@,
                i,
            ) implies #[trigger] current@[i] == old(current)@[i] by {
            if exists|t: int| 0 <= t < k && (#[trigger] block.unknown_idxs@[t]) as int == i {
                let t = choose|t: int|
                    0 <= t < k && (#[trigger] block.unknown_idxs@[t]) as int == i;
                assert(crate::decompose::seq_contains(block.unknown_idxs@, i));
            }
        }
    }
    Ok(())
}

} // verus!
