//! Solution plans: ordered lists of square diagonal blocks.

use vstd::prelude::*;

verus! {

/// A block in the solution plan: a subset of equations and the unknowns they
/// are solved for. The indices refer to the rows and columns of the original,
/// unpermuted system.
#[derive(Debug, Clone)]
pub struct SolutionBlock {
    /// Position of this block in the plan.
    pub block_idx: usize,
    /// Rows of the original system solved in this block, in ascending order.
    pub equation_idxs: Vec<usize>,
    /// Columns of the original system owned by this block; `unknown_idxs[j]`
    /// is the column matched to `equation_idxs[j]`.
    pub unknown_idxs: Vec<usize>,
}

/// A sequence of indices is strictly increasing.
pub open spec fn strictly_increasing(s: Seq<usize>) -> bool {
    forall|i: int, j: int| 0 <= i < j < s.len() ==> s[i] < s[j]
}

/// All indices of a sequence lie below `n`.
pub open spec fn idxs_below(s: Seq<usize>, n: int) -> bool {
    forall|i: int| 0 <= i < s.len() ==> s[i] < n
}

impl SolutionBlock {
    /// A block is well formed for a system of `n` unknowns when it is a
    /// nonempty square pairing of equation rows with unknown columns, the
    /// rows ascending, and all indices in range.
    pub open spec fn wf(self, n: int) -> bool {
        &&& self.equation_idxs@.len() == self.unknown_idxs@.len()
        &&& self.equation_idxs@.len() > 0
        &&& strictly_increasing(self.equation_idxs@)
        &&& idxs_below(self.equation_idxs@, n)
        &&& idxs_below(self.unknown_idxs@, n)
    }

    /// The single block of the undecomposed full problem: every equation and
    /// every unknown, in index order.
    pub fn new_fullprob(size: usize) -> (r: SolutionBlock)
        ensures
            r.block_idx == 0,
            r.equation_idxs@.len() == size,
            r.unknown_idxs@.len() == size,
            forall|i: int| 0 <= i < size ==> r.equation_idxs@[i] == i,
            forall|i: int| 0 <= i < size ==> r.unknown_idxs@[i] == i,
            size > 0 ==> r.wf(size as int),
    {
        let mut eqs: Vec<usize> = Vec::new();
        let mut unks: Vec<usize> = Vec::new();
        let mut i: usize = 0;
        while i < size
            invariant
                i <= size,
                eqs@.len() == i,
                unks@.len() == i,
                forall|k: int| 0 <= k < i ==> eqs@[k] == k,
                forall|k: int| 0 <= k < i ==> unks@[k] == k,
            decreases size - i,
        {
            eqs.push(i);
            unks.push(i);
            i = i + 1;
        }
        SolutionBlock { block_idx: 0, equation_idxs: eqs, unknown_idxs: unks }
    }
}

/// An ordered solution plan for an equation system: blocks are solved first
/// to last, and each block depends only on unknowns owned by itself or by
/// earlier blocks.
#[derive(Debug, Clone)]
pub struct SolutionPlan {
    pub blocks: Vec<SolutionBlock>,
}

impl SolutionPlan {
    /// Wraps the given blocks as a plan.
    pub fn new(blocks: Vec<SolutionBlock>) -> (r: SolutionPlan)
        ensures
            r.blocks == blocks,
    {
        SolutionPlan { blocks }
    }
}

} // verus!
