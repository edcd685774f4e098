//! Sub-problems: the projection of a full problem onto one plan block.
//!
//! A sub-problem optimizes only the unknowns its block owns. The numeric
//! work happens elsewhere; this module carries the index bookkeeping — which
//! coordinates are extracted, which are overwritten, which Jacobian columns
//! are selected — and rejects length-mismatched inputs.

use vstd::prelude::*;
use crate::error::EqSysError;
use crate::solution_plan::SolutionBlock;

verus! {

/// Marker for aggregation to a single scalar output.
pub struct ToScalar;

/// Marker for pass-through of the residual vector.
pub struct ToVector;

/// The view of one block within a full problem of `n_unknowns` unknowns.
#[derive(Debug, Clone)]
pub struct SubProblem {
    pub block: SolutionBlock,
    pub n_unknowns: usize,
}

impl SubProblem {
    /// The block is well formed for the full problem and owns each unknown
    /// column at most once.
    pub open spec fn wf(self) -> bool {
        &&& self.block.wf(self.n_unknowns as int)
        &&& forall|j1: int, j2: int|
            0 <= j1 < j2 < self.block.unknown_idxs@.len() ==> (
            #[trigger] self.block.unknown_idxs@[j1]) != (#[trigger] self.block.unknown_idxs@[j2])
    }

    /// Size of the sub-problem: the number of unknowns the block owns.
    pub open spec fn subprob_len(self) -> int {
        self.block.unknown_idxs@.len() as int
    }

    pub fn new(block: SolutionBlock, n_unknowns: usize) -> (s: SubProblem)
        ensures
            s.block == block,
            s.n_unknowns == n_unknowns,
    {
        SubProblem { block, n_unknowns }
    }

    /// Extracts from a full-length vector the entries the block owns, in
    /// block order. Fails exactly when the input is not full-length.
    pub fn select_subprob_items<T: Copy>(&self, items: &Vec<T>) -> (res: Result<Vec<T>, EqSysError>)
        requires
            self.wf(),
        ensures
            match res {
                Ok(r) => {
                    &&& items@.len() == self.n_unknowns
                    &&& r@.len() == self.subprob_len()
                    &&& forall|j: int|
                        0 <= j < r@.len() ==> #[trigger] r@[j] == items@[self.block.unknown_idxs@[j] as int]
                },
                Err(e) => items@.len() != self.n_unknowns && e == (EqSysError::SubproblemShapeMismatch {
                    expected: self.n_unknowns,
                    got: items@.len() as usize,
                }),
            },
    {
        if items.len() != self.n_unknowns {
            return Err(EqSysError::SubproblemShapeMismatch {
                expected: self.n_unknowns,
                got: items.len(),
            });
        }
        let k = self.block.unknown_idxs.len();
        let mut out: Vec<T> = Vec::new();
        let mut j: usize = 0;
        while j < k
            invariant
                j <= k,
                k == self.subprob_len(),
                self.wf(),
                items@.len() == self.n_unknowns,
                out@.len() == j,
                forall|t: int|
                    0 <= t < j ==> #[trigger] out@[t] == items@[self.block.unknown_idxs@[t] as int],
            decreases k - j,
        {
            let idx = self.block.unknown_idxs[j];
            out.push(items[idx]);
            j = j + 1;
        }
        Ok(out)
    }

    /// Rebuilds a full-length optimization vector from a sub-problem vector:
    /// the block's coordinates are overwritten, every other coordinate keeps
    /// the value of `base`. Fails exactly when a length does not match.
    pub fn optspace_fullprob_input_from_subprob_input<T: Copy>(
        &self,
        base: &Vec<T>,
        sub: &Vec<T>,
    ) -> (res: Result<Vec<T>, EqSysError>)
        requires
            self.wf(),
        ensures
            match res {
                Ok(full) => {
                    &&& base@.len() == self.n_unknowns
                    &&& sub@.len() == self.subprob_len()
                    &&& full@.len() == base@.len()
                    &&& forall|j: int|
                        0 <= j < sub@.len()
                            ==> full@[(#[trigger] self.block.unknown_idxs@[j]) as int] == sub@[j]
                    &&& forall|i: int|
                        0 <= i < full@.len() && !crate::decompose::seq_contains(
                            self.block.unknown_idxs@,
                            i,
                        ) ==> #[trigger] full@[i] == base@[i]
                },
                Err(e) => {
                    &&& (base@.len() != self.n_unknowns || sub@.len() != self.subprob_len())
                    &&& e == (if base@.len() != self.n_unknowns {
                        EqSysError::SubproblemShapeMismatch {
                            expected: self.n_unknowns,
                            got: base@.len() as usize,
                        }
                    } else {
                        EqSysError::SubproblemShapeMismatch {
                            expected: self.subprob_len() as usize,
                            got: sub@.len() as usize,
                        }
                    })
                },
            },
    {
        if base.len() != self.n_unknowns {
            return Err(EqSysError::SubproblemShapeMismatch {
                expected: self.n_unknowns,
                got: base.len(),
            });
        }
        let k = self.block.unknown_idxs.len();
        if sub.len() != k {
            return Err(EqSysError::SubproblemShapeMismatch { expected: k, got: sub.len() });
        }
        let mut full: Vec<T> = Vec::new();
        let mut i: usize = 0;
        while i < base.len()
            invariant
                i <= base@.len(),
                full@.len() == i,
                forall|t: int| 0 <= t < i ==> #[trigger] full@[t] == base@[t],
            decreases base@.len() - i,
        {
            full.push(base[i]);
            i = i + 1;
        }
        let mut j: usize = 0;
        while j < k
            invariant
                j <= k,
                k == self.subprob_len(),
                self.wf(),
                base@.len() == self.n_unknowns,
                sub@.len() == k,
                full@.len() == base@.len(),
                forall|t: int|
                    0 <= t < j ==> full@[(#[trigger] self.block.unknown_idxs@[t]) as int] == sub@[t],
                forall|i2: int|
                    0 <= i2 < full@.len() && !(exists|t: int|
                        0 <= t < j && (#[trigger] self.block.unknown_idxs@[t]) as int == i2)
                        ==> #[trigger] full@[i2] == base@[i2],
            decreases k - j,
        {
            let idx = self.block.unknown_idxs[j];
            full.set(idx, sub[j]);
            j = j + 1;
        }
        proof {
            assert forall|i2: int|
                0 <= i2 < full@.len() && !crate::decompose::seq_contains(
                    self.block.unknown_idxs@,
                    i2,
                ) implies #[trigger] full@[i2] == base@[i2] by {
                if exists|t: int|
                    0 <= t < k && (#[trigger] self.block.unknown_idxs@[t]) as int == i2 {
                    let t = choose|t: int|
                        0 <= t < k && (#[trigger] self.block.unknown_idxs@[t]) as int == i2;
                    assert(crate::decompose::seq_contains(self.block.unknown_idxs@, i2));
                }
            }
        }
        Ok(full)
    }

    /// Selects the block's columns from a row-major matrix (a Jacobian or a
    /// single-row gradient). Fails exactly when some row is not full-length.
    pub fn select_columns<T: Copy>(&self, rows: &Vec<Vec<T>>) -> (res: Result<
        Vec<Vec<T>>,
        EqSysError,
    >)
        requires
            self.wf(),
        ensures
            match res {
                Ok(r) => {
                    &&& (forall|i: int|
                        0 <= i < rows@.len() ==> (#[trigger] rows@[i])@.len() == self.n_unknowns)
                    &&& r@.len() == rows@.len()
                    &&& forall|i: int|
                        0 <= i < r@.len() ==> (#[trigger] r@[i])@.len() == self.subprob_len()
                    &&& forall|i: int, j: int|
                        0 <= i < r@.len() && 0 <= j < self.subprob_len() ==> (
                        #[trigger] r@[i]@[j]) == rows@[i]@[self.block.unknown_idxs@[j] as int]
                },
                Err(e) => exists|i: int|
                    {
                        &&& 0 <= i < rows@.len()
                        &&& (#[trigger] rows@[i])@.len() != self.n_unknowns
                        &&& forall|i2: int|
                            0 <= i2 < i ==> (#[trigger] rows@[i2])@.len() == self.n_unknowns
                        &&& e == (EqSysError::SubproblemShapeMismatch {
                            expected: self.n_unknowns,
                            got: rows@[i]@.len() as usize,
                        })
                    },
            },
    {
        let k = self.block.unknown_idxs.len();
        let mut out: Vec<Vec<T>> = Vec::new();
        let mut i: usize = 0;
        while i < rows.len()
            invariant
                i <= rows@.len(),
                k == self.subprob_len(),
                self.wf(),
                out@.len() == i,
                forall|t: int| 0 <= t < i ==> (#[trigger] rows@[t])@.len() == self.n_unknowns,
                forall|t: int| 0 <= t < i ==> (#[trigger] out@[t])@.len() == self.subprob_len(),
                forall|t: int, j: int|
                    0 <= t < i && 0 <= j < self.subprob_len() ==> (#[trigger] out@[t]@[j])
                        == rows@[t]@[self.block.unknown_idxs@[j] as int],
            decreases rows@.len() - i,
        {
            if rows[i].len() != self.n_unknowns {
                return Err(EqSysError::SubproblemShapeMismatch {
                    expected: self.n_unknowns,
                    got: rows[i].len(),
                });
            }
            let mut picked: Vec<T> = Vec::new();
            let mut j: usize = 0;
            while j < k
                invariant
                    j <= k,
                    i < rows@.len(),
                    k == self.subprob_len(),
                    self.wf(),
                    rows@[i as int]@.len() == self.n_unknowns,
                    picked@.len() == j,
                    forall|t: int|
                        0 <= t < j ==> #[trigger] picked@[t] == rows@[i as int]@[self.block.unknown_idxs@[t] as int],
                decreases k - j,
            {
                let idx = self.block.unknown_idxs[j];
                picked.push(rows[i][idx]);
                j = j + 1;
            }
            out.push(picked);
            i = i + 1;
        }
        Ok(out)
    }
}

/// Projection law: reading the block coordinates back out of an expanded
/// full vector returns exactly the sub-problem vector, and the remaining
/// coordinates are exactly those of the base vector. These are the
/// hypotheses guaranteed by `optspace_fullprob_input_from_subprob_input`
/// and the conclusion checked by `select_subprob_items`.
pub proof fn lemma_expand_then_select<T>(
    idxs: Seq<usize>,
    base: Seq<T>,
    sub: Seq<T>,
    full: Seq<T>,
    picked: Seq<T>,
)
    requires
        sub.len() == idxs.len(),
        full.len() == base.len(),
        forall|j: int| 0 <= j < idxs.len() ==> ((#[trigger] idxs[j]) as int) < base.len(),
        forall|j: int| 0 <= j < sub.len() ==> full[(#[trigger] idxs[j]) as int] == sub[j],
        picked.len() == idxs.len(),
        forall|j: int| 0 <= j < picked.len() ==> #[trigger] picked[j] == full[idxs[j] as int],
    ensures
        picked == sub,
{
    assert(picked =~= sub);
}

} // verus!
