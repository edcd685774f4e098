//! Jacobian sparsity patterns probed at a point.

use vstd::prelude::*;

verus! {

/// The structural classification of one Jacobian entry at the probe point.
///
/// A non-finite derivative is kept apart from an ordinary non-zero so the
/// caller can see it, but the decomposition treats it as a present entry:
/// dropping it would silently erase a dependency, while keeping it merely
/// forces the ordering to respect a dependency that may be spurious.
#[derive(Debug, Clone, Copy, PartialEq, Eq, Structural)]
pub enum PatternEntry {
    /// The derivative sampled as exactly zero.
    Zero,
    /// A finite, non-zero derivative.
    NonZero,
    /// A non-finite derivative (infinite or undefined) at the probe point.
    NonFinite,
}

/// An entry counts as structurally present unless it sampled as zero.
pub open spec fn entry_present(e: PatternEntry) -> bool {
    e != PatternEntry::Zero
}

/// The binary sparsity pattern of a Jacobian: one row per residual equation,
/// one column per unknown.
#[derive(Debug, Clone)]
pub struct SparsityPattern {
    pub rows: Vec<Vec<PatternEntry>>,
    pub n_cols: usize,
}

impl SparsityPattern {
    /// Every row has exactly `n_cols` entries.
    pub open spec fn wf(self) -> bool {
        forall|i: int| 0 <= i < self.rows@.len() ==> (#[trigger] self.rows@[i])@.len() == self.n_cols
    }

    pub open spec fn nrows_spec(self) -> int {
        self.rows@.len() as int
    }

    pub open spec fn ncols_spec(self) -> int {
        self.n_cols as int
    }

    /// Row `r` has a structurally present entry in column `c`.
    pub open spec fn present(self, r: int, c: int) -> bool {
        &&& 0 <= r < self.nrows_spec()
        &&& 0 <= c < self.ncols_spec()
        &&& entry_present(self.rows@[r]@[c])
    }

    /// Builds a pattern from rows, rejecting ragged input.
    pub fn new(rows: Vec<Vec<PatternEntry>>, n_cols: usize) -> (r: Option<SparsityPattern>)
        ensures
            match r {
                Some(p) => {
                    &&& p.rows == rows
                    &&& p.n_cols == n_cols
                    &&& p.wf()
                },
                None => exists|i: int| 0 <= i < rows@.len() && (#[trigger] rows@[i])@.len() != n_cols,
            },
    {
        let mut i: usize = 0;
        while i < rows.len()
            invariant
                i <= rows@.len(),
                forall|k: int| 0 <= k < i ==> (#[trigger] rows@[k])@.len() == n_cols,
            decreases rows@.len() - i,
        {
            if rows[i].len() != n_cols {
                return None;
            }
            i = i + 1;
        }
        Some(SparsityPattern { rows, n_cols })
    }

    pub fn nrows(&self) -> (r: usize)
        ensures
            r == self.nrows_spec(),
    {
        self.rows.len()
    }

    pub fn ncols(&self) -> (r: usize)
        ensures
            r == self.ncols_spec(),
    {
        self.n_cols
    }

    /// Whether row `r` is structurally present in column `c`.
    pub fn is_present(&self, r: usize, c: usize) -> (b: bool)
        requires
            self.wf(),
            r < self.nrows_spec(),
            c < self.ncols_spec(),
        ensures
            b == self.present(r as int, c as int),
    {
        match self.rows[r][c] {
            PatternEntry::Zero => false,
            _ => true,
        }
    }
}

} // verus!
