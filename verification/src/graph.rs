//! Row dependency graph of a matched pattern, and its reachability closure.
//!
//! Once every equation row is matched to the unknown column it will be solved
//! for, equation `i` depends on equation `k` when row `i` has a present entry
//! in the column owned by `k`. The blocks of the solution plan are the
//! strongly connected components of this relation, so the decomposition
//! needs its reflexive-transitive closure.

use vstd::prelude::*;
use crate::matching::is_row_matching;
use crate::pattern::SparsityPattern;

verus! {

/// A square boolean matrix of dimension `n`, as a sequence of rows.
pub open spec fn square_bool(m: Seq<Seq<bool>>, n: int) -> bool {
    &&& m.len() == n
    &&& forall|i: int| 0 <= i < n ==> (#[trigger] m[i]).len() == n
}

/// A vector of boolean rows forming a square matrix of dimension `n`.
pub open spec fn mat_wf(v: Vec<Vec<bool>>, n: int) -> bool {
    &&& v@.len() == n
    &&& forall|i: int| 0 <= i < n ==> (#[trigger] v@[i])@.len() == n
}

/// The rows of a boolean matrix, as a sequence of sequences.
pub open spec fn mat_of(v: Vec<Vec<bool>>) -> Seq<Seq<bool>> {
    v@.map(|i: int, row: Vec<bool>| row@)
}

proof fn lemma_mat_of(v: Vec<Vec<bool>>)
    ensures
        mat_of(v).len() == v@.len(),
        forall|i: int| 0 <= i < v@.len() ==> #[trigger] mat_of(v)[i] == v@[i]@,
{
}

/// Equation `i` depends on a different equation `k`: row `i` has a present
/// entry in the column matched to row `k`.
pub open spec fn depends_on(p: SparsityPattern, m: Seq<usize>, i: int, k: int) -> bool {
    &&& 0 <= i < p.nrows_spec()
    &&& 0 <= k < p.nrows_spec()
    &&& i != k
    &&& p.present(i, m[k] as int)
}

/// `r` is reflexive, transitive, and contains every dependency edge of the
/// matched pattern.
pub open spec fn rt_closed_over(p: SparsityPattern, m: Seq<usize>, r: Seq<Seq<bool>>) -> bool {
    &&& square_bool(r, p.nrows_spec())
    &&& forall|i: int| 0 <= i < r.len() ==> #[trigger] r[i][i]
    &&& forall|i: int, k: int| depends_on(p, m, i, k) ==> #[trigger] r[i][k]
    &&& forall|i: int, j: int, k: int|
        0 <= i < r.len() && 0 <= j < r.len() && 0 <= k < r.len() && #[trigger] r[i][j]
            && #[trigger] r[j][k] ==> r[i][k]
}

/// Row `i` reaches row `k` through dependency edges (reflexively): the pair
/// belongs to every reflexive-transitive relation containing the edges, that
/// is, to the least one.
pub open spec fn reaches(p: SparsityPattern, m: Seq<usize>, i: int, k: int) -> bool {
    &&& 0 <= i < p.nrows_spec()
    &&& 0 <= k < p.nrows_spec()
    &&& forall|r: Seq<Seq<bool>>| #[trigger] rt_closed_over(p, m, r) ==> r[i][k]
}

/// Rows `i` and `k` lie on a common dependency cycle (or are equal): each
/// reaches the other. These classes are the diagonal blocks of the plan.
pub open spec fn same_component(p: SparsityPattern, m: Seq<usize>, i: int, k: int) -> bool {
    reaches(p, m, i, k) && reaches(p, m, k, i)
}

/// Number of `false` cells in the rows of a boolean matrix.
pub open spec fn count_false_mat(m: Seq<Vec<bool>>) -> int
    decreases m.len(),
{
    if m.len() == 0 {
        0
    } else {
        count_false_mat(m.drop_last()) + crate::matching::count_unvisited(m.last()@)
    }
}

proof fn lemma_count_false_mat_bounds(m: Seq<Vec<bool>>)
    ensures
        0 <= count_false_mat(m),
    decreases m.len(),
{
    if m.len() > 0 {
        lemma_count_false_mat_bounds(m.drop_last());
        crate::matching::lemma_count_unvisited_bounds(m.last()@);
    }
}

/// A pointwise-larger matrix has at most as many `false` cells, and strictly
/// fewer if some cell flipped.
proof fn lemma_count_false_mat_le(m1: Seq<Vec<bool>>, m2: Seq<Vec<bool>>)
    requires
        m1.len() == m2.len(),
        forall|i: int|
            0 <= i < m1.len() ==> (#[trigger] m1[i])@.len() == (#[trigger] m2[i])@.len(),
        forall|i: int, k: int|
            0 <= i < m1.len() && 0 <= k < m1[i]@.len() && (#[trigger] m1[i]@[k]) ==> m2[i]@[k],
    ensures
        count_false_mat(m2) <= count_false_mat(m1),
        (exists|i: int, k: int|
            0 <= i < m1.len() && 0 <= k < m1[i]@.len() && !(#[trigger] m1[i]@[k]) && m2[i]@[k])
            ==> count_false_mat(m2) < count_false_mat(m1),
    decreases m1.len(),
{
    if m1.len() > 0 {
        lemma_count_false_mat_le(m1.drop_last(), m2.drop_last());
        crate::matching::lemma_count_unvisited_le(m1.last()@, m2.last()@);
        if exists|i: int, k: int|
            0 <= i < m1.len() && 0 <= k < m1[i]@.len() && !(#[trigger] m1[i]@[k]) && m2[i]@[k] {
            let (i, k): (int, int) = choose|i: int, k: int|
                0 <= i < m1.len() && 0 <= k < m1[i]@.len() && !(#[trigger] m1[i]@[k]) && m2[i]@[k];
            if i == m1.len() - 1 {
                crate::matching::lemma_count_unvisited_flip(m1.last()@, m2.last()@, k);
            } else {
                assert(0 <= i < m1.drop_last().len() && 0 <= k < m1.drop_last()[i]@.len()
                    && !m1.drop_last()[i]@[k] && m2.drop_last()[i]@[k]);
            }
        }
    }
}

/// One expansion pass: every cell of the result is the old cell or a
/// two-step composition through the old matrix.
#[verifier::loop_isolation(false)]
fn expand_once(r: &Vec<Vec<bool>>, n: usize) -> (res: (Vec<Vec<bool>>, bool))
    requires
        mat_wf(*r, n as int),
    ensures
        mat_wf(res.0, n as int),
        forall|i: int, k: int|
            0 <= i < n && 0 <= k < n ==> ((#[trigger] res.0@[i]@[k]) <==> (r@[i]@[k]
                || exists|j: int| 0 <= j < n && #[trigger] r@[i]@[j] && r@[j]@[k])),
        res.1 == exists|i: int, k: int|
            0 <= i < n && 0 <= k < n && !(#[trigger] r@[i]@[k]) && res.0@[i]@[k],
{
    let mut out: Vec<Vec<bool>> = Vec::new();
    let mut changed = false;
    let mut i: usize = 0;
    while i < n
        invariant
            i <= n,
            out@.len() == i,
            forall|a: int| 0 <= a < i ==> (#[trigger] out@[a])@.len() == n,
            forall|a: int, k: int|
                0 <= a < i && 0 <= k < n ==> ((#[trigger] out@[a]@[k]) <==> (r@[a]@[k]
                    || exists|j: int| 0 <= j < n && #[trigger] r@[a]@[j] && r@[j]@[k])),
            changed == exists|a: int, k: int|
                0 <= a < i && 0 <= k < n && !(#[trigger] r@[a]@[k]) && out@[a]@[k],
        decreases n - i,
    {
        let mut row: Vec<bool> = Vec::new();
        let mut k: usize = 0;
        let ghost changed_entry = changed;
        while k < n
            invariant
                k <= n,
                i < n,
                row@.len() == k,
                forall|c: int|
                    0 <= c < k ==> (#[trigger] row@[c] <==> (r@[i as int]@[c] || exists|j: int|
                        0 <= j < n && #[trigger] r@[i as int]@[j] && r@[j]@[c])),
                changed == (changed_entry || exists|c: int|
                    0 <= c < k && !(#[trigger] r@[i as int]@[c]) && row@[c]),
            decreases n - k,
        {
            let mut cell = r[i][k];
            let mut j: usize = 0;
            while j < n
                invariant
                    j <= n,
                    i < n,
                    k < n,
                    cell <==> (r@[i as int]@[k as int] || exists|t: int|
                        0 <= t < j && #[trigger] r@[i as int]@[t] && r@[t]@[k as int]),
                decreases n - j,
            {
                if r[i][j] && r[j][k] {
                    cell = true;
                }
                j = j + 1;
            }
            if cell && !r[i][k] {
                changed = true;
            }
            row.push(cell);
            k = k + 1;
        }
        out.push(row);
        i = i + 1;
    }
    (out, changed)
}

/// Builds the reflexive-transitive closure of the dependency relation of a
/// matched square pattern. Each cell of the result is exactly the `reaches`
/// relation on the corresponding pair of rows.
#[verifier::loop_isolation(false)]
pub fn build_dependency_closure(p: &SparsityPattern, m: &Vec<usize>) -> (r: Vec<Vec<bool>>)
    requires
        p.wf(),
        p.nrows_spec() == p.ncols_spec(),
        is_row_matching(*p, m@),
    ensures
        mat_wf(r, p.nrows_spec()),
        forall|i: int, k: int|
            0 <= i < p.nrows_spec() && 0 <= k < p.nrows_spec() ==> (r@[i]@[k] <==> reaches(
                *p,
                m@,
                i,
                k,
            )),
{
    let n = p.nrows();
    // start from the edges plus the diagonal
    let mut cur: Vec<Vec<bool>> = Vec::new();
    let mut i: usize = 0;
    while i < n
        invariant
            i <= n,
            cur@.len() == i,
            forall|a: int| 0 <= a < i ==> (#[trigger] cur@[a])@.len() == n,
            forall|a: int, k: int|
                0 <= a < i && 0 <= k < n ==> ((#[trigger] cur@[a]@[k]) <==> (a == k || depends_on(
                    *p,
                    m@,
                    a,
                    k,
                ))),
        decreases n - i,
    {
        let mut row: Vec<bool> = Vec::new();
        let mut k: usize = 0;
        while k < n
            invariant
                k <= n,
                i < n,
                row@.len() == k,
                forall|c: int|
                    0 <= c < k ==> (#[trigger] row@[c] <==> (i as int == c || depends_on(
                        *p,
                        m@,
                        i as int,
                        c,
                    ))),
            decreases n - k,
        {
            let e = if i == k {
                true
            } else {
                p.is_present(i, m[k])
            };
            row.push(e);
            k = k + 1;
        }
        cur.push(row);
        i = i + 1;
    }

    proof {
        lemma_count_false_mat_bounds(cur@);
    }
    // grow to a fixpoint; every set cell stays inside every closed relation
    loop
        invariant
            mat_wf(cur, n as int),
            n == p.nrows_spec(),
            forall|a: int| 0 <= a < n ==> #[trigger] cur@[a]@[a],
            forall|a: int, k: int| depends_on(*p, m@, a, k) ==> #[trigger] cur@[a]@[k],
            forall|r2: Seq<Seq<bool>>, a: int, k: int|
                rt_closed_over(*p, m@, r2) && 0 <= a < n && 0 <= k < n && #[trigger] cur@[a]@[k]
                    ==> #[trigger] r2[a][k],
            0 <= count_false_mat(cur@),
        decreases count_false_mat(cur@),
    {
        let (next, changed) = expand_once(&cur, n);
        proof {
            lemma_count_false_mat_le(cur@, next@);
            // new cells come from composing two covered cells, so they lie in
            // every closed relation as well
            assert forall|r2: Seq<Seq<bool>>, a: int, k: int|
                rt_closed_over(*p, m@, r2) && 0 <= a < n && 0 <= k < n && #[trigger] next@[a]@[k]
                implies #[trigger] r2[a][k] by {
                if !cur@[a]@[k] {
                    let j = choose|j: int| 0 <= j < n && #[trigger] cur@[a]@[j] && cur@[j]@[k];
                    assert(r2[a][j] && r2[j][k]);
                }
            }
            lemma_count_false_mat_bounds(next@);
        }
        if !changed {
            // fixpoint: `cur` is transitive, hence itself a closed relation
            proof {
                lemma_mat_of(cur);
                let cm = mat_of(cur);
                assert(rt_closed_over(*p, m@, cm)) by {
                    assert forall|a: int, j: int, k: int|
                        0 <= a < n && 0 <= j < n && 0 <= k < n && #[trigger] cm[a][j]
                            && #[trigger] cm[j][k] implies cm[a][k] by {
                        assert(cur@[a]@[j] && cur@[j]@[k]);
                        assert(next@[a]@[k]);
                        assert(cur@[a]@[k]);
                    }
                }
                assert forall|a: int, k: int| 0 <= a < n && 0 <= k < n implies (cur@[a]@[k]
                    <==> reaches(*p, m@, a, k)) by {
                    if cur@[a]@[k] {
                        assert forall|r2: Seq<Seq<bool>>| #[trigger] rt_closed_over(*p, m@, r2)
                            implies r2[a][k] by {}
                    } else {
                        assert(!cm[a][k]);
                        assert(rt_closed_over(*p, m@, cm));
                    }
                }
            }
            return cur;
        }
        cur = next;
    }
}

} // verus!
