//! Perfect matching between equation rows and unknown columns.
//!
//! The block-triangular decomposition pairs each equation with the unknown it
//! is solved for. That pairing is a perfect matching in the bipartite graph
//! of the sparsity pattern. This module finds one by augmenting paths, and
//! when none exists it proves it: the failed search yields a set of rows
//! whose combined columns are too few (a Hall violator), so no matching can
//! exist at all.

use vstd::prelude::*;
use vstd::set_lib::{lemma_int_range, lemma_len_subset, lemma_map_size, set_int_range};
use crate::pattern::SparsityPattern;

verus! {

/// `m` assigns every equation row a distinct, structurally present column.
pub open spec fn is_row_matching(p: SparsityPattern, m: Seq<usize>) -> bool {
    &&& m.len() == p.nrows_spec()
    &&& forall|i: int| 0 <= i < m.len() ==> p.present(i, (#[trigger] m[i]) as int)
    &&& forall|i: int, j: int| 0 <= i < j < m.len() ==> m[i] != m[j]
}

/// Some matching covers every equation row of the pattern.
pub open spec fn has_perfect_matching(p: SparsityPattern) -> bool {
    exists|m: Seq<usize>| is_row_matching(p, m)
}

/// `r2c` and `c2r` are mutually inverse partial maps pairing rows with
/// structurally present columns.
pub open spec fn matching_state_ok(
    p: SparsityPattern,
    r2c: Seq<Option<usize>>,
    c2r: Seq<Option<usize>>,
) -> bool {
    &&& r2c.len() == p.nrows_spec()
    &&& c2r.len() == p.ncols_spec()
    &&& forall|i: int|
        0 <= i < r2c.len() ==> match #[trigger] r2c[i] {
            Some(c) => p.present(i, c as int) && c2r[c as int] == Some(i as usize),
            None => true,
        }
    &&& forall|c: int|
        0 <= c < c2r.len() ==> match #[trigger] c2r[c] {
            Some(i) => (i as int) < p.nrows_spec() && r2c[i as int] == Some(c as usize),
            None => true,
        }
}

/// Number of columns not yet visited by the augmenting search.
pub open spec fn count_unvisited(v: Seq<bool>) -> int
    decreases v.len(),
{
    if v.len() == 0 {
        0
    } else {
        count_unvisited(v.drop_last()) + if v.last() { 0int } else { 1int }
    }
}

pub(crate) proof fn lemma_count_unvisited_bounds(v: Seq<bool>)
    ensures
        0 <= count_unvisited(v) <= v.len(),
    decreases v.len(),
{
    if v.len() > 0 {
        lemma_count_unvisited_bounds(v.drop_last());
    }
}

/// Turning one unvisited slot into visited lowers the count by one.
pub(crate) proof fn lemma_count_unvisited_update(v: Seq<bool>, k: int)
    requires
        0 <= k < v.len(),
        !v[k],
    ensures
        count_unvisited(v.update(k, true)) == count_unvisited(v) - 1,
    decreases v.len(),
{
    let w = v.update(k, true);
    if k == v.len() - 1 {
        assert(w.drop_last() =~= v.drop_last());
    } else {
        assert(w.drop_last() =~= v.drop_last().update(k, true));
        lemma_count_unvisited_update(v.drop_last(), k);
    }
}

/// A pointwise-larger visited vector has at most as many unvisited slots.
pub(crate) proof fn lemma_count_unvisited_le(v1: Seq<bool>, v2: Seq<bool>)
    requires
        v1.len() == v2.len(),
        forall|i: int| 0 <= i < v1.len() && v1[i] ==> v2[i],
    ensures
        count_unvisited(v2) <= count_unvisited(v1),
    decreases v1.len(),
{
    if v1.len() > 0 {
        lemma_count_unvisited_le(v1.drop_last(), v2.drop_last());
    }
}

/// A pointwise-larger visited vector with at least one flipped slot has
/// strictly fewer unvisited slots.
pub(crate) proof fn lemma_count_unvisited_flip(v1: Seq<bool>, v2: Seq<bool>, k: int)
    requires
        v1.len() == v2.len(),
        forall|i: int| 0 <= i < v1.len() && v1[i] ==> v2[i],
        0 <= k < v1.len(),
        !v1[k],
        v2[k],
    ensures
        count_unvisited(v2) < count_unvisited(v1),
    decreases v1.len(),
{
    if k == v1.len() - 1 {
        lemma_count_unvisited_le(v1.drop_last(), v2.drop_last());
    } else {
        lemma_count_unvisited_flip(v1.drop_last(), v2.drop_last(), k);
    }
}

/// Owner row of a matched column, as an integer.
pub open spec fn owner_of(c2r: Seq<Option<usize>>, c: int) -> int {
    match c2r[c] {
        Some(i) => i as int,
        None => -1,
    }
}

/// Binds row `u` to the free column `c`, releasing the column `u` held before.
#[verifier::loop_isolation(false)]
fn bind_pair(
    p: &SparsityPattern,
    u: usize,
    c: usize,
    r2c: &mut Vec<Option<usize>>,
    c2r: &mut Vec<Option<usize>>,
)
    requires
        p.wf(),
        matching_state_ok(*p, old(r2c)@, old(c2r)@),
        (u as int) < p.nrows_spec(),
        (c as int) < p.ncols_spec(),
        p.present(u as int, c as int),
        old(c2r)@[c as int] is None,
    ensures
        matching_state_ok(*p, final(r2c)@, final(c2r)@),
        final(r2c)@.len() == old(r2c)@.len(),
        final(c2r)@.len() == old(c2r)@.len(),
        final(r2c)@ == old(r2c)@.update(u as int, Some(c)),
        final(r2c)@[u as int] == Some(c),
        forall|i: int|
            0 <= i < old(r2c)@.len() && old(r2c)@[i] is Some ==> final(r2c)@[i] is Some,
        forall|i: int|
            0 <= i < old(r2c)@.len() && final(r2c)@[i] is Some ==> old(r2c)@[i] is Some || i
                == u as int,
        match old(r2c)@[u as int] {
            Some(c_old) => final(c2r)@[c_old as int] is None,
            None => true,
        },
{
    let prev = r2c[u];
    match prev {
        Some(c_old) => {
            // The previous column of `u` cannot be `c`: `c` is free while a
            // held column points back at `u`.
            assert(old(c2r)@[c_old as int] == Some(u));
            c2r.set(c_old, None);
        },
        None => {},
    }
    r2c.set(u, Some(c));
    c2r.set(c, Some(u));
    proof {
        assert forall|i: int| 0 <= i < r2c@.len() implies match #[trigger] r2c@[i] {
            Some(ci) => p.present(i, ci as int) && c2r@[ci as int] == Some(i as usize),
            None => true,
        } by {
            if i == u as int {
                assert(r2c@[i] == Some(c));
                assert(c2r@[c as int] == Some(u));
            } else {
                assert(vstd::std_specs::vec::spec_vec_len(&*r2c) == r2c@.len());
                assert(0 <= i < usize::MAX as int);
                assert(r2c@[i] == old(r2c)@[i]);
                match old(r2c)@[i] {
                    Some(ci) => {
                        // another row cannot hold `c` (it was free) nor the
                        // released column (it pointed back at `u`)
                        assert(old(c2r)@[ci as int] == Some(i as usize));
                        assert(ci != c);
                        match old(r2c)@[u as int] {
                            Some(c_old) => {
                                assert(old(c2r)@[c_old as int] == Some(u));
                                assert(ci != c_old);
                            },
                            None => {},
                        }
                        assert(c2r@[ci as int] == Some(i as usize));
                    },
                    None => {},
                }
            }
        }
        assert forall|ci: int| 0 <= ci < c2r@.len() implies match #[trigger] c2r@[ci] {
            Some(i) => (i as int) < p.nrows_spec() && r2c@[i as int] == Some(ci as usize),
            None => true,
        } by {
            if ci != c as int {
                match old(r2c)@[u as int] {
                    Some(c_old) => {
                        if ci != c_old as int {
                            assert(c2r@[ci] == old(c2r)@[ci]);
                            match old(c2r)@[ci] {
                                Some(i) => {
                                    assert(old(r2c)@[i as int] == Some(ci as usize));
                                    assert(i != u);
                                },
                                None => {},
                            }
                        }
                    },
                    None => {
                        assert(c2r@[ci] == old(c2r)@[ci]);
                        match old(c2r)@[ci] {
                            Some(i) => {
                                assert(old(r2c)@[i as int] == Some(ci as usize));
                                assert(i != u);
                            },
                            None => {},
                        }
                    },
                }
            }
        }
    }
}

/// One augmenting search from row `u` over unvisited columns. On success the
/// matching is extended so that `u` is matched (rows matched before stay
/// matched, possibly to different columns). On failure the matching is
/// untouched, and the set of visited columns closes over the search frontier:
/// every present column of `u` is visited, every newly visited column is
/// matched, and the owner of a newly visited column has all its present
/// columns visited. That closure is the Hall-violator certificate.
#[verifier::loop_isolation(false)]
fn try_augment(
    p: &SparsityPattern,
    u: usize,
    visited: &mut Vec<bool>,
    r2c: &mut Vec<Option<usize>>,
    c2r: &mut Vec<Option<usize>>,
) -> (found: bool)
    requires
        p.wf(),
        matching_state_ok(*p, old(r2c)@, old(c2r)@),
        old(visited)@.len() == p.ncols_spec(),
        (u as int) < p.nrows_spec(),
        match old(r2c)@[u as int] {
            Some(c_cur) => old(visited)@[c_cur as int],
            None => true,
        },
    ensures
        matching_state_ok(*p, final(r2c)@, final(c2r)@),
        final(visited)@.len() == old(visited)@.len(),
        forall|ci: int| 0 <= ci < old(visited)@.len() && old(visited)@[ci] ==> final(visited)@[ci],
        count_unvisited(final(visited)@) <= count_unvisited(old(visited)@),
        forall|i: int|
            0 <= i < old(r2c)@.len() && old(r2c)@[i] is Some ==> final(r2c)@[i] is Some,
        forall|i: int|
            0 <= i < old(r2c)@.len() && final(r2c)@[i] is Some ==> old(r2c)@[i] is Some || i
                == u as int,
        // rows other than `u` whose column was already visited keep it
        forall|i: int|
            0 <= i < old(r2c)@.len() && i != u as int && (match old(r2c)@[i] {
                Some(ci) => old(visited)@[ci as int],
                None => false,
            }) ==> final(r2c)@[i] == old(r2c)@[i],
        found ==> final(r2c)@[u as int] is Some,
        found ==> match old(r2c)@[u as int] {
            Some(c_old) => final(c2r)@[c_old as int] is None,
            None => true,
        },
        !found ==> final(r2c)@ == old(r2c)@ && final(c2r)@ == old(c2r)@,
        !found ==> forall|ci: int|
            0 <= ci < p.ncols_spec() && p.present(u as int, ci) ==> final(visited)@[ci],
        !found ==> forall|ci: int|
            0 <= ci < p.ncols_spec() && final(visited)@[ci] && !old(visited)@[ci]
                ==> (#[trigger] final(c2r)@[ci]) is Some,
        !found ==> forall|ci: int, c2: int|
            0 <= ci < p.ncols_spec() && final(visited)@[ci] && !old(visited)@[ci] && 0 <= c2
                < p.ncols_spec() && p.present(owner_of(final(c2r)@, ci), c2)
                ==> final(visited)@[c2],
    decreases count_unvisited(old(visited)@),
{
    let ghost entry_visited = visited@;
    let ghost entry_r2c = r2c@;
    let ghost entry_c2r = c2r@;
    proof {
        lemma_count_unvisited_bounds(entry_visited);
    }
    let n_cols = p.ncols();
    let mut c: usize = 0;
    while c < n_cols
        invariant
            p.wf(),
            matching_state_ok(*p, r2c@, c2r@),
            r2c@ == entry_r2c,
            c2r@ == entry_c2r,
            visited@.len() == entry_visited.len(),
            entry_visited.len() == p.ncols_spec(),
            n_cols == p.ncols_spec(),
            (u as int) < p.nrows_spec(),
            c <= n_cols,
            forall|ci: int| 0 <= ci < entry_visited.len() && entry_visited[ci] ==> visited@[ci],
            count_unvisited(visited@) <= count_unvisited(entry_visited),
            // columns of `u` scanned so far are visited
            forall|ci: int| 0 <= ci < c && p.present(u as int, ci) ==> visited@[ci],
            // newly visited columns are matched and closed
            forall|ci: int|
                0 <= ci < p.ncols_spec() && visited@[ci] && !entry_visited[ci]
                    ==> (#[trigger] c2r@[ci]) is Some,
            forall|ci: int, c2: int|
                0 <= ci < p.ncols_spec() && visited@[ci] && !entry_visited[ci] && 0 <= c2
                    < p.ncols_spec() && p.present(owner_of(c2r@, ci), c2) ==> visited@[c2],
        decreases n_cols - c,
    {
        if p.is_present(u, c) && !visited[c] {
            let ghost pre_mark = visited@;
            visited.set(c, true);
            proof {
                lemma_count_unvisited_update(pre_mark, c as int);
                lemma_count_unvisited_le(entry_visited, pre_mark);
            }
            match c2r[c] {
                None => {
                    bind_pair(p, u, c, r2c, c2r);
                    proof {
                        lemma_count_unvisited_le(entry_visited, visited@);
                    }
                    return true;
                },
                Some(w) => {
                    proof {
                        // the owner of `c` is matched to `c`, which is now
                        // visited, and it is not `u`: the column `u` holds,
                        // if any, was visited before `c` was marked
                        assert(r2c@[w as int] == Some(c));
                        assert(w != u);
                    }
                    proof {
                        lemma_count_unvisited_bounds(visited@);
                        assert(count_unvisited(visited@) < count_unvisited(entry_visited));
                    }
                    let sub = try_augment(p, w, visited, r2c, c2r);
                    if sub {
                        // The recursive call moved `w` off `c`, freeing it.
                        assert(c2r@[c as int] is None);
                        assert(r2c@[u as int] == entry_r2c[u as int]);
                        bind_pair(p, u, c, r2c, c2r);
                        proof {
                            lemma_count_unvisited_le(entry_visited, visited@);
                        }
                        return true;
                    }
                    proof {
                        lemma_count_unvisited_le(entry_visited, visited@);
                    }
                },
            }
        }
        c = c + 1;
    }
    false
}

/// Finds a matching that covers every equation row, or reports a row on which
/// every augmenting search failed, in which case no such matching exists.
#[verifier::loop_isolation(false)]
pub fn find_perfect_matching(p: &SparsityPattern) -> (res: Result<Vec<usize>, usize>)
    requires
        p.wf(),
    ensures
        match res {
            Ok(m) => is_row_matching(*p, m@),
            Err(row) => !has_perfect_matching(*p) && (row as int) < p.nrows_spec(),
        },
{
    let n_rows = p.nrows();
    let n_cols = p.ncols();
    let mut r2c: Vec<Option<usize>> = Vec::new();
    let mut c2r: Vec<Option<usize>> = Vec::new();
    let mut k: usize = 0;
    while k < n_rows
        invariant
            k <= n_rows,
            r2c@.len() == k,
            forall|i: int| 0 <= i < k ==> r2c@[i] is None,
        decreases n_rows - k,
    {
        r2c.push(None);
        k = k + 1;
    }
    let mut k2: usize = 0;
    while k2 < n_cols
        invariant
            k2 <= n_cols,
            c2r@.len() == k2,
            forall|i: int| 0 <= i < k2 ==> c2r@[i] is None,
        decreases n_cols - k2,
    {
        c2r.push(None);
        k2 = k2 + 1;
    }

    let mut u: usize = 0;
    while u < n_rows
        invariant
            p.wf(),
            u <= n_rows,
            n_rows == p.nrows_spec(),
            n_cols == p.ncols_spec(),
            matching_state_ok(*p, r2c@, c2r@),
            forall|i: int| 0 <= i < u ==> (#[trigger] r2c@[i]) is Some,
            forall|i: int| u <= i < n_rows ==> (#[trigger] r2c@[i]) is None,
        decreases n_rows - u,
    {
        let mut visited: Vec<bool> = Vec::new();
        let mut k3: usize = 0;
        while k3 < n_cols
            invariant
                k3 <= n_cols,
                visited@.len() == k3,
                forall|i: int| 0 <= i < k3 ==> !visited@[i],
            decreases n_cols - k3,
        {
            visited.push(false);
            k3 = k3 + 1;
        }
        let found = try_augment(p, u, &mut visited, &mut r2c, &mut c2r);
        if !found {
            proof {
                lemma_hall_violator(*p, r2c@, c2r@, visited@, u as int);
            }
            return Err(u);
        }
        u = u + 1;
    }

    // All rows are matched; read the columns off.
    let mut m: Vec<usize> = Vec::new();
    let mut i: usize = 0;
    while i < n_rows
        invariant
            p.wf(),
            i <= n_rows,
            n_rows == p.nrows_spec(),
            matching_state_ok(*p, r2c@, c2r@),
            forall|t: int| 0 <= t < n_rows ==> (#[trigger] r2c@[t]) is Some,
            m@.len() == i,
            forall|t: int| 0 <= t < i ==> Some(#[trigger] m@[t]) == r2c@[t],
        decreases n_rows - i,
    {
        match r2c[i] {
            Some(ci) => m.push(ci),
            None => {
                // unreachable: every row is matched
                proof {
                    assert(false);
                }
                m.push(0);
            },
        }
        i = i + 1;
    }
    proof {
        assert forall|a: int, b: int| 0 <= a < b < m@.len() implies m@[a] != m@[b] by {
            if m@[a] == m@[b] {
                let ca = m@[a];
                assert(r2c@[a] == Some(ca));
                assert(r2c@[b] == Some(ca));
                assert(c2r@[ca as int] == Some(a as usize));
                assert(c2r@[ca as int] == Some(b as usize));
            }
        }
    }
    Ok(m)
}

/// The closure left behind by a failed augmenting search certifies that no
/// row-covering matching exists: the unmatched row together with the owners
/// of the visited columns form a set of rows whose present columns all lie in
/// the visited set, one column short of the number of rows.
proof fn lemma_hall_violator(
    p: SparsityPattern,
    r2c: Seq<Option<usize>>,
    c2r: Seq<Option<usize>>,
    visited: Seq<bool>,
    u: int,
)
    requires
        p.wf(),
        matching_state_ok(p, r2c, c2r),
        visited.len() == p.ncols_spec(),
        0 <= u < p.nrows_spec(),
        r2c[u] is None,
        forall|c: int| 0 <= c < p.ncols_spec() && p.present(u, c) ==> visited[c],
        forall|c: int|
            0 <= c < p.ncols_spec() && visited[c] ==> (#[trigger] c2r[c]) is Some,
        forall|c: int, c2: int|
            0 <= c < p.ncols_spec() && visited[c] && 0 <= c2 < p.ncols_spec() && p.present(
                owner_of(c2r, c),
                c2,
            ) ==> visited[c2],
    ensures
        !has_perfect_matching(p),
{
    if has_perfect_matching(p) {
        let m = choose|m: Seq<usize>| is_row_matching(p, m);
        let vset: Set<int> = Set::new(|c: int| 0 <= c < p.ncols_spec() && visited[c]);
        let f = |c: int| owner_of(c2r, c);
        let owners: Set<int> = vset.map(f);
        let rset: Set<int> = owners.insert(u);

        // vset is finite and no larger than the number of columns
        lemma_int_range(0, p.ncols_spec());
        assert(vset.subset_of(set_int_range(0, p.ncols_spec())));
        lemma_len_subset(vset, set_int_range(0, p.ncols_spec()));

        // owner is injective on vset, so owners has the same size
        assert forall|c1: int, c2: int|
            vset.contains(c1) && vset.contains(c2) && #[trigger] f(c1) == #[trigger] f(c2)
            implies c1 == c2 by {
            let w = owner_of(c2r, c1);
            assert(c2r[c1] is Some && c2r[c2] is Some);
            assert(r2c[w] == Some(c1 as usize));
            assert(r2c[w] == Some(c2 as usize));
        }
        lemma_map_size(vset, owners, f);

        // u is not an owner of any visited column
        assert(!owners.contains(u)) by {
            if owners.contains(u) {
                let cu = choose|c: int| vset.contains(c) && #[trigger] f(c) == u;
                assert(c2r[cu] is Some);
                assert(r2c[u] == Some(cu as usize));
            }
        }
        assert(rset.len() == vset.len() + 1);

        // the matched columns of rset land injectively inside vset
        let g = |i: int| m[i] as int;
        assert forall|i: int| rset.contains(i) implies 0 <= i < p.nrows_spec() by {
            if i != u {
                let c0 = choose|c: int| vset.contains(c) && #[trigger] f(c) == i;
                assert(c2r[c0] is Some);
            }
        }
        let image: Set<int> = rset.map(g);
        assert forall|i: int| rset.contains(i) implies vset.contains(#[trigger] g(i)) by {
            assert(0 <= i < p.nrows_spec());
            assert(p.present(i, m[i] as int));
            if i == u {
                assert(visited[m[i] as int]);
            } else {
                let c0 = choose|c: int| vset.contains(c) && #[trigger] f(c) == i;
                assert(visited[c0]);
                assert(owner_of(c2r, c0) == i);
                assert(visited[m[i] as int]);
            }
        }
        assert forall|i1: int, i2: int|
            rset.contains(i1) && rset.contains(i2) && #[trigger] g(i1) == #[trigger] g(i2)
            implies i1 == i2 by {
            assert(0 <= i1 < p.nrows_spec());
            assert(0 <= i2 < p.nrows_spec());
            if i1 < i2 {
                assert(m[i1] != m[i2]);
            }
            if i2 < i1 {
                assert(m[i2] != m[i1]);
            }
        }
        lemma_map_size(rset, image, g);
        assert(image.subset_of(vset)) by {
            assert forall|y: int| image.contains(y) implies vset.contains(y) by {
                let i = choose|i: int| rset.contains(i) && #[trigger] g(i) == y;
            }
        }
        lemma_len_subset(image, vset);
        assert(false);
    }
}

} // verus!
