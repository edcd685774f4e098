//! Block lower-triangular decomposition of a matched sparsity pattern.
//!
//! The blocks of the solution plan are the strongly connected components of
//! the row dependency graph, emitted dependencies first, so that every
//! dependency of a block is owned by the block itself or an earlier one.
//! Ties are broken deterministically: among the components whose
//! dependencies are already planned, the one holding the smallest row goes
//! first.

use vstd::prelude::*;
use vstd::set_lib::{lemma_int_range, lemma_len_subset, lemma_map_size, lemma_subset_equality, set_int_range};
use crate::error::EqSysError;
use crate::graph::{build_dependency_closure, depends_on, mat_wf, reaches, rt_closed_over, same_component};
use crate::matching::{find_perfect_matching, has_perfect_matching, is_row_matching};
use crate::pattern::SparsityPattern;
use crate::solution_plan::{SolutionBlock, SolutionPlan};

verus! {

/// The sequence holds the value `v`.
pub open spec fn seq_contains(s: Seq<usize>, v: int) -> bool {
    exists|j: int| 0 <= j < s.len() && s[j] == v
}

/// Some component in the list holds the row `v`.
pub open spec fn comps_cover(comps: Seq<Vec<usize>>, v: int) -> bool {
    exists|t: int| 0 <= t < comps.len() && seq_contains((#[trigger] comps[t])@, v)
}

/// Row `v` lies in one of the first `t` components.
pub open spec fn emitted_before(comps: Seq<Vec<usize>>, t: int, v: int) -> bool {
    exists|t2: int| 0 <= t2 < t && seq_contains((#[trigger] comps[t2])@, v)
}

/// Row `v` was ready when component `t` was chosen: every row `v` reaches
/// that was not emitted earlier lies in `v`'s own component.
pub open spec fn ready_at(
    p: SparsityPattern,
    m: Seq<usize>,
    comps: Seq<Vec<usize>>,
    t: int,
    v: int,
) -> bool {
    forall|a: int|
        0 <= a < p.nrows_spec() && !emitted_before(comps, t, a) && #[trigger] reaches(p, m, v, a)
            ==> reaches(p, m, a, v)
}

/// Reaching is reflexive.
proof fn lemma_reaches_refl(p: SparsityPattern, m: Seq<usize>, i: int)
    requires
        0 <= i < p.nrows_spec(),
    ensures
        reaches(p, m, i, i),
{
    assert forall|r: Seq<Seq<bool>>| #[trigger] rt_closed_over(p, m, r) implies r[i][i] by {}
}

/// A dependency edge is a reach.
proof fn lemma_reaches_edge(p: SparsityPattern, m: Seq<usize>, i: int, k: int)
    requires
        depends_on(p, m, i, k),
    ensures
        reaches(p, m, i, k),
{
    assert forall|r: Seq<Seq<bool>>| #[trigger] rt_closed_over(p, m, r) implies r[i][k] by {}
}

/// Reaching is transitive.
proof fn lemma_reaches_trans(p: SparsityPattern, m: Seq<usize>, i: int, j: int, k: int)
    requires
        reaches(p, m, i, j),
        reaches(p, m, j, k),
    ensures
        reaches(p, m, i, k),
{
    assert forall|r: Seq<Seq<bool>>| #[trigger] rt_closed_over(p, m, r) implies r[i][k] by {
        assert(r[i][j] && r[j][k]);
    }
}

/// Row `k` is ready to be emitted: every unplaced row that `k` reaches
/// (depends on, transitively) reaches back, that is, lies in the same
/// component. Such a component depends on nothing outside the plan so far.
pub open spec fn row_ready(p: SparsityPattern, m: Seq<usize>, placed: Seq<bool>, k: int) -> bool {
    forall|a: int|
        0 <= a < p.nrows_spec() && !placed[a] && #[trigger] reaches(p, m, k, a) ==> reaches(
            p,
            m,
            a,
            k,
        )
}

/// Readiness is a property of the whole component: if `k` is ready, so is
/// every row of its component.
proof fn lemma_ready_same_component(
    p: SparsityPattern,
    m: Seq<usize>,
    placed: Seq<bool>,
    k: int,
    w: int,
)
    requires
        0 <= k < p.nrows_spec(),
        0 <= w < p.nrows_spec(),
        row_ready(p, m, placed, k),
        same_component(p, m, k, w),
    ensures
        row_ready(p, m, placed, w),
{
    assert forall|a: int|
        0 <= a < p.nrows_spec() && !placed[a] && #[trigger] reaches(p, m, w, a) implies reaches(
        p,
        m,
        a,
        w,
    ) by {
        lemma_reaches_trans(p, m, k, w, a);
        assert(reaches(p, m, a, k));
        lemma_reaches_trans(p, m, a, k, w);
    }
}

/// The unplaced strict dependencies of row `k`: rows that `k` reaches but
/// that do not reach back.
spec fn strict_deps(p: SparsityPattern, m: Seq<usize>, placed: Seq<bool>, k: int) -> Set<int> {
    Set::new(
        |a: int|
            0 <= a < p.nrows_spec() && !placed[a] && reaches(p, m, k, a) && !reaches(p, m, a, k),
    )
}

/// Among the unplaced rows there is always a ready one: walking to a strict
/// dependency strictly shrinks the set of strict dependencies, so the walk
/// bottoms out.
proof fn lemma_exists_ready(p: SparsityPattern, m: Seq<usize>, placed: Seq<bool>, k0: int)
    requires
        placed.len() == p.nrows_spec(),
        0 <= k0 < p.nrows_spec(),
        !placed[k0],
    ensures
        exists|k: int|
            0 <= k < p.nrows_spec() && !placed[k] && #[trigger] row_ready(p, m, placed, k),
    decreases strict_deps(p, m, placed, k0).len(),
{
    let n = p.nrows_spec();
    let u0 = strict_deps(p, m, placed, k0);
    lemma_int_range(0, n);
    lemma_len_subset(u0, set_int_range(0, n));
    if row_ready(p, m, placed, k0) {
        assert(0 <= k0 < n && !placed[k0] && row_ready(p, m, placed, k0));
    } else {
        let a = choose|a: int|
            0 <= a < n && !placed[a] && #[trigger] reaches(p, m, k0, a) && !reaches(p, m, a, k0);
        assert(u0.contains(a));
        let ua = strict_deps(p, m, placed, a);
        assert forall|b: int| ua.contains(b) implies u0.remove(a).contains(b) by {
            assert(reaches(p, m, a, b));
            lemma_reaches_trans(p, m, k0, a, b);
            if reaches(p, m, b, k0) {
                lemma_reaches_trans(p, m, a, b, k0);
            }
            lemma_reaches_refl(p, m, a);
        }
        lemma_len_subset(ua, u0.remove(a));
        assert(u0.remove(a).len() == u0.len() - 1);
        lemma_exists_ready(p, m, placed, a);
    }
}

/// Positive count of unvisited slots yields an unvisited slot.
proof fn lemma_count_unvisited_pos(v: Seq<bool>)
    requires
        crate::matching::count_unvisited(v) > 0,
    ensures
        exists|i: int| 0 <= i < v.len() && !v[i],
    decreases v.len(),
{
    if v.len() > 0 {
        if v.last() {
            lemma_count_unvisited_pos(v.drop_last());
            let i = choose|i: int| 0 <= i < v.drop_last().len() && !v.drop_last()[i];
            assert(0 <= i < v.len() && !v[i]);
        } else {
            assert(0 <= v.len() - 1 < v.len() && !v[v.len() - 1]);
        }
    }
}

/// Whether `cand` is ready with respect to the placed rows.
#[verifier::loop_isolation(false)]
fn check_ready(
    p: &SparsityPattern,
    Ghost(m): Ghost<Seq<usize>>,
    r: &Vec<Vec<bool>>,
    placed: &Vec<bool>,
    cand: usize,
    n: usize,
) -> (b: bool)
    requires
        n == p.nrows_spec(),
        mat_wf(*r, n as int),
        forall|i: int, k: int|
            0 <= i < n && 0 <= k < n ==> ((#[trigger] r@[i]@[k]) <==> reaches(*p, m, i, k)),
        placed@.len() == n,
        (cand as int) < n,
    ensures
        b == row_ready(*p, m, placed@, cand as int),
{
    let mut a: usize = 0;
    while a < n
        invariant
            a <= n,
            forall|t: int|
                0 <= t < a && !placed@[t] && #[trigger] reaches(*p, m, cand as int, t) ==> reaches(
                    *p,
                    m,
                    t,
                    cand as int,
                ),
        decreases n - a,
    {
        if !placed[a] && r[cand][a] && !r[a][cand] {
            return false;
        }
        a = a + 1;
    }
    true
}

/// Finds the smallest unplaced ready row.
#[verifier::loop_isolation(false)]
fn find_ready(
    p: &SparsityPattern,
    Ghost(m): Ghost<Seq<usize>>,
    r: &Vec<Vec<bool>>,
    placed: &Vec<bool>,
    n: usize,
) -> (k: usize)
    requires
        n == p.nrows_spec(),
        mat_wf(*r, n as int),
        forall|i: int, k: int|
            0 <= i < n && 0 <= k < n ==> ((#[trigger] r@[i]@[k]) <==> reaches(*p, m, i, k)),
        placed@.len() == n,
        exists|v: int| 0 <= v < n && !placed@[v],
    ensures
        (k as int) < n,
        !placed@[k as int],
        row_ready(*p, m, placed@, k as int),
        forall|c: int| 0 <= c < k ==> placed@[c] || !row_ready(*p, m, placed@, c),
{
    let mut cand: usize = 0;
    while cand < n
        invariant
            cand <= n,
            forall|c: int| 0 <= c < cand ==> placed@[c] || !row_ready(*p, m, placed@, c),
        decreases n - cand,
    {
        if !placed[cand] {
            if check_ready(p, Ghost(m), r, placed, cand, n) {
                return cand;
            }
        }
        cand = cand + 1;
    }
    proof {
        let v = choose|v: int| 0 <= v < n && !placed@[v];
        lemma_exists_ready(*p, m, placed@, v);
        assert(false);
    }
    0
}

/// Collects, in ascending order, every row in the mutual-reach class of `cand`.
#[verifier::loop_isolation(false)]
fn collect_component(
    p: &SparsityPattern,
    Ghost(m): Ghost<Seq<usize>>,
    r: &Vec<Vec<bool>>,
    cand: usize,
    n: usize,
) -> (comp: Vec<usize>)
    requires
        n == p.nrows_spec(),
        mat_wf(*r, n as int),
        forall|i: int, k: int|
            0 <= i < n && 0 <= k < n ==> ((#[trigger] r@[i]@[k]) <==> reaches(*p, m, i, k)),
        (cand as int) < n,
    ensures
        comp@.len() > 0,
        crate::solution_plan::strictly_increasing(comp@),
        crate::solution_plan::idxs_below(comp@, n as int),
        seq_contains(comp@, cand as int),
        forall|j: int|
            0 <= j < comp@.len() ==> same_component(*p, m, cand as int, (#[trigger] comp@[j]) as int),
        forall|j1: int, j2: int|
            0 <= j1 < comp@.len() && 0 <= j2 < comp@.len() ==> same_component(
                *p,
                m,
                comp@[j1] as int,
                comp@[j2] as int,
            ),
        forall|v: int|
            0 <= v < n && same_component(*p, m, cand as int, v) ==> seq_contains(comp@, v),
{
    let mut comp: Vec<usize> = Vec::new();
    let mut v: usize = 0;
    while v < n
        invariant
            v <= n,
            forall|j: int| 0 <= j < comp@.len() ==> (#[trigger] comp@[j]) < v,
            crate::solution_plan::strictly_increasing(comp@),
            forall|j: int|
                0 <= j < comp@.len() ==> same_component(
                    *p,
                    m,
                    cand as int,
                    (#[trigger] comp@[j]) as int,
                ),
            forall|t: int| 0 <= t < v && same_component(*p, m, cand as int, t) ==> seq_contains(
                comp@,
                t,
            ),
        decreases n - v,
    {
        if r[cand][v] && r[v][cand] {
            let ghost pre = comp@;
            comp.push(v);
            proof {
                assert(comp@[pre.len() as int] == v);
                assert forall|t: int|
                    0 <= t < v + 1 && same_component(*p, m, cand as int, t)
                    implies seq_contains(comp@, t) by {
                    if t < v {
                        assert(seq_contains(pre, t));
                        let j = choose|j: int| 0 <= j < pre.len() && pre[j] == t;
                        assert(comp@[j] == t);
                    } else {
                        assert(comp@[pre.len() as int] == t);
                    }
                }
            }
        }
        v = v + 1;
    }
    proof {
        lemma_reaches_refl(*p, m, cand as int);
        assert(same_component(*p, m, cand as int, cand as int));
        assert(seq_contains(comp@, cand as int));
        assert forall|j1: int, j2: int|
            0 <= j1 < comp@.len() && 0 <= j2 < comp@.len() implies same_component(
            *p,
            m,
            comp@[j1] as int,
            comp@[j2] as int,
        ) by {
            lemma_reaches_trans(*p, m, comp@[j1] as int, cand as int, comp@[j2] as int);
            lemma_reaches_trans(*p, m, comp@[j2] as int, cand as int, comp@[j1] as int);
        }
    }
    comp
}

proof fn lemma_count_unvisited_all_false(v: Seq<bool>)
    requires
        forall|i: int| 0 <= i < v.len() ==> !v[i],
    ensures
        crate::matching::count_unvisited(v) == v.len(),
    decreases v.len(),
{
    if v.len() > 0 {
        assert forall|i: int| 0 <= i < v.drop_last().len() implies !v.drop_last()[i] by {
            assert(!v[i]);
        }
        lemma_count_unvisited_all_false(v.drop_last());
    }
}

proof fn lemma_count_unvisited_zero(v: Seq<bool>)
    requires
        crate::matching::count_unvisited(v) == 0,
    ensures
        forall|i: int| 0 <= i < v.len() ==> v[i],
    decreases v.len(),
{
    if v.len() > 0 {
        crate::matching::lemma_count_unvisited_bounds(v.drop_last());
        lemma_count_unvisited_zero(v.drop_last());
        assert forall|i: int| 0 <= i < v.len() implies v[i] by {
            if i < v.len() - 1 {
                assert(v.drop_last()[i]);
            }
        }
    }
}

/// Emits the mutual-reach classes of the dependency relation, dependencies
/// first: every row a component reaches sits in that component or an earlier
/// one. Among the emittable components, the one holding the smallest row
/// goes first; rows inside a component are ascending.
#[verifier::loop_isolation(false)]
fn component_order(
    p: &SparsityPattern,
    Ghost(m): Ghost<Seq<usize>>,
    r: &Vec<Vec<bool>>,
    n: usize,
) -> (comps: Vec<Vec<usize>>)
    requires
        n == p.nrows_spec(),
        mat_wf(*r, n as int),
        forall|i: int, k: int|
            0 <= i < n && 0 <= k < n ==> ((#[trigger] r@[i]@[k]) <==> reaches(*p, m, i, k)),
    ensures
        forall|t: int| 0 <= t < comps@.len() ==> (#[trigger] comps@[t])@.len() > 0,
        forall|t: int|
            0 <= t < comps@.len() ==> crate::solution_plan::strictly_increasing(
                (#[trigger] comps@[t])@,
            ),
        forall|t: int|
            0 <= t < comps@.len() ==> crate::solution_plan::idxs_below(
                (#[trigger] comps@[t])@,
                n as int,
            ),
        forall|t: int, j1: int, j2: int|
            0 <= t < comps@.len() && 0 <= j1 < comps@[t]@.len() && 0 <= j2 < comps@[t]@.len()
                ==> same_component(
                *p,
                m,
                (#[trigger] comps@[t]@[j1]) as int,
                (#[trigger] comps@[t]@[j2]) as int,
            ),
        forall|t: int, j: int, v: int|
            0 <= t < comps@.len() && 0 <= j < comps@[t]@.len() && 0 <= v < n
                && #[trigger] same_component(*p, m, comps@[t]@[j] as int, v) ==> seq_contains(
                comps@[t]@,
                v,
            ),
        forall|v: int| 0 <= v < n ==> #[trigger] comps_cover(comps@, v),
        forall|t1: int, t2: int, v: int|
            0 <= t1 < t2 < comps@.len() && #[trigger] seq_contains(comps@[t1]@, v)
                ==> !(#[trigger] seq_contains(comps@[t2]@, v)),
        forall|t: int, a: int, x: int|
            0 <= t < comps@.len() && #[trigger] seq_contains(comps@[t]@, x) && 0 <= a < n
                && #[trigger] reaches(*p, m, x, a) && !seq_contains(comps@[t]@, a)
                ==> exists|t2: int| 0 <= t2 < t && seq_contains((#[trigger] comps@[t2])@, a),
        forall|t: int, v: int|
            0 <= t < comps@.len() && 0 <= v < n && !emitted_before(comps@, t, v)
                && #[trigger] ready_at(*p, m, comps@, t, v) ==> comps@[t]@[0] <= v,
{
    let mut comps: Vec<Vec<usize>> = Vec::new();
    let mut placed: Vec<bool> = Vec::new();
    let mut k0: usize = 0;
    while k0 < n
        invariant
            k0 <= n,
            placed@.len() == k0,
            forall|i: int| 0 <= i < k0 ==> !placed@[i],
        decreases n - k0,
    {
        placed.push(false);
        k0 = k0 + 1;
    }
    let mut n_placed: usize = 0;
    proof {
        crate::matching::lemma_count_unvisited_bounds(placed@);
        assert forall|i: int| 0 <= i < placed@.len() implies !placed@[i] by {}
        lemma_count_unvisited_all_false(placed@);
    }
    while n_placed < n
        invariant
            placed@.len() == n,
            n_placed <= n,
            n - n_placed == crate::matching::count_unvisited(placed@),
            // placed rows are exactly the rows of emitted components
            forall|v: int| 0 <= v < n && placed@[v] ==> #[trigger] comps_cover(comps@, v),
            forall|t: int, j: int|
                0 <= t < comps@.len() && 0 <= j < comps@[t]@.len() ==> (#[trigger] comps@[t]@[j])
                    < n && placed@[comps@[t]@[j] as int],
            // placed rows are component-closed
            forall|u: int, v: int|
                0 <= u < n && 0 <= v < n && placed@[u] && same_component(*p, m, u, v)
                    ==> placed@[v],
            // component shape
            forall|t: int| 0 <= t < comps@.len() ==> (#[trigger] comps@[t])@.len() > 0,
            forall|t: int|
                0 <= t < comps@.len() ==> crate::solution_plan::strictly_increasing(
                    (#[trigger] comps@[t])@,
                ),
            forall|t: int, j1: int, j2: int|
                0 <= t < comps@.len() && 0 <= j1 < comps@[t]@.len() && 0 <= j2 < comps@[t]@.len()
                    ==> same_component(
                    *p,
                    m,
                    (#[trigger] comps@[t]@[j1]) as int,
                    (#[trigger] comps@[t]@[j2]) as int,
                ),
            forall|t: int, j: int, v: int|
                0 <= t < comps@.len() && 0 <= j < comps@[t]@.len() && 0 <= v < n
                    && #[trigger] same_component(*p, m, comps@[t]@[j] as int, v)
                    ==> seq_contains(comps@[t]@, v),
            forall|t1: int, t2: int, v: int|
                0 <= t1 < t2 < comps@.len() && #[trigger] seq_contains(comps@[t1]@, v)
                    ==> !(#[trigger] seq_contains(comps@[t2]@, v)),
            forall|t: int, a: int, x: int|
                0 <= t < comps@.len() && #[trigger] seq_contains(comps@[t]@, x) && 0 <= a < n
                    && #[trigger] reaches(*p, m, x, a) && !seq_contains(comps@[t]@, a)
                    ==> exists|t2: int| 0 <= t2 < t && seq_contains((#[trigger] comps@[t2])@, a),
            forall|t: int, v: int|
                0 <= t < comps@.len() && 0 <= v < n && !emitted_before(comps@, t, v)
                    && #[trigger] ready_at(*p, m, comps@, t, v) ==> comps@[t]@[0] <= v,
        decreases n - n_placed,
    {
        proof {
            lemma_count_unvisited_pos(placed@);
        }
        let cand = find_ready(p, Ghost(m), r, &placed, n);
        let comp = collect_component(p, Ghost(m), r, cand, n);
        let ghost placed_pre = placed@;
        let ghost comps_pre = comps@;

        // the members of the new component were not placed before, and the
        // chosen row leads it: a smaller member would have been found ready
        proof {
            assert forall|jj: int| 0 <= jj < comp@.len() implies !placed_pre[comp@[jj] as int] by {
                if placed_pre[comp@[jj] as int] {
                    assert(same_component(*p, m, comp@[jj] as int, cand as int));
                    assert(placed_pre[cand as int]);
                }
            }
            let w = comp@[0] as int;
            assert(same_component(*p, m, cand as int, w));
            lemma_ready_same_component(*p, m, placed_pre, cand as int, w);
            assert(!placed_pre[w]);
            let jc = choose|jj: int| 0 <= jj < comp@.len() && comp@[jj] == cand;
            assert(comp@[0] <= comp@[jc]);
            assert(comp@[0] == cand);
        }

        // mark the members placed
        let ghost n_placed_entry = n_placed as int;
        let mut j: usize = 0;
        while j < comp.len()
            invariant
                j <= comp@.len(),
                placed@.len() == n,
                n_placed == n_placed_entry + j,
                n_placed <= n,
                n - n_placed == crate::matching::count_unvisited(placed@),
                forall|v: int|
                    0 <= v < n ==> ((#[trigger] placed@[v]) <==> (placed_pre[v] || exists|jj: int|
                        0 <= jj < j && comp@[jj] == v)),
            decreases comp@.len() - j,
        {
            let v = comp[j];
            proof {
                assert(!placed@[v as int]) by {
                    if placed@[v as int] && !placed_pre[v as int] {
                        let jj = choose|jj: int| 0 <= jj < j && comp@[jj] == v as int;
                        assert(comp@[jj] == comp@[j as int]);
                    }
                }
                crate::matching::lemma_count_unvisited_update(placed@, v as int);
                crate::matching::lemma_count_unvisited_bounds(placed@.update(v as int, true));
            }
            placed.set(v, true);
            n_placed = n_placed + 1;
            j = j + 1;
        }

        comps.push(comp);

        proof {
            let t_new = comps_pre.len() as int;
            assert(comps@[t_new] == comp);
            assert forall|t: int| 0 <= t < t_new implies comps@[t] == comps_pre[t] by {}
            assert forall|v: int| 0 <= v < n implies ((#[trigger] placed@[v]) <==> (placed_pre[v]
                || seq_contains(comp@, v))) by {}

            // placed rows are covered by some component
            assert forall|v: int| 0 <= v < n && placed@[v] implies #[trigger] comps_cover(
                comps@,
                v,
            ) by {
                if placed_pre[v] {
                    assert(comps_cover(comps_pre, v));
                    let t = choose|t: int|
                        0 <= t < comps_pre.len() && seq_contains((#[trigger] comps_pre[t])@, v);
                    assert(comps@[t] == comps_pre[t]);
                    assert(seq_contains(comps@[t]@, v));
                } else {
                    assert(seq_contains(comps@[t_new]@, v));
                }
            }

            // members are in range and placed
            assert forall|t: int, jj: int|
                0 <= t < comps@.len() && 0 <= jj < comps@[t]@.len()
                implies (#[trigger] comps@[t]@[jj]) < n && placed@[comps@[t]@[jj] as int] by {
                if t < t_new {
                    assert(comps@[t] == comps_pre[t]);
                    assert(comps_pre[t]@[jj] < n && placed_pre[comps_pre[t]@[jj] as int]);
                } else {
                    assert(seq_contains(comp@, comp@[jj] as int));
                }
            }

            // placed rows stay component-closed
            assert forall|u: int, v: int|
                0 <= u < n && 0 <= v < n && placed@[u] && #[trigger] same_component(*p, m, u, v)
                implies placed@[v] by {
                if placed_pre[u] {
                    assert(placed_pre[v]);
                } else {
                    let ju = choose|jj: int| 0 <= jj < comp@.len() && comp@[jj] == u;
                    assert(same_component(*p, m, cand as int, u));
                    lemma_reaches_trans(*p, m, cand as int, u, v);
                    lemma_reaches_trans(*p, m, v, u, cand as int);
                    assert(same_component(*p, m, cand as int, v));
                    assert(seq_contains(comp@, v));
                }
            }

            // component shape carries over and holds of the new one
            assert forall|t: int| 0 <= t < comps@.len() implies (#[trigger] comps@[t])@.len() > 0
                && crate::solution_plan::strictly_increasing(comps@[t]@) by {
                if t < t_new {
                    assert(comps@[t] == comps_pre[t]);
                }
            }

            // pairwise same component within each block
            assert forall|t: int, j1: int, j2: int|
                0 <= t < comps@.len() && 0 <= j1 < comps@[t]@.len() && 0 <= j2 < comps@[t]@.len()
                implies same_component(
                *p,
                m,
                (#[trigger] comps@[t]@[j1]) as int,
                (#[trigger] comps@[t]@[j2]) as int,
            ) by {
                if t < t_new {
                    assert(comps@[t] == comps_pre[t]);
                    assert(same_component(
                        *p,
                        m,
                        comps_pre[t]@[j1] as int,
                        comps_pre[t]@[j2] as int,
                    ));
                }
            }

            // each block holds its whole component
            assert forall|t: int, jj: int, v: int|
                0 <= t < comps@.len() && 0 <= jj < comps@[t]@.len() && 0 <= v < n
                    && #[trigger] same_component(*p, m, comps@[t]@[jj] as int, v)
                implies seq_contains(comps@[t]@, v) by {
                if t < t_new {
                    assert(comps@[t] == comps_pre[t]);
                    assert(same_component(*p, m, comps_pre[t]@[jj] as int, v));
                    assert(seq_contains(comps_pre[t]@, v));
                } else {
                    let u = comp@[jj] as int;
                    assert(same_component(*p, m, cand as int, u));
                    lemma_reaches_trans(*p, m, cand as int, u, v);
                    lemma_reaches_trans(*p, m, v, u, cand as int);
                    assert(same_component(*p, m, cand as int, v));
                }
            }

            // blocks stay disjoint
            assert forall|t1: int, t2: int, v: int|
                0 <= t1 < t2 < comps@.len() && #[trigger] seq_contains(comps@[t1]@, v)
                implies !(#[trigger] seq_contains(comps@[t2]@, v)) by {
                if t2 < t_new {
                    assert(comps@[t1] == comps_pre[t1] && comps@[t2] == comps_pre[t2]);
                    assert(seq_contains(comps_pre[t1]@, v));
                    assert(!seq_contains(comps_pre[t2]@, v));
                } else {
                    assert(comps@[t1] == comps_pre[t1]);
                    if seq_contains(comps@[t2]@, v) {
                        let j1 = choose|jj: int|
                            0 <= jj < comps_pre[t1]@.len() && comps_pre[t1]@[jj] == v;
                        assert(placed_pre[v]);
                        let j2 = choose|jj: int| 0 <= jj < comp@.len() && comp@[jj] == v;
                        assert(!placed_pre[comp@[j2] as int]);
                        assert(false);
                    }
                }
            }

            // ordering: whatever a component reaches sits in an earlier one
            assert forall|t: int, a: int, x: int|
                0 <= t < comps@.len() && #[trigger] seq_contains(comps@[t]@, x) && 0 <= a < n
                    && #[trigger] reaches(*p, m, x, a) && !seq_contains(comps@[t]@, a)
                implies exists|t2: int|
                0 <= t2 < t && seq_contains((#[trigger] comps@[t2])@, a) by {
                if t < t_new {
                    assert(comps@[t] == comps_pre[t]);
                    assert(seq_contains(comps_pre[t]@, x));
                    assert(!seq_contains(comps_pre[t]@, a));
                    let t2 = choose|t2: int|
                        0 <= t2 < t && seq_contains((#[trigger] comps_pre[t2])@, a);
                    assert(comps@[t2] == comps_pre[t2]);
                    assert(seq_contains(comps@[t2]@, a));
                } else {
                    let jx = choose|jj: int| 0 <= jj < comp@.len() && comp@[jj] == x;
                    assert(same_component(*p, m, cand as int, x as int));
                    if !placed_pre[a] {
                        lemma_reaches_trans(*p, m, cand as int, x, a);
                        assert(reaches(*p, m, a, cand as int));
                        lemma_reaches_trans(*p, m, cand as int, x, a);
                        assert(same_component(*p, m, cand as int, a));
                        assert(seq_contains(comp@, a));
                        assert(false);
                    }
                    assert(comps_cover(comps_pre, a));
                    let t2 = choose|t2: int|
                        0 <= t2 < comps_pre.len() && seq_contains((#[trigger] comps_pre[t2])@, a);
                    assert(comps@[t2] == comps_pre[t2]);
                    assert(seq_contains(comps@[t2]@, a));
                }
            }

            // the emitted-before prefix of every old position is unchanged
            assert forall|t: int, a: int| 0 <= t <= t_new implies (emitted_before(comps@, t, a)
                <==> emitted_before(comps_pre, t, a)) by {
                if emitted_before(comps@, t, a) {
                    let t2 = choose|t2: int|
                        0 <= t2 < t && seq_contains((#[trigger] comps@[t2])@, a);
                    assert(comps_pre[t2] == comps@[t2]);
                    assert(seq_contains(comps_pre[t2]@, a));
                }
                if emitted_before(comps_pre, t, a) {
                    let t2 = choose|t2: int|
                        0 <= t2 < t && seq_contains((#[trigger] comps_pre[t2])@, a);
                    assert(comps@[t2] == comps_pre[t2]);
                    assert(seq_contains(comps@[t2]@, a));
                }
            }

            // tie-break: the head of each component is the smallest row that
            // was ready when the component was chosen
            assert forall|t: int, v: int|
                0 <= t < comps@.len() && 0 <= v < n && !emitted_before(comps@, t, v)
                    && #[trigger] ready_at(*p, m, comps@, t, v)
                implies comps@[t]@[0] <= v by {
                if t < t_new {
                    assert(!emitted_before(comps_pre, t, v));
                    assert(ready_at(*p, m, comps_pre, t, v)) by {
                        assert forall|a: int|
                            0 <= a < p.nrows_spec() && !emitted_before(comps_pre, t, a)
                                && #[trigger] reaches(*p, m, v, a) implies reaches(*p, m, a, v) by {
                            assert(!emitted_before(comps@, t, a));
                        }
                    }
                    assert(comps_pre[t]@[0] <= v);
                    assert(comps@[t] == comps_pre[t]);
                } else {
                    // the new component: readiness at emission time is
                    // readiness with respect to the placed rows
                    assert(!placed_pre[v]) by {
                        if placed_pre[v] {
                            assert(comps_cover(comps_pre, v));
                            let t2 = choose|t2: int|
                                0 <= t2 < comps_pre.len() && seq_contains(
                                    (#[trigger] comps_pre[t2])@,
                                    v,
                                );
                            assert(comps@[t2] == comps_pre[t2]);
                            assert(seq_contains(comps@[t2]@, v));
                            assert(emitted_before(comps@, t_new, v));
                        }
                    }
                    assert(row_ready(*p, m, placed_pre, v)) by {
                        assert forall|a: int|
                            0 <= a < p.nrows_spec() && !placed_pre[a] && #[trigger] reaches(
                                *p,
                                m,
                                v,
                                a,
                            ) implies reaches(*p, m, a, v) by {
                            assert(!emitted_before(comps@, t_new, a)) by {
                                if emitted_before(comps@, t_new, a) {
                                    let t2 = choose|t2: int|
                                        0 <= t2 < t_new && seq_contains(
                                            (#[trigger] comps@[t2])@,
                                            a,
                                        );
                                    assert(comps@[t2] == comps_pre[t2]);
                                    assert(seq_contains(comps_pre[t2]@, a));
                                    let j2 = choose|j2: int|
                                        0 <= j2 < comps_pre[t2]@.len() && comps_pre[t2]@[j2] == a;
                                    assert(placed_pre[a]);
                                }
                            }
                        }
                    }
                    assert(cand <= v) by {
                        if v < cand {
                            assert(placed_pre[v] || !row_ready(*p, m, placed_pre, v));
                        }
                    }
                    assert(comps@[t]@[0] == cand);
                }
            }
        }
    }
    proof {
        lemma_count_unvisited_zero(placed@);
    }
    comps
}

/// Row `v` appears among the equations of block `k`.
pub open spec fn row_in_block(plan: SolutionPlan, k: int, v: int) -> bool {
    seq_contains(plan.blocks@[k].equation_idxs@, v)
}

/// Column `v` appears among the unknowns of block `k`.
pub open spec fn col_in_block(plan: SolutionPlan, k: int, v: int) -> bool {
    seq_contains(plan.blocks@[k].unknown_idxs@, v)
}

/// Some block solves equation row `v`.
pub open spec fn plan_covers_row(plan: SolutionPlan, v: int) -> bool {
    exists|k: int| 0 <= k < plan.blocks@.len() && #[trigger] row_in_block(plan, k, v)
}

/// Some block owns unknown column `v`.
pub open spec fn plan_covers_col(plan: SolutionPlan, v: int) -> bool {
    exists|k: int| 0 <= k < plan.blocks@.len() && #[trigger] col_in_block(plan, k, v)
}

/// Every block is well formed and numbered by its position in the plan.
pub open spec fn plan_blocks_wf(plan: SolutionPlan, n: int) -> bool {
    &&& forall|k: int| 0 <= k < plan.blocks@.len() ==> (#[trigger] plan.blocks@[k]).wf(n)
    &&& forall|k: int| 0 <= k < plan.blocks@.len() ==> (#[trigger] plan.blocks@[k]).block_idx == k
}

/// The equation rows of the blocks partition `{0, ..., n-1}`.
pub open spec fn plan_partitions_rows(plan: SolutionPlan, n: int) -> bool {
    &&& forall|v: int| 0 <= v < n ==> #[trigger] plan_covers_row(plan, v)
    &&& forall|k1: int, k2: int, v: int|
        0 <= k1 < k2 < plan.blocks@.len() && #[trigger] row_in_block(plan, k1, v) ==> !(
        #[trigger] row_in_block(plan, k2, v))
}

/// The unknown columns of the blocks partition `{0, ..., n-1}`.
pub open spec fn plan_partitions_cols(plan: SolutionPlan, n: int) -> bool {
    &&& forall|v: int| 0 <= v < n ==> #[trigger] plan_covers_col(plan, v)
    &&& forall|k1: int, k2: int, v: int|
        0 <= k1 < k2 < plan.blocks@.len() && #[trigger] col_in_block(plan, k1, v) ==> !(
        #[trigger] col_in_block(plan, k2, v))
    &&& forall|k: int, j1: int, j2: int|
        0 <= k < plan.blocks@.len() && 0 <= j1 < j2 < plan.blocks@[k].unknown_idxs@.len()
            ==> (#[trigger] plan.blocks@[k].unknown_idxs@[j1]) != (
        #[trigger] plan.blocks@[k].unknown_idxs@[j2])
}

/// Every present entry of a block's equation rows lies in a column owned by
/// that block or an earlier one: the plan is block lower-triangular.
pub open spec fn plan_lower_triangular(p: SparsityPattern, plan: SolutionPlan) -> bool {
    forall|k: int, j: int, c: int|
        0 <= k < plan.blocks@.len() && 0 <= j < plan.blocks@[k].equation_idxs@.len() && 0 <= c
            < p.ncols_spec() && #[trigger] p.present(plan.blocks@[k].equation_idxs@[j] as int, c)
            ==> exists|k2: int| 0 <= k2 <= k && #[trigger] col_in_block(plan, k2, c)
}

/// The plan pairs rows and columns through the matching `m`, each block is a
/// whole strongly connected component of the dependency graph, and reaches
/// only point to the same or an earlier block.
pub open spec fn plan_matches_components(
    p: SparsityPattern,
    m: Seq<usize>,
    plan: SolutionPlan,
) -> bool {
    &&& forall|k: int, j: int|
        0 <= k < plan.blocks@.len() && 0 <= j < plan.blocks@[k].equation_idxs@.len() ==> (
        #[trigger] plan.blocks@[k].unknown_idxs@[j]) == m[plan.blocks@[k].equation_idxs@[j] as int]
    &&& forall|k: int, j1: int, j2: int|
        0 <= k < plan.blocks@.len() && 0 <= j1 < plan.blocks@[k].equation_idxs@.len() && 0 <= j2
            < plan.blocks@[k].equation_idxs@.len() ==> same_component(
            p,
            m,
            (#[trigger] plan.blocks@[k].equation_idxs@[j1]) as int,
            (#[trigger] plan.blocks@[k].equation_idxs@[j2]) as int,
        )
    &&& forall|k: int, j: int, v: int|
        0 <= k < plan.blocks@.len() && 0 <= j < plan.blocks@[k].equation_idxs@.len() && 0 <= v
            < p.nrows_spec() && #[trigger] same_component(
            p,
            m,
            plan.blocks@[k].equation_idxs@[j] as int,
            v,
        ) ==> row_in_block(plan, k, v)
    &&& forall|k1: int, j1: int, k2: int, j2: int|
        0 <= k1 < plan.blocks@.len() && 0 <= j1 < plan.blocks@[k1].equation_idxs@.len() && 0 <= k2
            < plan.blocks@.len() && 0 <= j2 < plan.blocks@[k2].equation_idxs@.len()
            && #[trigger] reaches(
            p,
            m,
            plan.blocks@[k1].equation_idxs@[j1] as int,
            plan.blocks@[k2].equation_idxs@[j2] as int,
        ) ==> k2 <= k1
}

/// Row `v` lies in block `k` or a later one.
pub open spec fn in_late_blocks(plan: SolutionPlan, k: int, v: int) -> bool {
    exists|k2: int| k <= k2 < plan.blocks@.len() && #[trigger] row_in_block(plan, k2, v)
}

/// Row `v` could have opened the suffix of blocks `k..`: every not yet
/// planned row that `v` reaches lies in `v`'s own component.
pub open spec fn next_ready(p: SparsityPattern, m: Seq<usize>, plan: SolutionPlan, k: int, v: int) -> bool {
    forall|a: int|
        0 <= a < p.nrows_spec() && in_late_blocks(plan, k, a) && #[trigger] reaches(p, m, v, a)
            ==> reaches(p, m, a, v)
}

/// The deterministic tie-break of the block order: among the rows that could
/// have opened the suffix of blocks `k..`, block `k` holds the smallest.
/// Together with the component and topological clauses this pins the block
/// order completely, given the matching.
pub open spec fn plan_tie_break(p: SparsityPattern, m: Seq<usize>, plan: SolutionPlan) -> bool {
    forall|k: int, v: int|
        0 <= k < plan.blocks@.len() && 0 <= v < p.nrows_spec() && #[trigger] in_late_blocks(
            plan,
            k,
            v,
        ) && next_ready(p, m, plan, k, v) ==> plan.blocks@[k].equation_idxs@[0] <= v
}

/// The full contract of a built plan.
pub open spec fn valid_plan(p: SparsityPattern, plan: SolutionPlan) -> bool {
    &&& plan_blocks_wf(plan, p.nrows_spec())
    &&& plan_partitions_rows(plan, p.nrows_spec())
    &&& plan_partitions_cols(plan, p.nrows_spec())
    &&& plan_lower_triangular(p, plan)
    &&& exists|m: Seq<usize>|
        {
            &&& is_row_matching(p, m)
            &&& #[trigger] plan_matches_components(p, m, plan)
            &&& plan_tie_break(p, m, plan)
        }
}

/// Some row is matched to column `c`.
pub open spec fn col_matched(m: Seq<usize>, c: int) -> bool {
    exists|i: int| 0 <= i < m.len() && (#[trigger] m[i]) == c
}

/// A row matching of a square pattern covers every column.
proof fn lemma_matching_surjective(p: SparsityPattern, m: Seq<usize>)
    requires
        is_row_matching(p, m),
        p.nrows_spec() == p.ncols_spec(),
    ensures
        forall|c: int| 0 <= c < p.ncols_spec() ==> #[trigger] col_matched(m, c),
{
    let n = p.nrows_spec();
    let rows = set_int_range(0, n);
    let f = |i: int| m[i] as int;
    let image = rows.map(f);
    lemma_int_range(0, n);
    assert forall|i1: int, i2: int|
        rows.contains(i1) && rows.contains(i2) && #[trigger] f(i1) == #[trigger] f(i2)
        implies i1 == i2 by {
        if i1 < i2 {
            assert(m[i1] != m[i2]);
        }
        if i2 < i1 {
            assert(m[i2] != m[i1]);
        }
    }
    lemma_map_size(rows, image, f);
    assert(image.subset_of(rows)) by {
        assert forall|y: int| image.contains(y) implies rows.contains(y) by {
            let i = choose|i: int| rows.contains(i) && #[trigger] f(i) == y;
            assert(p.present(i, m[i] as int));
        }
    }
    lemma_subset_equality(image, rows);
    assert forall|c: int| 0 <= c < n implies #[trigger] col_matched(m, c) by {
        assert(rows.contains(c));
        assert(image.contains(c));
        let i = choose|i: int| rows.contains(i) && #[trigger] f(i) == c;
        assert(0 <= i < m.len() && m[i] == c);
    }
}

/// Transfers the facts about the emitted components to the assembled plan,
/// whose block `b` holds component `b`: the components already come out
/// dependencies-first, so they are the blocks in plan order.
proof fn lemma_plan_from_components(
    p: SparsityPattern,
    m: Seq<usize>,
    csq: Seq<Vec<usize>>,
    plan: SolutionPlan,
)
    requires
        p.wf(),
        p.nrows_spec() == p.ncols_spec(),
        is_row_matching(p, m),
        forall|t: int| 0 <= t < csq.len() ==> (#[trigger] csq[t])@.len() > 0,
        forall|t: int|
            0 <= t < csq.len() ==> crate::solution_plan::strictly_increasing((#[trigger] csq[t])@),
        forall|t: int|
            0 <= t < csq.len() ==> crate::solution_plan::idxs_below(
                (#[trigger] csq[t])@,
                p.nrows_spec(),
            ),
        forall|t: int, j1: int, j2: int|
            0 <= t < csq.len() && 0 <= j1 < csq[t]@.len() && 0 <= j2 < csq[t]@.len()
                ==> same_component(
                p,
                m,
                (#[trigger] csq[t]@[j1]) as int,
                (#[trigger] csq[t]@[j2]) as int,
            ),
        forall|t: int, j: int, v: int|
            0 <= t < csq.len() && 0 <= j < csq[t]@.len() && 0 <= v < p.nrows_spec()
                && #[trigger] same_component(p, m, csq[t]@[j] as int, v) ==> seq_contains(
                csq[t]@,
                v,
            ),
        forall|v: int| 0 <= v < p.nrows_spec() ==> #[trigger] comps_cover(csq, v),
        forall|t1: int, t2: int, v: int|
            0 <= t1 < t2 < csq.len() && #[trigger] seq_contains(csq[t1]@, v) ==> !(
            #[trigger] seq_contains(csq[t2]@, v)),
        forall|t: int, a: int, x: int|
            0 <= t < csq.len() && #[trigger] seq_contains(csq[t]@, x) && 0 <= a < p.nrows_spec()
                && #[trigger] reaches(p, m, x, a) && !seq_contains(csq[t]@, a) ==> exists|t2: int|
                0 <= t2 < t && seq_contains((#[trigger] csq[t2])@, a),
        forall|t: int, v: int|
            0 <= t < csq.len() && 0 <= v < p.nrows_spec() && !emitted_before(csq, t, v)
                && #[trigger] ready_at(p, m, csq, t, v) ==> csq[t]@[0] <= v,
        plan.blocks@.len() == csq.len(),
        forall|b: int| 0 <= b < plan.blocks@.len() ==> (#[trigger] plan.blocks@[b]).block_idx == b,
        forall|b: int|
            0 <= b < plan.blocks@.len() ==> (#[trigger] plan.blocks@[b]).equation_idxs@
                == csq[b]@,
        forall|b: int|
            0 <= b < plan.blocks@.len() ==> (#[trigger] plan.blocks@[b]).unknown_idxs@.len()
                == plan.blocks@[b].equation_idxs@.len(),
        forall|b: int, j: int|
            0 <= b < plan.blocks@.len() && 0 <= j < plan.blocks@[b].unknown_idxs@.len() ==> (
            #[trigger] plan.blocks@[b].unknown_idxs@[j]) == m[plan.blocks@[b].equation_idxs@[j] as int],
    ensures
        valid_plan(p, plan),
{
    let n = p.nrows_spec();
    let len = csq.len() as int;

    // well-formed blocks
    assert forall|b: int| 0 <= b < plan.blocks@.len() implies (#[trigger] plan.blocks@[b]).wf(
        n,
    ) by {
        let eq = plan.blocks@[b].equation_idxs@;
        let un = plan.blocks@[b].unknown_idxs@;
        assert(eq == csq[b]@);
        assert forall|j: int| 0 <= j < un.len() implies (#[trigger] un[j]) < n by {
            assert(un[j] == m[eq[j] as int]);
            assert(p.present(eq[j] as int, m[eq[j] as int] as int));
        }
    }

    // rows are covered and never shared
    assert forall|v: int| 0 <= v < n implies #[trigger] plan_covers_row(plan, v) by {
        assert(comps_cover(csq, v));
        let t = choose|t: int| 0 <= t < csq.len() && seq_contains((#[trigger] csq[t])@, v);
        assert(plan.blocks@[t].equation_idxs@ == csq[t]@);
        assert(row_in_block(plan, t, v));
    }
    assert forall|k1: int, k2: int, v: int|
        0 <= k1 < k2 < plan.blocks@.len() && #[trigger] row_in_block(plan, k1, v)
        implies !(#[trigger] row_in_block(plan, k2, v)) by {
        assert(plan.blocks@[k1].equation_idxs@ == csq[k1]@);
        assert(plan.blocks@[k2].equation_idxs@ == csq[k2]@);
        if row_in_block(plan, k2, v) {
            assert(seq_contains(csq[k1]@, v));
            assert(!seq_contains(csq[k2]@, v));
        }
    }

    // columns are covered and never shared
    lemma_matching_surjective(p, m);
    assert forall|c: int| 0 <= c < n implies #[trigger] plan_covers_col(plan, c) by {
        assert(col_matched(m, c));
        let w = choose|w: int| 0 <= w < m.len() && (#[trigger] m[w]) == c;
        assert(plan_covers_row(plan, w));
        let b = choose|b: int| 0 <= b < plan.blocks@.len() && #[trigger] row_in_block(plan, b, w);
        let eq = plan.blocks@[b].equation_idxs@;
        let j = choose|j: int| 0 <= j < eq.len() && eq[j] == w;
        assert(plan.blocks@[b].unknown_idxs@[j] == m[w]);
        assert(col_in_block(plan, b, c));
    }
    assert forall|k1: int, k2: int, v: int|
        0 <= k1 < k2 < plan.blocks@.len() && #[trigger] col_in_block(plan, k1, v)
        implies !(#[trigger] col_in_block(plan, k2, v)) by {
        if col_in_block(plan, k2, v) {
            let u1 = plan.blocks@[k1].unknown_idxs@;
            let u2 = plan.blocks@[k2].unknown_idxs@;
            let j1 = choose|j: int| 0 <= j < u1.len() && u1[j] == v;
            let j2 = choose|j: int| 0 <= j < u2.len() && u2[j] == v;
            let w1 = plan.blocks@[k1].equation_idxs@[j1] as int;
            let w2 = plan.blocks@[k2].equation_idxs@[j2] as int;
            assert(m[w1] == m[w2]);
            assert(plan.blocks@[k1].wf(n));
            assert(plan.blocks@[k2].wf(n));
            if w1 < w2 {
                assert(m[w1] != m[w2]);
            }
            if w2 < w1 {
                assert(m[w2] != m[w1]);
            }
            assert(w1 == w2);
            assert(row_in_block(plan, k1, w1));
            assert(row_in_block(plan, k2, w1));
        }
    }
    assert forall|k: int, j1: int, j2: int|
        0 <= k < plan.blocks@.len() && 0 <= j1 < j2 < plan.blocks@[k].unknown_idxs@.len()
        implies (#[trigger] plan.blocks@[k].unknown_idxs@[j1]) != (
    #[trigger] plan.blocks@[k].unknown_idxs@[j2]) by {
        let eq = plan.blocks@[k].equation_idxs@;
        assert(plan.blocks@[k].wf(n));
        let w1 = eq[j1] as int;
        let w2 = eq[j2] as int;
        assert(eq[j1] < eq[j2]);
        assert(m[w1] != m[w2]);
    }

    // block lower-triangular order
    assert forall|k: int, j: int, c: int|
        0 <= k < plan.blocks@.len() && 0 <= j < plan.blocks@[k].equation_idxs@.len() && 0 <= c < n
            && #[trigger] p.present(plan.blocks@[k].equation_idxs@[j] as int, c)
        implies exists|k2: int| 0 <= k2 <= k && #[trigger] col_in_block(plan, k2, c) by {
        let eq = plan.blocks@[k].equation_idxs@;
        assert(eq == csq[k]@);
        let rrow = eq[j] as int;
        assert(col_matched(m, c));
        let w = choose|w: int| 0 <= w < m.len() && (#[trigger] m[w]) == c;
        if seq_contains(csq[k]@, w) {
            // the matched row of `c` sits in this very block
            let jw = choose|jj: int| 0 <= jj < eq.len() && eq[jj] == w;
            assert(plan.blocks@[k].unknown_idxs@[jw] == m[w]);
            assert(col_in_block(plan, k, c));
        } else {
            assert(rrow != w);
            assert(depends_on(p, m, rrow, w));
            lemma_reaches_edge(p, m, rrow, w);
            // the block reaches `w`, so `w` sits in an earlier component
            assert(seq_contains(csq[k]@, rrow));
            let t2 = choose|t2: int| 0 <= t2 < k && seq_contains((#[trigger] csq[t2])@, w);
            assert(plan.blocks@[t2].equation_idxs@ == csq[t2]@);
            let jw = choose|jj: int| 0 <= jj < csq[t2]@.len() && csq[t2]@[jj] == w;
            assert(plan.blocks@[t2].unknown_idxs@[jw] == m[w]);
            assert(col_in_block(plan, t2, c));
        }
    }

    // components and order
    assert forall|k: int, j1: int, j2: int|
        0 <= k < plan.blocks@.len() && 0 <= j1 < plan.blocks@[k].equation_idxs@.len() && 0 <= j2
            < plan.blocks@[k].equation_idxs@.len() implies same_component(
        p,
        m,
        (#[trigger] plan.blocks@[k].equation_idxs@[j1]) as int,
        (#[trigger] plan.blocks@[k].equation_idxs@[j2]) as int,
    ) by {
        assert(plan.blocks@[k].equation_idxs@ == csq[k]@);
        assert(same_component(p, m, csq[k]@[j1] as int, csq[k]@[j2] as int));
    }
    assert forall|k: int, j: int, v: int|
        0 <= k < plan.blocks@.len() && 0 <= j < plan.blocks@[k].equation_idxs@.len() && 0 <= v < n
            && #[trigger] same_component(p, m, plan.blocks@[k].equation_idxs@[j] as int, v)
        implies row_in_block(plan, k, v) by {
        assert(plan.blocks@[k].equation_idxs@ == csq[k]@);
        assert(same_component(p, m, csq[k]@[j] as int, v));
        assert(seq_contains(csq[k]@, v));
    }
    assert forall|k1: int, j1: int, k2: int, j2: int|
        0 <= k1 < plan.blocks@.len() && 0 <= j1 < plan.blocks@[k1].equation_idxs@.len() && 0 <= k2
            < plan.blocks@.len() && 0 <= j2 < plan.blocks@[k2].equation_idxs@.len()
            && #[trigger] reaches(
        p,
        m,
        plan.blocks@[k1].equation_idxs@[j1] as int,
        plan.blocks@[k2].equation_idxs@[j2] as int,
    ) implies k2 <= k1 by {
        let u = plan.blocks@[k1].equation_idxs@[j1] as int;
        let x = plan.blocks@[k2].equation_idxs@[j2] as int;
        assert(plan.blocks@[k1].equation_idxs@ == csq[k1]@);
        assert(plan.blocks@[k2].equation_idxs@ == csq[k2]@);
        assert(seq_contains(csq[k1]@, u));
        assert(seq_contains(csq[k2]@, x));
        assert(plan.blocks@[k1].wf(n));
        if k2 > k1 {
            // `u` reaches `x`, so `x` sits in `u`'s component or earlier
            if seq_contains(csq[k1]@, x) {
                assert(!seq_contains(csq[k2]@, x));
            } else {
                let t3 = choose|t3: int|
                    0 <= t3 < k1 && seq_contains((#[trigger] csq[t3])@, x);
                assert(t3 < k2);
                assert(!seq_contains(csq[k2]@, x));
            }
        }
    }
    assert(plan_matches_components(p, m, plan));

    // tie-break: block k holds the smallest row that could open blocks k..
    assert forall|k: int, v: int|
        0 <= k < plan.blocks@.len() && 0 <= v < n && #[trigger] in_late_blocks(plan, k, v)
            && next_ready(p, m, plan, k, v)
        implies plan.blocks@[k].equation_idxs@[0] <= v by {
        assert(plan.blocks@[k].equation_idxs@ == csq[k]@);
        let k2 = choose|k2: int|
            k <= k2 < plan.blocks@.len() && #[trigger] row_in_block(plan, k2, v);
        assert(plan.blocks@[k2].equation_idxs@ == csq[k2]@);
        assert(seq_contains(csq[k2]@, v));
        assert(!emitted_before(csq, k, v)) by {
            if emitted_before(csq, k, v) {
                let t3 = choose|t3: int| 0 <= t3 < k && seq_contains((#[trigger] csq[t3])@, v);
                assert(t3 < k <= k2);
                assert(!seq_contains(csq[k2]@, v));
            }
        }
        assert(ready_at(p, m, csq, k, v)) by {
            assert forall|a: int|
                0 <= a < p.nrows_spec() && !emitted_before(csq, k, a) && #[trigger] reaches(
                    p,
                    m,
                    v,
                    a,
                ) implies reaches(p, m, a, v) by {
                // a lies in some block; not being emitted early puts it in k..
                assert(comps_cover(csq, a));
                let t3 = choose|t3: int|
                    0 <= t3 < csq.len() && seq_contains((#[trigger] csq[t3])@, a);
                assert(t3 >= k);
                assert(plan.blocks@[t3].equation_idxs@ == csq[t3]@);
                assert(row_in_block(plan, t3, a));
                assert(in_late_blocks(plan, k, a));
            }
        }
        assert(csq[k]@[0] <= v);
    }
    assert(plan_tie_break(p, m, plan));
}

impl SolutionPlan {
    /// Builds the ordered block plan of a probed sparsity pattern.
    ///
    /// Fails with `DimensionMismatch` exactly when the pattern is not square,
    /// and with `StructurallySingular` exactly when no perfect row/column
    /// matching exists. Otherwise the blocks partition the equation rows and
    /// the unknown columns, pair them through one matching into square
    /// strongly-connected blocks, and stand in an order that is block
    /// lower-triangular with respect to the pattern.
    #[verifier::loop_isolation(false)]
    pub fn build(p: &SparsityPattern) -> (res: Result<SolutionPlan, EqSysError>)
        requires
            p.wf(),
        ensures
            match res {
                Ok(plan) => p.nrows_spec() == p.ncols_spec() && has_perfect_matching(*p)
                    && valid_plan(*p, plan),
                Err(e) => match e {
                    EqSysError::DimensionMismatch { n_eqs, n_unks } => p.nrows_spec()
                        != p.ncols_spec() && n_eqs == p.nrows_spec() && n_unks == p.ncols_spec(),
                    EqSysError::StructurallySingular { row } => p.nrows_spec() == p.ncols_spec()
                        && !has_perfect_matching(*p) && (row as int) < p.nrows_spec(),
                    _ => false,
                },
            },
    {
        let n_eqs = p.nrows();
        let n_unks = p.ncols();
        if n_eqs != n_unks {
            return Err(EqSysError::DimensionMismatch { n_eqs, n_unks });
        }
        let n = n_eqs;
        let mvec = match find_perfect_matching(p) {
            Ok(mv) => mv,
            Err(row) => {
                return Err(EqSysError::StructurallySingular { row });
            },
        };
        proof {
            assert(has_perfect_matching(*p)) by {
                assert(is_row_matching(*p, mvec@));
            }
        }
        let r = build_dependency_closure(p, &mvec);
        let comps = component_order(p, Ghost(mvec@), &r, n);
        let ghost mg = mvec@;
        let ghost csq = comps@;
        let total = comps.len();

        let mut blocks: Vec<SolutionBlock> = Vec::new();
        let mut k: usize = 0;
        while k < total
            invariant
                k <= total,
                total == csq.len(),
                blocks@.len() == k,
                forall|b: int| 0 <= b < k ==> (#[trigger] blocks@[b]).block_idx == b,
                forall|b: int|
                    0 <= b < k ==> (#[trigger] blocks@[b]).equation_idxs@ == csq[b]@,
                forall|b: int|
                    0 <= b < k ==> (#[trigger] blocks@[b]).unknown_idxs@.len()
                        == blocks@[b].equation_idxs@.len(),
                forall|b: int, j: int|
                    0 <= b < k && 0 <= j < blocks@[b].unknown_idxs@.len() ==> (
                    #[trigger] blocks@[b].unknown_idxs@[j]) == mg[blocks@[b].equation_idxs@[j] as int],
            decreases total - k,
        {
            let t = k;
            let clen = comps[t].len();
            let mut eqs: Vec<usize> = Vec::new();
            let mut unks: Vec<usize> = Vec::new();
            let mut j: usize = 0;
            while j < clen
                invariant
                    j <= clen,
                    k < total,
                    t == k,
                    clen == csq[t as int]@.len(),
                    eqs@.len() == j,
                    unks@.len() == j,
                    forall|jj: int| 0 <= jj < j ==> (#[trigger] eqs@[jj]) == csq[t as int]@[jj],
                    forall|jj: int|
                        0 <= jj < j ==> (#[trigger] unks@[jj]) == mg[csq[t as int]@[jj] as int],
                decreases clen - j,
            {
                let row = comps[t][j];
                eqs.push(row);
                unks.push(mvec[row]);
                j = j + 1;
            }
            proof {
                assert(eqs@ =~= csq[t as int]@);
            }
            blocks.push(SolutionBlock { block_idx: k, equation_idxs: eqs, unknown_idxs: unks });
            k = k + 1;
        }

        let plan = SolutionPlan::new(blocks);
        proof {
            lemma_plan_from_components(*p, mg, csq, plan);
        }
        Ok(plan)
    }
}

/// Two strictly increasing sequences with the same members are equal.
proof fn lemma_sorted_same_members_equal(s1: Seq<usize>, s2: Seq<usize>)
    requires
        crate::solution_plan::strictly_increasing(s1),
        crate::solution_plan::strictly_increasing(s2),
        forall|v: int| #[trigger] seq_contains(s1, v) <==> #[trigger] seq_contains(s2, v),
    ensures
        s1 == s2,
    decreases s1.len(),
{
    if s1.len() == 0 {
        if s2.len() > 0 {
            assert(seq_contains(s2, s2[0] as int));
            assert(seq_contains(s1, s2[0] as int));
        }
        assert(s1 =~= s2);
    } else if s2.len() == 0 {
        assert(seq_contains(s1, s1[0] as int));
        assert(seq_contains(s2, s1[0] as int));
    } else {
        // the heads are the least members, and the member sets agree
        assert(seq_contains(s1, s1[0] as int));
        assert(seq_contains(s2, s2[0] as int));
        assert(seq_contains(s2, s1[0] as int));
        assert(seq_contains(s1, s2[0] as int));
        let j1 = choose|j: int| 0 <= j < s1.len() && s1[j] == s2[0] as int;
        let j2 = choose|j: int| 0 <= j < s2.len() && s2[j] == s1[0] as int;
        assert(s1[0] <= s1[j1]);
        assert(s2[0] <= s2[j2]);
        assert(s1[0] == s2[0]);
        let t1 = s1.subrange(1, s1.len() as int);
        let t2 = s2.subrange(1, s2.len() as int);
        assert forall|v: int| #[trigger] seq_contains(t1, v) implies seq_contains(t2, v) by {
            let j = choose|j: int| 0 <= j < t1.len() && t1[j] == v;
            assert(s1[j + 1] == v);
            assert(s1[0] < s1[j + 1]);
            assert(seq_contains(s1, v));
            assert(seq_contains(s2, v));
            let jj = choose|j3: int| 0 <= j3 < s2.len() && s2[j3] == v;
            assert(jj != 0);
            assert(t2[jj - 1] == v);
        }
        assert forall|v: int| #[trigger] seq_contains(t2, v) implies seq_contains(t1, v) by {
            let j = choose|j: int| 0 <= j < t2.len() && t2[j] == v;
            assert(s2[j + 1] == v);
            assert(s2[0] < s2[j + 1]);
            assert(seq_contains(s2, v));
            assert(seq_contains(s1, v));
            let jj = choose|j3: int| 0 <= j3 < s1.len() && s1[j3] == v;
            assert(jj != 0);
            assert(t1[jj - 1] == v);
        }
        assert forall|a: int, b: int| 0 <= a < b < t1.len() implies t1[a] < t1[b] by {
            assert(s1[a + 1] < s1[b + 1]);
        }
        assert forall|a: int, b: int| 0 <= a < b < t2.len() implies t2[a] < t2[b] by {
            assert(s2[a + 1] < s2[b + 1]);
        }
        lemma_sorted_same_members_equal(t1, t2);
        assert(s1.len() == s2.len());
        assert forall|i: int| 0 <= i < s1.len() implies s1[i] == s2[i] by {
            if i > 0 {
                assert(t1[i - 1] == t2[i - 1]);
                assert(s1[i] == t1[i - 1]);
                assert(s2[i] == t2[i - 1]);
            }
        }
        assert(s1 =~= s2);
    }
}

/// The plan contract determines each block's content: in any two plans that
/// are valid for the same pattern and pair rows and columns through the same
/// matching, the block holding a given equation row is identical. Only the
/// relative order of blocks with no dependency between them is left open by
/// the contract; the builder fixes it with the smallest-row tie-break.
pub proof fn lemma_blocks_determined(
    p: SparsityPattern,
    m: Seq<usize>,
    plan1: SolutionPlan,
    plan2: SolutionPlan,
    k1: int,
    k2: int,
    u: int,
)
    requires
        is_row_matching(p, m),
        plan_blocks_wf(plan1, p.nrows_spec()),
        plan_blocks_wf(plan2, p.nrows_spec()),
        plan_matches_components(p, m, plan1),
        plan_matches_components(p, m, plan2),
        0 <= k1 < plan1.blocks@.len(),
        0 <= k2 < plan2.blocks@.len(),
        row_in_block(plan1, k1, u),
        row_in_block(plan2, k2, u),
    ensures
        plan1.blocks@[k1].equation_idxs@ == plan2.blocks@[k2].equation_idxs@,
        plan1.blocks@[k1].unknown_idxs@ == plan2.blocks@[k2].unknown_idxs@,
{
    let eq1 = plan1.blocks@[k1].equation_idxs@;
    let eq2 = plan2.blocks@[k2].equation_idxs@;
    let ju1 = choose|j: int| 0 <= j < eq1.len() && eq1[j] == u;
    let ju2 = choose|j: int| 0 <= j < eq2.len() && eq2[j] == u;
    assert(plan1.blocks@[k1].wf(p.nrows_spec()));
    assert(plan2.blocks@[k2].wf(p.nrows_spec()));
    assert forall|v: int| #[trigger] seq_contains(eq1, v) implies seq_contains(eq2, v) by {
        let jv = choose|j: int| 0 <= j < eq1.len() && eq1[j] == v;
        assert(same_component(p, m, eq1[ju1] as int, eq1[jv] as int));
        assert(same_component(p, m, eq2[ju2] as int, v));
        assert(row_in_block(plan2, k2, v));
    }
    assert forall|v: int| #[trigger] seq_contains(eq2, v) implies seq_contains(eq1, v) by {
        let jv = choose|j: int| 0 <= j < eq2.len() && eq2[j] == v;
        assert(same_component(p, m, eq2[ju2] as int, eq2[jv] as int));
        assert(same_component(p, m, eq1[ju1] as int, v));
        assert(row_in_block(plan1, k1, v));
    }
    lemma_sorted_same_members_equal(eq1, eq2);
    let un1 = plan1.blocks@[k1].unknown_idxs@;
    let un2 = plan2.blocks@[k2].unknown_idxs@;
    assert forall|j: int| 0 <= j < un1.len() implies un1[j] == un2[j] by {
        assert(un1[j] == m[eq1[j] as int]);
        assert(un2[j] == m[eq2[j] as int]);
    }
    assert(un1 =~= un2);
}

/// One plan has at most as many blocks as another valid plan of the same
/// pattern and matching: each block maps injectively to the block of the
/// other plan holding its leading row.
proof fn lemma_plan_count_le(
    p: SparsityPattern,
    m: Seq<usize>,
    a: SolutionPlan,
    b: SolutionPlan,
)
    requires
        is_row_matching(p, m),
        plan_blocks_wf(a, p.nrows_spec()),
        plan_blocks_wf(b, p.nrows_spec()),
        plan_partitions_rows(a, p.nrows_spec()),
        plan_partitions_rows(b, p.nrows_spec()),
        plan_matches_components(p, m, a),
        plan_matches_components(p, m, b),
    ensures
        a.blocks@.len() <= b.blocks@.len(),
{
    let la = a.blocks@.len() as int;
    let lb = b.blocks@.len() as int;
    let ka_set = set_int_range(0, la);
    let f = |k: int|
        choose|k2: int|
            0 <= k2 < lb && #[trigger] row_in_block(b, k2, a.blocks@[k].equation_idxs@[0] as int);
    // each block's leading row is covered by some block of the other plan
    assert forall|k: int| ka_set.contains(k) implies 0 <= #[trigger] f(k) < lb && row_in_block(
        b,
        f(k),
        a.blocks@[k].equation_idxs@[0] as int,
    ) by {
        assert(a.blocks@[k].wf(p.nrows_spec()));
        let u = a.blocks@[k].equation_idxs@[0] as int;
        assert(seq_contains(a.blocks@[k].equation_idxs@, u));
        assert(plan_covers_row(b, u));
    }
    // and that mapping is injective, since blocks are disjoint
    assert forall|k1: int, k2: int|
        ka_set.contains(k1) && ka_set.contains(k2) && #[trigger] f(k1) == #[trigger] f(k2)
        implies k1 == k2 by {
        let u1 = a.blocks@[k1].equation_idxs@[0] as int;
        let u2 = a.blocks@[k2].equation_idxs@[0] as int;
        assert(a.blocks@[k1].wf(p.nrows_spec()));
        assert(a.blocks@[k2].wf(p.nrows_spec()));
        assert(seq_contains(a.blocks@[k1].equation_idxs@, u1));
        assert(seq_contains(a.blocks@[k2].equation_idxs@, u2));
        assert(row_in_block(a, k1, u1));
        assert(row_in_block(a, k2, u2));
        lemma_blocks_determined(p, m, a, b, k1, f(k1), u1);
        lemma_blocks_determined(p, m, a, b, k2, f(k2), u2);
        assert(a.blocks@[k1].equation_idxs@ == a.blocks@[k2].equation_idxs@);
        assert(row_in_block(a, k2, u1));
        if k1 < k2 {
            assert(!row_in_block(a, k2, u1));
        }
        if k2 < k1 {
            assert(!row_in_block(a, k1, u1)) by {
                assert(row_in_block(a, k2, u1));
            }
        }
    }
    let image = ka_set.map(f);
    lemma_int_range(0, la);
    lemma_map_size(ka_set, image, f);
    assert(image.subset_of(set_int_range(0, lb))) by {
        assert forall|y: int| image.contains(y) implies set_int_range(0, lb).contains(y) by {
            let k = choose|k: int| ka_set.contains(k) && #[trigger] f(k) == y;
        }
    }
    lemma_int_range(0, lb);
    lemma_len_subset(image, set_int_range(0, lb));
}

/// Upward induction for plan uniqueness: once the plans agree on every
/// block before position `k`, the tie-break forces them to agree on block
/// `k` as well.
proof fn lemma_plan_unique_up(
    p: SparsityPattern,
    m: Seq<usize>,
    a: SolutionPlan,
    b: SolutionPlan,
    k: int,
)
    requires
        is_row_matching(p, m),
        plan_blocks_wf(a, p.nrows_spec()),
        plan_blocks_wf(b, p.nrows_spec()),
        plan_partitions_rows(a, p.nrows_spec()),
        plan_partitions_rows(b, p.nrows_spec()),
        plan_matches_components(p, m, a),
        plan_matches_components(p, m, b),
        plan_tie_break(p, m, a),
        plan_tie_break(p, m, b),
        a.blocks@.len() == b.blocks@.len(),
        0 <= k <= a.blocks@.len(),
        forall|kk: int|
            0 <= kk < k ==> (#[trigger] a.blocks@[kk]).equation_idxs@
                == b.blocks@[kk].equation_idxs@,
    ensures
        forall|kk: int|
            0 <= kk < a.blocks@.len() ==> (#[trigger] a.blocks@[kk]).equation_idxs@
                == b.blocks@[kk].equation_idxs@,
    decreases a.blocks@.len() - k,
{
    let n = p.nrows_spec();
    let len = a.blocks@.len() as int;
    if k < len {
        // the rows of blocks k.. agree between the plans: a row avoids the
        // shared prefix in one plan exactly when it does in the other
        assert forall|x: int| 0 <= x < n implies (in_late_blocks(a, k, x) <==> in_late_blocks(
            b,
            k,
            x,
        )) by {
            if in_late_blocks(a, k, x) {
                let ka = choose|k2: int| k <= k2 < len && #[trigger] row_in_block(a, k2, x);
                assert(plan_covers_row(b, x));
                let kb = choose|k2: int| 0 <= k2 < len && #[trigger] row_in_block(b, k2, x);
                if kb < k {
                    assert(a.blocks@[kb].equation_idxs@ == b.blocks@[kb].equation_idxs@);
                    assert(row_in_block(a, kb, x));
                    assert(!row_in_block(a, ka, x));
                }
                assert(row_in_block(b, kb, x) && k <= kb < len);
            }
            if in_late_blocks(b, k, x) {
                let kb = choose|k2: int| k <= k2 < len && #[trigger] row_in_block(b, k2, x);
                assert(plan_covers_row(a, x));
                let ka = choose|k2: int| 0 <= k2 < len && #[trigger] row_in_block(a, k2, x);
                if ka < k {
                    assert(a.blocks@[ka].equation_idxs@ == b.blocks@[ka].equation_idxs@);
                    assert(row_in_block(b, ka, x));
                    assert(!row_in_block(b, kb, x));
                }
                assert(row_in_block(a, ka, x) && k <= ka < len);
            }
        }

        assert(a.blocks@[k].wf(n));
        assert(b.blocks@[k].wf(n));
        let va = a.blocks@[k].equation_idxs@[0] as int;
        let vb = b.blocks@[k].equation_idxs@[0] as int;
        assert(seq_contains(a.blocks@[k].equation_idxs@, va));
        assert(row_in_block(a, k, va));
        assert(in_late_blocks(a, k, va));
        assert(seq_contains(b.blocks@[k].equation_idxs@, vb));
        assert(row_in_block(b, k, vb));
        assert(in_late_blocks(b, k, vb));

        // each head could open the suffix of its own plan: whatever it
        // reaches among the remaining rows ends up in its own block
        assert(next_ready(p, m, a, k, va)) by {
            lemma_head_next_ready(p, m, a, k);
        }
        assert(next_ready(p, m, b, k, vb)) by {
            lemma_head_next_ready(p, m, b, k);
        }

        // readiness carries across the plans, so the tie-breaks meet
        assert(next_ready(p, m, b, k, va)) by {
            assert forall|x: int|
                0 <= x < n && in_late_blocks(b, k, x) && #[trigger] reaches(p, m, va, x)
                implies reaches(p, m, x, va) by {
                assert(in_late_blocks(a, k, x));
            }
        }
        assert(next_ready(p, m, a, k, vb)) by {
            assert forall|x: int|
                0 <= x < n && in_late_blocks(a, k, x) && #[trigger] reaches(p, m, vb, x)
                implies reaches(p, m, x, vb) by {
                assert(in_late_blocks(b, k, x));
            }
        }
        assert(in_late_blocks(b, k, va));
        assert(in_late_blocks(a, k, vb));
        assert(b.blocks@[k].equation_idxs@[0] <= va);
        assert(a.blocks@[k].equation_idxs@[0] <= vb);
        assert(va == vb);

        lemma_blocks_determined(p, m, a, b, k, k, va);
        lemma_plan_unique_up(p, m, a, b, k + 1);
    }
}

/// The leading row of block `k` could open the suffix of blocks `k..`:
/// whatever it reaches among those rows shares its block, hence its
/// component.
proof fn lemma_head_next_ready(p: SparsityPattern, m: Seq<usize>, plan: SolutionPlan, k: int)
    requires
        is_row_matching(p, m),
        plan_blocks_wf(plan, p.nrows_spec()),
        plan_partitions_rows(plan, p.nrows_spec()),
        plan_matches_components(p, m, plan),
        0 <= k < plan.blocks@.len(),
    ensures
        next_ready(p, m, plan, k, plan.blocks@[k].equation_idxs@[0] as int),
{
    let n = p.nrows_spec();
    assert(plan.blocks@[k].wf(n));
    let v = plan.blocks@[k].equation_idxs@[0] as int;
    assert forall|x: int|
        0 <= x < n && in_late_blocks(plan, k, x) && #[trigger] reaches(p, m, v, x)
        implies reaches(p, m, x, v) by {
        let kx = choose|k2: int|
            k <= k2 < plan.blocks@.len() && #[trigger] row_in_block(plan, k2, x);
        let jx = choose|j: int|
            0 <= j < plan.blocks@[kx].equation_idxs@.len() && plan.blocks@[kx].equation_idxs@[j]
                == x;
        // a reach from block k into block kx forces kx <= k, so kx == k
        assert(plan.blocks@[kx].equation_idxs@[jx] as int == x);
        assert(plan.blocks@[k].equation_idxs@[0] as int == v);
        assert(reaches(
            p,
            m,
            plan.blocks@[k].equation_idxs@[0] as int,
            plan.blocks@[kx].equation_idxs@[jx] as int,
        ));
        assert(kx <= k);
        assert(kx == k);
        assert(same_component(
            p,
            m,
            plan.blocks@[k].equation_idxs@[jx] as int,
            plan.blocks@[k].equation_idxs@[0] as int,
        ));
    }
}

/// Determinism of the decomposition, given the matching: two plans that both
/// satisfy the build contract for the same pattern and the same row/column
/// matching have identical block lists — the same blocks, in the same order,
/// with the same column pairing.
pub proof fn lemma_plan_unique(p: SparsityPattern, m: Seq<usize>, a: SolutionPlan, b: SolutionPlan)
    requires
        is_row_matching(p, m),
        plan_blocks_wf(a, p.nrows_spec()),
        plan_blocks_wf(b, p.nrows_spec()),
        plan_partitions_rows(a, p.nrows_spec()),
        plan_partitions_rows(b, p.nrows_spec()),
        plan_matches_components(p, m, a),
        plan_matches_components(p, m, b),
        plan_tie_break(p, m, a),
        plan_tie_break(p, m, b),
    ensures
        a.blocks@.len() == b.blocks@.len(),
        forall|k: int|
            0 <= k < a.blocks@.len() ==> {
                &&& (#[trigger] a.blocks@[k]).block_idx == b.blocks@[k].block_idx
                &&& a.blocks@[k].equation_idxs@ == b.blocks@[k].equation_idxs@
                &&& a.blocks@[k].unknown_idxs@ == b.blocks@[k].unknown_idxs@
            },
{
    lemma_plan_count_le(p, m, a, b);
    lemma_plan_count_le(p, m, b, a);
    lemma_plan_unique_up(p, m, a, b, 0);
    assert forall|k: int| 0 <= k < a.blocks@.len() implies (#[trigger] a.blocks@[k]).unknown_idxs@
        == b.blocks@[k].unknown_idxs@ by {
        assert(a.blocks@[k].wf(p.nrows_spec()));
        assert(b.blocks@[k].wf(p.nrows_spec()));
        let ua = a.blocks@[k].unknown_idxs@;
        let ub = b.blocks@[k].unknown_idxs@;
        assert forall|j: int| 0 <= j < ua.len() implies ua[j] == ub[j] by {
            assert(ua[j] == m[a.blocks@[k].equation_idxs@[j] as int]);
            assert(ub[j] == m[b.blocks@[k].equation_idxs@[j] as int]);
        }
        assert(ua =~= ub);
    }
}

} // verus!
