use param_solver::error::EqSysError;
use param_solver::pattern::{PatternEntry, SparsityPattern};
use param_solver::solution_plan::SolutionPlan;

fn pat(rows: Vec<Vec<u8>>) -> SparsityPattern {
    let n_cols = rows[0].len();
    let entries: Vec<Vec<PatternEntry>> = rows
        .iter()
        .map(|r| {
            r.iter()
                .map(|&x| {
                    if x == 0 {
                        PatternEntry::Zero
                    } else {
                        PatternEntry::NonZero
                    }
                })
                .collect()
        })
        .collect();
    SparsityPattern::new(entries, n_cols).unwrap()
}

#[test]
fn decoupled_linear_gives_two_singleton_blocks() {
    // F = (x0 - 3, x1 - 4): diagonal Jacobian pattern; independent blocks
    // come out in ascending row order
    let p = pat(vec![vec![1, 0], vec![0, 1]]);
    let plan = SolutionPlan::build(&p).unwrap();
    assert_eq!(plan.blocks.len(), 2);
    assert_eq!(plan.blocks[0].block_idx, 0);
    assert_eq!(plan.blocks[0].equation_idxs, vec![0]);
    assert_eq!(plan.blocks[0].unknown_idxs, vec![0]);
    assert_eq!(plan.blocks[1].block_idx, 1);
    assert_eq!(plan.blocks[1].equation_idxs, vec![1]);
    assert_eq!(plan.blocks[1].unknown_idxs, vec![1]);
}

#[test]
fn lower_triangular_coupled_orders_dependency_first() {
    // F0 = x0 - 2, F1 = x1 - x0^2 probed away from x0 = 0
    let p = pat(vec![vec![1, 0], vec![1, 1]]);
    let plan = SolutionPlan::build(&p).unwrap();
    assert_eq!(plan.blocks.len(), 2);
    assert_eq!(plan.blocks[0].equation_idxs, vec![0]);
    assert_eq!(plan.blocks[0].unknown_idxs, vec![0]);
    assert_eq!(plan.blocks[1].equation_idxs, vec![1]);
    assert_eq!(plan.blocks[1].unknown_idxs, vec![1]);
}

#[test]
fn irreducible_pair_gives_one_square_block() {
    // F0 = x0^2 + x1^2 - 1, F1 = x0 - x1: both rows touch both columns
    let p = pat(vec![vec![1, 1], vec![1, 1]]);
    let plan = SolutionPlan::build(&p).unwrap();
    assert_eq!(plan.blocks.len(), 1);
    assert_eq!(plan.blocks[0].equation_idxs, vec![0, 1]);
    let mut unks = plan.blocks[0].unknown_idxs.clone();
    unks.sort();
    assert_eq!(unks, vec![0, 1]);
}

#[test]
fn shared_single_column_is_structurally_singular() {
    // two equations constrain only x0: no perfect matching exists
    let p = pat(vec![vec![1, 0], vec![1, 0]]);
    match SolutionPlan::build(&p) {
        Err(EqSysError::StructurallySingular { row }) => assert!(row < 2),
        other => panic!("expected structural singularity, got {:?}", other.is_ok()),
    }
}

#[test]
fn empty_column_is_structurally_singular() {
    let p = pat(vec![vec![1, 0, 0], vec![1, 1, 0], vec![1, 1, 0]]);
    assert!(matches!(
        SolutionPlan::build(&p),
        Err(EqSysError::StructurallySingular { .. })
    ));
}

#[test]
fn rectangular_pattern_is_dimension_mismatch() {
    let p = pat(vec![vec![1, 0, 1], vec![0, 1, 0]]);
    match SolutionPlan::build(&p) {
        Err(EqSysError::DimensionMismatch { n_eqs, n_unks }) => {
            assert_eq!(n_eqs, 2);
            assert_eq!(n_unks, 3);
        },
        _ => panic!("expected dimension mismatch"),
    }
}

#[test]
fn mixed_system_orders_blocks_dependents_last() {
    // rows 0 and 1 are mutually coupled on x0, x1; row 2 needs x0 and x2;
    // row 3 needs x2 and x3
    let p = pat(vec![
        vec![1, 1, 0, 0],
        vec![1, 1, 0, 0],
        vec![1, 0, 1, 0],
        vec![0, 0, 1, 1],
    ]);
    let plan = SolutionPlan::build(&p).unwrap();
    assert_eq!(plan.blocks.len(), 3);
    assert_eq!(plan.blocks[0].equation_idxs, vec![0, 1]);
    assert_eq!(plan.blocks[1].equation_idxs, vec![2]);
    assert_eq!(plan.blocks[1].unknown_idxs, vec![2]);
    assert_eq!(plan.blocks[2].equation_idxs, vec![3]);
    assert_eq!(plan.blocks[2].unknown_idxs, vec![3]);
    // the coupled block owns exactly x0 and x1
    let mut unks = plan.blocks[0].unknown_idxs.clone();
    unks.sort();
    assert_eq!(unks, vec![0, 1]);
}

#[test]
fn plan_build_is_deterministic() {
    let rows = vec![
        vec![1, 1, 0, 0],
        vec![1, 1, 0, 0],
        vec![1, 0, 1, 0],
        vec![0, 0, 1, 1],
    ];
    let p1 = pat(rows.clone());
    let p2 = pat(rows);
    let a = SolutionPlan::build(&p1).unwrap();
    let b = SolutionPlan::build(&p2).unwrap();
    assert_eq!(a.blocks.len(), b.blocks.len());
    for (x, y) in a.blocks.iter().zip(b.blocks.iter()) {
        assert_eq!(x.block_idx, y.block_idx);
        assert_eq!(x.equation_idxs, y.equation_idxs);
        assert_eq!(x.unknown_idxs, y.unknown_idxs);
    }
}

#[test]
fn non_finite_entries_count_as_present() {
    // a non-finite derivative keeps the dependency rather than dropping it
    let entries = vec![
        vec![PatternEntry::NonFinite, PatternEntry::Zero],
        vec![PatternEntry::NonZero, PatternEntry::NonZero],
    ];
    let p = SparsityPattern::new(entries, 2).unwrap();
    let plan = SolutionPlan::build(&p).unwrap();
    assert_eq!(plan.blocks.len(), 2);
    assert_eq!(plan.blocks[0].equation_idxs, vec![0]);
    assert_eq!(plan.blocks[1].equation_idxs, vec![1]);
}

#[test]
fn lower_triangularity_holds_on_every_block() {
    let rows = vec![
        vec![1, 0, 1, 0, 0],
        vec![1, 1, 0, 0, 0],
        vec![1, 0, 1, 0, 0],
        vec![0, 1, 0, 1, 1],
        vec![0, 0, 0, 1, 1],
    ];
    let p = pat(rows.clone());
    let plan = SolutionPlan::build(&p).unwrap();
    // every present column of a block's rows is owned by that block or earlier
    let mut owned: Vec<usize> = Vec::new();
    for b in plan.blocks.iter() {
        owned.extend(b.unknown_idxs.iter());
        for &r in b.equation_idxs.iter() {
            for (c, &x) in rows[r].iter().enumerate() {
                if x != 0 {
                    assert!(owned.contains(&c), "column {} escapes block {}", c, b.block_idx);
                }
            }
        }
    }
    // and the blocks partition rows and columns
    let mut all_rows: Vec<usize> = plan.blocks.iter().flat_map(|b| b.equation_idxs.clone()).collect();
    let mut all_cols: Vec<usize> = plan.blocks.iter().flat_map(|b| b.unknown_idxs.clone()).collect();
    all_rows.sort();
    all_cols.sort();
    assert_eq!(all_rows, vec![0, 1, 2, 3, 4]);
    assert_eq!(all_cols, vec![0, 1, 2, 3, 4]);
}

#[test]
fn ragged_rows_are_rejected() {
    let entries = vec![
        vec![PatternEntry::NonZero, PatternEntry::Zero],
        vec![PatternEntry::NonZero],
    ];
    assert!(SparsityPattern::new(entries, 2).is_none());
}

#[test]
fn empty_system_builds_an_empty_plan() {
    let p = SparsityPattern::new(Vec::new(), 0).unwrap();
    let plan = SolutionPlan::build(&p).unwrap();
    assert_eq!(plan.blocks.len(), 0);
}

#[test]
fn non_finite_entry_changes_the_order() {
    // with a zero there is no dependency and row 0 goes first by the
    // tie-break
    let without = pat(vec![vec![1, 0], vec![0, 1]]);
    let plan_without = SolutionPlan::build(&without).unwrap();
    assert_eq!(plan_without.blocks[0].equation_idxs, vec![0]);
    assert_eq!(plan_without.blocks[1].equation_idxs, vec![1]);
    // a non-finite probe value keeps the dependency of row 0 on column 1,
    // so the block owning column 1 must come first
    let entries = vec![
        vec![PatternEntry::NonZero, PatternEntry::NonFinite],
        vec![PatternEntry::Zero, PatternEntry::NonZero],
    ];
    let with = SparsityPattern::new(entries, 2).unwrap();
    let plan_with = SolutionPlan::build(&with).unwrap();
    assert_eq!(plan_with.blocks[0].equation_idxs, vec![1]);
    assert_eq!(plan_with.blocks[0].unknown_idxs, vec![1]);
    assert_eq!(plan_with.blocks[1].equation_idxs, vec![0]);
    assert_eq!(plan_with.blocks[1].unknown_idxs, vec![0]);
}
