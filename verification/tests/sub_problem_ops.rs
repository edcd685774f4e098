use param_solver::error::EqSysError;
use param_solver::orchestrate::{
    commit_block_result, next_block_directive, BlockDirective, BlockStage, SolveAttempt,
};
use param_solver::residuals::{
    filter_res_fns_to_block, ResidAggSum, ResidNoOpGaussNewton, ResidTransIdentity,
    ResidTransUnscaledL2,
};
use param_solver::pattern::{PatternEntry, SparsityPattern};
use param_solver::solution_plan::{SolutionBlock, SolutionPlan};
use param_solver::sub_problem::SubProblem;

fn block(idx: usize, eqs: Vec<usize>, unks: Vec<usize>) -> SolutionBlock {
    SolutionBlock { block_idx: idx, equation_idxs: eqs, unknown_idxs: unks }
}

#[test]
fn select_extracts_block_coordinates() {
    let s = SubProblem::new(block(0, vec![1, 3], vec![3, 1]), 5);
    let items: Vec<f64> = vec![10.0, 11.0, 12.0, 13.0, 14.0];
    let picked = s.select_subprob_items(&items).unwrap();
    assert_eq!(picked, vec![13.0, 11.0]);
}

#[test]
fn select_rejects_wrong_length() {
    let s = SubProblem::new(block(0, vec![0], vec![0]), 3);
    let items: Vec<f64> = vec![1.0, 2.0];
    assert!(matches!(
        s.select_subprob_items(&items),
        Err(EqSysError::SubproblemShapeMismatch { expected: 3, got: 2 })
    ));
}

#[test]
fn expand_overwrites_only_owned_coordinates() {
    let s = SubProblem::new(block(0, vec![1, 3], vec![3, 1]), 5);
    let base: Vec<f64> = vec![0.0, 1.0, 2.0, 3.0, 4.0];
    let sub: Vec<f64> = vec![30.5, 10.5];
    let full = s
        .optspace_fullprob_input_from_subprob_input(&base, &sub)
        .unwrap();
    assert_eq!(full, vec![0.0, 10.5, 2.0, 30.5, 4.0]);
}

#[test]
fn expand_then_select_is_identity() {
    let s = SubProblem::new(block(0, vec![0, 2], vec![2, 0]), 4);
    let base: Vec<f64> = vec![9.0, 8.0, 7.0, 6.0];
    let sub: Vec<f64> = vec![-1.5, 2.5];
    let full = s
        .optspace_fullprob_input_from_subprob_input(&base, &sub)
        .unwrap();
    let back = s.select_subprob_items(&full).unwrap();
    assert_eq!(back, sub);
}

#[test]
fn expand_rejects_wrong_sub_length() {
    let s = SubProblem::new(block(0, vec![0, 2], vec![2, 0]), 4);
    let base: Vec<f64> = vec![9.0, 8.0, 7.0, 6.0];
    let sub: Vec<f64> = vec![1.0];
    assert!(matches!(
        s.optspace_fullprob_input_from_subprob_input(&base, &sub),
        Err(EqSysError::SubproblemShapeMismatch { .. })
    ));
}

#[test]
fn select_columns_projects_the_jacobian() {
    let s = SubProblem::new(block(0, vec![0, 1], vec![2, 0]), 3);
    let jac: Vec<Vec<f64>> = vec![vec![1.0, 2.0, 3.0], vec![4.0, 5.0, 6.0]];
    let sel = s.select_columns(&jac).unwrap();
    assert_eq!(sel, vec![vec![3.0, 1.0], vec![6.0, 4.0]]);
}

#[test]
fn select_columns_rejects_short_rows() {
    let s = SubProblem::new(block(0, vec![0], vec![0]), 3);
    let jac: Vec<Vec<f64>> = vec![vec![1.0, 2.0]];
    assert!(matches!(
        s.select_columns(&jac),
        Err(EqSysError::SubproblemShapeMismatch { .. })
    ));
}

#[test]
fn filter_keeps_block_rows_in_order() {
    let fns: Vec<i32> = vec![100, 101, 102, 103];
    let b = block(0, vec![1, 3], vec![1, 3]);
    assert_eq!(filter_res_fns_to_block(&fns, &b), vec![101, 103]);
}

#[test]
fn fullprob_block_spans_everything() {
    let b = SolutionBlock::new_fullprob(4);
    assert_eq!(b.block_idx, 0);
    assert_eq!(b.equation_idxs, vec![0, 1, 2, 3]);
    assert_eq!(b.unknown_idxs, vec![0, 1, 2, 3]);
    let plan = SolutionPlan::new(vec![b]);
    assert_eq!(plan.blocks.len(), 1);
}

#[test]
fn aggregation_output_counts() {
    assert_eq!(ResidAggSum.num_outputs(), 1);
    assert_eq!(ResidNoOpGaussNewton::new_fullprob(7).num_outputs(), 7);
    let b = block(2, vec![4, 5], vec![5, 4]);
    assert_eq!(ResidNoOpGaussNewton::new_subprob(&b).num_outputs(), 2);
    assert_eq!(ResidTransIdentity::new(3).n, 3);
    assert_eq!(ResidTransUnscaledL2::new(5).n, 5);
}

#[test]
fn waterfall_policy_table() {
    let s = SolveAttempt::Succeeded;
    let f = SolveAttempt::Failed;
    assert_eq!(next_block_directive(BlockStage::GaussNewton, s), BlockDirective::CommitAndAdvance);
    assert_eq!(next_block_directive(BlockStage::GaussNewton, f), BlockDirective::TryAnnealing);
    assert_eq!(
        next_block_directive(BlockStage::Annealing, s),
        BlockDirective::RefineWithGaussNewton
    );
    assert_eq!(next_block_directive(BlockStage::Annealing, f), BlockDirective::AbortPlan);
    assert_eq!(next_block_directive(BlockStage::Refinement, s), BlockDirective::CommitAndAdvance);
    assert_eq!(next_block_directive(BlockStage::Refinement, f), BlockDirective::AbortPlan);
}

#[test]
fn pathological_path_recovers_through_annealing() {
    // a stalled first solve walks the annealing path and still commits
    let mut stage = BlockStage::GaussNewton;
    let outcomes = [SolveAttempt::Failed, SolveAttempt::Succeeded, SolveAttempt::Succeeded];
    let mut committed = false;
    for &o in outcomes.iter() {
        match next_block_directive(stage, o) {
            BlockDirective::CommitAndAdvance => {
                committed = true;
                break;
            },
            BlockDirective::TryAnnealing => stage = BlockStage::Annealing,
            BlockDirective::RefineWithGaussNewton => stage = BlockStage::Refinement,
            BlockDirective::AbortPlan => panic!("plan aborted"),
        }
    }
    assert!(committed);
}

#[test]
fn commit_touches_only_owned_coordinates() {
    let b = block(0, vec![0, 2], vec![2, 0]);
    let mut current: Vec<f64> = vec![1.0, 2.0, 3.0, 4.0];
    commit_block_result(&mut current, &b, &vec![30.0, 10.0]).unwrap();
    assert_eq!(current, vec![10.0, 2.0, 30.0, 4.0]);
}

#[test]
fn commit_rejects_wrong_length_and_leaves_values_alone() {
    let b = block(0, vec![0, 2], vec![2, 0]);
    let mut current: Vec<f64> = vec![1.0, 2.0, 3.0, 4.0];
    let r = commit_block_result(&mut current, &b, &vec![30.0]);
    assert!(matches!(r, Err(EqSysError::SubproblemShapeMismatch { expected: 2, got: 1 })));
    assert_eq!(current, vec![1.0, 2.0, 3.0, 4.0]);
}

#[test]
fn plan_blocks_drive_sub_problem_commits() {
    let rows = vec![
        vec![1u8, 1, 0, 0],
        vec![1, 1, 0, 0],
        vec![1, 0, 1, 0],
        vec![0, 0, 1, 1],
    ];
    let entries: Vec<Vec<PatternEntry>> = rows
        .iter()
        .map(|r| {
            r.iter()
                .map(|&x| if x == 0 { PatternEntry::Zero } else { PatternEntry::NonZero })
                .collect()
        })
        .collect();
    let p = SparsityPattern::new(entries, 4).unwrap();
    let plan = SolutionPlan::build(&p).unwrap();
    // walk the plan, committing a recognizable value for each owned unknown
    let mut current: Vec<f64> = vec![0.0; 4];
    for b in plan.blocks.iter() {
        let values: Vec<f64> = b.unknown_idxs.iter().map(|&u| 100.0 + u as f64).collect();
        commit_block_result(&mut current, b, &values).unwrap();
    }
    assert_eq!(current, vec![100.0, 101.0, 102.0, 103.0]);
    // and the sub-problem view reads each block's values back out
    for b in plan.blocks.iter() {
        let s = SubProblem::new(b.clone(), 4);
        let picked = s.select_subprob_items(&current).unwrap();
        let expected: Vec<f64> = b.unknown_idxs.iter().map(|&u| 100.0 + u as f64).collect();
        assert_eq!(picked, expected);
    }
}
