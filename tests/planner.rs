use git_branchless_core::advance::{
    advance, advance_action, execution_exit_code, plan_advance, retarget_parent, AdvanceAction,
    AdvanceOutcome, ExecuteRebasePlanResult,
};
use git_branchless_core::graph::{CommitGraph, CommitNode};
use git_branchless_core::planner::{
    collect_illegal, collect_public, execute_in_memory, is_legal, order_moves,
    BuildRebasePlanError, BuildRebasePlanOptions, Move, RebasePlan, RebasePlanBuilder,
};

fn graph(nodes: &[(u64, &[u64])], visible: &[u64], public: &[u64]) -> CommitGraph {
    CommitGraph {
        nodes: nodes
            .iter()
            .map(|(oid, ps)| CommitNode { oid: *oid, parents: ps.to_vec() })
            .collect(),
        visible: visible.to_vec(),
        public: public.to_vec(),
    }
}

fn opts(force: bool, detect: bool) -> BuildRebasePlanOptions {
    BuildRebasePlanOptions {
        force_rewrite_public_commits: force,
        detect_duplicate_commits_via_patch_id: detect,
    }
}

fn steps(plan: &RebasePlan) -> Vec<(u64, Vec<u64>)> {
    plan.steps.iter().map(|s| (s.commit, s.parents.clone())).collect()
}

fn built(outcome: AdvanceOutcome) -> (usize, Result<Option<RebasePlan>, BuildRebasePlanError>) {
    match outcome {
        AdvanceOutcome::Built { sibling_count, result } => (sibling_count, result),
        _ => panic!("expected a planned outcome"),
    }
}

/// master (1) <- test1 (2) <- test2 (3, branch-2); test1 <- test3 (4, HEAD).
fn stack() -> CommitGraph {
    graph(&[(1, &[]), (2, &[1]), (3, &[2]), (4, &[2])], &[1, 2, 3, 4], &[1])
}

#[test]
fn test_advance_basic() {
    let mut g = stack();
    let (count, result) = built(plan_advance(&g, Some(4), &opts(false, false), &vec![]));
    assert_eq!(count, 1);
    let plan = result.ok().unwrap().unwrap();
    assert_eq!(steps(&plan), vec![(3, vec![4])]);
    execute_in_memory(&mut g, &plan);
    assert_eq!(g.parents(3), Some(vec![4]));
    assert_eq!(g.parents(4), Some(vec![2]));
}

#[test]
fn test_advance_no_siblings() {
    let g = graph(&[(1, &[]), (2, &[1])], &[1, 2], &[1]);
    let outcome = plan_advance(&g, Some(2), &opts(false, false), &vec![]);
    assert!(matches!(outcome, AdvanceOutcome::NoChildren));
    let action = advance_action(outcome);
    assert!(matches!(action, AdvanceAction::NoChildCommits));
    assert_eq!(action.exit_code(), Some(0));
}

#[test]
fn test_advance_multiple_children() {
    let mut g = graph(
        &[(1, &[]), (2, &[1]), (3, &[2]), (5, &[2]), (4, &[2])],
        &[1, 2, 3, 4, 5],
        &[1],
    );
    let (count, result) = built(plan_advance(&g, Some(4), &opts(false, false), &vec![]));
    assert_eq!(count, 2);
    let plan = result.ok().unwrap().unwrap();
    assert_eq!(steps(&plan), vec![(3, vec![4]), (5, vec![4])]);
    execute_in_memory(&mut g, &plan);
    assert_eq!(g.parents(3), Some(vec![4]));
    assert_eq!(g.parents(5), Some(vec![4]));
}

#[test]
fn test_advance_bare_repo_worktree() {
    let g = graph(&[(1, &[]), (2, &[1]), (3, &[2]), (4, &[2])], &[1, 2, 3, 4], &[1]);
    let action = advance_action(plan_advance(&g, Some(4), &opts(false, false), &vec![]));
    match action {
        AdvanceAction::Execute { sibling_count, plan } => {
            assert_eq!(sibling_count, 1);
            assert_eq!(steps(&plan), vec![(3, vec![4])]);
        }
        _ => panic!("expected a plan to execute"),
    }
}

#[test]
fn test_advance_auto() {
    let mut g = stack();
    let action = advance_action(plan_advance(&g, Some(4), &opts(false, false), &vec![]));
    assert_eq!(action.exit_code(), None);
    if let AdvanceAction::Execute { plan, .. } = action {
        execute_in_memory(&mut g, &plan);
    }
    assert_eq!(g.parents(3), Some(vec![4]));
}

#[test]
fn no_head_exits_with_one() {
    let action = advance_action(plan_advance(&stack(), None, &opts(false, false), &vec![]));
    assert!(matches!(action, AdvanceAction::NoCommitCheckedOut));
    assert_eq!(action.exit_code(), Some(1));
}

#[test]
fn hidden_siblings_are_not_moved() {
    let g = graph(&[(1, &[]), (2, &[1]), (3, &[2]), (4, &[2])], &[1, 2, 4], &[1]);
    assert!(matches!(
        plan_advance(&g, Some(4), &opts(false, false), &vec![]),
        AdvanceOutcome::NoChildren
    ));
}

#[test]
fn merge_sibling_keeps_other_parents() {
    let g = graph(
        &[(1, &[]), (2, &[1]), (9, &[1]), (3, &[2, 9]), (4, &[2])],
        &[1, 2, 3, 4, 9],
        &[1],
    );
    let (_, result) = built(plan_advance(&g, Some(4), &opts(false, false), &vec![]));
    let plan = result.ok().unwrap().unwrap();
    assert_eq!(steps(&plan), vec![(3, vec![4, 9])]);
}

#[test]
fn retarget_replaces_only_head_parents() {
    let hp = vec![2, 7];
    assert_eq!(retarget_parent(2, &hp, 4), 4);
    assert_eq!(retarget_parent(7, &hp, 4), 4);
    assert_eq!(retarget_parent(9, &hp, 4), 9);
}

#[test]
fn public_sibling_needs_force() {
    let g = graph(&[(1, &[]), (2, &[1]), (3, &[2]), (4, &[2])], &[1, 2, 3, 4], &[1, 2, 3]);
    let (_, result) = built(plan_advance(&g, Some(4), &opts(false, false), &vec![]));
    match result {
        Err(BuildRebasePlanError::MovePublicCommits { public_commits_to_move }) => {
            assert_eq!(public_commits_to_move, vec![3]);
        }
        _ => panic!("expected a refusal to move public commits"),
    }
    let action = advance_action(plan_advance(&g, Some(4), &opts(false, false), &vec![]));
    assert_eq!(action.exit_code(), Some(0));
    let (_, forced) = built(plan_advance(&g, Some(4), &opts(true, false), &vec![]));
    assert_eq!(steps(&forced.ok().unwrap().unwrap()), vec![(3, vec![4])]);
}

#[test]
fn illegal_moves_are_refused() {
    let g = graph(&[(1, &[]), (2, &[1]), (3, &[2])], &[1, 2], &[]);
    let mut b = RebasePlanBuilder::new();
    b.move_subtree(3, vec![1]);
    b.move_subtree(1, vec![2]);
    b.move_subtree(2, vec![8]);
    match b.build(&g, &opts(false, false), &vec![]) {
        Err(BuildRebasePlanError::MoveIllegalCommits { commits }) => {
            assert_eq!(commits, vec![3, 1, 2]);
        }
        _ => panic!("expected illegal commits"),
    }
    let action = advance_action(AdvanceOutcome::Built {
        sibling_count: 1,
        result: Err(BuildRebasePlanError::MoveIllegalCommits { commits: vec![3] }),
    });
    assert_eq!(action.exit_code(), Some(1));
}

#[test]
fn legality_of_single_moves() {
    let g = graph(&[(1, &[]), (2, &[1]), (3, &[2])], &[1, 2, 3], &[]);
    assert!(is_legal(&g, &Move { commit: 3, new_parents: vec![1] }));
    assert!(!is_legal(&g, &Move { commit: 1, new_parents: vec![2] }));
    assert!(!is_legal(&g, &Move { commit: 3, new_parents: vec![1, 42] }));
    assert!(!is_legal(&g, &Move { commit: 42, new_parents: vec![1] }));
    let moves = vec![
        Move { commit: 3, new_parents: vec![1] },
        Move { commit: 1, new_parents: vec![3] },
    ];
    assert_eq!(collect_illegal(&g, &moves), vec![1]);
    let pg = graph(&[(1, &[]), (2, &[1]), (3, &[2])], &[1, 2, 3], &[1, 3]);
    assert_eq!(collect_public(&pg, &moves), vec![3, 1]);
}

#[test]
fn constraint_cycle_is_detected() {
    let g = graph(&[(1, &[]), (2, &[1]), (3, &[1])], &[1, 2, 3], &[]);
    let mut b = RebasePlanBuilder::new();
    b.move_subtree(2, vec![3]);
    b.move_subtree(3, vec![2]);
    match b.build(&g, &opts(false, false), &vec![]) {
        Err(BuildRebasePlanError::ConstraintCycle { mut commits }) => {
            commits.sort();
            assert_eq!(commits, vec![2, 3]);
        }
        _ => panic!("expected a constraint cycle"),
    }
    let action = advance_action(AdvanceOutcome::Built {
        sibling_count: 2,
        result: Err(BuildRebasePlanError::ConstraintCycle { commits: vec![2, 3] }),
    });
    assert!(matches!(action, AdvanceAction::ConstraintCycleBug));
    assert_eq!(action.exit_code(), Some(1));
}

#[test]
fn moving_onto_itself_is_a_cycle() {
    let moves = vec![Move { commit: 2, new_parents: vec![2] }];
    assert_eq!(order_moves(&moves).err(), Some(vec![0]));
}

#[test]
fn dependent_moves_are_ordered() {
    let mut g = graph(&[(1, &[]), (2, &[1]), (3, &[1]), (4, &[1])], &[1, 2, 3, 4], &[]);
    let mut b = RebasePlanBuilder::new();
    b.move_subtree(2, vec![3]);
    b.move_subtree(3, vec![4]);
    let plan = b.build(&g, &opts(false, false), &vec![]).ok().unwrap().unwrap();
    assert_eq!(steps(&plan), vec![(3, vec![4]), (2, vec![3])]);
    execute_in_memory(&mut g, &plan);
    assert_eq!(g.parents(2), Some(vec![3]));
    assert_eq!(g.parents(3), Some(vec![4]));
    let moves = vec![
        Move { commit: 2, new_parents: vec![3] },
        Move { commit: 3, new_parents: vec![4] },
    ];
    assert_eq!(order_moves(&moves).ok(), Some(vec![1, 0]));
}

#[test]
fn later_request_replaces_earlier() {
    let g = graph(&[(1, &[]), (2, &[1]), (3, &[1]), (4, &[1])], &[1, 2, 3, 4], &[]);
    let mut b = RebasePlanBuilder::new();
    b.move_subtree(2, vec![3]);
    b.move_subtree(2, vec![4]);
    let plan = b.build(&g, &opts(false, false), &vec![]).ok().unwrap().unwrap();
    assert_eq!(steps(&plan), vec![(2, vec![4])]);
}

#[test]
fn duplicate_patches_are_elided() {
    let g = stack();
    let (_, result) = built(plan_advance(&g, Some(4), &opts(false, true), &vec![3]));
    assert!(matches!(result, Ok(None)));
    let (_, kept) = built(plan_advance(&g, Some(4), &opts(false, false), &vec![3]));
    assert!(matches!(kept, Ok(Some(_))));
    let action = advance_action(plan_advance(&g, Some(4), &opts(false, true), &vec![3]));
    assert!(matches!(action, AdvanceAction::NoChildCommits));
}

#[test]
fn empty_builder_builds_no_plan() {
    let b = RebasePlanBuilder::new();
    assert!(matches!(b.build(&stack(), &opts(false, false), &vec![]), Ok(None)));
}

#[test]
fn execution_results_map_to_exit_codes() {
    assert_eq!(execution_exit_code(&ExecuteRebasePlanResult::Succeeded { rewritten_oids: vec![(3, 5)] }), None);
    assert_eq!(execution_exit_code(&ExecuteRebasePlanResult::WouldSucceed), None);
    assert_eq!(execution_exit_code(&ExecuteRebasePlanResult::DeclinedToMerge), Some(1));
    assert_eq!(execution_exit_code(&ExecuteRebasePlanResult::Failed { exit_code: 128 }), Some(128));
}

#[test]
fn executing_leaves_unpicked_commits_and_unknown_commits_alone() {
    let mut g = stack();
    let plan = RebasePlan {
        steps: vec![git_branchless_core::planner::RebaseStep { commit: 42, parents: vec![1] }],
    };
    execute_in_memory(&mut g, &plan);
    assert_eq!(g.parents(42), None);
    assert_eq!(g.parents(3), Some(vec![2]));
    assert!(g.is_visible(3));
    assert!(g.is_public(1));
}

#[test]
fn advance_decides_in_one_call() {
    let g = stack();
    match advance(&g, Some(4), &opts(false, false), &vec![]) {
        AdvanceAction::Execute { sibling_count, plan } => {
            assert_eq!(sibling_count, 1);
            assert_eq!(steps(&plan), vec![(3, vec![4])]);
        }
        _ => panic!("expected a plan to execute"),
    }
    assert_eq!(advance(&g, None, &opts(false, false), &vec![]).exit_code(), Some(1));
    let lone = graph(&[(1, &[]), (2, &[1])], &[1, 2], &[1]);
    assert!(matches!(advance(&lone, Some(2), &opts(false, false), &vec![]), AdvanceAction::NoChildCommits));
}

#[test]
fn ancestors_follow_every_parent() {
    let g = graph(
        &[(1, &[]), (2, &[1]), (9, &[1]), (3, &[2, 9]), (4, &[2])],
        &[1, 2, 3, 4, 9],
        &[],
    );
    let mut a = g.ancestors(&vec![3]);
    a.sort();
    assert_eq!(a, vec![1, 2, 3, 9]);
    let mut b = g.ancestors(&vec![4, 4]);
    b.sort();
    assert_eq!(b, vec![1, 2, 4]);
    assert!(g.ancestors(&vec![]).is_empty());
    assert_eq!(g.ancestors(&vec![77]), vec![77]);
}

#[test]
fn public_commits_are_ancestors_of_main() {
    let mut g = stack();
    g.public = g.ancestors(&vec![1]);
    assert_eq!(g.public, vec![1]);
    g.public = g.ancestors(&vec![3]);
    let (_, result) = built(plan_advance(&g, Some(4), &opts(false, false), &vec![]));
    assert!(matches!(result, Err(BuildRebasePlanError::MovePublicCommits { .. })));
}

#[test]
fn moving_onto_own_descendant_is_a_cycle() {
    let g = graph(&[(1, &[]), (2, &[1]), (3, &[2]), (4, &[3])], &[1, 2, 3, 4], &[]);
    let mut b = RebasePlanBuilder::new();
    b.move_subtree(2, vec![4]);
    match b.build(&g, &opts(false, false), &vec![]) {
        Err(BuildRebasePlanError::ConstraintCycle { commits }) => assert_eq!(commits, vec![2]),
        _ => panic!("expected a constraint cycle"),
    }
    let mut own = RebasePlanBuilder::new();
    own.move_subtree(3, vec![3]);
    assert!(matches!(
        own.build(&g, &opts(false, false), &vec![]),
        Err(BuildRebasePlanError::ConstraintCycle { .. })
    ));
    let mut fine = RebasePlanBuilder::new();
    fine.move_subtree(4, vec![2]);
    let plan = fine.build(&g, &opts(false, false), &vec![]).ok().unwrap().unwrap();
    assert_eq!(steps(&plan), vec![(4, vec![2])]);
}
