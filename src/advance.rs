//! The decisions of `advance`: move the other children of HEAD's parents
//! onto HEAD, so that a stack stays connected after a commit is inserted.
use vstd::prelude::*;
use crate::event::Oid;
use crate::graph::{contains, CommitGraph, GraphModel, is_child_of_any};
use crate::planner::{
    build_outcome, BuildRebasePlanError, BuildRebasePlanOptions, Move, RebasePlan,
    RebasePlanBuilder,
};

verus! {

/// The parents of `h` in `g`; none for a commit outside the graph.
pub open spec fn head_parents(g: GraphModel, h: Oid) -> Seq<Oid> {
    if g.parents.dom().contains(h) {
        g.parents[h]
    } else {
        Seq::empty()
    }
}

/// `c` is a visible sibling of `h`: another child of one of `h`'s parents.
pub open spec fn is_sibling(g: GraphModel, h: Oid, c: Oid) -> bool {
    c != h && g.visible.contains(c) && is_child_of_any(g, c, head_parents(g, h))
}

/// The new parent of `p`: `head` in place of each parent of `head`.
pub open spec fn retarget_one(p: Oid, hp: Seq<Oid>, head: Oid) -> Oid {
    if hp.contains(p) {
        head
    } else {
        p
    }
}

/// `parents` with every parent of `head` replaced by `head`.
pub open spec fn retarget(parents: Seq<Oid>, hp: Seq<Oid>, head: Oid) -> Seq<Oid> {
    parents.map_values(|p: Oid| retarget_one(p, hp, head))
}

/// `moves` moves each sibling of `h`, once, onto its parents with `h` in
/// place of `h`'s parents.
pub open spec fn advance_moves_for(g: GraphModel, h: Oid, moves: Seq<Move>) -> bool {
    &&& crate::planner::distinct_commits(moves)
    &&& forall|k: int| 0 <= k < moves.len() ==> is_sibling(g, h, #[trigger] moves[k].commit)
    &&& forall|c: Oid| is_sibling(g, h, c) ==> exists|k: int| 0 <= k < moves.len() && #[trigger] moves[k].commit == c
    &&& forall|k: int|
        0 <= k < moves.len() ==> (#[trigger] moves[k]).new_parents@ == retarget(
            g.parents[moves[k].commit],
            head_parents(g, h),
            h,
        )
}

/// The new parent of `p`: `head` in place of each parent of `head`.
pub fn retarget_parent(p: Oid, head_parents: &Vec<Oid>, head: Oid) -> (r: Oid)
    ensures
        r == retarget_one(p, head_parents@, head),
{
    if contains(head_parents, p) {
        head
    } else {
        p
    }
}

/// Relies on `itertools::Itertools::collect_vec`, which collects the items
/// of the iterator, in order, into a `Vec`.
#[verifier::external_body]
fn retarget_parents(parents: &Vec<Oid>, head_parents: &Vec<Oid>, head: Oid) -> (r: Vec<Oid>)
    ensures
        r@ == retarget(parents@, head_parents@, head),
{
    itertools::Itertools::collect_vec(parents.iter().map(|p| retarget_parent(*p, head_parents, head)))
}

/// What `advance` found before executing anything.
pub enum AdvanceOutcome {
    /// No commit is checked out.
    NoHead,
    /// HEAD has no visible sibling.
    NoChildren,
    /// The siblings' moves were planned.
    Built { sibling_count: usize, result: Result<Option<RebasePlan>, BuildRebasePlanError> },
}

/// `r` is what planning `advance` from `head` gives: nothing checked out,
/// no visible sibling, or the outcome of building the siblings' moves.
pub open spec fn advance_outcome(
    g: GraphModel,
    head: Option<Oid>,
    force: bool,
    detect: bool,
    duplicates: Seq<Oid>,
    r: AdvanceOutcome,
) -> bool {
    match head {
        None => r is NoHead,
        Some(h) => if forall|c: Oid| !is_sibling(g, h, c) {
            r is NoChildren
        } else {
            r matches AdvanceOutcome::Built { sibling_count, result } && exists|ms: Seq<Move>|
                advance_moves_for(g, h, ms) && ms.len() == sibling_count && build_outcome(
                    g,
                    ms,
                    force,
                    detect,
                    duplicates,
                    result,
                )
        },
    }
}

/// Plans moving the visible siblings of `head` onto it. With duplicate
/// detection, the commits of `duplicates` are elided.
pub fn plan_advance(
    g: &CommitGraph,
    head: Option<Oid>,
    options: &BuildRebasePlanOptions,
    duplicates: &Vec<Oid>,
) -> (r: AdvanceOutcome)
    ensures
        advance_outcome(
            g@,
            head,
            options.force_rewrite_public_commits,
            options.detect_duplicate_commits_via_patch_id,
            duplicates@,
            r,
        ),
{
    let h = match head {
        None => {
            return AdvanceOutcome::NoHead;
        },
        Some(h) => h,
    };
    let hp = match g.parents(h) {
        Some(ps) => ps,
        None => Vec::new(),
    };
    assert(hp@ == head_parents(g@, h));
    let siblings = g.visible_children_except(&hp, h);
    if siblings.len() == 0 {
        proof {
            assert forall|c: Oid| !is_sibling(g@, h, c) by {
                if is_sibling(g@, h, c) {
                    assert(siblings@.contains(c));
                }
            }
        }
        return AdvanceOutcome::NoChildren;
    }
    let mut builder = RebasePlanBuilder::new();
    let mut i: usize = 0;
    while i < siblings.len()
        invariant
            i <= siblings@.len(),
            hp@ == head_parents(g@, h),
            siblings@.no_duplicates(),
            forall|c: Oid| siblings@.contains(c) <==> is_sibling(g@, h, c),
            builder.well_formed(),
            builder.moves().len() == i,
            forall|k: int|
                0 <= k < i ==> (#[trigger] builder.moves()[k]).commit == siblings@[k]
                    && builder.moves()[k].new_parents@ == retarget(
                    g@.parents[siblings@[k]],
                    hp@,
                    h,
                ),
        decreases siblings@.len() - i,
    {
        let s = siblings[i];
        assert(siblings@.contains(s));
        let ps = match g.parents(s) {
            Some(ps) => ps,
            None => Vec::new(),
        };
        let new_parents = retarget_parents(&ps, &hp, h);
        let ghost before = builder.moves();
        proof {
            assert forall|k: int| 0 <= k < before.len() implies before[k].commit != s by {
                assert(before[k].commit == siblings@[k]);
                assert(siblings@[k] != siblings@[i as int]);
            }
        }
        builder.move_subtree(s, new_parents);
        proof {
            let after = builder.moves();
            let k = choose|k: int|
                0 <= k < after.len() && (#[trigger] after[k]).commit == s && after[k].new_parents@
                    == new_parents@;
            if k < before.len() {
                assert(after[k] == before[k]);
            }
            assert forall|j: int| 0 <= j < i + 1 implies (#[trigger] after[j]).commit == siblings@[j]
                && after[j].new_parents@ == retarget(g@.parents[siblings@[j]], hp@, h) by {
                if j < i {
                    assert(after[j] == before[j]);
                }
            }
        }
        i = i + 1;
    }
    let sibling_count = siblings.len();
    let result = builder.build(g, options, duplicates);
    proof {
        let ms = builder.moves();
        assert forall|k: int| 0 <= k < ms.len() implies is_sibling(g@, h, #[trigger] ms[k].commit) by {
            assert(siblings@.contains(siblings@[k]));
        }
        assert forall|c: Oid| is_sibling(g@, h, c) implies exists|k: int|
            0 <= k < ms.len() && #[trigger] ms[k].commit == c by {
            assert(siblings@.contains(c));
            let k = choose|k: int| 0 <= k < siblings@.len() && siblings@[k] == c;
            assert(ms[k].commit == c);
        }
        assert(advance_moves_for(g@, h, ms));
    }
    AdvanceOutcome::Built { sibling_count, result }
}

/// What `advance` does next.
pub enum AdvanceAction {
    /// Report that no commit is checked out; exit with 1.
    NoCommitCheckedOut,
    /// Report that there are no child commits to advance; exit with 0.
    NoChildCommits,
    /// Report a constraint cycle, which moving siblings cannot cause; exit
    /// with 1.
    ConstraintCycleBug,
    /// Describe the commits that cannot be moved; exit with 1.
    IllegalCommits { commits: Vec<Oid> },
    /// Advise forcing the rewrite of these public commits; exit with 0.
    PublicCommits { commits: Vec<Oid> },
    /// Announce moving `sibling_count` commits, then execute `plan`.
    Execute { sibling_count: usize, plan: RebasePlan },
}

impl AdvanceAction {
    /// The exit code of the command, or none where the plan is executed.
    pub fn exit_code(&self) -> (r: Option<i32>)
        ensures
            r == match self {
                AdvanceAction::NoCommitCheckedOut => Some(1i32),
                AdvanceAction::NoChildCommits => Some(0i32),
                AdvanceAction::ConstraintCycleBug => Some(1i32),
                AdvanceAction::IllegalCommits { .. } => Some(1i32),
                AdvanceAction::PublicCommits { .. } => Some(0i32),
                AdvanceAction::Execute { .. } => None,
            },
    {
        match self {
            AdvanceAction::NoCommitCheckedOut => Some(1),
            AdvanceAction::NoChildCommits => Some(0),
            AdvanceAction::ConstraintCycleBug => Some(1),
            AdvanceAction::IllegalCommits { .. } => Some(1),
            AdvanceAction::PublicCommits { .. } => Some(0),
            AdvanceAction::Execute { .. } => None,
        }
    }
}

/// `r` is the action that follows `outcome`.
pub open spec fn action_for(outcome: AdvanceOutcome, r: AdvanceAction) -> bool {
    match outcome {
        AdvanceOutcome::NoHead => r is NoCommitCheckedOut,
        AdvanceOutcome::NoChildren => r is NoChildCommits,
        AdvanceOutcome::Built { sibling_count, result } => match result {
            Ok(None) => r is NoChildCommits,
            Ok(Some(plan)) => r == AdvanceAction::Execute { sibling_count, plan },
            Err(BuildRebasePlanError::ConstraintCycle { .. }) => r is ConstraintCycleBug,
            Err(BuildRebasePlanError::MoveIllegalCommits { commits }) => r
                == AdvanceAction::IllegalCommits { commits },
            Err(BuildRebasePlanError::MovePublicCommits { public_commits_to_move }) => r
                == AdvanceAction::PublicCommits { commits: public_commits_to_move },
        },
    }
}

/// Decides what `advance` does: move the visible siblings of `head` (the
/// other children of its parents) onto `head`, keeping their other parents.
pub fn advance(
    g: &CommitGraph,
    head: Option<Oid>,
    options: &BuildRebasePlanOptions,
    duplicates: &Vec<Oid>,
) -> (r: AdvanceAction)
    ensures
        exists|o: AdvanceOutcome|
            advance_outcome(
                g@,
                head,
                options.force_rewrite_public_commits,
                options.detect_duplicate_commits_via_patch_id,
                duplicates@,
                o,
            ) && #[trigger] action_for(o, r),
{
    let outcome = plan_advance(g, head, options, duplicates);
    let ghost o = outcome;
    let r = advance_action(outcome);
    assert(action_for(o, r));
    r
}

/// The action that follows an outcome.
pub fn advance_action(outcome: AdvanceOutcome) -> (r: AdvanceAction)
    ensures
        action_for(outcome, r),
{
    match outcome {
        AdvanceOutcome::NoHead => AdvanceAction::NoCommitCheckedOut,
        AdvanceOutcome::NoChildren => AdvanceAction::NoChildCommits,
        AdvanceOutcome::Built { sibling_count, result } => match result {
            Ok(None) => AdvanceAction::NoChildCommits,
            Ok(Some(plan)) => AdvanceAction::Execute { sibling_count, plan },
            Err(BuildRebasePlanError::ConstraintCycle { .. }) => AdvanceAction::ConstraintCycleBug,
            Err(BuildRebasePlanError::MoveIllegalCommits { commits }) => AdvanceAction::IllegalCommits {
                commits,
            },
            Err(BuildRebasePlanError::MovePublicCommits { public_commits_to_move }) =>
                AdvanceAction::PublicCommits { commits: public_commits_to_move },
        },
    }
}

/// How executing a plan ended.
pub enum ExecuteRebasePlanResult {
    /// Every step applied; each pair is a commit and what it became.
    Succeeded { rewritten_oids: Vec<(Oid, Oid)> },
    /// A dry run found that every step would apply.
    WouldSucceed,
    /// The in-memory merge met conflicts and declined to resolve them.
    DeclinedToMerge,
    /// The on-disk backend exited with `exit_code`.
    Failed { exit_code: i32 },
}

/// The exit code after executing the plan, or none where the command goes
/// on to render the smartlog.
pub fn execution_exit_code(result: &ExecuteRebasePlanResult) -> (r: Option<i32>)
    ensures
        r == match result {
            ExecuteRebasePlanResult::Succeeded { .. } => None,
            ExecuteRebasePlanResult::WouldSucceed => None,
            ExecuteRebasePlanResult::DeclinedToMerge => Some(1i32),
            ExecuteRebasePlanResult::Failed { exit_code } => Some(*exit_code),
        },
{
    match result {
        ExecuteRebasePlanResult::Succeeded { .. } => None,
        ExecuteRebasePlanResult::WouldSucceed => None,
        ExecuteRebasePlanResult::DeclinedToMerge => Some(1),
        ExecuteRebasePlanResult::Failed { exit_code } => Some(*exit_code),
    }
}

} // verus!
