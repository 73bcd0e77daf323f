//! Properties that relate several operations of the library.
use vstd::prelude::*;
use crate::classifier::{
    events_with, is_packed_sync, packed_lookup, update_disposition, Disposition, PackedRef,
    RefUpdate, TxState,
};
use crate::event::{Event, Oid, TxId, ZERO_OID};
use crate::graph::GraphModel;
use crate::planner::{
    apply_steps, build_outcome, distinct_commits, distinct_steps, illegal_commits, is_elided,
    is_legal_move, plan_realizes, Move, RebasePlan, RebaseStep,
};
use crate::replay::{apply_event, replay_model, snapshot_at};
use crate::snapshot::{is_abandoned, is_branch_target, is_rewritten, reps_closed, SnapshotModel};

verus! {

/// Replay is deterministic: two replays of the same log at the same cursor
/// give the same snapshot.
pub proof fn lemma_replay_deterministic(
    events: Seq<Event>,
    cursor: Option<TxId>,
    a: SnapshotModel,
    b: SnapshotModel,
)
    requires
        a == snapshot_at(events, cursor),
        b == snapshot_at(events, cursor),
    ensures
        a == b,
{
}

/// Events appended after a cursor do not change the snapshot at that
/// cursor.
pub proof fn lemma_replay_cursor_stable(events: Seq<Event>, later: Seq<Event>, c: TxId)
    requires
        forall|k: int| 0 <= k < later.len() ==> (#[trigger] later[k]).spec_tx() > c,
    ensures
        snapshot_at(events + later, Some(c)) == snapshot_at(events, Some(c)),
    decreases later.len(),
{
    if later.len() > 0 {
        let shorter = later.drop_last();
        assert((events + later).drop_last() =~= events + shorter);
        assert((events + later).last() == later.last());
        assert(later[later.len() - 1].spec_tx() > c);
        assert forall|k: int| 0 <= k < shorter.len() implies (#[trigger] shorter[k]).spec_tx() > c by {
            assert(shorter[k] == later[k]);
        }
        lemma_replay_cursor_stable(events, shorter, c);
    } else {
        assert(events + later =~= events);
    }
}

/// Updates that only mirror the packed-refs file are neither recorded nor
/// held back.
proof fn lemma_packed_sync_silent(
    state: TxState,
    updates: Seq<RefUpdate>,
    packed: Seq<PackedRef>,
    underway: bool,
    patterns: Seq<String>,
    tx: TxId,
)
    requires
        forall|k: int|
            0 <= k < updates.len() ==> is_packed_sync(
                (#[trigger] updates[k]).old_oid,
                updates[k].new_oid,
                packed_lookup(packed, updates[k].ref_name@),
            ),
    ensures
        events_with(Disposition::Emit, state, updates, packed, underway, patterns, tx)
            == Seq::<Event>::empty(),
        events_with(Disposition::Buffer, state, updates, packed, underway, patterns, tx)
            == Seq::<Event>::empty(),
    decreases updates.len(),
{
    if updates.len() > 0 {
        let shorter = updates.drop_last();
        assert forall|k: int| 0 <= k < shorter.len() implies is_packed_sync(
            (#[trigger] shorter[k]).old_oid,
            shorter[k].new_oid,
            packed_lookup(packed, shorter[k].ref_name@),
        ) by {
            assert(shorter[k] == updates[k]);
        }
        let last = updates[updates.len() - 1];
        assert(is_packed_sync(last.old_oid, last.new_oid, packed_lookup(packed, last.ref_name@)));
        lemma_packed_sync_silent(state, shorter, packed, underway, patterns, tx);
        let d = update_disposition(state, updates.last(), packed, underway, patterns);
        assert(d != Disposition::Emit && d != Disposition::Buffer);
    }
}

/// Packing references changes no snapshot: when every update of a
/// transaction only mirrors what the packed-refs file records, nothing is
/// recorded or held back, and the snapshot of the log stays what it was.
pub proof fn lemma_pack_refs_idempotent(
    log: Seq<Event>,
    state: TxState,
    updates: Seq<RefUpdate>,
    packed: Seq<PackedRef>,
    underway: bool,
    patterns: Seq<String>,
    tx: TxId,
)
    requires
        forall|k: int|
            0 <= k < updates.len() ==> is_packed_sync(
                (#[trigger] updates[k]).old_oid,
                updates[k].new_oid,
                packed_lookup(packed, updates[k].ref_name@),
            ),
    ensures
        events_with(Disposition::Emit, state, updates, packed, underway, patterns, tx)
            == Seq::<Event>::empty(),
        events_with(Disposition::Buffer, state, updates, packed, underway, patterns, tx)
            == Seq::<Event>::empty(),
        replay_model(
            log + events_with(Disposition::Emit, state, updates, packed, underway, patterns, tx),
        ) == replay_model(log),
{
    lemma_packed_sync_silent(state, updates, packed, underway, patterns, tx);
    assert(log + Seq::<Event>::empty() =~= log);
}

/// The synthetic creation `(r, 0, v)` followed by the synthetic deletion
/// `(r, v, 0)` of a reference that the packed-refs file records at `v`
/// yields no event.
pub proof fn lemma_packed_ref_noop(
    create: RefUpdate,
    delete: RefUpdate,
    v: Oid,
    state: TxState,
    packed: Seq<PackedRef>,
    underway: bool,
    patterns: Seq<String>,
    tx: TxId,
)
    requires
        v != ZERO_OID,
        create.ref_name@ == delete.ref_name@,
        packed_lookup(packed, create.ref_name@) == Some(v),
        create.old_oid == ZERO_OID,
        create.new_oid == v,
        delete.old_oid == v,
        delete.new_oid == ZERO_OID,
    ensures
        events_with(Disposition::Emit, state, seq![create, delete], packed, underway, patterns, tx)
            == Seq::<Event>::empty(),
        events_with(
            Disposition::Buffer,
            state,
            seq![create, delete],
            packed,
            underway,
            patterns,
            tx,
        ) == Seq::<Event>::empty(),
{
    let updates = seq![create, delete];
    assert forall|k: int| 0 <= k < updates.len() implies is_packed_sync(
        (#[trigger] updates[k]).old_oid,
        updates[k].new_oid,
        packed_lookup(packed, updates[k].ref_name@),
    ) by {}
    lemma_packed_sync_silent(state, updates, packed, underway, patterns, tx);
}

/// Rewriting `c` into another commit marks `c` as rewritten.
pub proof fn lemma_rewrite_marks_old(m: SnapshotModel, tx: TxId, c: Oid, d: Oid)
    requires
        reps_closed(m.reps),
        c != d,
    ensures
        is_rewritten(apply_event(m, Event::Rewrite { tx, old_oid: c, new_oid: d }), c),
{
}

/// A rewritten commit that stays visible is abandoned exactly while no
/// live reference points at it.
pub proof fn lemma_abandoned_sound(m: SnapshotModel, c: Oid)
    requires
        m.visible.contains(c),
        is_rewritten(m, c),
    ensures
        is_abandoned(m, c) <==> !is_branch_target(m.branches, c),
{
}

proof fn lemma_apply_steps_dom(parents: Map<Oid, Seq<Oid>>, steps: Seq<RebaseStep>)
    ensures
        apply_steps(parents, steps).dom() == parents.dom(),
    decreases steps.len(),
{
    if steps.len() > 0 {
        lemma_apply_steps_dom(parents, steps.drop_last());
        let inner = apply_steps(parents, steps.drop_last());
        if inner.dom().contains(steps.last().commit) {
            assert(inner.insert(steps.last().commit, steps.last().parents@).dom() =~= inner.dom());
        }
    }
}

proof fn lemma_apply_steps_at(parents: Map<Oid, Seq<Oid>>, steps: Seq<RebaseStep>, k: int)
    requires
        distinct_steps(steps),
        0 <= k < steps.len(),
        parents.dom().contains(steps[k].commit),
    ensures
        apply_steps(parents, steps)[steps[k].commit] == steps[k].parents@,
    decreases steps.len(),
{
    let shorter = steps.drop_last();
    lemma_apply_steps_dom(parents, shorter);
    if k < steps.len() - 1 {
        assert(shorter[k] == steps[k]);
        assert(steps[steps.len() - 1].commit != steps[k].commit);
        assert(distinct_steps(shorter)) by {
            assert forall|i: int, j: int|
                0 <= i < shorter.len() && 0 <= j < shorter.len() && i != j implies shorter[i].commit
                    != shorter[j].commit by {
                assert(shorter[i] == steps[i] && shorter[j] == steps[j]);
            }
        }
        lemma_apply_steps_at(parents, shorter, k);
    }
}

proof fn lemma_no_illegal(g: GraphModel, moves: Seq<Move>, i: int)
    requires
        illegal_commits(g, moves).len() == 0,
        0 <= i < moves.len(),
    ensures
        is_legal_move(g, moves[i]),
    decreases moves.len(),
{
    if i < moves.len() - 1 {
        assert(moves.drop_last()[i] == moves[i]);
        lemma_no_illegal(g, moves.drop_last(), i);
    }
}

/// Building a plan and carrying it out in memory gives every moved commit
/// exactly its declared new parents (moves elided as duplicates aside), and
/// keeps the set of commits of the graph.
pub proof fn lemma_rebase_roundtrip(
    g: GraphModel,
    moves: Seq<Move>,
    force: bool,
    detect: bool,
    duplicates: Seq<Oid>,
    plan: RebasePlan,
)
    requires
        distinct_commits(moves),
        build_outcome(g, moves, force, detect, duplicates, Ok(Some(plan))),
    ensures
        apply_steps(g.parents, plan.steps@).dom() == g.parents.dom(),
        forall|i: int|
            0 <= i < moves.len() && !is_elided(moves, i, detect, duplicates) ==> apply_steps(
                g.parents,
                plan.steps@,
            )[(#[trigger] moves[i]).commit] == moves[i].new_parents@,
{
    let steps = plan.steps@;
    assert(illegal_commits(g, moves).len() == 0);
    assert(plan_realizes(moves, detect, duplicates, steps));
    lemma_apply_steps_dom(g.parents, steps);
    assert forall|i: int| 0 <= i < moves.len() && !is_elided(moves, i, detect, duplicates) implies apply_steps(
        g.parents,
        steps,
    )[(#[trigger] moves[i]).commit] == moves[i].new_parents@ by {
        let k = choose|k: int| 0 <= k < steps.len() && (#[trigger] steps[k]).commit == moves[i].commit;
        lemma_no_illegal(g, moves, i);
        assert(crate::planner::step_is_requested(moves, detect, duplicates, steps[k]));
        let j = choose|j: int|
            0 <= j < moves.len() && !is_elided(moves, j, detect, duplicates) && (#[trigger] moves[j]).commit
                == steps[k].commit && moves[j].new_parents@ == steps[k].parents@;
        assert(i == j);
        lemma_apply_steps_at(g.parents, steps, k);
    }
}

} // verus!
