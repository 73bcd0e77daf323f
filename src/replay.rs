//! Replaying the event log into a snapshot.
use vstd::prelude::*;
use crate::event::{Event, TxId, ZERO_OID};
use crate::snapshot::{empty_model, merge_reps, Snapshot, SnapshotModel};

verus! {

/// The effect of one event on a snapshot.
pub open spec fn apply_event(m: SnapshotModel, e: Event) -> SnapshotModel {
    match e {
        Event::RefMove { ref_name, new_oid, .. } => if new_oid == ZERO_OID {
            SnapshotModel { branches: m.branches.remove(ref_name@), ..m }
        } else {
            SnapshotModel {
                branches: m.branches.insert(ref_name@, new_oid),
                visible: m.visible.insert(new_oid),
                ..m
            }
        },
        Event::CommitVisible { oid, .. } => SnapshotModel { visible: m.visible.insert(oid), ..m },
        Event::CommitHide { oid, .. } => SnapshotModel { visible: m.visible.remove(oid), ..m },
        Event::CommitUnhide { oid, .. } => SnapshotModel { visible: m.visible.insert(oid), ..m },
        Event::Rewrite { old_oid, new_oid, .. } => SnapshotModel {
            reps: merge_reps(m.reps, old_oid, new_oid),
            ..m
        },
        Event::WorkingCopySnapshot { .. } => m,
    }
}

/// The snapshot obtained by folding `events` in order over the empty one.
pub open spec fn replay_model(events: Seq<Event>) -> SnapshotModel
    decreases events.len(),
{
    if events.len() == 0 {
        empty_model()
    } else {
        apply_event(replay_model(events.drop_last()), events.last())
    }
}

/// The events that a cursor admits: all of them without a cursor, else
/// those whose transaction id is at most the cursor.
pub open spec fn events_upto(events: Seq<Event>, cursor: Option<TxId>) -> Seq<Event>
    decreases events.len(),
{
    if events.len() == 0 {
        events
    } else {
        let rest = events_upto(events.drop_last(), cursor);
        match cursor {
            Some(c) => if events.last().spec_tx() <= c {
                rest.push(events.last())
            } else {
                rest
            },
            None => rest.push(events.last()),
        }
    }
}

/// The snapshot at `cursor`.
pub open spec fn snapshot_at(events: Seq<Event>, cursor: Option<TxId>) -> SnapshotModel {
    replay_model(events_upto(events, cursor))
}

/// Applies one event to `snapshot`.
pub fn apply(snapshot: &mut Snapshot, e: &Event)
    requires
        old(snapshot).well_formed(),
    ensures
        final(snapshot).well_formed(),
        final(snapshot)@ == apply_event(old(snapshot)@, *e),
{
    match e {
        Event::RefMove { ref_name, new_oid, .. } => {
            snapshot.set_branch(ref_name.clone(), *new_oid);
            if *new_oid != ZERO_OID {
                snapshot.set_visible(*new_oid, true);
            }
        },
        Event::CommitVisible { oid, .. } => snapshot.set_visible(*oid, true),
        Event::CommitHide { oid, .. } => snapshot.set_visible(*oid, false),
        Event::CommitUnhide { oid, .. } => snapshot.set_visible(*oid, true),
        Event::Rewrite { old_oid, new_oid, .. } => snapshot.merge_rewrite(*old_oid, *new_oid),
        Event::WorkingCopySnapshot { .. } => {},
    }
}

/// The default cursor: the end of the log.
pub fn make_default_cursor() -> (r: Option<TxId>)
    ensures
        r.is_none(),
{
    None
}

/// Replays `events` up to `cursor` (to the end of the log without one).
pub fn replay(events: &Vec<Event>, cursor: Option<TxId>) -> (r: Snapshot)
    ensures
        r.well_formed(),
        r@ == snapshot_at(events@, cursor),
{
    let mut snapshot = Snapshot::new();
    let mut i: usize = 0;
    proof {
        assert(events@.subrange(0, 0) =~= Seq::<Event>::empty());
    }
    while i < events.len()
        invariant
            i <= events@.len(),
            snapshot.well_formed(),
            snapshot@ == snapshot_at(events@.subrange(0, i as int), cursor),
        decreases events@.len() - i,
    {
        let e = &events[i];
        let admitted = match cursor {
            Some(c) => e.tx() <= c,
            None => true,
        };
        if admitted {
            apply(&mut snapshot, e);
        }
        proof {
            let pre = events@.subrange(0, i as int);
            let cur = events@.subrange(0, i + 1);
            assert(cur.drop_last() =~= pre);
            assert(cur.last() == *e);
            let rest = events_upto(pre, cursor);
            assert(rest.push(*e).drop_last() =~= rest);
        }
        i = i + 1;
    }
    proof {
        assert(events@.subrange(0, i as int) =~= events@);
    }
    snapshot
}

} // verus!
