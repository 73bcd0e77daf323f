//! The events that the post-commit and post-rewrite hooks record, and the
//! fate of reference moves held back while an operation was underway.
use vstd::prelude::*;
use crate::event::{Event, Oid, TxId};

verus! {

/// `e` moved into transaction `tx`.
pub open spec fn with_tx(e: Event, tx: TxId) -> Event {
    match e {
        Event::RefMove { ref_name, old_oid, new_oid, .. } => Event::RefMove {
            tx,
            ref_name,
            old_oid,
            new_oid,
        },
        Event::CommitVisible { oid, .. } => Event::CommitVisible { tx, oid },
        Event::CommitHide { oid, .. } => Event::CommitHide { tx, oid },
        Event::CommitUnhide { oid, .. } => Event::CommitUnhide { tx, oid },
        Event::Rewrite { old_oid, new_oid, .. } => Event::Rewrite { tx, old_oid, new_oid },
        Event::WorkingCopySnapshot { head_oid, .. } => Event::WorkingCopySnapshot { tx, head_oid },
    }
}

/// The events of the post-commit hook: the new commit at HEAD is visible,
/// and HEAD's position is recorded.
pub fn post_commit_events(tx: TxId, head: Oid) -> (r: Vec<Event>)
    ensures
        r@ == seq![
            Event::CommitVisible { tx, oid: head },
            Event::WorkingCopySnapshot { tx, head_oid: head },
        ],
{
    let mut r: Vec<Event> = Vec::new();
    r.push(Event::CommitVisible { tx, oid: head });
    r.push(Event::WorkingCopySnapshot { tx, head_oid: head });
    assert(r@ =~= seq![
        Event::CommitVisible { tx, oid: head },
        Event::WorkingCopySnapshot { tx, head_oid: head },
    ]);
    r
}

/// The events of the post-rewrite hook: one rewrite per reported pair of
/// old and new commit, in order.
pub fn post_rewrite_events(tx: TxId, pairs: &Vec<(Oid, Oid)>) -> (r: Vec<Event>)
    ensures
        r@.len() == pairs@.len(),
        forall|k: int|
            0 <= k < pairs@.len() ==> #[trigger] r@[k] == (Event::Rewrite {
                tx,
                old_oid: pairs@[k].0,
                new_oid: pairs@[k].1,
            }),
{
    let mut r: Vec<Event> = Vec::new();
    let mut i: usize = 0;
    while i < pairs.len()
        invariant
            i <= pairs@.len(),
            r@.len() == i,
            forall|k: int|
                0 <= k < i ==> #[trigger] r@[k] == (Event::Rewrite {
                    tx,
                    old_oid: pairs@[k].0,
                    new_oid: pairs@[k].1,
                }),
        decreases pairs@.len() - i,
    {
        let (old_oid, new_oid) = pairs[i];
        r.push(Event::Rewrite { tx, old_oid, new_oid });
        i = i + 1;
    }
    r
}

/// One event moved into transaction `tx`.
pub fn retag(e: &Event, tx: TxId) -> (r: Event)
    ensures
        r == with_tx(*e, tx),
{
    match e {
        Event::RefMove { ref_name, old_oid, new_oid, .. } => Event::RefMove {
            tx,
            ref_name: ref_name.clone(),
            old_oid: *old_oid,
            new_oid: *new_oid,
        },
        Event::CommitVisible { oid, .. } => Event::CommitVisible { tx, oid: *oid },
        Event::CommitHide { oid, .. } => Event::CommitHide { tx, oid: *oid },
        Event::CommitUnhide { oid, .. } => Event::CommitUnhide { tx, oid: *oid },
        Event::Rewrite { old_oid, new_oid, .. } => Event::Rewrite {
            tx,
            old_oid: *old_oid,
            new_oid: *new_oid,
        },
        Event::WorkingCopySnapshot { head_oid, .. } => Event::WorkingCopySnapshot {
            tx,
            head_oid: *head_oid,
        },
    }
}

/// What becomes of the moves held back during an operation when it ends:
/// discarded when it was aborted, else recorded in order as the single
/// transaction `tx`.
pub fn conclude_operation(buffered: &Vec<Event>, aborted: bool, tx: TxId) -> (r: Vec<Event>)
    ensures
        aborted ==> r@.len() == 0,
        !aborted ==> r@ == buffered@.map_values(|e: Event| with_tx(e, tx)),
{
    let mut r: Vec<Event> = Vec::new();
    if aborted {
        return r;
    }
    let mut i: usize = 0;
    while i < buffered.len()
        invariant
            i <= buffered@.len(),
            r@ =~= buffered@.subrange(0, i as int).map_values(|e: Event| with_tx(e, tx)),
        decreases buffered@.len() - i,
    {
        r.push(retag(&buffered[i], tx));
        i = i + 1;
    }
    proof {
        assert(buffered@.subrange(0, i as int) =~= buffered@);
    }
    r
}

} // verus!
