//! Object identifiers and the semantic events stored in the log.
use vstd::prelude::*;

verus! {

/// An object identifier. The value `ZERO_OID` means "no commit".
pub type Oid = u64;

/// The reserved identifier that encodes the absence of a commit.
pub const ZERO_OID: u64 = 0;

/// A transaction id grouping atomically committed events.
pub type TxId = u64;

/// A semantic event of the log.
pub enum Event {
    /// A reference moved from `old_oid` to `new_oid` (`ZERO_OID` on either
    /// side encodes creation or deletion).
    RefMove { tx: TxId, ref_name: String, old_oid: Oid, new_oid: Oid },
    /// A new commit was created and is visible.
    CommitVisible { tx: TxId, oid: Oid },
    /// A commit was explicitly hidden.
    CommitHide { tx: TxId, oid: Oid },
    /// A commit was explicitly unhidden.
    CommitUnhide { tx: TxId, oid: Oid },
    /// `old_oid` was rewritten into `new_oid`.
    Rewrite { tx: TxId, old_oid: Oid, new_oid: Oid },
    /// A snapshot of the position of HEAD.
    WorkingCopySnapshot { tx: TxId, head_oid: Oid },
}

impl Event {
    /// The transaction id that the event belongs to.
    pub open spec fn spec_tx(&self) -> TxId {
        match *self {
            Event::RefMove { tx, .. } => tx,
            Event::CommitVisible { tx, .. } => tx,
            Event::CommitHide { tx, .. } => tx,
            Event::CommitUnhide { tx, .. } => tx,
            Event::Rewrite { tx, .. } => tx,
            Event::WorkingCopySnapshot { tx, .. } => tx,
        }
    }

    /// A copy of the event.
    pub fn copy_event(&self) -> (r: Event)
        ensures
            r == *self,
    {
        match self {
            Event::RefMove { tx, ref_name, old_oid, new_oid } => Event::RefMove {
                tx: *tx,
                ref_name: ref_name.clone(),
                old_oid: *old_oid,
                new_oid: *new_oid,
            },
            Event::CommitVisible { tx, oid } => Event::CommitVisible { tx: *tx, oid: *oid },
            Event::CommitHide { tx, oid } => Event::CommitHide { tx: *tx, oid: *oid },
            Event::CommitUnhide { tx, oid } => Event::CommitUnhide { tx: *tx, oid: *oid },
            Event::Rewrite { tx, old_oid, new_oid } => Event::Rewrite {
                tx: *tx,
                old_oid: *old_oid,
                new_oid: *new_oid,
            },
            Event::WorkingCopySnapshot { tx, head_oid } => Event::WorkingCopySnapshot {
                tx: *tx,
                head_oid: *head_oid,
            },
        }
    }

    /// The transaction id that the event belongs to.
    pub fn tx(&self) -> (r: TxId)
        ensures
            r == self.spec_tx(),
    {
        match self {
            Event::RefMove { tx, .. } => *tx,
            Event::CommitVisible { tx, .. } => *tx,
            Event::CommitHide { tx, .. } => *tx,
            Event::CommitUnhide { tx, .. } => *tx,
            Event::Rewrite { tx, .. } => *tx,
            Event::WorkingCopySnapshot { tx, .. } => *tx,
        }
    }
}

} // verus!
