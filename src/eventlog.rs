//! The append-only event log: transactions with sequential ids and
//! non-decreasing timestamps, and events stored in transaction order.
use vstd::prelude::*;
use crate::event::{Event, TxId};

verus! {

/// A transaction of the log.
pub struct Transaction {
    pub tx: TxId,
    pub timestamp: u64,
    pub name: String,
}

/// Why a batch of events was refused; nothing of it is stored.
#[derive(PartialEq, Eq, Structural, Clone, Copy, Debug)]
pub enum LogError {
    /// An event names a transaction that was not allocated.
    UnknownTransaction,
    /// An event's transaction precedes that of the event stored before it.
    OutOfOrder,
}

/// A reference move that does not move.
pub open spec fn is_noop(e: Event) -> bool {
    match e {
        Event::RefMove { old_oid, new_oid, .. } => old_oid == new_oid,
        _ => false,
    }
}

/// The events of `events` that are stored: all but the no-op moves.
pub open spec fn persisted(events: Seq<Event>) -> Seq<Event>
    decreases events.len(),
{
    if events.len() == 0 {
        events
    } else if is_noop(events.last()) {
        persisted(events.drop_last())
    } else {
        persisted(events.drop_last()).push(events.last())
    }
}

/// Transaction ids never decrease along `events`.
pub open spec fn tx_ordered(events: Seq<Event>) -> bool {
    forall|i: int, j: int|
        0 <= i < j < events.len() ==> #[trigger] events[i].spec_tx() <= #[trigger] events[j].spec_tx()
}

/// The events from transaction `from` on (all of them without `from`).
pub open spec fn scan_from(events: Seq<Event>, from: Option<TxId>) -> Seq<Event>
    decreases events.len(),
{
    if events.len() == 0 {
        events
    } else {
        let rest = scan_from(events.drop_last(), from);
        match from {
            Some(t) => if events.last().spec_tx() >= t {
                rest.push(events.last())
            } else {
                rest
            },
            None => rest.push(events.last()),
        }
    }
}

/// The transaction that event `k` of `batch` may not precede.
pub open spec fn bound_before(floor: TxId, batch: Seq<Event>, k: int) -> TxId {
    if k == 0 {
        floor
    } else {
        batch[k - 1].spec_tx()
    }
}

/// The error that a batch meets, given the transaction of the last stored
/// event (`floor`) and the number of allocated transactions; none where it
/// is stored.
pub open spec fn batch_error(floor: TxId, allocated: nat, batch: Seq<Event>) -> Option<LogError> {
    if exists|k: int|
        0 <= k < batch.len() && ((#[trigger] batch[k]).spec_tx() == 0 || batch[k].spec_tx()
            > allocated) {
        Some(LogError::UnknownTransaction)
    } else if exists|k: int|
        0 <= k < batch.len() && (#[trigger] batch[k]).spec_tx() < bound_before(floor, batch, k) {
        Some(LogError::OutOfOrder)
    } else {
        None
    }
}

/// The log.
pub struct EventLog {
    transactions: Vec<Transaction>,
    events: Vec<Event>,
}

impl EventLog {
    /// The allocated transactions, in order.
    pub closed spec fn transactions(&self) -> Seq<Transaction> {
        self.transactions@
    }

    /// The stored events, in order.
    pub closed spec fn events(&self) -> Seq<Event> {
        self.events@
    }

    /// The transaction of the last stored event, or 0.
    pub open spec fn floor(&self) -> TxId {
        if self.events().len() == 0 {
            0
        } else {
            self.events().last().spec_tx()
        }
    }

    /// Transaction `i` has id `i + 1`, timestamps never go back, and the
    /// stored events are free of no-op moves, in transaction order, and of
    /// allocated transactions.
    pub open spec fn well_formed(&self) -> bool {
        &&& forall|i: int|
            0 <= i < self.transactions().len() ==> (#[trigger] self.transactions()[i]).tx == i + 1
        &&& forall|i: int, j: int|
            0 <= i < j < self.transactions().len() ==> #[trigger] self.transactions()[i].timestamp
                <= #[trigger] self.transactions()[j].timestamp
        &&& tx_ordered(self.events())
        &&& forall|i: int|
            0 <= i < self.events().len() ==> !is_noop(#[trigger] self.events()[i]) && 1
                <= self.events()[i].spec_tx() <= self.transactions().len()
    }

    /// An empty log.
    pub fn new() -> (r: EventLog)
        ensures
            r.well_formed(),
            r.transactions().len() == 0,
            r.events().len() == 0,
    {
        EventLog { transactions: Vec::new(), events: Vec::new() }
    }

    /// Allocates the next transaction, named `name`, at time `now`; a time
    /// earlier than the last transaction's is raised to it.
    pub fn make_transaction_id(&mut self, now: u64, name: String) -> (r: TxId)
        requires
            old(self).well_formed(),
            old(self).transactions().len() < u64::MAX,
        ensures
            final(self).well_formed(),
            r == old(self).transactions().len() + 1,
            final(self).events() == old(self).events(),
            final(self).transactions().len() == old(self).transactions().len() + 1,
            forall|i: int|
                0 <= i < old(self).transactions().len() ==> #[trigger] final(self).transactions()[i]
                    == old(self).transactions()[i],
            final(self).transactions().last().name@ == name@,
            final(self).transactions().last().timestamp == (if old(self).transactions().len() == 0
                || now >= old(self).transactions().last().timestamp {
                now
            } else {
                old(self).transactions().last().timestamp
            }),
    {
        let n = self.transactions.len();
        let mut timestamp = now;
        if n > 0 && self.transactions[n - 1].timestamp > now {
            timestamp = self.transactions[n - 1].timestamp;
        }
        let tx = (n as u64) + 1;
        self.transactions.push(Transaction { tx, timestamp, name });
        proof {
            let t = self.transactions@;
            let o = old(self).transactions@;
            assert forall|i: int, j: int| 0 <= i < j < t.len() implies #[trigger] t[i].timestamp
                <= #[trigger] t[j].timestamp by {
                if j == n {
                    if i < n - 1 {
                        assert(o[i].timestamp <= o[n - 1].timestamp);
                    }
                } else {
                    assert(o[i].timestamp <= o[j].timestamp);
                }
            }
            assert forall|i: int| 0 <= i < t.len() implies (#[trigger] t[i]).tx == i + 1 by {
                if i < n {
                    assert(t[i] == o[i]);
                }
            }
        }
        tx
    }

    /// The name of transaction `tx`, if it was allocated.
    pub fn message_for(&self, tx: TxId) -> (r: Option<String>)
        requires
            self.well_formed(),
        ensures
            (1 <= tx <= self.transactions().len()) == r.is_some(),
            r.is_some() ==> r.unwrap()@ == self.transactions()[tx - 1].name@,
    {
        if tx == 0 || tx > self.transactions.len() as u64 {
            return None;
        }
        Some(self.transactions[(tx - 1) as usize].name.clone())
    }

    /// Appends `batch` atomically: every event of it but the no-op moves,
    /// in order; or nothing, where an event names an unallocated
    /// transaction or precedes the transaction of the event before it.
    pub fn add_events(&mut self, batch: Vec<Event>) -> (r: Result<(), LogError>)
        requires
            old(self).well_formed(),
        ensures
            final(self).well_formed(),
            final(self).transactions() == old(self).transactions(),
            r == (match batch_error(old(self).floor(), old(self).transactions().len(), batch@) {
                Some(e) => Err(e),
                None => Ok(()),
            }),
            r is Ok ==> final(self).events() == old(self).events() + persisted(batch@),
            r is Err ==> final(self).events() == old(self).events(),
    {
        let allocated = self.transactions.len() as u64;
        let floor: TxId = if self.events.len() == 0 {
            0
        } else {
            self.events[self.events.len() - 1].tx()
        };
        let mut k: usize = 0;
        while k < batch.len()
            invariant
                k <= batch@.len(),
                old(self).well_formed(),
                self.transactions == old(self).transactions,
                self.events == old(self).events,
                allocated == self.transactions@.len(),
                forall|j: int| 0 <= j < k ==> 1 <= (#[trigger] batch@[j]).spec_tx() <= allocated,
            decreases batch@.len() - k,
        {
            let t = batch[k].tx();
            if t == 0 || t > allocated {
                return Err(LogError::UnknownTransaction);
            }
            k = k + 1;
        }
        let mut prev: TxId = floor;
        k = 0;
        while k < batch.len()
            invariant
                k <= batch@.len(),
                old(self).well_formed(),
                self.transactions == old(self).transactions,
                self.events == old(self).events,
                allocated == self.transactions@.len(),
                floor == old(self).floor(),
                forall|j: int| 0 <= j < batch@.len() ==> 1 <= (#[trigger] batch@[j]).spec_tx() <= allocated,
                prev == bound_before(floor, batch@, k as int),
                forall|j: int|
                    0 <= j < k ==> (#[trigger] batch@[j]).spec_tx() >= bound_before(floor, batch@, j),
            decreases batch@.len() - k,
        {
            let t = batch[k].tx();
            if t < prev {
                return Err(LogError::OutOfOrder);
            }
            prev = t;
            k = k + 1;
        }
        let ghost start = self.events@;
        let mut i: usize = 0;
        proof {
            assert(batch@.subrange(0, 0) =~= Seq::<Event>::empty());
            assert(start + Seq::<Event>::empty() =~= start);
        }
        while i < batch.len()
            invariant
                i <= batch@.len(),
                self.transactions == old(self).transactions,
                allocated == self.transactions@.len(),
                start == old(self).events@,
                self.events@ == start + persisted(batch@.subrange(0, i as int)),
                forall|j: int| 0 <= j < batch@.len() ==> 1 <= (#[trigger] batch@[j]).spec_tx() <= allocated,
                forall|j: int|
                    0 <= j < batch@.len() ==> (#[trigger] batch@[j]).spec_tx() >= bound_before(floor, batch@, j),
                tx_ordered(self.events@),
                forall|j: int|
                    0 <= j < self.events@.len() ==> !is_noop(#[trigger] self.events@[j]) && 1
                        <= self.events@[j].spec_tx() <= allocated,
                self.events@.len() > 0 ==> self.events@.last().spec_tx() <= bound_before(
                    floor,
                    batch@,
                    i as int,
                ),
            decreases batch@.len() - i,
        {
            let e = &batch[i];
            let noop = match e {
                Event::RefMove { old_oid, new_oid, .. } => *old_oid == *new_oid,
                _ => false,
            };
            let ghost before = self.events@;
            let ghost prefix = persisted(batch@.subrange(0, i as int));
            proof {
                let cur = batch@.subrange(0, i + 1);
                assert(cur.drop_last() =~= batch@.subrange(0, i as int));
                assert(cur.last() == *e);
                assert(e.spec_tx() >= bound_before(floor, batch@, i as int));
            }
            if !noop {
                self.events.push(e.copy_event());
                proof {
                    assert((start + prefix).push(*e) =~= start + prefix.push(*e));
                    let ev = self.events@;
                    assert forall|a: int, b: int| 0 <= a < b < ev.len() implies #[trigger] ev[a].spec_tx()
                        <= #[trigger] ev[b].spec_tx() by {
                        if b == ev.len() - 1 {
                            assert(ev[a] == before[a]);
                            if a < before.len() - 1 {
                                assert(before[a].spec_tx() <= before[before.len() - 1].spec_tx());
                            }
                        } else {
                            assert(ev[a] == before[a] && ev[b] == before[b]);
                        }
                    }
                    assert forall|j: int| 0 <= j < ev.len() implies !is_noop(#[trigger] ev[j]) && 1
                        <= ev[j].spec_tx() <= allocated by {
                        if j < before.len() {
                            assert(ev[j] == before[j]);
                        }
                    }
                }
            }
            i = i + 1;
        }
        proof {
            assert(batch@.subrange(0, i as int) =~= batch@);
            assert(!(exists|k: int|
                0 <= k < batch@.len() && ((#[trigger] batch@[k]).spec_tx() == 0 || batch@[k].spec_tx()
                    > allocated)));
            assert(!(exists|k: int|
                0 <= k < batch@.len() && (#[trigger] batch@[k]).spec_tx() < bound_before(floor, batch@, k)));
        }
        Ok(())
    }

    /// The stored events from transaction `from` on, in order; all of them
    /// without `from`.
    pub fn scan(&self, from: Option<TxId>) -> (r: Vec<Event>)
        ensures
            r@ == scan_from(self.events(), from),
    {
        let mut r: Vec<Event> = Vec::new();
        let mut i: usize = 0;
        proof {
            assert(self.events@.subrange(0, 0) =~= Seq::<Event>::empty());
        }
        while i < self.events.len()
            invariant
                i <= self.events@.len(),
                r@ == scan_from(self.events@.subrange(0, i as int), from),
            decreases self.events@.len() - i,
        {
            let e = &self.events[i];
            let keep = match from {
                None => true,
                Some(t) => e.tx() >= t,
            };
            proof {
                let cur = self.events@.subrange(0, i + 1);
                assert(cur.drop_last() =~= self.events@.subrange(0, i as int));
                assert(cur.last() == *e);
            }
            if keep {
                r.push(e.copy_event());
            }
            i = i + 1;
        }
        proof {
            assert(self.events@.subrange(0, i as int) =~= self.events@);
        }
        r
    }
}

} // verus!
