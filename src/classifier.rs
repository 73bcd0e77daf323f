//! Classification of the raw `(ref, old, new)` updates that the
//! reference-transaction hook receives into the events stored in the log.
use vstd::prelude::*;
use crate::event::{Event, Oid, TxId, ZERO_OID};
use crate::glob::{glob_match, glob_matches};

verus! {

/// The phase of a reference transaction reported to the hook.
#[derive(PartialEq, Eq, Structural, Clone, Copy)]
pub enum TxState {
    Prepared,
    Committed,
    Aborted,
}

/// One raw reference update of a transaction.
pub struct RefUpdate {
    pub ref_name: String,
    pub old_oid: Oid,
    pub new_oid: Oid,
}

/// An entry of the packed-refs file of the common directory.
pub struct PackedRef {
    pub ref_name: String,
    pub oid: Oid,
}

/// What becomes of one raw update.
#[derive(PartialEq, Eq, Structural, Clone, Copy, Debug)]
pub enum Disposition {
    /// The transaction is not committed: nothing is recorded.
    NotCommitted,
    /// The reference did not move.
    Unchanged,
    /// A creation or deletion that only mirrors the packed-refs file.
    PackedRefsSync,
    /// The branch matches an ignore pattern.
    IgnoredBranch,
    /// An operation is underway: the move waits for its conclusion.
    Buffer,
    /// The move is recorded.
    Emit,
}

/// The oid recorded for `name` in the packed-refs file (first entry wins).
pub open spec fn packed_lookup(packed: Seq<PackedRef>, name: Seq<char>) -> Option<Oid>
    decreases packed.len(),
{
    if packed.len() == 0 {
        None
    } else if packed[0].ref_name@ == name {
        Some(packed[0].oid)
    } else {
        packed_lookup(packed.drop_first(), name)
    }
}

/// The update is a synthetic creation or deletion of what the packed-refs
/// file already records.
pub open spec fn is_packed_sync(old_oid: Oid, new_oid: Oid, packed: Option<Oid>) -> bool {
    (old_oid == ZERO_OID && new_oid != ZERO_OID && packed == Some(new_oid)) || (new_oid
        == ZERO_OID && old_oid != ZERO_OID && packed == Some(old_oid))
}

pub open spec fn branch_prefix() -> Seq<char> {
    "refs/heads/"@
}

/// The short name of a reference: without `refs/heads/` for a branch.
pub open spec fn short_name(name: Seq<char>) -> Seq<char> {
    if branch_prefix().len() <= name.len() && name.subrange(0, branch_prefix().len() as int)
        == branch_prefix() {
        name.skip(branch_prefix().len() as int)
    } else {
        name
    }
}

/// Some pattern matches the short name of `name`.
pub open spec fn is_ignored(patterns: Seq<String>, name: Seq<char>) -> bool {
    exists|i: int| 0 <= i < patterns.len() && glob_matches(#[trigger] patterns[i]@, short_name(name))
}

/// What becomes of an update, given the packed-refs entry of its reference,
/// whether an operation is underway, and the ignore patterns.
pub open spec fn disposition(
    state: TxState,
    ref_name: Seq<char>,
    old_oid: Oid,
    new_oid: Oid,
    packed: Option<Oid>,
    underway: bool,
    patterns: Seq<String>,
) -> Disposition {
    if state != TxState::Committed {
        Disposition::NotCommitted
    } else if old_oid == new_oid {
        Disposition::Unchanged
    } else if is_packed_sync(old_oid, new_oid, packed) {
        Disposition::PackedRefsSync
    } else if underway {
        Disposition::Buffer
    } else if is_ignored(patterns, ref_name) {
        Disposition::IgnoredBranch
    } else {
        Disposition::Emit
    }
}

pub open spec fn update_disposition(
    state: TxState,
    u: RefUpdate,
    packed: Seq<PackedRef>,
    underway: bool,
    patterns: Seq<String>,
) -> Disposition {
    disposition(
        state,
        u.ref_name@,
        u.old_oid,
        u.new_oid,
        packed_lookup(packed, u.ref_name@),
        underway,
        patterns,
    )
}

pub open spec fn ref_move(tx: TxId, u: RefUpdate) -> Event {
    Event::RefMove { tx, ref_name: u.ref_name, old_oid: u.old_oid, new_oid: u.new_oid }
}

/// The events of the updates whose disposition is `which`, in order.
pub open spec fn events_with(
    which: Disposition,
    state: TxState,
    updates: Seq<RefUpdate>,
    packed: Seq<PackedRef>,
    underway: bool,
    patterns: Seq<String>,
    tx: TxId,
) -> Seq<Event>
    decreases updates.len(),
{
    if updates.len() == 0 {
        Seq::empty()
    } else {
        let rest = events_with(which, state, updates.drop_last(), packed, underway, patterns, tx);
        if update_disposition(state, updates.last(), packed, underway, patterns) == which {
            rest.push(ref_move(tx, updates.last()))
        } else {
            rest
        }
    }
}

/// The outcome of one reference transaction.
pub struct TransactionOutcome {
    /// The moves to record now.
    pub events: Vec<Event>,
    /// The moves to hold until the operation underway concludes.
    pub buffered: Vec<Event>,
}

/// The packed-refs entry of `name`.
pub fn lookup_packed(packed: &Vec<PackedRef>, name: &String) -> (r: Option<Oid>)
    ensures
        r == packed_lookup(packed@, name@),
{
    let mut i: usize = 0;
    proof {
        assert(packed@.skip(0) =~= packed@);
    }
    while i < packed.len()
        invariant
            i <= packed@.len(),
            packed_lookup(packed@.skip(i as int), name@) == packed_lookup(packed@, name@),
        decreases packed@.len() - i,
    {
        proof {
            assert(packed@.skip(i as int).drop_first() =~= packed@.skip(i + 1));
            assert(packed@.skip(i as int)[0] == packed@[i as int]);
        }
        if packed[i].ref_name == *name {
            return Some(packed[i].oid);
        }
        i = i + 1;
    }
    None
}

/// The short name of a reference: without `refs/heads/` for a branch.
pub fn short_ref_name(name: &str) -> (r: &str)
    ensures
        r@ == short_name(name@),
{
    let prefix = "refs/heads/";
    proof {
        reveal_strlit("refs/heads/");
    }
    let n = name.unicode_len();
    let k = prefix.unicode_len();
    proof {
        assert(branch_prefix() == prefix@);
    }
    if n < k {
        proof {
            assert(branch_prefix() == prefix@);
        }
        return name;
    }
    let mut i: usize = 0;
    while i < k
        invariant
            k == prefix@.len(),
            prefix@ == branch_prefix(),
            k <= n,
            n == name@.len(),
            i <= k,
            name@.subrange(0, i as int) == prefix@.subrange(0, i as int),
        decreases k - i,
    {
        if name.get_char(i) != prefix.get_char(i) {
            proof {
                assert(name@.subrange(0, k as int)[i as int] != prefix@[i as int]);
                assert(branch_prefix() == prefix@);
                assert(name@.subrange(0, k as int) != branch_prefix());
            }
            return name;
        }
        proof {
            assert(name@.subrange(0, i + 1) =~= name@.subrange(0, i as int).push(name@[i as int]));
            assert(prefix@.subrange(0, i + 1) =~= prefix@.subrange(0, i as int).push(
                prefix@[i as int],
            ));
        }
        i = i + 1;
    }
    proof {
        assert(prefix@.subrange(0, k as int) =~= prefix@);
        assert(branch_prefix() == prefix@);
    }
    let r = name.substring_char(k, n);
    proof {
        assert(r@ =~= name@.skip(k as int));
    }
    r
}

/// Whether some pattern matches the short name of `name`.
pub fn is_ignored_branch(patterns: &Vec<String>, name: &str) -> (r: bool)
    ensures
        r == is_ignored(patterns@, name@),
{
    let short = short_ref_name(name);
    let mut i: usize = 0;
    while i < patterns.len()
        invariant
            i <= patterns@.len(),
            short@ == short_name(name@),
            forall|j: int| 0 <= j < i ==> !glob_matches(#[trigger] patterns@[j]@, short@),
        decreases patterns@.len() - i,
    {
        if glob_match(patterns[i].as_str(), short) {
            return true;
        }
        i = i + 1;
    }
    false
}

/// Classifies one update.
pub fn classify(
    state: TxState,
    update: &RefUpdate,
    packed: Option<Oid>,
    underway: bool,
    patterns: &Vec<String>,
) -> (r: Disposition)
    ensures
        r == disposition(
            state,
            update.ref_name@,
            update.old_oid,
            update.new_oid,
            packed,
            underway,
            patterns@,
        ),
{
    if state != TxState::Committed {
        Disposition::NotCommitted
    } else if update.old_oid == update.new_oid {
        Disposition::Unchanged
    } else if (update.old_oid == ZERO_OID && update.new_oid != ZERO_OID && packed == Some(
        update.new_oid,
    )) || (update.new_oid == ZERO_OID && update.old_oid != ZERO_OID && packed == Some(
        update.old_oid,
    )) {
        Disposition::PackedRefsSync
    } else if underway {
        Disposition::Buffer
    } else if is_ignored_branch(patterns, update.ref_name.as_str()) {
        Disposition::IgnoredBranch
    } else {
        Disposition::Emit
    }
}

/// Classifies every update of one transaction: the moves to record now
/// and those to hold until the operation underway concludes, each in
/// the order of the updates.
pub fn classify_transaction(
    state: TxState,
    updates: &Vec<RefUpdate>,
    packed: &Vec<PackedRef>,
    underway: bool,
    patterns: &Vec<String>,
    tx: TxId,
) -> (r: TransactionOutcome)
    ensures
        r.events@ == events_with(
            Disposition::Emit,
            state,
            updates@,
            packed@,
            underway,
            patterns@,
            tx,
        ),
        r.buffered@ == events_with(
            Disposition::Buffer,
            state,
            updates@,
            packed@,
            underway,
            patterns@,
            tx,
        ),
{
    let mut events: Vec<Event> = Vec::new();
    let mut buffered: Vec<Event> = Vec::new();
    let mut i: usize = 0;
    while i < updates.len()
        invariant
            i <= updates@.len(),
            events@ == events_with(
                Disposition::Emit,
                state,
                updates@.subrange(0, i as int),
                packed@,
                underway,
                patterns@,
                tx,
            ),
            buffered@ == events_with(
                Disposition::Buffer,
                state,
                updates@.subrange(0, i as int),
                packed@,
                underway,
                patterns@,
                tx,
            ),
        decreases updates@.len() - i,
    {
        let u = &updates[i];
        proof {
            let cur = updates@.subrange(0, i + 1);
            assert(cur.drop_last() =~= updates@.subrange(0, i as int));
            assert(cur.last() == *u);
        }
        let entry = lookup_packed(packed, &u.ref_name);
        let d = classify(state, u, entry, underway, patterns);
        if d == Disposition::Emit {
            events.push(
                Event::RefMove {
                    tx,
                    ref_name: u.ref_name.clone(),
                    old_oid: u.old_oid,
                    new_oid: u.new_oid,
                },
            );
        } else if d == Disposition::Buffer {
            buffered.push(
                Event::RefMove {
                    tx,
                    ref_name: u.ref_name.clone(),
                    old_oid: u.old_oid,
                    new_oid: u.new_oid,
                },
            );
        }
        i = i + 1;
    }
    proof {
        assert(updates@.subrange(0, i as int) =~= updates@);
    }
    TransactionOutcome { events, buffered }
}

} // verus!
