//! The visibility snapshot that replaying the event log produces.
//!
//! Branches and visibility marks are kept as last-write-wins logs: a later
//! entry for a key shadows every earlier one. Rewrite classes are kept as a
//! table from commit to the representative of its class.
use vstd::prelude::*;
use crate::event::{Oid, ZERO_OID};
use crate::graph::contains;

verus! {

/// The position of a reference; `ZERO_OID` records a deletion.
pub struct BranchEntry {
    pub name: String,
    pub oid: Oid,
}

/// A visibility toggle of a commit.
pub struct VisibilityMark {
    pub oid: Oid,
    pub visible: bool,
}

/// A commit and the representative of its rewrite class.
pub struct RepEntry {
    pub oid: Oid,
    pub rep: Oid,
}

/// The mathematical model of a snapshot.
pub struct SnapshotModel {
    /// Reference name to the commit it currently points at.
    pub branches: Map<Seq<char>, Oid>,
    /// The commits currently considered present.
    pub visible: Set<Oid>,
    /// Commit to the representative of its rewrite class, for every commit
    /// that took part in a rewrite.
    pub reps: Map<Oid, Oid>,
}

/// The latest entry recorded for reference `name`, if any.
pub open spec fn last_branch(s: Seq<BranchEntry>, name: Seq<char>) -> Option<Oid>
    decreases s.len(),
{
    if s.len() == 0 {
        None
    } else if s.last().name@ == name {
        Some(s.last().oid)
    } else {
        last_branch(s.drop_last(), name)
    }
}

/// The latest visibility mark recorded for `oid`, if any.
pub open spec fn last_mark(s: Seq<VisibilityMark>, oid: Oid) -> Option<bool>
    decreases s.len(),
{
    if s.len() == 0 {
        None
    } else if s.last().oid == oid {
        Some(s.last().visible)
    } else {
        last_mark(s.drop_last(), oid)
    }
}

/// The latest representative recorded for `oid`, if any.
pub open spec fn last_rep(s: Seq<RepEntry>, oid: Oid) -> Option<Oid>
    decreases s.len(),
{
    if s.len() == 0 {
        None
    } else if s.last().oid == oid {
        Some(s.last().rep)
    } else {
        last_rep(s.drop_last(), oid)
    }
}

pub open spec fn branch_map(s: Seq<BranchEntry>) -> Map<Seq<char>, Oid> {
    Map::new(
        |n: Seq<char>| last_branch(s, n).is_some() && last_branch(s, n).unwrap() != ZERO_OID,
        |n: Seq<char>| last_branch(s, n).unwrap(),
    )
}

pub open spec fn visible_set(s: Seq<VisibilityMark>) -> Set<Oid> {
    Set::new(|c: Oid| last_mark(s, c) == Some(true))
}

pub open spec fn rep_map(s: Seq<RepEntry>) -> Map<Oid, Oid> {
    Map::new(|c: Oid| last_rep(s, c).is_some(), |c: Oid| last_rep(s, c).unwrap())
}

/// The representative of the rewrite class of `c`; a commit that never took
/// part in a rewrite is its own representative.
pub open spec fn rep_of(reps: Map<Oid, Oid>, c: Oid) -> Oid {
    if reps.dom().contains(c) {
        reps[c]
    } else {
        c
    }
}

/// Every representative is itself recorded in the table.
pub open spec fn reps_closed(reps: Map<Oid, Oid>) -> bool {
    forall|k: Oid| #[trigger] reps.dom().contains(k) ==> reps.dom().contains(reps[k])
}

/// Merges the classes of `old` and `new`; the merged class is represented
/// by `new`, the most recent rewrite target.
pub open spec fn merge_reps(reps: Map<Oid, Oid>, old: Oid, new: Oid) -> Map<Oid, Oid> {
    Map::new(
        |k: Oid| reps.dom().contains(k) || k == old || k == new,
        |k: Oid|
            if k == old || k == new || rep_of(reps, k) == rep_of(reps, old) || rep_of(reps, k)
                == rep_of(reps, new) {
                new
            } else {
                rep_of(reps, k)
            },
    )
}

/// Some live reference points at `c`.
pub open spec fn is_branch_target(branches: Map<Seq<char>, Oid>, c: Oid) -> bool {
    exists|n: Seq<char>| #[trigger] branches.dom().contains(n) && branches[n] == c
}

/// `c` was rewritten: its class is represented by another commit.
pub open spec fn is_rewritten(m: SnapshotModel, c: Oid) -> bool {
    rep_of(m.reps, c) != c
}

/// `c` is visible, rewritten, and no live reference points at it.
pub open spec fn is_abandoned(m: SnapshotModel, c: Oid) -> bool {
    m.visible.contains(c) && is_rewritten(m, c) && !is_branch_target(m.branches, c)
}

/// The snapshot of an empty log.
pub open spec fn empty_model() -> SnapshotModel {
    SnapshotModel { branches: Map::empty(), visible: Set::empty(), reps: Map::empty() }
}

/// The state derived from the event log at some cursor.
pub struct Snapshot {
    branch_log: Vec<BranchEntry>,
    marks: Vec<VisibilityMark>,
    reps: Vec<RepEntry>,
}

impl View for Snapshot {
    type V = SnapshotModel;

    closed spec fn view(&self) -> SnapshotModel {
        SnapshotModel {
            branches: branch_map(self.branch_log@),
            visible: visible_set(self.marks@),
            reps: rep_map(self.reps@),
        }
    }
}

proof fn lemma_last_branch_push(s: Seq<BranchEntry>, e: BranchEntry, n: Seq<char>)
    ensures
        last_branch(s.push(e), n) == if e.name@ == n {
            Some(e.oid)
        } else {
            last_branch(s, n)
        },
{
    assert(s.push(e).drop_last() =~= s);
}

proof fn lemma_last_mark_push(s: Seq<VisibilityMark>, e: VisibilityMark, c: Oid)
    ensures
        last_mark(s.push(e), c) == if e.oid == c {
            Some(e.visible)
        } else {
            last_mark(s, c)
        },
{
    assert(s.push(e).drop_last() =~= s);
}

proof fn lemma_last_rep_push(s: Seq<RepEntry>, e: RepEntry, c: Oid)
    ensures
        last_rep(s.push(e), c) == if e.oid == c {
            Some(e.rep)
        } else {
            last_rep(s, c)
        },
{
    assert(s.push(e).drop_last() =~= s);
}

proof fn lemma_last_rep_prefix(s: Seq<RepEntry>, i: int, c: Oid)
    requires
        0 <= i < s.len(),
        s[i].oid != c,
    ensures
        last_rep(s.subrange(0, i + 1), c) == last_rep(s.subrange(0, i), c),
{
    assert(s.subrange(0, i + 1).drop_last() =~= s.subrange(0, i));
}

proof fn lemma_last_branch_prefix(s: Seq<BranchEntry>, i: int, n: Seq<char>)
    requires
        0 <= i < s.len(),
        s[i].name@ != n,
    ensures
        last_branch(s.subrange(0, i + 1), n) == last_branch(s.subrange(0, i), n),
{
    assert(s.subrange(0, i + 1).drop_last() =~= s.subrange(0, i));
}

proof fn lemma_last_mark_prefix(s: Seq<VisibilityMark>, i: int, c: Oid)
    requires
        0 <= i < s.len(),
        s[i].oid != c,
    ensures
        last_mark(s.subrange(0, i + 1), c) == last_mark(s.subrange(0, i), c),
{
    assert(s.subrange(0, i + 1).drop_last() =~= s.subrange(0, i));
}

/// Relabelling representatives entry by entry relabels what a lookup finds.
proof fn lemma_last_rep_relabel(s: Seq<RepEntry>, t: Seq<RepEntry>, a: Oid, b: Oid, new: Oid, c: Oid)
    requires
        s.len() == t.len(),
        forall|j: int|
            0 <= j < s.len() ==> (#[trigger] t[j]).oid == s[j].oid && t[j].rep == (if s[j].rep == a
                || s[j].rep == b {
                new
            } else {
                s[j].rep
            }),
    ensures
        last_rep(t, c) == match last_rep(s, c) {
            Some(r) => Some(if r == a || r == b { new } else { r }),
            None => None,
        },
    decreases s.len(),
{
    if s.len() > 0 {
        let k = s.len() - 1;
        assert(t[k].oid == s[k].oid);
        lemma_last_rep_relabel(s.drop_last(), t.drop_last(), a, b, new, c);
    }
}

/// The last entry for `n` sits at some index and nothing later names `n`.
proof fn lemma_last_branch_witness(s: Seq<BranchEntry>, n: Seq<char>)
    requires
        last_branch(s, n).is_some(),
    ensures
        exists|i: int|
            0 <= i < s.len() && s[i].name@ == n && s[i].oid == last_branch(s, n).unwrap()
                && forall|j: int| i < j < s.len() ==> (#[trigger] s[j]).name@ != n,
    decreases s.len(),
{
    let k = s.len() - 1;
    if s.last().name@ == n {
        assert(forall|j: int| k < j < s.len() ==> (#[trigger] s[j]).name@ != n);
    } else {
        lemma_last_branch_witness(s.drop_last(), n);
        let i = choose|i: int|
            0 <= i < s.drop_last().len() && s.drop_last()[i].name@ == n && s.drop_last()[i].oid
                == last_branch(s.drop_last(), n).unwrap() && forall|j: int|
                i < j < s.drop_last().len() ==> (#[trigger] s.drop_last()[j]).name@ != n;
        assert(s[i] == s.drop_last()[i]);
        assert forall|j: int| i < j < s.len() implies (#[trigger] s[j]).name@ != n by {
            if j < k {
                assert(s[j] == s.drop_last()[j]);
            }
        }
    }
}

/// An entry that no later entry shadows is what a lookup finds.
proof fn lemma_last_branch_unshadowed(s: Seq<BranchEntry>, i: int)
    requires
        0 <= i < s.len(),
        forall|j: int| i < j < s.len() ==> (#[trigger] s[j]).name@ != s[i].name@,
    ensures
        last_branch(s, s[i].name@) == Some(s[i].oid),
    decreases s.len(),
{
    let k = s.len() - 1;
    if i < k {
        assert(s[k].name@ != s[i].name@);
        assert(s.drop_last()[i] == s[i]);
        assert forall|j: int| i < j < s.drop_last().len() implies (#[trigger] s.drop_last()[
            j]).name@ != s.drop_last()[i].name@ by {
            assert(s.drop_last()[j] == s[j]);
        }
        lemma_last_branch_unshadowed(s.drop_last(), i);
    }
}

proof fn lemma_last_mark_some(s: Seq<VisibilityMark>, c: Oid)
    requires
        last_mark(s, c).is_some(),
    ensures
        exists|k: int| 0 <= k < s.len() && (#[trigger] s[k]).oid == c,
    decreases s.len(),
{
    if s.last().oid != c {
        lemma_last_mark_some(s.drop_last(), c);
        let k = choose|k: int| 0 <= k < s.drop_last().len() && (#[trigger] s.drop_last()[k]).oid == c;
        assert(s[k] == s.drop_last()[k]);
    } else {
        assert(s[s.len() - 1].oid == c);
    }
}

impl Snapshot {
    /// The snapshot of an empty log.
    pub fn new() -> (r: Snapshot)
        ensures
            r@ == empty_model(),
    {
        let r = Snapshot { branch_log: Vec::new(), marks: Vec::new(), reps: Vec::new() };
        assert(r@.branches =~= Map::empty());
        assert(r@.visible =~= Set::empty());
        assert(r@.reps =~= Map::empty());
        r
    }

    /// The snapshot's rewrite table is closed under taking representatives.
    pub open spec fn well_formed(&self) -> bool {
        reps_closed(self@.reps)
    }

    /// Points reference `name` at `oid`; `ZERO_OID` deletes it.
    pub fn set_branch(&mut self, name: String, oid: Oid)
        ensures
            final(self)@.branches == (if oid == ZERO_OID {
                old(self)@.branches.remove(name@)
            } else {
                old(self)@.branches.insert(name@, oid)
            }),
            final(self)@.visible == old(self)@.visible,
            final(self)@.reps == old(self)@.reps,
    {
        let ghost s = self.branch_log@;
        let ghost key = name@;
        self.branch_log.push(BranchEntry { name, oid });
        proof {
            let t = self.branch_log@;
            assert(t =~= s.push(BranchEntry { name: t.last().name, oid }));
            assert forall|n: Seq<char>| true implies last_branch(t, n) == (if key == n {
                Some(oid)
            } else {
                last_branch(s, n)
            }) by {
                lemma_last_branch_push(s, t.last(), n);
            }
            if oid == ZERO_OID {
                assert(self@.branches =~= old(self)@.branches.remove(key));
            } else {
                assert(self@.branches =~= old(self)@.branches.insert(key, oid));
            }
        }
    }

    /// Records `oid` as visible or hidden.
    pub fn set_visible(&mut self, oid: Oid, visible: bool)
        ensures
            final(self)@.visible == (if visible {
                old(self)@.visible.insert(oid)
            } else {
                old(self)@.visible.remove(oid)
            }),
            final(self)@.branches == old(self)@.branches,
            final(self)@.reps == old(self)@.reps,
    {
        let ghost s = self.marks@;
        let e = VisibilityMark { oid, visible };
        self.marks.push(e);
        proof {
            assert forall|c: Oid| true implies last_mark(s.push(e), c) == (if oid == c {
                Some(visible)
            } else {
                last_mark(s, c)
            }) by {
                lemma_last_mark_push(s, e, c);
            }
            if visible {
                assert(self@.visible =~= old(self)@.visible.insert(oid));
            } else {
                assert(self@.visible =~= old(self)@.visible.remove(oid));
            }
        }
    }

    /// Whether `oid` is currently visible.
    pub fn is_visible(&self, oid: Oid) -> (r: bool)
        ensures
            r == self@.visible.contains(oid),
    {
        let mut i: usize = self.marks.len();
        proof {
            assert(self.marks@.subrange(0, i as int) =~= self.marks@);
        }
        while i > 0
            invariant
                i <= self.marks@.len(),
                last_mark(self.marks@.subrange(0, i as int), oid) == last_mark(self.marks@, oid),
            decreases i,
        {
            let m = &self.marks[i - 1];
            if m.oid == oid {
                proof {
                    assert(self.marks@.subrange(0, i as int).drop_last() =~= self.marks@.subrange(
                        0,
                        i - 1,
                    ));
                }
                return m.visible;
            }
            proof {
                lemma_last_mark_prefix(self.marks@, i - 1, oid);
            }
            i = i - 1;
        }
        false
    }

    /// The representative of the rewrite class of `oid`.
    pub fn representative(&self, oid: Oid) -> (r: Oid)
        ensures
            r == rep_of(self@.reps, oid),
    {
        let mut i: usize = self.reps.len();
        proof {
            assert(self.reps@.subrange(0, i as int) =~= self.reps@);
        }
        while i > 0
            invariant
                i <= self.reps@.len(),
                last_rep(self.reps@.subrange(0, i as int), oid) == last_rep(self.reps@, oid),
            decreases i,
        {
            let e = &self.reps[i - 1];
            if e.oid == oid {
                proof {
                    assert(self.reps@.subrange(0, i as int).drop_last() =~= self.reps@.subrange(
                        0,
                        i - 1,
                    ));
                }
                return e.rep;
            }
            proof {
                lemma_last_rep_prefix(self.reps@, i - 1, oid);
            }
            i = i - 1;
        }
        oid
    }

    /// Where reference `name` points, if it is live.
    pub fn branch(&self, name: &String) -> (r: Option<Oid>)
        ensures
            r == (if self@.branches.dom().contains(name@) {
                Some(self@.branches[name@])
            } else {
                None
            }),
    {
        let mut i: usize = self.branch_log.len();
        proof {
            assert(self.branch_log@.subrange(0, i as int) =~= self.branch_log@);
        }
        while i > 0
            invariant
                i <= self.branch_log@.len(),
                last_branch(self.branch_log@.subrange(0, i as int), name@) == last_branch(
                    self.branch_log@,
                    name@,
                ),
            decreases i,
        {
            let e = &self.branch_log[i - 1];
            if e.name == *name {
                proof {
                    assert(self.branch_log@.subrange(0, i as int).drop_last()
                        =~= self.branch_log@.subrange(0, i - 1));
                }
                if e.oid == ZERO_OID {
                    return None;
                }
                return Some(e.oid);
            }
            proof {
                lemma_last_branch_prefix(self.branch_log@, i - 1, name@);
            }
            i = i - 1;
        }
        None
    }

    /// Merges the rewrite classes of `old_oid` and `new_oid`, with
    /// `new_oid` as the representative of the merged class.
    pub fn merge_rewrite(&mut self, old_oid: Oid, new_oid: Oid)
        requires
            old(self).well_formed(),
        ensures
            final(self).well_formed(),
            final(self)@.reps == merge_reps(old(self)@.reps, old_oid, new_oid),
            final(self)@.branches == old(self)@.branches,
            final(self)@.visible == old(self)@.visible,
    {
        let ro = self.representative(old_oid);
        let rn = self.representative(new_oid);
        let ghost s = self.reps@;
        let mut i: usize = 0;
        while i < self.reps.len()
            invariant
                i <= self.reps@.len(),
                self.reps@.len() == s.len(),
                self.branch_log == old(self).branch_log,
                self.marks == old(self).marks,
                forall|j: int|
                    0 <= j < s.len() ==> (#[trigger] self.reps@[j]).oid == s[j].oid
                        && self.reps@[j].rep == (if j < i && (s[j].rep == ro || s[j].rep == rn) {
                        new_oid
                    } else {
                        s[j].rep
                    }),
            decreases s.len() - i,
        {
            if self.reps[i].rep == ro || self.reps[i].rep == rn {
                let oid = self.reps[i].oid;
                self.reps.set(i, RepEntry { oid, rep: new_oid });
            }
            i = i + 1;
        }
        let ghost t = self.reps@;
        let e1 = RepEntry { oid: old_oid, rep: new_oid };
        let e2 = RepEntry { oid: new_oid, rep: new_oid };
        self.reps.push(e1);
        self.reps.push(e2);
        proof {
            let m = old(self)@.reps;
            let u = self.reps@;
            assert(u =~= t.push(e1).push(e2));
            assert forall|c: Oid| true implies last_rep(u, c) == (if c == new_oid {
                Some(new_oid)
            } else if c == old_oid {
                Some(new_oid)
            } else {
                match last_rep(s, c) {
                    Some(r) => Some(if r == ro || r == rn { new_oid } else { r }),
                    None => None,
                }
            }) by {
                lemma_last_rep_push(t.push(e1), e2, c);
                lemma_last_rep_push(t, e1, c);
                lemma_last_rep_relabel(s, t, ro, rn, new_oid, c);
            }
            assert(self@.reps =~= merge_reps(m, old_oid, new_oid));
            assert forall|k: Oid| #[trigger] self@.reps.dom().contains(k) implies self@.reps.dom().contains(
                self@.reps[k],
            ) by {
                if k != old_oid && k != new_oid {
                    assert(m.dom().contains(k));
                    assert(m.dom().contains(m[k]));
                }
            }
        }
    }

    /// Whether some live reference points at `oid`.
    pub fn is_branch_target(&self, oid: Oid) -> (r: bool)
        ensures
            r == is_branch_target(self@.branches, oid),
    {
        if oid == ZERO_OID {
            return false;
        }
        let mut i: usize = 0;
        while i < self.branch_log.len()
            invariant
                i <= self.branch_log@.len(),
                oid != ZERO_OID,
                forall|k: int|
                    0 <= k < i ==> (#[trigger] self.branch_log@[k]).oid != oid || exists|j: int|
                        k < j < self.branch_log@.len() && (#[trigger] self.branch_log@[j]).name@ == self.branch_log@[k].name@,
            decreases self.branch_log@.len() - i,
        {
            if self.branch_log[i].oid == oid {
                let mut j: usize = i + 1;
                let mut shadowed = false;
                while j < self.branch_log.len()
                    invariant
                        i < j <= self.branch_log@.len(),
                        !shadowed ==> forall|l: int|
                            i < l < j ==> (#[trigger] self.branch_log@[l]).name@ != self.branch_log@[i as int].name@,
                        shadowed ==> exists|l: int|
                            i < l < self.branch_log@.len() && (#[trigger] self.branch_log@[l]).name@ == self.branch_log@[i as int].name@,
                    decreases self.branch_log@.len() - j,
                {
                    if self.branch_log[j].name == self.branch_log[i].name {
                        shadowed = true;
                    }
                    j = j + 1;
                }
                if !shadowed {
                    proof {
                        lemma_last_branch_unshadowed(self.branch_log@, i as int);
                        let n = self.branch_log@[i as int].name@;
                        assert(branch_map(self.branch_log@).dom().contains(n));
                        assert(self@.branches.dom().contains(n) && self@.branches[n] == oid);
                    }
                    return true;
                }
            }
            i = i + 1;
        }
        proof {
            if is_branch_target(self@.branches, oid) {
                let n = choose|n: Seq<char>|
                    #[trigger] self@.branches.dom().contains(n) && self@.branches[n] == oid;
                lemma_last_branch_witness(self.branch_log@, n);
                let k = choose|k: int|
                    0 <= k < self.branch_log@.len() && self.branch_log@[k].name@ == n && self.branch_log@[k].oid == last_branch(
                        self.branch_log@,
                        n,
                    ).unwrap() && forall|j: int| k < j < self.branch_log@.len() ==> (#[trigger] self.branch_log@[j]).name@ != n;
                assert(self.branch_log@[k].oid == oid);
            }
        }
        false
    }
    /// Every commit that has ever had a visibility mark; the visible ones
    /// are among them.
    pub fn visibility_candidates(&self) -> (r: Vec<Oid>)
        ensures
            forall|c: Oid| self@.visible.contains(c) ==> r@.contains(c),
    {
        let mut r: Vec<Oid> = Vec::new();
        let mut i: usize = 0;
        while i < self.marks.len()
            invariant
                i <= self.marks@.len(),
                r@.len() == i,
                forall|k: int| 0 <= k < i ==> r@[k] == (#[trigger] self.marks@[k]).oid,
            decreases self.marks@.len() - i,
        {
            r.push(self.marks[i].oid);
            i = i + 1;
        }
        proof {
            assert forall|c: Oid| self@.visible.contains(c) implies r@.contains(c) by {
                lemma_last_mark_some(self.marks@, c);
                let k = choose|k: int| 0 <= k < self.marks@.len() && (#[trigger] self.marks@[k]).oid == c;
                assert(r@[k] == c);
            }
        }
        r
    }
    /// The commits reported as abandoned: visible, rewritten into another
    /// commit, and not pointed at by any live reference.
    pub fn abandoned_commits(&self) -> (r: Vec<Oid>)
        ensures
            r@.no_duplicates(),
            forall|c: Oid| r@.contains(c) <==> is_abandoned(self@, c),
    {
        let candidates = self.visibility_candidates();
        let mut r: Vec<Oid> = Vec::new();
        let mut i: usize = 0;
        while i < candidates.len()
            invariant
                i <= candidates@.len(),
                r@.no_duplicates(),
                forall|c: Oid| self@.visible.contains(c) ==> candidates@.contains(c),
                forall|c: Oid| r@.contains(c) ==> is_abandoned(self@, c),
                forall|k: int|
                    0 <= k < i && is_abandoned(self@, #[trigger] candidates@[k]) ==> r@.contains(
                        candidates@[k],
                    ),
            decreases candidates@.len() - i,
        {
            let c = candidates[i];
            let abandoned = self.is_visible(c) && self.representative(c) != c
                && !self.is_branch_target(c);
            assert(abandoned == is_abandoned(self@, c));
            if abandoned && !contains(&r, c) {
                let ghost before = r@;
                r.push(c);
                proof {
                    assert forall|x: Oid| before.contains(x) implies r@.contains(x) by {
                        let k = choose|k: int| 0 <= k < before.len() && before[k] == x;
                        assert(r@[k] == x);
                    }
                    assert(r@[r@.len() - 1] == c);
                    assert forall|x: Oid| r@.contains(x) implies is_abandoned(self@, x) by {
                        let k = choose|k: int| 0 <= k < r@.len() && r@[k] == x;
                        if k < before.len() {
                            assert(before[k] == x);
                        }
                    }
                }
            }
            i = i + 1;
        }
        proof {
            assert forall|c: Oid| is_abandoned(self@, c) implies r@.contains(c) by {
                assert(self@.visible.contains(c));
                assert(candidates@.contains(c));
                let k = choose|k: int| 0 <= k < candidates@.len() && candidates@[k] == c;
                assert(is_abandoned(self@, candidates@[k]));
            }
        }
        r
    }
}

} // verus!
