use git_branchless_core::classifier::{classify_transaction, RefUpdate, TxState};
use git_branchless_core::event::Event;
use git_branchless_core::replay::{apply, make_default_cursor, replay};
use git_branchless_core::snapshot::Snapshot;

fn mv(tx: u64, name: &str, old_oid: u64, new_oid: u64) -> Event {
    Event::RefMove { tx, ref_name: name.to_string(), old_oid, new_oid }
}

fn name(s: &str) -> String {
    s.to_string()
}

fn sorted(mut v: Vec<u64>) -> Vec<u64> {
    v.sort();
    v
}

#[test]
fn replay_is_deterministic() {
    let log = vec![
        Event::CommitVisible { tx: 1, oid: 1 },
        mv(1, "refs/heads/master", 0, 1),
        Event::CommitVisible { tx: 2, oid: 2 },
        Event::Rewrite { tx: 3, old_oid: 2, new_oid: 3 },
        Event::CommitVisible { tx: 3, oid: 3 },
    ];
    let a = replay(&log, None);
    let b = replay(&log, None);
    for c in 0..5u64 {
        assert_eq!(a.is_visible(c), b.is_visible(c));
        assert_eq!(a.representative(c), b.representative(c));
    }
    assert_eq!(a.abandoned_commits(), b.abandoned_commits());
    assert_eq!(a.branch(&name("refs/heads/master")), b.branch(&name("refs/heads/master")));
}

#[test]
fn ref_moves_set_and_delete_branches() {
    let log = vec![
        mv(1, "refs/heads/feature", 0, 5),
        mv(2, "refs/heads/feature", 5, 6),
        mv(3, "refs/heads/other", 0, 7),
        mv(4, "refs/heads/other", 7, 0),
    ];
    let s = replay(&log, None);
    assert_eq!(s.branch(&name("refs/heads/feature")), Some(6));
    assert_eq!(s.branch(&name("refs/heads/other")), None);
    assert_eq!(s.branch(&name("refs/heads/missing")), None);
    assert!(s.is_visible(5));
    assert!(s.is_visible(6));
    assert!(s.is_branch_target(6));
    assert!(!s.is_branch_target(7));
    assert!(!s.is_branch_target(0));
}

#[test]
fn hide_and_unhide_toggle_visibility() {
    let mut s = Snapshot::new();
    apply(&mut s, &Event::CommitVisible { tx: 1, oid: 4 });
    assert!(s.is_visible(4));
    apply(&mut s, &Event::CommitHide { tx: 2, oid: 4 });
    assert!(!s.is_visible(4));
    apply(&mut s, &Event::CommitUnhide { tx: 3, oid: 4 });
    assert!(s.is_visible(4));
    apply(&mut s, &Event::WorkingCopySnapshot { tx: 4, head_oid: 4 });
    assert!(s.is_visible(4));
    assert!(!s.is_visible(5));
}

#[test]
fn cursor_bounds_the_replay() {
    let log = vec![
        Event::CommitVisible { tx: 1, oid: 1 },
        Event::CommitVisible { tx: 2, oid: 2 },
        Event::CommitHide { tx: 3, oid: 1 },
    ];
    let at2 = replay(&log, Some(2));
    assert!(at2.is_visible(1));
    assert!(at2.is_visible(2));
    let at1 = replay(&log, Some(1));
    assert!(at1.is_visible(1));
    assert!(!at1.is_visible(2));
    let end = replay(&log, make_default_cursor());
    assert!(!end.is_visible(1));
    assert!(replay(&log, Some(0)).abandoned_commits().is_empty());
}

#[test]
fn rewrite_classes_take_latest_target() {
    let log = vec![
        Event::Rewrite { tx: 1, old_oid: 1, new_oid: 2 },
        Event::Rewrite { tx: 2, old_oid: 2, new_oid: 3 },
        Event::Rewrite { tx: 3, old_oid: 8, new_oid: 9 },
    ];
    let s = replay(&log, None);
    assert_eq!(s.representative(1), 3);
    assert_eq!(s.representative(2), 3);
    assert_eq!(s.representative(3), 3);
    assert_eq!(s.representative(8), 9);
    assert_eq!(s.representative(4), 4);
}

#[test]
fn merging_classes_relabels_every_member() {
    let log = vec![
        Event::Rewrite { tx: 1, old_oid: 1, new_oid: 2 },
        Event::Rewrite { tx: 2, old_oid: 5, new_oid: 6 },
        Event::Rewrite { tx: 3, old_oid: 2, new_oid: 6 },
    ];
    let s = replay(&log, None);
    for c in [1u64, 2, 5, 6] {
        assert_eq!(s.representative(c), 6);
    }
}

#[test]
fn rebase_continue_surfaces_abandoned_commit() {
    // A commit amended into another: the original stays visible and is
    // reported abandoned once no branch points at it.
    let log = vec![
        Event::CommitVisible { tx: 1, oid: 10 },
        Event::CommitVisible { tx: 2, oid: 11 },
        Event::Rewrite { tx: 2, old_oid: 10, new_oid: 11 },
    ];
    let s = replay(&log, None);
    assert_eq!(s.abandoned_commits(), vec![10]);
    assert_eq!(s.representative(10), 11);
    let mut pinned = replay(&log, None);
    apply(&mut pinned, &mv(3, "refs/heads/keep", 0, 10));
    assert!(pinned.abandoned_commits().is_empty());
    apply(&mut pinned, &mv(4, "refs/heads/keep", 10, 0));
    assert_eq!(pinned.abandoned_commits(), vec![10]);
}

#[test]
fn abandoned_requires_visibility_and_rewrite() {
    let log = vec![
        Event::CommitVisible { tx: 1, oid: 1 },
        Event::CommitVisible { tx: 1, oid: 2 },
        Event::CommitVisible { tx: 1, oid: 3 },
        Event::Rewrite { tx: 2, old_oid: 1, new_oid: 4 },
        Event::Rewrite { tx: 2, old_oid: 2, new_oid: 5 },
        Event::CommitHide { tx: 3, oid: 2 },
        Event::CommitVisible { tx: 4, oid: 1 },
    ];
    let s = replay(&log, None);
    assert_eq!(sorted(s.abandoned_commits()), vec![1]);
}

#[test]
fn test_rebase_no_process_new_commits_until_conclusion() {
    let before = vec![
        Event::CommitVisible { tx: 1, oid: 1 },
        mv(1, "refs/heads/master", 0, 1),
        Event::CommitVisible { tx: 2, oid: 2 },
        Event::CommitVisible { tx: 3, oid: 3 },
    ];
    // During the rebase, the moves are held back.
    let during = vec![
        RefUpdate { ref_name: "HEAD".to_string(), old_oid: 3, new_oid: 4 },
        RefUpdate { ref_name: "refs/heads/master".to_string(), old_oid: 1, new_oid: 4 },
    ];
    let out = classify_transaction(TxState::Committed, &during, &vec![], true, &vec![], 4);
    assert!(out.events.is_empty());
    assert_eq!(out.buffered.len(), 2);
    // After an abort the buffer is dropped: the snapshot is the one from before.
    let s = replay(&before, None);
    assert!(!s.is_visible(4));
    assert_eq!(s.branch(&name("refs/heads/master")), Some(1));
    // After the rebase concludes, the buffered moves are flushed into the log.
    let mut after = before;
    after.extend(out.buffered);
    let s = replay(&after, None);
    assert!(s.is_visible(4));
    assert_eq!(s.branch(&name("refs/heads/master")), Some(4));
}

#[test]
fn test_hooks_in_worktree() {
    // Events recorded from a linked worktree land in the same log.
    let log = vec![
        Event::CommitVisible { tx: 1, oid: 30 },
        Event::WorkingCopySnapshot { tx: 1, head_oid: 30 },
        Event::CommitVisible { tx: 2, oid: 31 },
        Event::Rewrite { tx: 2, old_oid: 30, new_oid: 31 },
    ];
    let s = replay(&log, None);
    assert!(s.is_visible(31));
    assert_eq!(s.abandoned_commits(), vec![30]);
}
