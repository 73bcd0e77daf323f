use git_branchless_core::classifier::{
    classify, classify_transaction, is_ignored_branch, lookup_packed, short_ref_name,
    Disposition, PackedRef, RefUpdate, TxState,
};
use git_branchless_core::event::Event;
use git_branchless_core::glob::glob_match;
use git_branchless_core::replay::replay;

fn update(name: &str, old_oid: u64, new_oid: u64) -> RefUpdate {
    RefUpdate { ref_name: name.to_string(), old_oid, new_oid }
}

fn packed(name: &str, oid: u64) -> PackedRef {
    PackedRef { ref_name: name.to_string(), oid }
}

fn patterns(ps: &[&str]) -> Vec<String> {
    ps.iter().map(|p| p.to_string()).collect()
}

fn moved_names(events: &[Event]) -> Vec<String> {
    events
        .iter()
        .map(|e| match e {
            Event::RefMove { ref_name, .. } => ref_name.clone(),
            _ => panic!("only reference moves are classified"),
        })
        .collect()
}

#[test]
fn test_ignore_branches_exact() {
    let ps = patterns(&["test"]);
    let none = patterns(&[]);
    let u = update("refs/heads/test", 0, 2);
    assert_eq!(classify(TxState::Committed, &u, None, false, &none), Disposition::Emit);
    assert_eq!(classify(TxState::Committed, &u, None, false, &ps), Disposition::IgnoredBranch);
    let master = update("refs/heads/master", 1, 3);
    assert_eq!(classify(TxState::Committed, &master, None, false, &ps), Disposition::Emit);
}

#[test]
fn test_ignore_branches_glob_pattern() {
    let ps = patterns(&["release/*"]);
    let updates = vec![
        update("refs/heads/release/v1", 0, 2),
        update("refs/heads/release/v2", 0, 3),
        update("refs/heads/feature-x", 0, 4),
    ];
    let out = classify_transaction(TxState::Committed, &updates, &vec![], false, &ps, 7);
    assert_eq!(moved_names(&out.events), vec!["refs/heads/feature-x".to_string()]);
    assert!(out.buffered.is_empty());
}

#[test]
fn test_ignore_branches_multiple_patterns() {
    let ps = patterns(&["test", "staging"]);
    let updates = vec![
        update("refs/heads/test", 0, 2),
        update("refs/heads/staging", 0, 3),
        update("refs/heads/feature-y", 0, 4),
    ];
    let out = classify_transaction(TxState::Committed, &updates, &vec![], false, &ps, 1);
    assert_eq!(moved_names(&out.events), vec!["refs/heads/feature-y".to_string()]);
}

#[test]
fn glob_star_stays_within_one_segment() {
    assert!(glob_match("release/*", "release/v1"));
    assert!(!glob_match("release/*", "release/v1/hotfix"));
    assert!(glob_match("*", "feature"));
    assert!(!glob_match("*", "a/b"));
    assert!(glob_match("*/*", "a/b"));
    assert!(glob_match("", ""));
    assert!(!glob_match("", "a"));
    assert!(glob_match("*", ""));
}

#[test]
fn glob_question_mark_matches_one_character() {
    assert!(glob_match("v?", "v1"));
    assert!(!glob_match("v?", "v"));
    assert!(!glob_match("v?", "v12"));
    assert!(glob_match("v??", "v12"));
    assert!(!glob_match("main", "master"));
    assert!(glob_match("ma*r", "master"));
}

#[test]
fn short_name_strips_branch_prefix_only() {
    assert_eq!(short_ref_name("refs/heads/feature"), "feature");
    assert_eq!(short_ref_name("refs/heads/release/v1"), "release/v1");
    assert_eq!(short_ref_name("refs/tags/v1"), "refs/tags/v1");
    assert_eq!(short_ref_name("HEAD"), "HEAD");
    assert_eq!(short_ref_name("refs/heads/"), "");
}

#[test]
fn ignore_patterns_apply_to_short_names() {
    let ps = patterns(&["feature"]);
    assert!(is_ignored_branch(&ps, "refs/heads/feature"));
    assert!(!is_ignored_branch(&ps, "refs/heads/feature2"));
    assert!(!is_ignored_branch(&patterns(&[]), "refs/heads/feature"));
}

#[test]
fn packed_creation_then_deletion_yields_no_event() {
    let pk = vec![packed("refs/heads/master", 5)];
    let updates = vec![update("refs/heads/master", 0, 5), update("refs/heads/master", 5, 0)];
    let out = classify_transaction(TxState::Committed, &updates, &pk, false, &vec![], 3);
    assert!(out.events.is_empty());
    assert!(out.buffered.is_empty());
}

#[test]
fn deletion_of_unpacked_ref_is_recorded() {
    let pk = vec![packed("refs/heads/master", 5)];
    let d = update("refs/heads/feature", 6, 0);
    assert_eq!(classify(TxState::Committed, &d, lookup_packed(&pk, &d.ref_name), false, &vec![]), Disposition::Emit);
    let moved = update("refs/heads/master", 5, 9);
    assert_eq!(classify(TxState::Committed, &moved, Some(5), false, &vec![]), Disposition::Emit);
    let stale = update("refs/heads/master", 0, 7);
    assert_eq!(classify(TxState::Committed, &stale, Some(5), false, &vec![]), Disposition::Emit);
}

#[test]
fn packed_lookup_first_entry_wins() {
    let pk = vec![packed("refs/heads/a", 1), packed("refs/heads/b", 2), packed("refs/heads/a", 3)];
    assert_eq!(lookup_packed(&pk, &"refs/heads/a".to_string()), Some(1));
    assert_eq!(lookup_packed(&pk, &"refs/heads/b".to_string()), Some(2));
    assert_eq!(lookup_packed(&pk, &"refs/heads/c".to_string()), None);
}

#[test]
fn test_hook_reference_transaction_pack_refs_in_worktree() {
    let before_log = vec![
        Event::RefMove { tx: 1, ref_name: "refs/heads/master".to_string(), old_oid: 0, new_oid: 10 },
        Event::RefMove { tx: 2, ref_name: "refs/heads/feature".to_string(), old_oid: 0, new_oid: 11 },
    ];
    let pk = vec![packed("refs/heads/master", 10), packed("refs/heads/feature", 11)];
    let updates = vec![
        update("refs/heads/master", 0, 10),
        update("refs/heads/feature", 0, 11),
        update("refs/heads/master", 10, 0),
        update("refs/heads/feature", 11, 0),
    ];
    let out = classify_transaction(TxState::Committed, &updates, &pk, false, &vec![], 3);
    assert!(out.events.is_empty());
    let snap = replay(&before_log, None);
    assert_eq!(snap.branch(&"refs/heads/master".to_string()), Some(10));
    assert_eq!(snap.branch(&"refs/heads/feature".to_string()), Some(11));
}

#[test]
fn test_hook_reference_transaction_pack_refs_in_bare_worktree() {
    // Read from the wrong directory, the packed-refs file looks empty and the
    // synthetic deletions would be recorded.
    let updates = vec![update("refs/heads/main", 20, 0), update("refs/heads/feature", 21, 0)];
    let wrong = classify_transaction(TxState::Committed, &updates, &vec![], false, &vec![], 4);
    assert_eq!(wrong.events.len(), 2);
    let common = vec![packed("refs/heads/main", 20), packed("refs/heads/feature", 21)];
    let right = classify_transaction(TxState::Committed, &updates, &common, false, &vec![], 4);
    assert!(right.events.is_empty());
}

#[test]
fn test_is_rebase_underway() {
    let u = update("refs/heads/feature", 3, 4);
    assert_eq!(classify(TxState::Committed, &u, None, true, &vec![]), Disposition::Buffer);
    assert_eq!(classify(TxState::Committed, &u, None, false, &vec![]), Disposition::Emit);
    let out = classify_transaction(TxState::Committed, &vec![update("refs/heads/feature", 3, 4)], &vec![], true, &vec![], 9);
    assert!(out.events.is_empty());
    assert_eq!(out.buffered.len(), 1);
    assert_eq!(out.buffered[0].tx(), 9);
}

#[test]
fn uncommitted_and_unchanged_updates_are_dropped() {
    let u = update("refs/heads/feature", 3, 4);
    assert_eq!(classify(TxState::Prepared, &u, None, false, &vec![]), Disposition::NotCommitted);
    assert_eq!(classify(TxState::Aborted, &u, None, false, &vec![]), Disposition::NotCommitted);
    let same = update("refs/heads/feature", 4, 4);
    assert_eq!(classify(TxState::Committed, &same, None, false, &vec![]), Disposition::Unchanged);
}

#[test]
fn emitted_moves_keep_update_order_and_fields() {
    let updates = vec![update("refs/heads/a", 1, 2), update("refs/heads/b", 0, 3)];
    let out = classify_transaction(TxState::Committed, &updates, &vec![], false, &vec![], 42);
    assert_eq!(out.events.len(), 2);
    match &out.events[1] {
        Event::RefMove { tx, ref_name, old_oid, new_oid } => {
            assert_eq!(*tx, 42);
            assert_eq!(ref_name, "refs/heads/b");
            assert_eq!((*old_oid, *new_oid), (0, 3));
        }
        _ => panic!("expected a reference move"),
    }
}
