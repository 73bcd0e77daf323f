use git_branchless_core::event::Event;
use git_branchless_core::hooks::{conclude_operation, post_commit_events, post_rewrite_events, retag};
use git_branchless_core::replay::replay;

fn mv(tx: u64, name: &str, old_oid: u64, new_oid: u64) -> Event {
    Event::RefMove { tx, ref_name: name.to_string(), old_oid, new_oid }
}

#[test]
fn post_commit_records_visible_commit_and_head() {
    let events = post_commit_events(7, 21);
    assert_eq!(events.len(), 2);
    assert!(matches!(events[0], Event::CommitVisible { tx: 7, oid: 21 }));
    assert!(matches!(events[1], Event::WorkingCopySnapshot { tx: 7, head_oid: 21 }));
    let s = replay(&events, None);
    assert!(s.is_visible(21));
}

#[test]
fn post_rewrite_records_each_pair_in_order() {
    let events = post_rewrite_events(3, &vec![(1, 2), (5, 6)]);
    assert_eq!(events.len(), 2);
    assert!(matches!(events[0], Event::Rewrite { tx: 3, old_oid: 1, new_oid: 2 }));
    assert!(matches!(events[1], Event::Rewrite { tx: 3, old_oid: 5, new_oid: 6 }));
    assert!(post_rewrite_events(3, &vec![]).is_empty());
}

#[test]
fn aborted_operation_discards_buffer() {
    let buffered = vec![mv(4, "refs/heads/master", 1, 9)];
    assert!(conclude_operation(&buffered, true, 10).is_empty());
}

#[test]
fn concluded_operation_flushes_buffer_into_one_transaction() {
    let buffered = vec![mv(4, "refs/heads/master", 1, 9), mv(5, "HEAD", 1, 9)];
    let flushed = conclude_operation(&buffered, false, 10);
    assert_eq!(flushed.len(), 2);
    assert!(flushed.iter().all(|e| e.tx() == 10));
    match &flushed[0] {
        Event::RefMove { ref_name, old_oid, new_oid, .. } => {
            assert_eq!(ref_name, "refs/heads/master");
            assert_eq!((*old_oid, *new_oid), (1, 9));
        }
        _ => panic!("expected a reference move"),
    }
}

#[test]
fn retag_changes_only_the_transaction() {
    assert!(matches!(retag(&Event::CommitHide { tx: 1, oid: 4 }, 8), Event::CommitHide { tx: 8, oid: 4 }));
    assert!(matches!(retag(&Event::Rewrite { tx: 1, old_oid: 4, new_oid: 5 }, 8), Event::Rewrite { tx: 8, old_oid: 4, new_oid: 5 }));
}
