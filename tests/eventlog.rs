use git_branchless_core::event::Event;
use git_branchless_core::eventlog::{EventLog, LogError};
use git_branchless_core::replay::replay;

fn mv(tx: u64, name: &str, old_oid: u64, new_oid: u64) -> Event {
    Event::RefMove { tx, ref_name: name.to_string(), old_oid, new_oid }
}

#[test]
fn transaction_ids_are_sequential_and_named() {
    let mut log = EventLog::new();
    assert_eq!(log.make_transaction_id(100, "commit".to_string()), 1);
    assert_eq!(log.make_transaction_id(90, "advance".to_string()), 2);
    assert_eq!(log.message_for(1), Some("commit".to_string()));
    assert_eq!(log.message_for(2), Some("advance".to_string()));
    assert_eq!(log.message_for(0), None);
    assert_eq!(log.message_for(3), None);
}

#[test]
fn add_events_drops_noop_moves() {
    let mut log = EventLog::new();
    let tx = log.make_transaction_id(1, "hook".to_string());
    let batch = vec![
        mv(tx, "refs/heads/a", 0, 5),
        mv(tx, "refs/heads/b", 6, 6),
        Event::CommitVisible { tx, oid: 5 },
    ];
    assert_eq!(log.add_events(batch), Ok(()));
    let all = log.scan(None);
    assert_eq!(all.len(), 2);
    assert!(matches!(all[1], Event::CommitVisible { tx: 1, oid: 5 }));
}

#[test]
fn add_events_refuses_unknown_transaction() {
    let mut log = EventLog::new();
    let tx = log.make_transaction_id(1, "hook".to_string());
    let batch = vec![Event::CommitVisible { tx, oid: 5 }, Event::CommitVisible { tx: 9, oid: 6 }];
    assert_eq!(log.add_events(batch), Err(LogError::UnknownTransaction));
    assert!(log.scan(None).is_empty());
    assert_eq!(log.add_events(vec![Event::CommitVisible { tx: 0, oid: 5 }]), Err(LogError::UnknownTransaction));
}

#[test]
fn add_events_refuses_going_back_in_transactions() {
    let mut log = EventLog::new();
    let t1 = log.make_transaction_id(1, "first".to_string());
    let t2 = log.make_transaction_id(2, "second".to_string());
    assert_eq!(log.add_events(vec![Event::CommitVisible { tx: t2, oid: 5 }]), Ok(()));
    assert_eq!(log.add_events(vec![Event::CommitVisible { tx: t1, oid: 6 }]), Err(LogError::OutOfOrder));
    assert_eq!(
        log.add_events(vec![Event::CommitVisible { tx: t2, oid: 7 }, Event::CommitVisible { tx: t1, oid: 8 }]),
        Err(LogError::OutOfOrder)
    );
    assert_eq!(log.scan(None).len(), 1);
}

#[test]
fn scan_starts_at_transaction() {
    let mut log = EventLog::new();
    let t1 = log.make_transaction_id(1, "one".to_string());
    let t2 = log.make_transaction_id(2, "two".to_string());
    log.add_events(vec![Event::CommitVisible { tx: t1, oid: 1 }]).unwrap();
    log.add_events(vec![Event::CommitVisible { tx: t2, oid: 2 }, mv(t2, "refs/heads/x", 0, 2)]).unwrap();
    assert_eq!(log.scan(Some(2)).len(), 2);
    assert_eq!(log.scan(Some(3)).len(), 0);
    assert_eq!(log.scan(Some(1)).len(), 3);
    let snapshot = replay(&log.scan(None), None);
    assert!(snapshot.is_visible(1));
    assert_eq!(snapshot.branch(&"refs/heads/x".to_string()), Some(2));
}
