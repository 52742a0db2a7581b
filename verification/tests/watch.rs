use devfiler::collector::{LoggedRequest, Stats, RING_CAPACITY};
use devfiler::storage::notify::UpdateWatcher;

#[test]
fn first_call_always_reports_a_change() {
    let mut watcher = UpdateWatcher::default();
    // no write has happened: every sequence number is zero
    assert!(watcher.any_changes([0, 0, 0, 0, 0]));
    assert!(!watcher.any_changes([0, 0, 0, 0, 0]));
    let mut watcher = UpdateWatcher::default();
    assert!(watcher.any_changes([5, 4, 3, 2, 1]));
    assert!(!watcher.any_changes([5, 4, 3, 2, 1]));
}

#[test]
fn change_of_any_table_is_reported_once() {
    let mut watcher = UpdateWatcher::default();
    watcher.any_changes([1, 1, 1, 1, 1]);
    for table in 0..5 {
        let mut seqs = [1, 1, 1, 1, 1];
        seqs[table] = 2;
        assert!(watcher.any_changes(seqs), "{}", table);
        assert!(!watcher.any_changes(seqs));
        assert!(watcher.any_changes([1, 1, 1, 1, 1]));
    }
    assert!(watcher.any_changes([2, 2, 2, 2, 2]));
    assert!(!watcher.any_changes([2, 2, 2, 2, 2]));
}

fn request(n: u64) -> LoggedRequest<u64> {
    LoggedRequest {
        meta: vec![("user-agent".to_string(), "agent".to_string())],
        kind: "ExportProfilesServiceRequest".to_string(),
        timestamp: 1_720_000_000 + n,
        payload: n,
    }
}

#[test]
fn log_keeps_the_last_hundred_requests() {
    assert_eq!(RING_CAPACITY, 100);
    let mut stats: Stats<u64> = Stats::new();
    assert_eq!((stats.len(), stats.msgs_processed()), (0, 0));
    assert!(stats.get(0).is_none());
    for n in 0..100 {
        stats.log_request(Some(request(n)));
        assert_eq!(stats.len(), n as usize + 1);
    }
    assert_eq!(stats.get(0).unwrap().payload, 0);
    assert_eq!(stats.get(99).unwrap().payload, 99);
    // the log is full: the oldest request goes
    stats.log_request(Some(request(100)));
    assert_eq!(stats.len(), 100);
    assert_eq!(stats.get(0).unwrap().payload, 1);
    assert_eq!(stats.get(99).unwrap(), &request(100));
    assert!(stats.get(100).is_none());
    for n in 101..350 {
        stats.log_request(Some(request(n)));
    }
    assert_eq!(stats.len(), 100);
    assert_eq!(stats.get(0).unwrap().payload, 250);
    assert_eq!(stats.get(99).unwrap().payload, 349);
    assert_eq!(stats.msgs_processed(), 350);
}

#[test]
fn message_that_cannot_be_logged_is_still_counted() {
    let mut stats: Stats<u64> = Stats::new();
    stats.log_request(None);
    stats.log_request(Some(request(1)));
    stats.log_request(None);
    assert_eq!(stats.msgs_processed(), 3);
    assert_eq!(stats.len(), 1);
}
