//! Conflict records, their wire form, and the store's refresh coalescing.

use lnxdrive_client::conflicts::{
    on_resolve_one_result, ConflictInfo, ConflictStore, ResolveOutcome, ResolveStrategy,
};
use lnxdrive_client::error::DbusError;

const LIST: &[u8] = br#"[
  {
    "id": "c-1",
    "item_id": "it-9",
    "item_path": "/Docs/report.txt",
    "detected_at": "2024-05-01T10:00:00Z",
    "local_version": {"hash": "aa11", "size_bytes": 2048, "modified_at": "2024-05-01T09:59:00Z"},
    "remote_version": {"hash": "bb22", "size_bytes": 4096, "modified_at": "2024-05-01T09:58:00Z"}
  },
  {
    "id": "c-2",
    "item_id": "it-10",
    "detected_at": "2024-05-02T11:00:00Z"
  }
]"#;

#[test]
fn parse_conflict_list() {
    let records = ConflictInfo::from_json_array(LIST);
    assert_eq!(records.len(), 2);
    let a = &records[0];
    assert_eq!(a.id, b"c-1".to_vec());
    assert_eq!(a.item_id, b"it-9".to_vec());
    assert_eq!(a.item_path, b"/Docs/report.txt".to_vec());
    assert_eq!(a.detected_at, b"2024-05-01T10:00:00Z".to_vec());
    assert_eq!(a.local_hash, b"aa11".to_vec());
    assert_eq!(a.local_size, 2048);
    assert_eq!(a.local_modified, b"2024-05-01T09:59:00Z".to_vec());
    assert_eq!(a.remote_hash, b"bb22".to_vec());
    assert_eq!(a.remote_size, 4096);
    assert_eq!(a.remote_modified, b"2024-05-01T09:58:00Z".to_vec());
    // missing optional parts take their defaults
    let b = &records[1];
    assert_eq!(b.item_path, b"unknown".to_vec());
    assert_eq!(b.local_hash, b"".to_vec());
    assert_eq!(b.local_size, 0);
}

#[test]
fn records_without_required_fields_are_dropped() {
    let records = ConflictInfo::from_json_array(
        br#"[{"id": "x"}, {"id": "ok", "item_id": "i", "detected_at": "now"}]"#,
    );
    assert_eq!(records.len(), 1);
    assert_eq!(records[0].id, b"ok".to_vec());
}

#[test]
fn malformed_or_non_array_text_reads_as_empty() {
    assert!(ConflictInfo::from_json_array(b"{\"id\": 1}").is_empty());
    assert!(ConflictInfo::from_json_array(b"not json").is_empty());
    assert!(ConflictInfo::from_json_array(b"").is_empty());
    assert!(ConflictInfo::from_json_array(b"[1, 2").is_empty());
}

#[test]
fn filename_and_extension() {
    let records = ConflictInfo::from_json_array(LIST);
    assert_eq!(records[0].filename(), b"report.txt".to_vec());
    assert_eq!(records[0].extension(), b"txt".to_vec());
    let records2 = ConflictInfo::from_json_array(
        br#"[{"id": "a", "item_id": "b", "detected_at": "t", "item_path": "README"}]"#,
    );
    assert_eq!(records2[0].filename(), b"README".to_vec());
    assert_eq!(records2[0].extension(), b"README".to_vec());
}

#[test]
fn two_signals_during_one_refresh_cause_one_follow_up() {
    let mut store = ConflictStore::new();
    // a refresh starts
    assert!(store.request_refresh());
    // two change signals arrive while it is in flight: nothing new starts
    assert!(!store.request_refresh());
    assert!(!store.request_refresh());
    // completion starts exactly one follow-up
    assert!(store.on_refresh_result(Some(Vec::new())));
    // whose completion starts nothing more
    assert!(!store.on_refresh_result(Some(Vec::new())));
    assert!(store.request_refresh());
}

#[test]
fn refresh_replaces_the_set_and_failure_empties_it() {
    let mut store = ConflictStore::new();
    assert!(store.request_refresh());
    let fetched = ConflictInfo::from_json_array(LIST);
    store.on_refresh_result(Some(fetched));
    assert_eq!(store.len(), 2);
    // a failed refresh never retains stale data
    assert!(store.request_refresh());
    store.on_refresh_result(None);
    assert_eq!(store.len(), 0);
}

#[test]
fn resolve_all_requests_refresh_even_for_zero() {
    let store = ConflictStore::new();
    assert!(store.should_refresh_after_resolve_all(&Ok(0)));
    assert!(store.should_refresh_after_resolve_all(&Ok(17)));
    assert!(!store.should_refresh_after_resolve_all(&Err(DbusError::Daemon(b"busy".to_vec()))));
}

#[test]
fn resolve_one_outcomes() {
    assert_eq!(on_resolve_one_result(&Ok(true)), ResolveOutcome::Accepted);
    assert_eq!(on_resolve_one_result(&Ok(false)), ResolveOutcome::DaemonRefused);
    assert_eq!(
        on_resolve_one_result(&Err(DbusError::Transport(b"gone".to_vec()))),
        ResolveOutcome::CallFailed
    );
}

#[test]
fn strategy_wire_bytes() {
    assert_eq!(ResolveStrategy::KeepLocal.wire_bytes(), b"keep_local".to_vec());
    assert_eq!(ResolveStrategy::KeepRemote.wire_bytes(), b"keep_remote".to_vec());
    assert_eq!(ResolveStrategy::KeepBoth.wire_bytes(), b"keep_both".to_vec());
}

#[test]
fn error_messages_are_kept() {
    let e = DbusError::Transport(b"connection closed".to_vec());
    assert!(e.is_transport());
    assert_eq!(e.message(), &b"connection closed".to_vec());
    let d = DbusError::Daemon(b"invalid config".to_vec());
    assert!(!d.is_transport());
    assert_eq!(d.message(), &b"invalid config".to_vec());
}
