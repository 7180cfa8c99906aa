//! The line-based configuration codec.

use lnxdrive_client::settings::{
    apply_config, render_config, ConflictResolution, Settings, SyncMode,
};

#[test]
fn parse_full_config() {
    let mut s = Settings::defaults();
    let text = b"sync_mode: \"automatic\"\nconflict_resolution: \"keep_remote\"\nsync_interval_minutes: 15\nupload_limit_kbps: 500\ndownload_limit_kbps: 1000\n";
    apply_config(&mut s, text);
    assert_eq!(s.sync_mode, SyncMode::Automatic);
    assert_eq!(s.conflict_resolution, ConflictResolution::KeepRemote);
    assert_eq!(s.sync_interval_minutes, 15);
    assert_eq!(s.upload_limit_kbps, 500);
    assert_eq!(s.download_limit_kbps, 1000);
}

#[test]
fn parse_alternate_keys_and_values() {
    let mut s = Settings::defaults();
    apply_config(&mut s, b"auto_sync: true\nconflict_resolution: local\nsync_interval: 30\nupload_limit: 250\ndownload_limit: 125\n");
    assert_eq!(s.sync_mode, SyncMode::Automatic);
    assert_eq!(s.conflict_resolution, ConflictResolution::KeepLocal);
    assert_eq!(s.sync_interval_minutes, 30);
    assert_eq!(s.upload_limit_kbps, 250);
    assert_eq!(s.download_limit_kbps, 125);
}

#[test]
fn parse_ignores_unknown_keys_and_keeps_missing() {
    let mut s = Settings::defaults();
    apply_config(&mut s, b"colour: blue\nsync_interval_minutes: 7\nnot a line\n");
    assert_eq!(s.sync_interval_minutes, 7);
    // untouched fields keep their prior values
    assert_eq!(s.sync_mode, SyncMode::Manual);
    assert_eq!(s.conflict_resolution, ConflictResolution::AlwaysAsk);
    assert_eq!(s.upload_limit_kbps, 0);
}

#[test]
fn parse_clamps_ranges() {
    let mut s = Settings::defaults();
    apply_config(&mut s, b"sync_interval_minutes: 0\nupload_limit_kbps: 999999\n");
    assert_eq!(s.sync_interval_minutes, 1);
    assert_eq!(s.upload_limit_kbps, 100000);
    apply_config(&mut s, b"sync_interval_minutes: 120\n");
    assert_eq!(s.sync_interval_minutes, 60);
}

#[test]
fn parse_rejects_non_numeric_values() {
    let mut s = Settings::defaults();
    apply_config(&mut s, b"sync_interval_minutes: soon\nupload_limit_kbps: -3\n");
    assert_eq!(s.sync_interval_minutes, 5);
    assert_eq!(s.upload_limit_kbps, 0);
}

#[test]
fn parse_unquotes_and_trims() {
    let mut s = Settings::defaults();
    apply_config(&mut s, b"  sync_mode :  \"auto\"  \r\nconflict_resolution:\"both\"\n");
    assert_eq!(s.sync_mode, SyncMode::Automatic);
    assert_eq!(s.conflict_resolution, ConflictResolution::KeepBoth);
}

#[test]
fn render_exact_text() {
    let s = Settings {
        sync_mode: SyncMode::Automatic,
        conflict_resolution: ConflictResolution::KeepBoth,
        sync_interval_minutes: 5,
        upload_limit_kbps: 0,
        download_limit_kbps: 1024,
    };
    let text = render_config(&s);
    assert_eq!(
        String::from_utf8(text).unwrap(),
        "sync_mode: \"automatic\"\nconflict_resolution: \"keep_both\"\nsync_interval_minutes: 5\nupload_limit_kbps: 0\ndownload_limit_kbps: 1024\n"
    );
}

#[test]
fn render_then_parse_round_trip() {
    let s = Settings {
        sync_mode: SyncMode::Manual,
        conflict_resolution: ConflictResolution::KeepRemote,
        sync_interval_minutes: 42,
        upload_limit_kbps: 77,
        download_limit_kbps: 100000,
    };
    let mut other = Settings::defaults();
    apply_config(&mut other, &render_config(&s));
    assert_eq!(other, s);
}

#[test]
fn render_boundary_values() {
    let s = Settings {
        sync_mode: SyncMode::Manual,
        conflict_resolution: ConflictResolution::AlwaysAsk,
        sync_interval_minutes: 60,
        upload_limit_kbps: 100000,
        download_limit_kbps: 1,
    };
    let text = String::from_utf8(render_config(&s)).unwrap();
    assert!(text.contains("sync_interval_minutes: 60\n"));
    assert!(text.contains("upload_limit_kbps: 100000\n"));
    assert!(text.contains("download_limit_kbps: 1\n"));
    let mut back = Settings::defaults();
    apply_config(&mut back, text.as_bytes());
    assert_eq!(back, s);
}
