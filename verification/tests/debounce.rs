//! The debounced settings writer: coalescing and immediate pattern writes.

use lnxdrive_client::settings::{
    render_config, ConflictResolution, DebouncedSettingsWriter, Mutation, Settings, SyncMode,
};

fn writer() -> DebouncedSettingsWriter {
    DebouncedSettingsWriter::new(Settings::defaults(), Vec::new())
}

#[test]
fn burst_of_edits_yields_one_write_with_last_values() {
    let mut w = writer();
    w.mutate(Mutation::SetSyncMode(SyncMode::Automatic), 0);
    w.mutate(Mutation::SetSyncInterval(10), 100);
    w.mutate(Mutation::SetSyncInterval(20), 300);
    // quiet window still open: the timer was restarted to 300 + 500
    assert_eq!(w.on_timer(400), None);
    assert_eq!(w.on_timer(799), None);
    // at its close, exactly one write with the last value of each field
    let write = w.on_timer(800).expect("one write due");
    let expected = Settings {
        sync_mode: SyncMode::Automatic,
        conflict_resolution: ConflictResolution::AlwaysAsk,
        sync_interval_minutes: 20,
        upload_limit_kbps: 0,
        download_limit_kbps: 0,
    };
    assert_eq!(write, render_config(&expected));
    // and nothing more
    assert_eq!(w.on_timer(900), None);
}

#[test]
fn edit_after_write_schedules_again() {
    let mut w = writer();
    w.mutate(Mutation::SetUploadLimit(100), 0);
    assert!(w.on_timer(500).is_some());
    w.mutate(Mutation::SetDownloadLimit(200), 600);
    assert_eq!(w.on_timer(1000), None);
    let write = w.on_timer(1100).expect("second write due");
    let text = String::from_utf8(write).unwrap();
    assert!(text.contains("upload_limit_kbps: 100\n"));
    assert!(text.contains("download_limit_kbps: 200\n"));
}

#[test]
fn numeric_edits_are_clamped() {
    let mut w = writer();
    w.mutate(Mutation::SetSyncInterval(0), 0);
    assert_eq!(w.settings.sync_interval_minutes, 1);
    w.mutate(Mutation::SetUploadLimit(1_000_000), 1);
    assert_eq!(w.settings.upload_limit_kbps, 100000);
}

#[test]
fn add_pattern_writes_immediately_without_touching_timer() {
    let mut w = writer();
    w.mutate(Mutation::SetSyncInterval(9), 0);
    let write = w.add_pattern(b"  *.tmp  ").expect("new pattern is written");
    assert_eq!(write, vec![b"*.tmp".to_vec()]);
    // the debounce deadline is untouched: the field write still fires
    assert!(w.on_timer(500).is_some());
}

#[test]
fn add_pattern_refuses_empty_and_duplicate() {
    let mut w = writer();
    assert!(w.add_pattern(b"   ").is_none());
    assert!(w.add_pattern(b"*.log").is_some());
    assert!(w.add_pattern(b"*.log").is_none());
    assert!(w.add_pattern(b" *.log ").is_none());
}

#[test]
fn remove_pattern_drops_it_and_writes_the_rest() {
    let mut w = writer();
    w.add_pattern(b"*.log").unwrap();
    w.add_pattern(b".git/").unwrap();
    w.add_pattern(b"~$*").unwrap();
    let write = w.remove_pattern(b".git/");
    assert_eq!(write, vec![b"*.log".to_vec(), b"~$*".to_vec()]);
    // removing an absent pattern still writes the (unchanged) list
    let write2 = w.remove_pattern(b"absent");
    assert_eq!(write2, vec![b"*.log".to_vec(), b"~$*".to_vec()]);
}
