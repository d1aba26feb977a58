// Scenario tests for the snapshot engine: creation, listing, restoration,
// retention, auditing and the drill, all over an in-memory disk image.

use catdog::disk::Disk;
use catdog::meta::BackupReason;
use catdog::store::BackupStore;
use catdog::BackupError;
use catdog::events::BackupEventType;
use catdog::events::EventSeverity;

const SHA_HELLO: &str = "2cf24dba5fb0a30e26e83b2ac5b9e29e1b161e5c1fa7425e73043362938b9824";

fn store_with(files: &[(&str, &[u8])]) -> BackupStore {
    let mut disk = Disk::empty();
    for (path, data) in files {
        disk.write_file(path, data.to_vec());
    }
    BackupStore::new(String::from("/backups"), disk)
}

fn stamp(n: u64) -> String {
    format!("20240101_{:06}", n)
}

#[test]
fn test_create_and_verify_backup() {
    let mut store = store_with(&[("/etc/demo.conf", b"test content")]);
    let meta = store
        .create_backup("/etc/demo.conf", BackupReason::Manual, &stamp(1), false)
        .unwrap();
    assert_eq!(meta.original_path, "/etc/demo.conf");
    assert!(store.disk.lookup(&meta.backup_path).is_some());
    assert_eq!(meta.size_bytes, 12);
}

#[test]
fn test_list_backups() {
    let mut store = store_with(&[("/etc/demo.conf", b"test content")]);
    store
        .create_backup("/etc/demo.conf", BackupReason::Manual, &stamp(1), false)
        .unwrap();
    let backups = store.list_backups("/etc/demo.conf");
    assert!(!backups.is_empty());
}

#[test]
fn test_checksum_calculation() {
    let checksum1 = catdog::digest::calculate_checksum(b"hello world");
    let checksum2 = catdog::digest::calculate_checksum(b"hello world");
    assert_eq!(checksum1, checksum2);
    assert!(!checksum1.is_empty());
}

#[test]
fn test_health_check() {
    let mut store = store_with(&[]);
    let health = store.run_health_check(0);
    assert!(health.total_backups >= 0);
}

#[test]
fn test_restoration_drill() {
    let mut store = store_with(&[]);
    let drill = store.run_restoration_drill();
    assert!(drill.total_tested >= 0);
}

#[test]
fn single_snapshot_scenario() {
    // A file holding "hello": the record carries its SHA-256 and size,
    // the listing holds exactly that record, and the drill passes it.
    let mut store = store_with(&[("/tmp/a.txt", b"hello")]);
    let meta = store
        .create_backup("/tmp/a.txt", BackupReason::Manual, &stamp(1), false)
        .unwrap();
    assert_eq!(meta.checksum, SHA_HELLO);
    assert_eq!(meta.size_bytes, 5);

    let backups = store.list_backups("/tmp/a.txt");
    assert_eq!(backups.len(), 1);
    assert_eq!(backups[0].checksum, SHA_HELLO);
    assert_eq!(backups[0].original_path, "/tmp/a.txt");
    assert_eq!(backups[0].backup_path, meta.backup_path);

    let drill = store.run_restoration_drill();
    assert_eq!(drill.total_tested, 1);
    assert_eq!(drill.successful, 1);
    assert!(drill.failed.is_empty());
}

#[test]
fn round_trip_restores_content() {
    let mut store = store_with(&[("/etc/app.conf", b"original bytes")]);
    let meta = store
        .create_backup("/etc/app.conf", BackupReason::Manual, &stamp(1), false)
        .unwrap();
    store
        .restore_backup(&meta.backup_path, &stamp(2), false, false)
        .unwrap();
    let live = store.disk.lookup("/etc/app.conf").unwrap();
    assert_eq!(live.data, b"original bytes");
}

#[test]
fn conflict_blocks_unforced_restore() {
    let mut store = store_with(&[("/etc/app.conf", b"first")]);
    let meta = store
        .create_backup("/etc/app.conf", BackupReason::Manual, &stamp(1), false)
        .unwrap();
    // The live original diverges after the snapshot.
    store.disk.write_file("/etc/app.conf", b"edited since".to_vec());
    let blocked = store.restore_backup(&meta.backup_path, &stamp(2), false, false);
    assert_eq!(blocked, Err(BackupError::ConflictError));
    // Forced, the restoration goes through and brings the old bytes back.
    store
        .restore_backup(&meta.backup_path, &stamp(3), false, true)
        .unwrap();
    let live = store.disk.lookup("/etc/app.conf").unwrap();
    assert_eq!(live.data, b"first");
}

#[test]
fn retention_keeps_ten_of_eleven() {
    // Eleven creations with a limit of ten leave exactly ten snapshots
    // and ten sidecars; the first (oldest) is gone from the image.
    let mut store = store_with(&[("/etc/app.conf", b"payload")]);
    let mut paths = Vec::new();
    for n in 0..11u64 {
        let meta = store
            .create_backup("/etc/app.conf", BackupReason::Manual, &stamp(n), false)
            .unwrap();
        paths.push(meta.backup_path);
    }
    assert!(store.disk.lookup(&paths[0]).is_none());
    let sidecar0 = format!("{}.backup.json", paths[0]);
    assert!(store.disk.lookup(&sidecar0).is_none());
    let mut snapshots = 0;
    let mut sidecars = 0;
    for p in &paths {
        if store.disk.lookup(p).is_some() {
            snapshots += 1;
        }
        if store.disk.lookup(&format!("{}.backup.json", p)).is_some() {
            sidecars += 1;
        }
    }
    assert_eq!(snapshots, 10);
    assert_eq!(sidecars, 10);
    assert_eq!(store.list_backups("/etc/app.conf").len(), 10);
}

#[test]
fn listing_is_newest_first() {
    let mut store = store_with(&[("/etc/app.conf", b"payload")]);
    for n in [3u64, 1, 2] {
        store
            .create_backup("/etc/app.conf", BackupReason::Manual, &stamp(n), false)
            .unwrap();
    }
    let backups = store.list_backups("/etc/app.conf");
    assert_eq!(backups.len(), 3);
    assert!(backups[0].timestamp >= backups[1].timestamp);
    assert!(backups[1].timestamp >= backups[2].timestamp);
    assert_eq!(backups[0].timestamp, stamp(3));
}

#[test]
fn corruption_is_detected() {
    // Truncating a snapshot's bytes makes the audit flag it corrupted
    // and unhealthy, and makes the drill fail it.
    let mut store = store_with(&[("/tmp/a.txt", b"hello")]);
    let meta = store
        .create_backup("/tmp/a.txt", BackupReason::Manual, &stamp(1), false)
        .unwrap();
    store.disk.write_file(&meta.backup_path, b"hel".to_vec());

    let health = store.run_health_check(0);
    assert_eq!(health.corrupted_backups, vec![meta.backup_path.clone()]);
    assert!(!health.is_healthy());

    let drill = store.run_restoration_drill();
    assert_eq!(drill.total_tested, 1);
    assert_eq!(drill.successful, 0);
    assert_eq!(drill.failed.len(), 1);
    assert_eq!(drill.failed[0].backup_path, meta.backup_path);
    assert_eq!(drill.failed[0].error, "Checksum mismatch - backup is corrupted");
}

#[test]
fn corrupted_snapshot_fails_restore_with_mismatch() {
    // The copy is verified against the recorded checksum: restoring a
    // corrupted snapshot fails even when forced.  By stated policy the
    // failed copy is not rolled back, and no restoration event appears —
    // only the pre-restore snapshot's creation.
    let mut store = store_with(&[("/etc/app.conf", b"good bytes")]);
    let meta = store
        .create_backup("/etc/app.conf", BackupReason::Manual, &stamp(1), false)
        .unwrap();
    store.disk.write_file(&meta.backup_path, b"rotten".to_vec());
    let journal_before = store.journal.len();
    let r = store.restore_backup(&meta.backup_path, &stamp(2), false, true);
    assert_eq!(r, Err(BackupError::IntegrityMismatch));
    let live = store.disk.lookup("/etc/app.conf").unwrap();
    assert_eq!(live.data, b"rotten");
    assert_eq!(store.journal.len(), journal_before + 1);
    assert_eq!(
        store.journal.last().unwrap().event_type,
        BackupEventType::BackupCreated
    );
}

#[test]
fn corrupted_snapshot_fails_restore_unforced_too() {
    // Unforced: the untouched original still matches the record, so the
    // conflict check passes, and the copy's verification catches the
    // corruption instead.
    let mut store = store_with(&[("/etc/app.conf", b"good bytes")]);
    let meta = store
        .create_backup("/etc/app.conf", BackupReason::Manual, &stamp(1), false)
        .unwrap();
    store.disk.write_file(&meta.backup_path, b"rotten".to_vec());
    let r = store.restore_backup(&meta.backup_path, &stamp(2), false, false);
    assert_eq!(r, Err(BackupError::IntegrityMismatch));
}

#[test]
fn healthy_store_passes_audit() {
    let mut store = store_with(&[("/tmp/a.txt", b"hello"), ("/tmp/b.txt", b"there")]);
    store
        .create_backup("/tmp/a.txt", BackupReason::Manual, &stamp(1), false)
        .unwrap();
    store
        .create_backup("/tmp/b.txt", BackupReason::PreFstabModification, &stamp(2), false)
        .unwrap();
    let health = store.run_health_check(0);
    assert_eq!(health.total_backups, 2);
    assert_eq!(health.healthy_backups, 2);
    assert!(health.is_healthy());
    assert!(health.corrupted_backups.is_empty());
}

#[test]
fn missing_source_is_reported() {
    let mut store = store_with(&[]);
    let r = store.create_backup("/nope", BackupReason::Manual, &stamp(1), false);
    assert!(matches!(r, Err(BackupError::NotFound)));
}

#[test]
fn missing_snapshot_is_reported() {
    let mut store = store_with(&[]);
    let r = store.restore_backup("/backups/x/y.backup.1", &stamp(1), false, false);
    assert_eq!(r, Err(BackupError::NotFound));
}

#[test]
fn directory_source_is_refused() {
    let mut disk = Disk::empty();
    disk.make_dir("/etc/app.d");
    let mut store = BackupStore::new(String::from("/backups"), disk);
    let r = store.create_backup("/etc/app.d", BackupReason::Manual, &stamp(1), false);
    assert!(matches!(r, Err(BackupError::NotARegularFile)));
}

#[test]
fn malformed_sidecar_is_serialization_error() {
    let mut store = store_with(&[("/tmp/a.txt", b"hello")]);
    let meta = store
        .create_backup("/tmp/a.txt", BackupReason::Manual, &stamp(1), false)
        .unwrap();
    let sidecar = format!("{}.backup.json", meta.backup_path);
    store.disk.write_file(&sidecar, b"{not json".to_vec());
    let r = store.restore_backup(&meta.backup_path, &stamp(2), false, false);
    assert_eq!(r, Err(BackupError::SerializationError));
}

#[test]
fn dry_run_changes_nothing() {
    let mut store = store_with(&[("/tmp/a.txt", b"hello")]);
    let before = store.disk.file_count();
    let meta = store
        .create_backup("/tmp/a.txt", BackupReason::Manual, &stamp(1), true)
        .unwrap();
    assert_eq!(meta.checksum, SHA_HELLO);
    assert_eq!(store.disk.file_count(), before);
    assert!(store.disk.lookup(&meta.backup_path).is_none());
}

#[test]
fn restore_snapshots_live_original_first() {
    let mut store = store_with(&[("/etc/app.conf", b"v1")]);
    let meta = store
        .create_backup("/etc/app.conf", BackupReason::Manual, &stamp(1), false)
        .unwrap();
    store
        .restore_backup(&meta.backup_path, &stamp(2), false, false)
        .unwrap();
    // The pre-restore snapshot of the live file exists beside the first.
    assert_eq!(store.list_backups("/etc/app.conf").len(), 2);
}

#[test]
fn stats_count_snapshots() {
    let mut store = store_with(&[("/tmp/a.txt", b"hello"), ("/tmp/b.txt", b"there!")]);
    store
        .create_backup("/tmp/a.txt", BackupReason::Manual, &stamp(1), false)
        .unwrap();
    store
        .create_backup("/tmp/b.txt", BackupReason::Manual, &stamp(2), false)
        .unwrap();
    let stats = store.get_backup_stats();
    assert_eq!(stats.total_backups, 2);
    assert_eq!(stats.total_size_bytes, 11);
    assert_eq!(stats.oldest_backup, Some(stamp(1)));
    assert_eq!(stats.newest_backup, Some(stamp(2)));
}

#[test]
fn journal_records_operations() {
    let mut store = store_with(&[("/tmp/a.txt", b"hello")]);
    store
        .create_backup("/tmp/a.txt", BackupReason::Manual, &stamp(1), false)
        .unwrap();
    assert_eq!(store.journal.len(), 1);
    let ev = &store.journal[0];
    assert_eq!(ev.event_type, BackupEventType::BackupCreated);
    assert_eq!(ev.severity, EventSeverity::Info);
    assert_eq!(ev.file_path, "/tmp/a.txt");
    assert!(ev.details.contains("5 bytes"));
    assert!(ev.details.contains(&SHA_HELLO[..16]));
    assert!(!ev.should_alert());
    // The journal timestamp has the RFC 3339 shape the contract states.
    assert!(ev.timestamp.len() >= 25);
    assert!(ev.timestamp.ends_with("+00:00"));
    assert!(ev.timestamp.contains('T'));
}

#[test]
fn drill_failure_raises_warning_event() {
    let mut store = store_with(&[("/tmp/a.txt", b"hello")]);
    let meta = store
        .create_backup("/tmp/a.txt", BackupReason::Manual, &stamp(1), false)
        .unwrap();
    store.disk.write_file(&meta.backup_path, b"x".to_vec());
    store.run_restoration_drill();
    let last = store.journal.last().unwrap();
    assert!(last.should_alert());
}

#[test]
fn backup_dir_uses_sanitized_path() {
    let mut store = store_with(&[("/etc/fstab", b"x y z 0 0 0\n")]);
    let meta = store
        .create_backup("/etc/fstab", BackupReason::PreFstabModification, &stamp(1), false)
        .unwrap();
    assert!(meta.backup_path.starts_with("/backups/etc_fstab/fstab.backup."));
}
