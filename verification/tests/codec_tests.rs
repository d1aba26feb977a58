// The sidecar codec, the digest vectors, calendar arithmetic and the
// journal line format.

use catdog::meta::{BackupMetadata, BackupReason};
use catdog::disk::Disk;
use catdog::store::BackupStore;
use catdog::events::{BackupEvent, BackupEventType, EventSeverity};

fn sample(reason: BackupReason) -> BackupMetadata {
    BackupMetadata {
        original_path: String::from("/etc/app \"x\"\\conf\n"),
        backup_path: String::from("/backups/etc_app/app.backup.20240101_000001"),
        timestamp: String::from("20240101_000001"),
        reason,
        checksum: String::from("abc123"),
        size_bytes: 18446744073709551615,
    }
}

fn assert_round_trip(m: &BackupMetadata) {
    let line = m.to_json();
    let back = BackupMetadata::from_json(&line).expect("the encoder's output decodes");
    assert_eq!(back.original_path, m.original_path);
    assert_eq!(back.backup_path, m.backup_path);
    assert_eq!(back.timestamp, m.timestamp);
    assert_eq!(back.checksum, m.checksum);
    assert_eq!(back.size_bytes, m.size_bytes);
    assert_eq!(back.to_json(), line);
}

#[test]
fn sidecar_round_trips_every_reason() {
    assert_round_trip(&sample(BackupReason::Manual));
    assert_round_trip(&sample(BackupReason::PrePackageOperation(String::from("upgrade"))));
    assert_round_trip(&sample(BackupReason::PreServiceOperation(String::from("re\"start"))));
    assert_round_trip(&sample(BackupReason::PreFstabModification));
    assert_round_trip(&sample(BackupReason::PreSystemChange));
}

#[test]
fn sidecar_line_shape() {
    let mut m = sample(BackupReason::Manual);
    m.original_path = String::from("/tmp/a.txt");
    m.size_bytes = 5;
    let line = m.to_json();
    assert!(line.starts_with("{\"original_path\":\"/tmp/a.txt\""));
    assert!(line.contains("\"reason\":{\"type\":\"Manual\"}"));
    assert!(line.contains("\"size_bytes\":5}"));
}

#[test]
fn malformed_sidecars_are_rejected() {
    assert!(BackupMetadata::from_json("").is_none());
    assert!(BackupMetadata::from_json("{}").is_none());
    assert!(BackupMetadata::from_json("{\"original_path\":\"x\"").is_none());
    let good = sample(BackupReason::Manual).to_json();
    assert!(BackupMetadata::from_json(&format!("{} ", good)).is_none());
    assert!(BackupMetadata::from_json(&good[..good.len() - 1]).is_none());
}

#[test]
fn digest_matches_published_vectors() {
    assert_eq!(
        catdog::digest::calculate_checksum(b""),
        "e3b0c44298fc1c149afbf4c8996fb92427ae41e4649b934ca495991b7852b855"
    );
    assert_eq!(
        catdog::digest::calculate_checksum(b"abc"),
        "ba7816bf8f01cfea414140de5dae2223b00361a396177a9cb410ff61f20015ad"
    );
    assert_eq!(
        catdog::digest::calculate_checksum(b"abcdbcdecdefdefgefghfghighijhijkijkljklmklmnlmnomnopnopq"),
        "248d6a61d20638b8e5c026930c3e6039a33ce45964ff2167f6ecedd419db06c1"
    );
}

#[test]
fn digest_streams_across_chunks() {
    let mut h = catdog::digest::Sha256::new();
    h.update(b"hello ");
    h.update(b"");
    h.update(b"world");
    assert_eq!(h.finish(), catdog::digest::calculate_checksum(b"hello world"));
    let long = vec![0x61u8; 200];
    let mut h2 = catdog::digest::Sha256::new();
    h2.update(&long);
    assert_eq!(
        h2.finish(),
        catdog::digest::calculate_checksum(&vec![0x61u8; 200])
    );
}

#[test]
fn digests_differ_for_distinct_contents() {
    let a = catdog::digest::calculate_checksum(b"hello");
    let b = catdog::digest::calculate_checksum(b"hello!");
    let c = catdog::digest::calculate_checksum(b"Hello");
    assert_ne!(a, b);
    assert_ne!(a, c);
    assert_ne!(b, c);
}

#[test]
fn backup_age_counts_days() {
    let today = catdog::clock::days_from_civil(2024, 1, 31);
    assert_eq!(catdog::audit::calculate_backup_age("20240101_120000", today), Some(30));
    assert_eq!(catdog::audit::calculate_backup_age("20240131_000000", today), Some(0));
    assert_eq!(catdog::audit::calculate_backup_age("20241301_000000", today), None);
    assert_eq!(catdog::audit::calculate_backup_age("junk", today), None);
    // Leap day 2024-02-29 is a real date; 2023-02-29 is not.
    assert!(catdog::audit::calculate_backup_age("20240229_000000", today).is_some());
    assert!(catdog::audit::calculate_backup_age("20230229_000000", today).is_none());
}

#[test]
fn stale_snapshots_are_listed() {
    let mut disk = Disk::empty();
    disk.write_file("/tmp/a.txt", b"hello".to_vec());
    let mut store = BackupStore::new(String::from("/backups"), disk);
    store
        .create_backup("/tmp/a.txt", BackupReason::Manual, "20240101_000000", false)
        .unwrap();
    let today = catdog::clock::days_from_civil(2024, 3, 1);
    let health = store.run_health_check(today);
    assert!(health.is_healthy());
    assert_eq!(health.old_backups.len(), 1);
    assert_eq!(health.old_backups[0].file_path, "/tmp/a.txt");
    assert_eq!(health.old_backups[0].days_since_backup, 60);
}

#[test]
fn journal_line_shape() {
    let ev = BackupEvent {
        timestamp: String::from("2024-01-01T00:00:00+00:00"),
        event_type: BackupEventType::DrillFailed,
        file_path: String::from("all"),
        details: String::from("1 of 2 backups failed verification"),
        severity: EventSeverity::Warning,
    };
    assert_eq!(
        ev.to_json_line(),
        "{\"timestamp\":\"2024-01-01T00:00:00+00:00\",\"event_type\":\"DrillFailed\",\"file_path\":\"all\",\"details\":\"1 of 2 backups failed verification\",\"severity\":\"Warning\"}"
    );
    assert!(ev.should_alert());
}

#[test]
fn alerts_follow_severity() {
    let mut ev = BackupEvent {
        timestamp: String::new(),
        event_type: BackupEventType::BackupCreated,
        file_path: String::new(),
        details: String::new(),
        severity: EventSeverity::Info,
    };
    assert!(!ev.should_alert());
    ev.severity = EventSeverity::Warning;
    assert!(ev.should_alert());
    ev.severity = EventSeverity::Critical;
    assert!(ev.should_alert());
}

#[test]
fn reasons_describe_themselves() {
    assert_eq!(BackupReason::Manual.description(), "Manual backup");
    assert_eq!(
        BackupReason::PrePackageOperation(String::from("upgrade")).description(),
        "Before package operation: upgrade"
    );
    assert_eq!(
        BackupReason::PreServiceOperation(String::from("stop")).description(),
        "Before service operation: stop"
    );
    assert_eq!(BackupReason::PreFstabModification.description(), "Before fstab modification");
    assert_eq!(BackupReason::PreSystemChange.description(), "Before system change");
}

#[test]
fn wall_clock_stamp_is_name_safe() {
    let s = catdog::store::fresh_stamp();
    assert!(!s.is_empty());
    assert!(s.chars().all(|c| c.is_ascii_digit() || c == '_'));
    let today = catdog::clock::today_day_number().unwrap();
    assert!(today > 19000);
}
