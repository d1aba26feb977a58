//! Read-only diagnostics over the whole store: the integrity audit, which
//! classifies every snapshot's health, and the restoration drill, which
//! checks that every snapshot could be restored right now.  Neither walk
//! ever mutates a snapshot, and one bad item never stops a scan.

use vstd::prelude::*;
use vstd::string::StrSliceExecFns;
use vstd::string::StringExecFns;
use vstd::utf8::decode_utf8;
use vstd::utf8::valid_utf8;

use crate::clock::day_number;
use crate::clock::days_from_civil;
use crate::clock::days_in_month;
use crate::clock::elapsed_millis;
use crate::clock::instant_now;
use crate::clock::valid_date;
use crate::digest::calculate_checksum;
use crate::digest::sha256_hex;
use crate::disk::DiskFile;
use crate::disk::FileKind;
use crate::disk::FileView;
use crate::events::BackupEventType;
use crate::events::EventSeverity;
use crate::meta::BackupMetadata;
use crate::meta::MetaView;
use crate::meta::digit_val;
use crate::meta::is_digit;
use crate::meta::p_meta;
use crate::store::BackupStore;
use crate::store::backup_dir_of;
use crate::store::base_name;
use crate::store::base_name_exec;
use crate::store::is_snapshot_name;
use crate::store::is_snapshot_name_exec;
use crate::store::sidecar_of;
use crate::store::sizes_ok;
use crate::store::under_root;
use crate::store::under_root_exec;
use crate::text::clone_bytes;
use crate::text::dec_digits;
use crate::text::u64_to_string;

verus! {

// ------------------------------------------------------------------
// Snapshot age.

/// The date of a second-resolution timestamp: its first eight characters
/// read as year, month and day digits.
pub open spec fn ts_date(ts: Seq<char>) -> Option<(int, int, int)> {
    if ts.len() >= 8 && is_digit(ts[0]) && is_digit(ts[1]) && is_digit(ts[2]) && is_digit(ts[3])
        && is_digit(ts[4]) && is_digit(ts[5]) && is_digit(ts[6]) && is_digit(ts[7]) {
        Some(
            (
                1000 * digit_val(ts[0]) + 100 * digit_val(ts[1]) + 10 * digit_val(ts[2])
                    + digit_val(ts[3]),
                10 * digit_val(ts[4]) + digit_val(ts[5]),
                10 * digit_val(ts[6]) + digit_val(ts[7]),
            ),
        )
    } else {
        None
    }
}

/// How many days before `today` a timestamp lies, when it carries a real
/// calendar date.
pub open spec fn age_of(ts: Seq<char>, today: int) -> Option<int> {
    match ts_date(ts) {
        None => None,
        Some(ymd) => if valid_date(ymd.0, ymd.1, ymd.2) {
            Some(today - day_number(ymd.0, ymd.1, ymd.2))
        } else {
            None
        },
    }
}

/// The number of days of one month, as executable code.
fn days_in_month_exec(y: u64, m: u64) -> (r: u64)
    requires
        1 <= m <= 12,
    ensures
        r == days_in_month(y as int, m as int),
{
    if m == 2 {
        if y % 4 == 0 && (y % 100 != 0 || y % 400 == 0) {
            29
        } else {
            28
        }
    } else if m == 4 || m == 6 || m == 9 || m == 11 {
        30
    } else {
        31
    }
}

/// The age in days of a snapshot timestamp relative to `today`, or
/// nothing when the timestamp does not carry a real date.
pub fn calculate_backup_age(timestamp: &str, today: i64) -> (r: Option<i64>)
    requires
        -1000000000 <= today <= 1000000000,
    ensures
        match r {
            Some(a) => age_of(timestamp@, today as int) == Some(a as int),
            None => age_of(timestamp@, today as int) is None,
        },
{
    let n = timestamp.unicode_len();
    if n < 8 {
        return None;
    }
    let mut ds: Vec<u64> = Vec::new();
    let mut k: usize = 0;
    while k < 8
        invariant
            timestamp@.len() >= 8,
            k <= 8,
            ds@.len() == k,
            forall|j: int| 0 <= j < k ==> is_digit(#[trigger] timestamp@[j]),
            forall|j: int|
                0 <= j < k ==> (#[trigger] ds@[j]) == digit_val(timestamp@[j]) && ds@[j] < 10,
        decreases 8 - k,
    {
        let c = timestamp.get_char(k);
        if !('0' <= c && c <= '9') {
            return None;
        }
        let v: u64 = (c as u32 - 48) as u64;
        proof {
            assert(c == timestamp@[k as int]);
            assert(48 <= c as u32 <= 57);
            assert(is_digit(timestamp@[k as int]));
            assert(v as int == digit_val(timestamp@[k as int]));
        }
        ds.push(v);
        k += 1;
    }
    let y: u64 = 1000 * ds[0] + 100 * ds[1] + 10 * ds[2] + ds[3];
    let m: u64 = 10 * ds[4] + ds[5];
    let d: u64 = 10 * ds[6] + ds[7];
    if !(1 <= y && 1 <= m && m <= 12 && 1 <= d) {
        return None;
    }
    if d > days_in_month_exec(y, m) {
        return None;
    }
    let dn = days_from_civil(y, m, d);
    Some(today - dn)
}

// ------------------------------------------------------------------
// The integrity audit.

/// A snapshot whose last copy is older than the staleness threshold.
#[derive(Debug, Clone)]
pub struct BackupAge {
    pub file_path: String,
    pub days_since_backup: i64,
    pub last_backup: String,
}

/// The mathematical content of one staleness record.
pub struct AgeView {
    pub file_path: Seq<char>,
    pub days_since_backup: int,
    pub last_backup: Seq<char>,
}

impl View for BackupAge {
    type V = AgeView;

    open spec fn view(&self) -> AgeView {
        AgeView {
            file_path: self.file_path@,
            days_since_backup: self.days_since_backup as int,
            last_backup: self.last_backup@,
        }
    }
}

/// The audit's report: every snapshot classified.  A snapshot can be both
/// healthy and stale; the stale list is separate on purpose.
#[derive(Debug, Clone)]
pub struct BackupHealthCheck {
    pub total_backups: usize,
    pub healthy_backups: usize,
    pub corrupted_backups: Vec<String>,
    pub missing_metadata: Vec<String>,
    pub old_backups: Vec<BackupAge>,
    pub warnings: Vec<String>,
    pub errors: Vec<String>,
}

/// The mathematical content of the audit report.
pub struct HealthView {
    pub total: nat,
    pub healthy: nat,
    pub corrupted: Seq<Seq<char>>,
    pub missing: Seq<Seq<char>>,
    pub old: Seq<AgeView>,
    pub warnings: Seq<Seq<char>>,
    pub errors: Seq<Seq<char>>,
}

impl View for BackupHealthCheck {
    type V = HealthView;

    open spec fn view(&self) -> HealthView {
        HealthView {
            total: self.total_backups as nat,
            healthy: self.healthy_backups as nat,
            corrupted: self.corrupted_backups.deep_view(),
            missing: self.missing_metadata.deep_view(),
            old: self.old_backups@.map_values(|a: BackupAge| a@),
            warnings: self.warnings.deep_view(),
            errors: self.errors.deep_view(),
        }
    }
}

/// The threshold, in days, past which a healthy snapshot is also stale.
pub const STALE_AFTER_DAYS: i64 = 30;

/// The error line recorded for an unreadable sidecar.
pub open spec fn load_error_line(p: Seq<char>) -> Seq<char> {
    "Failed to load metadata for "@ + p
}

/// One entry classified, folded over the walk.
pub open spec fn health_fold(
    prev: HealthView,
    c: Map<Seq<char>, FileView>,
    root: Seq<char>,
    today: int,
    f: DiskFile,
) -> HealthView {
    if f.kind is Regular && under_root(f.path@, root) && is_snapshot_name(base_name(f.path@)) {
        let sc = sidecar_of(f.path@);
        if !c.contains_key(sc) {
            HealthView { total: prev.total + 1, missing: prev.missing.push(f.path@), ..prev }
        } else if !(valid_utf8(c[sc].data) && p_meta(decode_utf8(c[sc].data)) is Some) {
            HealthView {
                total: prev.total + 1,
                errors: prev.errors.push(load_error_line(f.path@)),
                ..prev
            }
        } else {
            let m = p_meta(decode_utf8(c[sc].data))->Some_0;
            if sha256_hex(f.data@) == m.checksum {
                let old2 = match age_of(m.timestamp, today) {
                    Some(a) => if a > STALE_AFTER_DAYS as int {
                        prev.old.push(
                            AgeView {
                                file_path: m.original_path,
                                days_since_backup: a,
                                last_backup: m.timestamp,
                            },
                        )
                    } else {
                        prev.old
                    },
                    None => prev.old,
                };
                HealthView { total: prev.total + 1, healthy: prev.healthy + 1, old: old2, ..prev }
            } else {
                HealthView {
                    total: prev.total + 1,
                    corrupted: prev.corrupted.push(f.path@),
                    ..prev
                }
            }
        }
    } else {
        prev
    }
}

/// The empty report.
pub open spec fn health_empty() -> HealthView {
    HealthView {
        total: 0,
        healthy: 0,
        corrupted: Seq::empty(),
        missing: Seq::empty(),
        old: Seq::empty(),
        warnings: Seq::empty(),
        errors: Seq::empty(),
    }
}

/// The audit over the first entries of the walk.
pub open spec fn health_scan(
    s: Seq<DiskFile>,
    c: Map<Seq<char>, FileView>,
    root: Seq<char>,
    today: int,
) -> HealthView
    decreases s.len(),
{
    if s.len() == 0 {
        health_empty()
    } else {
        health_fold(health_scan(s.drop_last(), c, root, today), c, root, today, s.last())
    }
}

/// The whole audit: a lone warning when the store root does not exist,
/// the full scan otherwise.
pub open spec fn health_spec(
    s: Seq<DiskFile>,
    c: Map<Seq<char>, FileView>,
    root: Seq<char>,
    today: int,
) -> HealthView {
    if !c.contains_key(root) {
        HealthView {
            warnings: Seq::empty().push(
                "No backup directory found. No backups have been created yet."@,
            ),
            ..health_empty()
        }
    } else {
        health_scan(s, c, root, today)
    }
}

impl BackupHealthCheck {
    /// The store is healthy exactly when nothing is corrupted, nothing
    /// errored, and at least one snapshot verified.
    pub fn is_healthy(&self) -> (r: bool)
        ensures
            r == (self@.corrupted.len() == 0 && self@.errors.len() == 0 && self@.healthy > 0),
    {
        self.corrupted_backups.len() == 0 && self.errors.len() == 0 && self.healthy_backups > 0
    }
}


/// Decodes one sidecar's bytes into a record, when they are valid UTF-8
/// and carry a record as the store writes them.
fn parse_sidecar_bytes(data: &Vec<u8>) -> (r: Option<BackupMetadata>)
    ensures
        match r {
            Some(m) => valid_utf8(data@) && p_meta(decode_utf8(data@)) == Some(m@),
            None => !(valid_utf8(data@) && p_meta(decode_utf8(data@)) is Some),
        },
{
    match crate::text::utf8_to_string(clone_bytes(data)) {
        None => None,
        Some(text) => {
            proof {
                vstd::utf8::encode_utf8_decode_utf8(text@);
            }
            BackupMetadata::from_json(text.as_str())
        },
    }
}

impl BackupStore {
    /// Audits every snapshot of the store: classifies each as healthy,
    /// corrupted, missing its sidecar or unreadable, lists the stale ones,
    /// and journals the aggregate outcome.  The walk never mutates a
    /// snapshot and never stops at a bad item.
    #[verifier::rlimit(100)]
    pub fn run_health_check(&mut self, today: i64) -> (h: BackupHealthCheck)
        requires
            old(self).wf(),
            crate::store::sizes_ok(old(self).disk.contents()),
            -1000000000 <= today <= 1000000000,
        ensures
            final(self).wf(),
            final(self).disk == old(self).disk,
            final(self).root == old(self).root,
            h@ == health_spec(
                old(self).disk.entries(),
                old(self).disk.contents(),
                old(self).root@,
                today as int,
            ),
            final(self).journal@.len() == old(self).journal@.len() + 1,
            ({
                let hv = health_spec(
                    old(self).disk.entries(),
                    old(self).disk.contents(),
                    old(self).root@,
                    today as int,
                );
                if hv.corrupted.len() == 0 && hv.errors.len() == 0 && hv.healthy > 0 {
                    final(self).journal@.last()@.event_type == BackupEventType::HealthCheckPassed
                        && final(self).journal@.last()@.severity == EventSeverity::Info
                } else {
                    final(self).journal@.last()@.event_type == BackupEventType::HealthCheckFailed
                        && final(self).journal@.last()@.severity == EventSeverity::Critical
                }
            }),
    {
        let ghost c = self.disk.contents();
        let ghost s0 = self.disk.entries();
        let ghost todayi = today as int;

        let mut total: usize = 0;
        let mut healthy: usize = 0;
        let mut corrupted: Vec<String> = Vec::new();
        let mut missing: Vec<String> = Vec::new();
        let mut old_list: Vec<BackupAge> = Vec::new();
        let mut warnings: Vec<String> = Vec::new();
        let mut errors: Vec<String> = Vec::new();

        let root_present = match self.disk.lookup(self.root.as_str()) {
            Some(_) => true,
            None => false,
        };
        if !root_present {
            warnings.push(
                String::from_str("No backup directory found. No backups have been created yet."),
            );
            let h = BackupHealthCheck {
                total_backups: total,
                healthy_backups: healthy,
                corrupted_backups: corrupted,
                missing_metadata: missing,
                old_backups: old_list,
                warnings,
                errors,
            };
            proof {
                assert(h@.warnings =~= health_spec(s0, c, self.root@, todayi).warnings);
                assert(h@.corrupted =~= Seq::<Seq<char>>::empty());
                assert(h@.missing =~= Seq::<Seq<char>>::empty());
                assert(h@.old =~= Seq::<AgeView>::empty());
                assert(h@.errors =~= Seq::<Seq<char>>::empty());
            }
            self.emit_backup_event(
                BackupEventType::HealthCheckFailed,
                "all",
                "0 corrupted, 0 errors",
                EventSeverity::Critical,
            );
            return h;
        }

        let n = self.disk.file_count();
        let mut i: usize = 0;
        proof {
            assert(s0.take(0) =~= Seq::<DiskFile>::empty());
            assert(corrupted.deep_view() =~= Seq::<Seq<char>>::empty());
            assert(missing.deep_view() =~= Seq::<Seq<char>>::empty());
            assert(errors.deep_view() =~= Seq::<Seq<char>>::empty());
            assert(old_list@.map_values(|a: BackupAge| a@) =~= Seq::<AgeView>::empty());
        }
        while i < n
            invariant
                self.wf(),
                c == self.disk.contents(),
                s0 == self.disk.entries(),
                crate::store::sizes_ok(c),
                -1000000000 <= today <= 1000000000,
                todayi == today as int,
                n == s0.len(),
                i <= n,
                total <= i,
                healthy <= i,
                warnings@.len() == 0,
                total as nat == health_scan(s0.take(i as int), c, self.root@, todayi).total,
                healthy as nat == health_scan(s0.take(i as int), c, self.root@, todayi).healthy,
                corrupted.deep_view() == health_scan(
                    s0.take(i as int),
                    c,
                    self.root@,
                    todayi,
                ).corrupted,
                missing.deep_view() == health_scan(
                    s0.take(i as int),
                    c,
                    self.root@,
                    todayi,
                ).missing,
                old_list@.map_values(|a: BackupAge| a@) == health_scan(
                    s0.take(i as int),
                    c,
                    self.root@,
                    todayi,
                ).old,
                errors.deep_view() == health_scan(s0.take(i as int), c, self.root@, todayi).errors,
                health_scan(s0.take(i as int), c, self.root@, todayi).warnings == Seq::<
                    Seq<char>,
                >::empty(),
            decreases n - i,
        {
            proof {
                assert(s0.take(i + 1).drop_last() =~= s0.take(i as int));
                assert(s0.take(i + 1).last() == s0[i as int]);
                crate::disk::lemma_entry_lookup(s0, i as int);
            }
            let f = self.disk.file_at(i);
            let is_reg = match f.kind {
                FileKind::Regular => true,
                FileKind::Directory => false,
            };
            let bn = base_name_exec(f.path.as_str());
            if is_reg && under_root_exec(f.path.as_str(), self.root.as_str())
                && is_snapshot_name_exec(bn.as_str()) {
                total = total + 1;
                let mut scp = f.path.clone();
                scp.append(".backup.json");
                match self.disk.lookup(scp.as_str()) {
                    None => {
                        missing.push(f.path.clone());
                        proof {
                            assert(missing.deep_view() =~= health_scan(
                                s0.take(i + 1),
                                c,
                                self.root@,
                                todayi,
                            ).missing);
                        }
                    },
                    Some(sf) => {
                        let parsed: Option<BackupMetadata> = parse_sidecar_bytes(&sf.data);
                        match parsed {
                            None => {
                                let mut line = String::from_str("Failed to load metadata for ");
                                line.append(f.path.as_str());
                                errors.push(line);
                                proof {
                                    assert(errors.deep_view() =~= health_scan(
                                        s0.take(i + 1),
                                        c,
                                        self.root@,
                                        todayi,
                                    ).errors);
                                }
                            },
                            Some(m) => {
                                let cur = calculate_checksum(f.data.as_slice());
                                if crate::text::str_eq(cur.as_str(), m.checksum.as_str()) {
                                    healthy = healthy + 1;
                                    match calculate_backup_age(m.timestamp.as_str(), today) {
                                        Some(a) => {
                                            if a > STALE_AFTER_DAYS {
                                                old_list.push(
                                                    BackupAge {
                                                        file_path: m.original_path.clone(),
                                                        days_since_backup: a,
                                                        last_backup: m.timestamp.clone(),
                                                    },
                                                );
                                                proof {
                                                    assert(old_list@.map_values(
                                                        |a: BackupAge| a@,
                                                    ) =~= health_scan(
                                                        s0.take(i + 1),
                                                        c,
                                                        self.root@,
                                                        todayi,
                                                    ).old);
                                                }
                                            }
                                        },
                                        None => {},
                                    }
                                } else {
                                    corrupted.push(f.path.clone());
                                    proof {
                                        assert(corrupted.deep_view() =~= health_scan(
                                            s0.take(i + 1),
                                            c,
                                            self.root@,
                                            todayi,
                                        ).corrupted);
                                    }
                                }
                            },
                        }
                    },
                }
            }
            i += 1;
        }
        proof {
            assert(s0.take(n as int) =~= s0);
        }

        let h = BackupHealthCheck {
            total_backups: total,
            healthy_backups: healthy,
            corrupted_backups: corrupted,
            missing_metadata: missing,
            old_backups: old_list,
            warnings,
            errors,
        };
        proof {
            assert(warnings.deep_view() =~= Seq::<Seq<char>>::empty());
            assert(h@ == health_scan(s0, c, self.root@, todayi));
        }
        let ok = h.is_healthy();
        if ok {
            let mut det = u64_to_string(h.healthy_backups as u64);
            det.append("/");
            let tot = u64_to_string(h.total_backups as u64);
            det.append(tot.as_str());
            det.append(" backups healthy");
            self.emit_backup_event(
                BackupEventType::HealthCheckPassed,
                "all",
                det.as_str(),
                EventSeverity::Info,
            );
        } else {
            let mut det = u64_to_string(h.corrupted_backups.len() as u64);
            det.append(" corrupted, ");
            let ec = u64_to_string(h.errors.len() as u64);
            det.append(ec.as_str());
            det.append(" errors");
            self.emit_backup_event(
                BackupEventType::HealthCheckFailed,
                "all",
                det.as_str(),
                EventSeverity::Critical,
            );
        }
        h
    }
}

// ------------------------------------------------------------------
// The restoration drill.

/// One snapshot the drill could not vouch for.
#[derive(Debug, Clone)]
pub struct DrillFailure {
    pub backup_path: String,
    pub original_path: String,
    pub error: String,
}

/// The mathematical content of one drill failure.
pub struct FailView {
    pub backup_path: Seq<char>,
    pub original_path: Seq<char>,
    pub error: Seq<char>,
}

impl View for DrillFailure {
    type V = FailView;

    open spec fn view(&self) -> FailView {
        FailView {
            backup_path: self.backup_path@,
            original_path: self.original_path@,
            error: self.error@,
        }
    }
}

/// The drill's report.  `duration_ms` is the wall clock's business and
/// carries no specification.
#[derive(Debug, Clone)]
pub struct RestorationDrill {
    pub total_tested: usize,
    pub successful: usize,
    pub failed: Vec<DrillFailure>,
    pub duration_ms: u128,
}

/// The mathematical content of the drill report.
pub struct DrillView {
    pub total: nat,
    pub successful: nat,
    pub failed: Seq<FailView>,
}

impl View for RestorationDrill {
    type V = DrillView;

    open spec fn view(&self) -> DrillView {
        DrillView {
            total: self.total_tested as nat,
            successful: self.successful as nat,
            failed: self.failed@.map_values(|f: DrillFailure| f@),
        }
    }
}

/// One entry tested, folded over the walk.  A snapshot succeeds exactly
/// when its sidecar decodes and its own digest matches the record; a
/// diverged live original is expected and acceptable, so it never fails
/// the drill.
pub open spec fn drill_fold(
    prev: DrillView,
    c: Map<Seq<char>, FileView>,
    root: Seq<char>,
    f: DiskFile,
) -> DrillView {
    if f.kind is Regular && under_root(f.path@, root) && is_snapshot_name(base_name(f.path@)) {
        let sc = sidecar_of(f.path@);
        if !(c.contains_key(sc) && valid_utf8(c[sc].data) && p_meta(decode_utf8(c[sc].data))
            is Some) {
            DrillView {
                total: prev.total + 1,
                failed: prev.failed.push(
                    FailView {
                        backup_path: f.path@,
                        original_path: "unknown"@,
                        error: "Failed to load metadata"@,
                    },
                ),
                ..prev
            }
        } else {
            let m = p_meta(decode_utf8(c[sc].data))->Some_0;
            if sha256_hex(f.data@) == m.checksum {
                DrillView { total: prev.total + 1, successful: prev.successful + 1, ..prev }
            } else {
                DrillView {
                    total: prev.total + 1,
                    failed: prev.failed.push(
                        FailView {
                            backup_path: f.path@,
                            original_path: m.original_path,
                            error: "Checksum mismatch - backup is corrupted"@,
                        },
                    ),
                    ..prev
                }
            }
        }
    } else {
        prev
    }
}

/// The drill over the first entries of the walk.
pub open spec fn drill_scan(s: Seq<DiskFile>, c: Map<Seq<char>, FileView>, root: Seq<char>) -> DrillView
    decreases s.len(),
{
    if s.len() == 0 {
        DrillView { total: 0, successful: 0, failed: Seq::empty() }
    } else {
        drill_fold(drill_scan(s.drop_last(), c, root), c, root, s.last())
    }
}

/// The whole drill: nothing to test when the store root does not exist.
pub open spec fn drill_spec(s: Seq<DiskFile>, c: Map<Seq<char>, FileView>, root: Seq<char>) -> DrillView {
    if !c.contains_key(root) {
        DrillView { total: 0, successful: 0, failed: Seq::empty() }
    } else {
        drill_scan(s, c, root)
    }
}

impl BackupStore {
    /// Dry-runs a restoration of every snapshot: reads each snapshot and
    /// its sidecar, verifies the snapshot's own digest, and counts the
    /// outcome, copying nothing.  Journals one summary event: passed when
    /// there are no failures, failed (a warning) otherwise.
    #[verifier::rlimit(100)]
    pub fn run_restoration_drill(&mut self) -> (r: RestorationDrill)
        requires
            old(self).wf(),
            crate::store::sizes_ok(old(self).disk.contents()),
        ensures
            final(self).wf(),
            final(self).disk == old(self).disk,
            final(self).root == old(self).root,
            r@ == drill_spec(
                old(self).disk.entries(),
                old(self).disk.contents(),
                old(self).root@,
            ),
            final(self).journal@.len() == old(self).journal@.len() + 1,
            ({
                let dv = drill_spec(
                    old(self).disk.entries(),
                    old(self).disk.contents(),
                    old(self).root@,
                );
                if dv.failed.len() == 0 {
                    final(self).journal@.last()@.event_type == BackupEventType::DrillPassed
                        && final(self).journal@.last()@.severity == EventSeverity::Info
                } else {
                    final(self).journal@.last()@.event_type == BackupEventType::DrillFailed
                        && final(self).journal@.last()@.severity == EventSeverity::Warning
                }
            }),
    {
        let ghost c = self.disk.contents();
        let ghost s0 = self.disk.entries();
        let start = instant_now();

        let mut total: usize = 0;
        let mut successful: usize = 0;
        let mut failed: Vec<DrillFailure> = Vec::new();

        let root_present = match self.disk.lookup(self.root.as_str()) {
            Some(_) => true,
            None => false,
        };
        if root_present {
            let n = self.disk.file_count();
            let mut i: usize = 0;
            proof {
                assert(s0.take(0) =~= Seq::<DiskFile>::empty());
                assert(failed@.map_values(|x: DrillFailure| x@) =~= Seq::<FailView>::empty());
            }
            while i < n
                invariant
                    self.wf(),
                    c == self.disk.contents(),
                    s0 == self.disk.entries(),
                    crate::store::sizes_ok(c),
                    n == s0.len(),
                    i <= n,
                    total <= i,
                    successful <= i,
                    total as nat == drill_scan(s0.take(i as int), c, self.root@).total,
                    successful as nat == drill_scan(s0.take(i as int), c, self.root@).successful,
                    failed@.map_values(|x: DrillFailure| x@) == drill_scan(
                        s0.take(i as int),
                        c,
                        self.root@,
                    ).failed,
                decreases n - i,
            {
                proof {
                    assert(s0.take(i + 1).drop_last() =~= s0.take(i as int));
                    assert(s0.take(i + 1).last() == s0[i as int]);
                    crate::disk::lemma_entry_lookup(s0, i as int);
                }
                let f = self.disk.file_at(i);
                let is_reg = match f.kind {
                    FileKind::Regular => true,
                    FileKind::Directory => false,
                };
                let bn = base_name_exec(f.path.as_str());
                if is_reg && under_root_exec(f.path.as_str(), self.root.as_str())
                    && is_snapshot_name_exec(bn.as_str()) {
                    total = total + 1;
                    let mut scp = f.path.clone();
                    scp.append(".backup.json");
                    let parsed: Option<BackupMetadata> = match self.disk.lookup(scp.as_str()) {
                        None => None,
                        Some(sf) => parse_sidecar_bytes(&sf.data),
                    };
                    match parsed {
                        None => {
                            failed.push(
                                DrillFailure {
                                    backup_path: f.path.clone(),
                                    original_path: String::from_str("unknown"),
                                    error: String::from_str("Failed to load metadata"),
                                },
                            );
                            proof {
                                assert(failed@.map_values(|x: DrillFailure| x@) =~= drill_scan(
                                    s0.take(i + 1),
                                    c,
                                    self.root@,
                                ).failed);
                            }
                        },
                        Some(m) => {
                            let cur = calculate_checksum(f.data.as_slice());
                            if crate::text::str_eq(cur.as_str(), m.checksum.as_str()) {
                                successful = successful + 1;
                            } else {
                                failed.push(
                                    DrillFailure {
                                        backup_path: f.path.clone(),
                                        original_path: m.original_path,
                                        error: String::from_str(
                                            "Checksum mismatch - backup is corrupted",
                                        ),
                                    },
                                );
                                proof {
                                    assert(failed@.map_values(|x: DrillFailure| x@)
                                        =~= drill_scan(s0.take(i + 1), c, self.root@).failed);
                                }
                            }
                        },
                    }
                }
                i += 1;
            }
            proof {
                assert(s0.take(n as int) =~= s0);
            }
        }

        let dur = elapsed_millis(&start);
        let r = RestorationDrill {
            total_tested: total,
            successful: successful,
            failed: failed,
            duration_ms: dur,
        };
        proof {
            if !root_present {
                assert(r.failed@.map_values(|x: DrillFailure| x@) =~= Seq::<FailView>::empty());
            }
            assert(r@ == drill_spec(s0, c, self.root@));
        }
        let passed = r.failed.len() == 0;
        let dur64: u64 = if dur > u64::MAX as u128 {
            u64::MAX
        } else {
            dur as u64
        };
        if passed {
            let mut det = u64_to_string(r.successful as u64);
            det.append("/");
            let tot = u64_to_string(r.total_tested as u64);
            det.append(tot.as_str());
            det.append(" backups verified in ");
            let dms = u64_to_string(dur64);
            det.append(dms.as_str());
            det.append(" ms");
            self.emit_backup_event(
                BackupEventType::DrillPassed,
                "all",
                det.as_str(),
                EventSeverity::Info,
            );
        } else {
            let mut det = u64_to_string(r.failed.len() as u64);
            det.append(" of ");
            let tot = u64_to_string(r.total_tested as u64);
            det.append(tot.as_str());
            det.append(" backups failed verification");
            self.emit_backup_event(
                BackupEventType::DrillFailed,
                "all",
                det.as_str(),
                EventSeverity::Warning,
            );
        }
        r
    }
}

} // verus!
