// Configuration defaults, user-facing errors, diff statistics and the
// Bloom filter.

use catdog::config::Config;
use catdog::error::{to_user_error, UserError};
use catdog::corpus::BloomFilter;

#[test]
fn test_default_config() {
    let config = Config::default();
    assert_eq!(config.monitoring.check_interval_seconds, 300);
    assert_eq!(config.monitoring.disk_threshold_warning, 80);
    assert_eq!(config.monitoring.disk_threshold_critical, 90);
    assert_eq!(config.alerts.enabled_channels, vec!["console"]);
}

#[test]
fn test_user_error_creation() {
    let err = UserError::new(String::from("Something went wrong"));
    assert_eq!(err.message(), "Something went wrong");
    assert_eq!(err.exit_code(), 1);
}

#[test]
fn test_user_error_with_suggestion() {
    let err = UserError::new(String::from("File not found"))
        .with_suggestion(String::from("Check the path"));
    assert!(err.suggestion().is_some());
}

#[test]
fn test_permission_denied_detection() {
    let user_err = to_user_error("Permission denied while accessing /etc/fstab");
    assert_eq!(user_err.exit_code(), 13);
    assert!(user_err.suggestion().is_some());
}

#[test]
fn test_file_not_found_detection() {
    let user_err = to_user_error("No such file or directory: /etc/fstab");
    assert_eq!(user_err.exit_code(), 2);
}

#[test]
fn test_command_not_found_detection() {
    let user_err = to_user_error("Failed to run lsblk command");
    assert_eq!(user_err.exit_code(), 127);
}

#[test]
fn test_diff_identical() {
    let text = "line1\nline2\nline3\n";
    let stats = catdog::diffstat::diff_stats_for(text, text);
    assert_eq!(stats.additions, 0);
    assert_eq!(stats.deletions, 0);
}

#[test]
fn test_diff_additions() {
    let old = "line1\nline2\n";
    let new = "line1\nline2\nline3\n";
    let stats = catdog::diffstat::diff_stats_for(old, new);
    assert_eq!(stats.additions, 1);
    assert_eq!(stats.deletions, 0);
}

#[test]
fn test_diff_deletions() {
    let old = "line1\nline2\nline3\n";
    let new = "line1\nline3\n";
    let stats = catdog::diffstat::diff_stats_for(old, new);
    assert_eq!(stats.additions, 0);
    assert_eq!(stats.deletions, 1);
}

#[test]
fn test_diff_changes() {
    let old = "line1\nold line\nline3\n";
    let new = "line1\nnew line\nline3\n";
    let stats = catdog::diffstat::diff_stats_for(old, new);
    assert_eq!(stats.additions, 1);
    assert_eq!(stats.deletions, 1);
}

#[test]
fn bloom_filter_never_forgets() {
    let mut filter = BloomFilter::new(1024, 4);
    filter.insert("alpha");
    filter.insert("beta");
    filter.insert("gamma");
    assert!(filter.contains("alpha"));
    assert!(filter.contains("beta"));
    assert!(filter.contains("gamma"));
}

#[test]
fn analyzer_starts_empty() {
    let analyzer = catdog::corpus::CorpusAnalyzer::new();
    assert_eq!(analyzer.total_tokens, 0);
    assert!(analyzer.token_frequency.is_empty());
}

#[test]
fn exit_codes_follow_sysexits() {
    assert_eq!(catdog::exit_codes::SUCCESS, 0);
    assert_eq!(catdog::exit_codes::NO_SUCH_FILE, 2);
    assert_eq!(catdog::exit_codes::COMMAND_NOT_FOUND, 127);
}
