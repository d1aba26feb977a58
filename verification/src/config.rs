//! Static configuration records for the alerting and monitoring
//! collaborators.  The core only holds the values; reading and writing
//! the configuration file is the unverified shell's business.

use vstd::prelude::*;
use vstd::string::StringExecFns;

verus! {

/// Which alert channels are enabled.
#[derive(Debug, Clone)]
pub struct AlertConfig {
    pub enabled_channels: Vec<String>,
}

/// How often checks run and when disk usage warns.
#[derive(Debug, Clone)]
pub struct MonitoringConfig {
    pub check_interval_seconds: u64,
    pub disk_threshold_warning: u8,
    pub disk_threshold_critical: u8,
}

/// Where Slack alerts go.
#[derive(Debug, Clone)]
pub struct SlackConfig {
    pub webhook_url: String,
}

/// Where webhook alerts go.
#[derive(Debug, Clone)]
pub struct WebhookConfig {
    pub url: String,
}

/// The whole configuration.
#[derive(Debug, Clone)]
pub struct Config {
    pub alerts: AlertConfig,
    pub monitoring: MonitoringConfig,
    pub slack: Option<SlackConfig>,
    pub webhook: Option<WebhookConfig>,
}

/// The default alert channel: the console.
fn default_enabled_channels() -> (r: Vec<String>)
    ensures
        r@.len() == 1,
        r@[0]@ == "console"@,
{
    let mut v: Vec<String> = Vec::new();
    v.push(String::from_str("console"));
    v
}

/// The default check interval, in seconds.
fn default_check_interval() -> (r: u64)
    ensures
        r == 300,
{
    300
}

/// The default disk-usage warning threshold, in percent.
fn default_disk_warning() -> (r: u8)
    ensures
        r == 80,
{
    80
}

/// The default disk-usage critical threshold, in percent.
fn default_disk_critical() -> (r: u8)
    ensures
        r == 90,
{
    90
}

impl Default for AlertConfig {
    fn default() -> (r: AlertConfig)
        ensures
            r.enabled_channels@.len() == 1,
            r.enabled_channels@[0]@ == "console"@,
    {
        AlertConfig { enabled_channels: default_enabled_channels() }
    }
}

impl Default for MonitoringConfig {
    fn default() -> (r: MonitoringConfig)
        ensures
            r.check_interval_seconds == 300,
            r.disk_threshold_warning == 80,
            r.disk_threshold_critical == 90,
    {
        MonitoringConfig {
            check_interval_seconds: default_check_interval(),
            disk_threshold_warning: default_disk_warning(),
            disk_threshold_critical: default_disk_critical(),
        }
    }
}

impl Default for Config {
    fn default() -> (r: Config)
        ensures
            r.monitoring.check_interval_seconds == 300,
            r.monitoring.disk_threshold_warning == 80,
            r.monitoring.disk_threshold_critical == 90,
            r.alerts.enabled_channels@.len() == 1,
            r.alerts.enabled_channels@[0]@ == "console"@,
            r.slack is None,
            r.webhook is None,
    {
        Config {
            alerts: AlertConfig::default(),
            monitoring: MonitoringConfig::default(),
            slack: None,
            webhook: None,
        }
    }
}

} // verus!
