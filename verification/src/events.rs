//! The append-only event journal: records of significant operations and
//! the rule that decides which of them should raise an alert.

use vstd::prelude::*;
use vstd::string::StrSliceExecFns;

use crate::meta::emit_json_string;
use crate::meta::json_string;

verus! {

/// What happened.
#[derive(Debug, Clone, Copy, PartialEq, Eq, Structural)]
pub enum BackupEventType {
    BackupCreated,
    BackupRestored,
    BackupCorrupted,
    BackupFailed,
    HealthCheckPassed,
    HealthCheckFailed,
    DrillPassed,
    DrillFailed,
}

/// How serious it is.
#[derive(Debug, Clone, Copy, PartialEq, Eq, Structural)]
pub enum EventSeverity {
    Info,
    Warning,
    Critical,
}

/// One journal record.  Created once, appended, never edited.
#[derive(Debug, Clone)]
pub struct BackupEvent {
    pub timestamp: String,
    pub event_type: BackupEventType,
    pub file_path: String,
    pub details: String,
    pub severity: EventSeverity,
}

/// The mathematical content of one journal record.
pub struct EventView {
    pub timestamp: Seq<char>,
    pub event_type: BackupEventType,
    pub file_path: Seq<char>,
    pub details: Seq<char>,
    pub severity: EventSeverity,
}

impl View for BackupEvent {
    type V = EventView;

    open spec fn view(&self) -> EventView {
        EventView {
            timestamp: self.timestamp@,
            event_type: self.event_type,
            file_path: self.file_path@,
            details: self.details@,
            severity: self.severity,
        }
    }
}

/// The name an event type is journalled under.
pub open spec fn event_type_name(t: BackupEventType) -> Seq<char> {
    match t {
        BackupEventType::BackupCreated => "BackupCreated"@,
        BackupEventType::BackupRestored => "BackupRestored"@,
        BackupEventType::BackupCorrupted => "BackupCorrupted"@,
        BackupEventType::BackupFailed => "BackupFailed"@,
        BackupEventType::HealthCheckPassed => "HealthCheckPassed"@,
        BackupEventType::HealthCheckFailed => "HealthCheckFailed"@,
        BackupEventType::DrillPassed => "DrillPassed"@,
        BackupEventType::DrillFailed => "DrillFailed"@,
    }
}

/// The name a severity is journalled under.
pub open spec fn severity_name(s: EventSeverity) -> Seq<char> {
    match s {
        EventSeverity::Info => "Info"@,
        EventSeverity::Warning => "Warning"@,
        EventSeverity::Critical => "Critical"@,
    }
}

/// The journal line of one event: a single JSON object.
pub open spec fn event_json(v: EventView) -> Seq<char> {
    "{\"timestamp\":"@ + json_string(v.timestamp) + ",\"event_type\":"@ + json_string(
        event_type_name(v.event_type),
    ) + ",\"file_path\":"@ + json_string(v.file_path) + ",\"details\":"@ + json_string(v.details)
        + ",\"severity\":"@ + json_string(severity_name(v.severity)) + "}"@
}

impl BackupEvent {
    /// Whether this event must be handed to the alert collaborator:
    /// exactly the warnings and the critical events.
    pub fn should_alert(&self) -> (r: bool)
        ensures
            r == (self.severity is Warning || self.severity is Critical),
    {
        match self.severity {
            EventSeverity::Warning => true,
            EventSeverity::Critical => true,
            EventSeverity::Info => false,
        }
    }

    /// Renders the event as its journal line.
    pub fn to_json_line(&self) -> (r: String)
        ensures
            r@ == event_json(self@),
    {
        let mut out = String::new();
        out.append("{\"timestamp\":");
        emit_json_string(&mut out, self.timestamp.as_str());
        out.append(",\"event_type\":");
        let tname: &str = match self.event_type {
            BackupEventType::BackupCreated => "BackupCreated",
            BackupEventType::BackupRestored => "BackupRestored",
            BackupEventType::BackupCorrupted => "BackupCorrupted",
            BackupEventType::BackupFailed => "BackupFailed",
            BackupEventType::HealthCheckPassed => "HealthCheckPassed",
            BackupEventType::HealthCheckFailed => "HealthCheckFailed",
            BackupEventType::DrillPassed => "DrillPassed",
            BackupEventType::DrillFailed => "DrillFailed",
        };
        proof {
            assert(tname@ == event_type_name(self.event_type));
        }
        emit_json_string(&mut out, tname);
        out.append(",\"file_path\":");
        emit_json_string(&mut out, self.file_path.as_str());
        out.append(",\"details\":");
        emit_json_string(&mut out, self.details.as_str());
        out.append(",\"severity\":");
        let sname: &str = match self.severity {
            EventSeverity::Info => "Info",
            EventSeverity::Warning => "Warning",
            EventSeverity::Critical => "Critical",
        };
        proof {
            assert(sname@ == severity_name(self.severity));
        }
        emit_json_string(&mut out, sname);
        out.append("}");
        proof {
            assert(out@ =~= event_json(self@));
        }
        out
    }
}

} // verus!
