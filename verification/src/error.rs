//! User-facing error reports: a message, an optional suggestion and an
//! exit code, plus the rule that turns a raw error message into one.

use vstd::prelude::*;
use vstd::string::StrSliceExecFns;
use vstd::string::StringExecFns;

use crate::text::contains_sub;
use crate::text::has_sub;

verus! {

/// A user-friendly error that hides implementation details.
#[derive(Debug)]
pub struct UserError {
    message: String,
    suggestion: Option<String>,
    exit_code: i32,
}

/// The mathematical content of a user error.
pub struct UserErrorView {
    pub message: Seq<char>,
    pub suggestion: Option<Seq<char>>,
    pub exit_code: int,
}

impl View for UserError {
    type V = UserErrorView;

    closed spec fn view(&self) -> UserErrorView {
        UserErrorView {
            message: self.message@,
            suggestion: match self.suggestion {
                Some(ref s) => Some(s@),
                None => None,
            },
            exit_code: self.exit_code as int,
        }
    }
}

impl UserError {
    /// A plain error with the general exit code.
    pub fn new(message: String) -> (r: UserError)
        ensures
            r@.message == message@,
            r@.suggestion is None,
            r@.exit_code == 1,
    {
        UserError { message, suggestion: None, exit_code: 1 }
    }

    /// The same error, with a suggestion attached.
    pub fn with_suggestion(self, suggestion: String) -> (r: UserError)
        ensures
            r@.message == self@.message,
            r@.suggestion == Some(suggestion@),
            r@.exit_code == self@.exit_code,
    {
        UserError { suggestion: Some(suggestion), ..self }
    }

    /// The same error, with another exit code.
    pub fn with_exit_code(self, code: i32) -> (r: UserError)
        ensures
            r@.message == self@.message,
            r@.suggestion == self@.suggestion,
            r@.exit_code == code as int,
    {
        UserError { exit_code: code, ..self }
    }

    /// The message shown to the user.
    pub fn message(&self) -> (r: &String)
        ensures
            r@ == self@.message,
    {
        &self.message
    }

    /// The suggestion, if one was attached.
    pub fn suggestion(&self) -> (r: &Option<String>)
        ensures
            match r {
                Some(s) => self@.suggestion == Some(s@),
                None => self@.suggestion is None,
            },
    {
        &self.suggestion
    }

    /// The process exit code this error asks for.
    pub fn exit_code(&self) -> (r: i32)
        ensures
            r as int == self@.exit_code,
    {
        self.exit_code
    }
}

/// The exit code `to_user_error` assigns to a raw error message.
pub open spec fn classified_code(msg: Seq<char>) -> int {
    if has_sub(msg, "Permission denied"@) {
        13
    } else if has_sub(msg, "No such file or directory"@) {
        2
    } else if has_sub(msg, "Failed to run lsblk"@) {
        127
    } else if has_sub(msg, "Failed to run diskutil"@) {
        127
    } else if has_sub(msg, "Failed to parse"@) {
        65
    } else if has_sub(msg, "config"@) || has_sub(msg, "configuration"@) {
        78
    } else {
        1
    }
}

/// Whether the classified error carries a suggestion: every recognised
/// class does, a generic error does not.
pub open spec fn classified_has_suggestion(msg: Seq<char>) -> bool {
    classified_code(msg) != 1
}

/// Turns a raw error message into a user-facing error: common failures
/// are recognised by their wording and get a suggestion and a precise
/// exit code, everything else passes through with the general code.
pub fn to_user_error(message: &str) -> (r: UserError)
    ensures
        r@.exit_code == classified_code(message@),
        (r@.suggestion is Some) == classified_has_suggestion(message@),
{
    if contains_sub(message, "Permission denied") {
        return UserError::new(String::from_str("Permission denied")).with_suggestion(
            String::from_str("Try running with sudo: sudo catdog <command>"),
        ).with_exit_code(13);
    }
    if contains_sub(message, "No such file or directory") {
        if contains_sub(message, "/etc/fstab") {
            return UserError::new(String::from_str("File /etc/fstab not found")).with_suggestion(
                String::from_str(
                    "Your system might not use /etc/fstab. Check your OS documentation.",
                ),
            ).with_exit_code(2);
        }
        let mut m = String::from_str("File or directory not found: ");
        m.append(message);
        return UserError::new(m).with_suggestion(
            String::from_str("Check that the file path is correct"),
        ).with_exit_code(2);
    }
    if contains_sub(message, "Failed to run lsblk") {
        return UserError::new(String::from_str("Could not run lsblk command")).with_suggestion(
            String::from_str(
                "Install lsblk (util-linux package) or use a different device discovery method",
            ),
        ).with_exit_code(127);
    }
    if contains_sub(message, "Failed to run diskutil") {
        return UserError::new(String::from_str("Could not run diskutil command")).with_suggestion(
            String::from_str("This command requires macOS. On Linux, use lsblk instead."),
        ).with_exit_code(127);
    }
    if contains_sub(message, "Failed to parse") {
        let mut m = String::from_str("Invalid format: ");
        m.append(message);
        return UserError::new(m).with_suggestion(
            String::from_str("Check that the file is properly formatted"),
        ).with_exit_code(65);
    }
    if contains_sub(message, "config") || contains_sub(message, "configuration") {
        let mut m = String::from_str("Configuration error: ");
        m.append(message);
        return UserError::new(m).with_suggestion(
            String::from_str("Check your configuration file"),
        ).with_exit_code(78);
    }
    UserError::new(message.to_owned())
}

} // verus!
