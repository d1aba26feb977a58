//! A single-file snapshot engine: content-addressed backups with a verified
//! SHA-256 digest, bounded retention, integrity auditing and a read-only
//! restoration drill.
//!
//! The engine works over an in-memory image of the backup area (`disk::Disk`);
//! an unverified shell maps that image onto the real filesystem.

use vstd::prelude::*;

pub mod audit;
pub mod clock;
pub mod config;
pub mod corpus;
pub mod diffstat;
pub mod digest;
pub mod disk;
pub mod error;
pub mod exit_codes;
pub mod events;
pub mod laws;
pub mod meta;
pub mod store;
pub mod text;

verus! {

/// The errors a snapshot operation can end with.
#[derive(Debug, Clone, PartialEq, Eq, Structural)]
pub enum BackupError {
    /// The source file, snapshot or sidecar does not exist.
    NotFound,
    /// The source path exists but is not an ordinary file.
    NotARegularFile,
    /// A digest comparison right after a copy failed.
    IntegrityMismatch,
    /// The live original diverged from the snapshot and `force` was not set.
    ConflictError,
    /// A read or write of the backup area failed.
    IoError,
    /// A sidecar record could not be decoded.
    SerializationError,
}

} // verus!
