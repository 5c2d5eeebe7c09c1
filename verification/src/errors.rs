//! The error taxonomy of the task runner.

use vstd::prelude::*;

verus! {

/// Everything that can go wrong while resolving, fingerprinting, caching,
/// running or archiving a task.  Each variant carries what a caller needs to
/// attribute the failure.
#[derive(Debug, PartialEq, Eq)]
pub enum Error {
    /// A referenced task has no configuration.
    ConfigNotFound(String),
    /// A configuration is malformed (bad schema, or an invalid glob filter).
    ConfigParseError(String),
    /// The dependency declarations form a cycle through the named task.
    CycleDetected(String),
    /// A declared input could not be read, or an invariant command failed.
    InputAccessError(String),
    /// Manifest or log file I/O failed.
    CacheIOError(String),
    /// The task's command exited with the given non-zero status.
    CommandFailed(i32),
    /// Archive write, read or restore failure.
    ArchiveError(String),
    /// A byte sequence was not valid UTF-8 where text was required.
    EncodingError,
}

} // verus!
