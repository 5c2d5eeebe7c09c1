//! A content-addressed task runner library.
//!
//! Tasks are shell commands whose terminal output and declared output files
//! are memoized against a cryptographic fingerprint of their inputs.  This
//! crate holds the verified core: the fingerprint assembly, the cache
//! manifest model, the ANSI-stripping state machine, the output archive
//! codec, the dependency forest and its scheduler state machine, and the
//! elapsed-time formatter.  Process, terminal and file-system plumbing live
//! outside the library and hand it plain values.

pub mod ansi;
pub mod archive;
pub mod cache;
pub mod config;
pub mod duration;
pub mod errors;
pub mod executor;
pub mod globs;
pub mod scheduler;
