//! The ways in which an operation of the store can fail.

use vstd::prelude::*;

verus! {

/// Why an operation failed.
#[derive(Debug)]
pub enum EngineError {
    /// The file system or the storage failed; the text is its own report.
    Io(String),
    /// No record matches the path, fingerprint or id that was asked for.
    NotFound,
    /// A fingerprint prefix fits records of several contents. The field
    /// holds the fingerprints that it fits, each once, newest first.
    AmbiguousSelector(Vec<String>),
    /// The path does not exist, or is neither a file nor a directory.
    PathInvalid,
    /// A stored blob did not decompress: the storage is damaged.
    CorruptBlob,
    /// The home or storage directory cannot be determined.
    ConfigError,
}

} // verus!
