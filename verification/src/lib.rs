//! A point-in-time snapshot store for files and directories.
//!
//! Contents are identified by the SHA-256 fingerprint of their bytes, kept
//! compressed and deduplicated, and indexed by path and capture time.

pub mod checksum;
pub mod cli;
pub mod codec;
pub mod db;
pub mod diff;
pub mod error;
pub mod exclusion;
pub mod mcp;
pub mod order;
pub mod path;
pub mod snapshot;
pub mod store;
pub mod text;
pub mod utils;
pub mod web;
