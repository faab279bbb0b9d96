//! Mirrors a locally generated directory tree onto a remote file store,
//! transferring only what changed since the last successful run.
//!
//! The crate holds the synchronisation engine: path handling, the content
//! digests of a tree, the manifest that records them, the comparison of two
//! snapshots and the remote operations that bring the remote side up to date.

pub mod config;
pub mod delta;
pub mod filter;
pub mod ftp;
pub mod manifest;
pub mod path;
pub mod render;
pub mod sha1dir;
pub mod snapshot;
pub mod sync;
pub mod template;
