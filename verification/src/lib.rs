//! A sandboxed virtual filesystem and streaming core, with a background
//! index scheduler.
//!
//! The library holds the decisions of a per-user file server: the path
//! sandbox that confines every caller-supplied path beneath its user root,
//! the stat service that normalizes filesystem metadata for the wire, the
//! self-truncating ranged byte stream, the stored-entry archive writer and
//! reader, the media subprocess's argument and relay policy, and the index
//! scheduler that reconciles a persisted catalog against a walked tree.
//! Every function here is verified against its contract; the surrounding
//! binary only performs the filesystem, subprocess and timer work and hands
//! the results in as plain values.

pub mod catalog;
pub mod error;
pub mod path;
pub mod response;
pub mod scheduler;
pub mod session;
pub mod stream;
pub mod transform;
pub mod vfs;
pub mod zip;
