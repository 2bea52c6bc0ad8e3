//! Content fingerprinting for package build caching.
//!
//! The heart of the crate is [`fingerprint::hash_package`]: given a package
//! root and the entries selected for that package, it produces a manifest
//! (one sorted line per regular file, `"<content-digest>-<relative-path>"`)
//! and a package digest, the lowercase hex MD5 of the manifest bytes. The
//! digest depends only on the relative paths and byte contents of the
//! included regular files, never on scan order, absolute location,
//! modification times or permissions.

pub mod cli;
pub mod digest;
pub mod fingerprint;
pub mod order;
