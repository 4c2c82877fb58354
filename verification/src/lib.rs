//! Incremental integrity verification of a directory of archive files
//! against a manifest of expected MD5 fingerprints, with a persistent
//! hash cache so unchanged files are never re-hashed.
//!
//! Identities and fingerprints are byte strings. The caller supplies the
//! bytes of the manifest file and of each file to hash; the library holds
//! every rule: manifest parsing and identity normalization, the inclusion
//! filter, the candidate ordering, the cache store's map semantics, the
//! chunked digest computation, and the per-file reconciliation that
//! decides `OK`, `FAIL` or `absent in manifest` and keeps the cache
//! trustworthy.

pub mod bytes;
pub mod digest;
pub mod filter;
pub mod manifest;
pub mod reconcile;
pub mod scan;
pub mod store;
