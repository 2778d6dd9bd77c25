//! Sidecar indexes.
//!
//! An index over a column of a file lies in a file of its own beside it, so
//! that a file gains indexes without being rewritten. A sidecar carries a
//! manifest that names its indexes and the state of the file they were
//! built from; a reader refuses a sidecar whose source has changed. A lookup
//! answers with pages of the source and, for each, the rows that match.

pub mod bloom_laws;
pub mod builder;
pub mod file;
pub mod fingerprint;
pub mod json;
pub mod keys;
pub mod laws;
pub mod lookup;
pub mod manifest;
pub mod manifest_laws;
pub mod materialize;
pub mod order;
pub mod page_layout;
pub mod query;
pub mod reader;
pub mod rowset;
pub mod sidecar_laws;
pub mod types;

pub use fingerprint::{compute_source_fingerprint, crc32_ieee};
pub use manifest::{
    IndexEntry, IndexKind, IndexManifest, ManifestError, PhysicalType, SourceFingerprint,
    Tokenizer, MANIFEST_KEY, MANIFEST_VERSION,
};
