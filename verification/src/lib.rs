//! Data-seeding and blob-serving core: an embedded relational store of
//! countries and competitions (each carrying binary payloads), idempotent
//! synchronization of that store from a tabular source, read-only listing
//! queries, and the lookup behind the single-writer install operation.
//!
//! The store itself is a plain in-memory value with a well-formedness
//! invariant; callers that persist it (and perform all file reads and
//! writes) live outside this crate.

pub mod bytes;
pub mod seed;
pub mod source;
pub mod store;
