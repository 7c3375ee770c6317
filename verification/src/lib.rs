//! Batch editor core for EPUB metadata: a wizard state machine that gathers
//! per-series book selections and naming fields, a template substitution
//! engine, a metadata-document patcher, and an in-memory archive repackager.
//!
//! The interactive shell (terminal rendering, key decoding, file system and
//! archive I/O) lives outside this crate; it feeds plain values in and carries
//! plain values out.

pub mod archive;
pub mod errors;
pub mod model;
pub mod patch;
pub mod search;
pub mod strconv;
pub mod substitute;
pub mod update;
pub mod zipio;
