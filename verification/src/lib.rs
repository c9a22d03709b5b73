//! Inspection of ZIP archives and tracking of recently opened files.
//!
//! The crate has two parts: an archive reader that lists the entry names of
//! a ZIP archive held in memory, decrypting per entry when a password is
//! supplied, and a bounded, deduplicated, recency-ordered store of recently
//! opened paths together with a JSON codec that persists it.

pub mod archive;
pub mod codec;
pub mod recent;
pub mod zipio;
