//! A file-backed persistence layer for per-user application state:
//! named save slots and a single settings blob, stored one file per
//! record under platform-standard directories.
//!
//! The library verifies the persistence logic itself: identifier
//! sanitisation, path derivation, the slot-keyed store state machine
//! with its two-phase (write-temporary, then rename) atomic update,
//! and listing with a deterministic order. The surrounding binary
//! performs the actual filesystem calls, mirroring each verified
//! transition one to one.

pub mod errors;
pub mod ident;
pub mod listing;
pub mod store;
