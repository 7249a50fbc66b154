//! The error taxonomy of the persistence layer.

use vstd::prelude::*;

verus! {

/// Everything that a store operation can report instead of succeeding.
///
/// `ResolutionError` — the platform could not name a per-user storage
/// root; fatal for every operation. `IoError` — an underlying
/// filesystem failure, carried with enough context to log. `NotFound`
/// — the requested slot or settings file is absent; a normal outcome
/// for reads, never for writes. `InvalidIdentifier` — the supplied
/// slot identifier could escape the save root and was rejected before
/// any path was derived from it.
#[derive(Debug, Clone, PartialEq, Eq)]
pub enum StoreError {
    ResolutionError,
    IoError(String),
    NotFound,
    InvalidIdentifier,
}

} // verus!
