//! Core of a small personal task tracker. Tasks live in a record store, the
//! display order lives in an order index, and a batch edit engine applies
//! add / remove / update intents against a positional snapshot of the current
//! listing and rewrites the order consistently. Everything here works on
//! plain in-memory values; reading and writing the actual files is left to
//! the surrounding program.

use vstd::prelude::*;

pub mod edits;
pub mod engine;
pub mod laws;
pub mod listing;
pub mod order_index;
pub mod store;
pub mod task;

verus! {

/// Failures that the record store and the lister surface. An out-of-range
/// position in a batch is deliberately not one of these: it is ignored.
#[derive(PartialEq, Eq, Structural, Clone, Copy, Debug)]
pub enum Error {
    /// A listed identifier has no backing record: the index and the store
    /// diverged.
    NotFound,
    /// A persisted record could not be decoded.
    CorruptData,
    /// The underlying storage failed to read, write or delete.
    IOError,
}

} // verus!
