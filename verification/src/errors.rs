//! The error taxonomy of the CRUD layer.
//!
//! Every operation either fully succeeds or fails with one of these kinds;
//! nothing is retried and no error is swallowed, except for the deliberate
//! best-effort filtering in `get_entities`.

use vstd::prelude::*;
use crate::store::TypeSlot;

verus! {

/// The potential error kinds of this CRUD library.
#[derive(Clone, Debug, PartialEq, Eq)]
pub enum UtilsError {
    /// An internal consistency expectation that should always hold did not,
    /// such as re-basing an edge that was expected to exist.
    UnexpectedState,
    /// The fetched content could not be deserialized as the requested type;
    /// carries the type's name and the slot the record declared.
    DeserializationError(String, Option<TypeSlot>),
    /// Deserialization succeeded, but the record's declared slot is not the
    /// slot the requested type owns; carries (expected, found).  Kept
    /// distinct from `DeserializationError` so that structurally similar
    /// types cannot silently alias.
    WrongEntryTypeError(TypeSlot, TypeSlot),
    /// The record has no entry: its action is a delete, not a create or an
    /// update; carries the record's address.
    RecordHasNoEntry(usize),
    /// No record is reachable at the address (absent, or retired); carries
    /// the address.
    ActionNotFoundError(usize),
    /// The address does not hold a create record, so it cannot serve as an
    /// entity identity; carries the address.
    NotOriginEntryError(usize),
}

/// The result type for `Result<T, UtilsError>`.
pub type UtilsResult<T> = Result<T, UtilsError>;

} // verus!
