//! Error kinds returned by the validation, store and persistence layers.
//!
//! All validation errors are recoverable by re-prompting the offending field;
//! a corrupt persisted blob is the only condition a caller should treat as
//! fatal at startup.

use vstd::prelude::*;

verus! {

/// Failure of date/time parsing or of the start/end range check.
#[derive(Clone, Copy, Debug, PartialEq, Eq, Structural)]
pub enum ValidationError {
    /// The text is not a real `mm/dd/yyyy` Gregorian calendar date.
    InvalidDate,
    /// The text is not a valid `hh:mm` 24-hour clock time.
    InvalidTime,
    /// The end instant falls strictly before the start instant.
    EndBeforeStart,
}

/// Failure of a store lookup or deletion.
#[derive(Clone, Copy, Debug, PartialEq, Eq, Structural)]
pub enum StoreError {
    /// No appointments are filed under the given owner.
    NotFound,
    /// A 1-based selection index lies outside the owner's appointment count.
    IndexOutOfRange,
}

/// Failure of decoding a persisted blob.
#[derive(Clone, Copy, Debug, PartialEq, Eq, Structural)]
pub enum PersistenceError {
    /// The blob is not a well-formed encoding of any store.
    Corrupt,
}

impl ValidationError {
    /// A user-facing message for re-prompting.
    pub fn message(&self) -> &'static str {
        match self {
            ValidationError::InvalidDate => "Invalid date. Required format: mm/dd/yyyy",
            ValidationError::InvalidTime => "Invalid time. Required (24-hour clock) format: hh:mm",
            ValidationError::EndBeforeStart => "End cannot occur before start",
        }
    }
}

impl StoreError {
    /// A user-facing message.
    pub fn message(&self) -> &'static str {
        match self {
            StoreError::NotFound => "There are currently no appointments for that owner",
            StoreError::IndexOutOfRange => "Invalid number. Must be a valid appointment number",
        }
    }
}

} // verus!
