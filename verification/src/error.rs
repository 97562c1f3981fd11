//! The ways in which an operation on persons fails.

use vstd::prelude::*;

verus! {

/// Why an operation failed. None of these ends the process: each is handed
/// to the caller, who decides.
#[derive(Debug, Clone, Copy, PartialEq, Eq, Structural)]
pub enum StoreError {
    /// No person has the identity that was asked for.
    NotFound,
    /// The state could not be made durable; the store is as it was.
    PersistenceFailure,
    /// The store could not be reached, or its answer did not arrive.
    TransportFailure,
    /// The input breaks a rule of the store.
    ValidationFailure,
}

impl StoreError {
    /// The error in words.
    pub fn message(&self) -> (text: &'static str)
        ensures
            text@ == (match *self {
                StoreError::NotFound => "Person not found"@,
                StoreError::PersistenceFailure => "Person store could not be saved"@,
                StoreError::TransportFailure => "Person store could not be reached"@,
                StoreError::ValidationFailure => "Invalid person data"@,
            }),
    {
        match self {
            StoreError::NotFound => "Person not found",
            StoreError::PersistenceFailure => "Person store could not be saved",
            StoreError::TransportFailure => "Person store could not be reached",
            StoreError::ValidationFailure => "Invalid person data",
        }
    }
}

} // verus!
