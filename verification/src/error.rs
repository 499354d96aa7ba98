//! Error kinds surfaced by the index core.

use vstd::prelude::*;

verus! {

/// What went wrong, with a message for the operator.
#[derive(Debug, PartialEq, Eq)]
pub enum IndexError {
    /// A failure while serializing; the segment being written must be discarded.
    WriteError(String),
    /// Bytes that cannot be read back as the value they should hold.
    ReadError(String),
    /// The producer broke an ordering rule (terms or document ids out of order).
    ContractViolation(String),
}

impl IndexError {
    /// The message carried by the error.
    pub fn message(&self) -> (msg: String)
        ensures
            msg@ == self.spec_message()@,
    {
        match self {
            IndexError::WriteError(m) => m.clone(),
            IndexError::ReadError(m) => m.clone(),
            IndexError::ContractViolation(m) => m.clone(),
        }
    }

    /// The message carried by the error, in specifications.
    pub open spec fn spec_message(&self) -> String {
        match self {
            IndexError::WriteError(m) => *m,
            IndexError::ReadError(m) => *m,
            IndexError::ContractViolation(m) => *m,
        }
    }
}

/// The result type used throughout the crate.
pub type Result<T> = core::result::Result<T, IndexError>;

} // verus!
