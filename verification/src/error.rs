//! The ways in which a command can fail.

use vstd::prelude::*;

verus! {

/// Why a command was refused.
#[derive(Clone, Copy, Debug, PartialEq, Eq, Structural)]
pub enum LedgerError {
    /// The task name was empty. Nothing was written.
    InvalidArgument,
    /// The store could not complete the operation. Nothing was written.
    Persistence,
}

impl LedgerError {
    /// A short description of the error.
    pub fn message(&self) -> (text: &'static str)
        ensures
            text@ == match *self {
                LedgerError::InvalidArgument => "task name is empty"@,
                LedgerError::Persistence => "the event store could not complete the operation"@,
            },
    {
        match self {
            LedgerError::InvalidArgument => "task name is empty",
            LedgerError::Persistence => "the event store could not complete the operation",
        }
    }
}

} // verus!
