//! The ways in which a request can fail.

use vstd::prelude::*;
use vstd::string::StringExecFns;

verus! {

/// Why a request was refused. No refusal changes the state it was made on.
#[derive(Clone, Copy, Debug, PartialEq, Eq, Structural)]
pub enum RaidError {
    /// No raid has the given name.
    NotFound,
    /// A raid of the given name exists already.
    AlreadyExists,
    /// The submitted code is not in the code list.
    UnknownCode,
    /// A stored snapshot could not be read back as a valid state.
    PersistenceFailure,
}

impl RaidError {
    /// What `message` says of each error.
    pub open spec fn spec_message(self) -> Seq<char> {
        match self {
            RaidError::NotFound => "Raid not found"@,
            RaidError::AlreadyExists => "Raid already exists"@,
            RaidError::UnknownCode => "Unknown code"@,
            RaidError::PersistenceFailure => "Snapshot could not be read"@,
        }
    }

    /// The sentence that reports the error to a caller.
    pub fn message(&self) -> (text: String)
        ensures
            text@ == self.spec_message(),
    {
        match self {
            RaidError::NotFound => String::from_str("Raid not found"),
            RaidError::AlreadyExists => String::from_str("Raid already exists"),
            RaidError::UnknownCode => String::from_str("Unknown code"),
            RaidError::PersistenceFailure => String::from_str("Snapshot could not be read"),
        }
    }
}

} // verus!
