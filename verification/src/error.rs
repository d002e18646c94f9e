//! The failures the library itself can report. I/O failures around
//! loading, saving and locking belong to the callers that perform the I/O.

use vstd::prelude::*;

verus! {

/// What can go wrong inside the store logic: the persisted bytes do not
/// decode to the expected schema, or a query pattern does not compile.
#[derive(Clone, Copy, Debug, PartialEq, Eq, Structural)]
pub enum Error {
    DataCorrupt,
    PatternError,
}

impl Error {
    /// A short diagnostic line for this error.
    pub fn message(&self) -> (r: &'static str)
        ensures
            r@ == (match self {
                Error::DataCorrupt => "Can't deserialize data"@,
                Error::PatternError => "Couldn't create query regex"@,
            }),
    {
        match self {
            Error::DataCorrupt => "Can't deserialize data",
            Error::PatternError => "Couldn't create query regex",
        }
    }
}

} // verus!
