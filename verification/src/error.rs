//! The error taxonomy of the registry.

use vstd::prelude::*;

verus! {

/// How an operation of this crate can fail.
///
/// Absence of a record is not an error: lookups return `Option`.
#[derive(Debug)]
pub enum Error {
    /// A required text field was empty.
    InvalidInput(String),
    /// A record that a caller named does not exist.
    NotFound(String),
    /// A destination could not be opened or written.
    Io(String),
    /// Encoding a record set failed.
    Serialization(String),
}

impl Error {
    /// The detail text the error was raised with.
    pub open spec fn detail_spec(&self) -> Seq<char> {
        match self {
            Error::InvalidInput(m) => m@,
            Error::NotFound(m) => m@,
            Error::Io(m) => m@,
            Error::Serialization(m) => m@,
        }
    }

    /// A human-readable description of the failure.
    pub fn detail(&self) -> (r: &str)
        ensures
            r@ == self.detail_spec(),
    {
        match self {
            Error::InvalidInput(m) => m.as_str(),
            Error::NotFound(m) => m.as_str(),
            Error::Io(m) => m.as_str(),
            Error::Serialization(m) => m.as_str(),
        }
    }
}

} // verus!
