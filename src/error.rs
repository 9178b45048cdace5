use vstd::prelude::*;

verus! {

/// The errors that the library reports.
#[derive(Clone, Debug)]
pub enum Error {
    /// An argument or a decoded value is not acceptable.
    InvalidInput(String),
    /// An internal invariant of stored data does not hold.
    Internal(String),
    /// A storage-level or version-ordering failure.
    Io(String),
}

impl Error {
    pub open spec fn is_invalid_input(&self) -> bool {
        self is InvalidInput
    }

    pub open spec fn is_internal(&self) -> bool {
        self is Internal
    }

    pub open spec fn is_io(&self) -> bool {
        self is Io
    }

    /// The message carried by the error.
    pub fn message(&self) -> (r: &String) {
        match self {
            Error::InvalidInput(m) => m,
            Error::Internal(m) => m,
            Error::Io(m) => m,
        }
    }
}

} // verus!
