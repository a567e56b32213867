//! The error kinds of the library.
use vstd::prelude::*;

verus! {

/// What went wrong, with a short description.
#[derive(Debug, Clone)]
pub enum SUError {
    /// A file-system or transport failure.
    Io(String),
    /// Malformed input at the boundary.
    InvalidArg(String),
    /// A size, offset or range outside its bounds.
    Range(String),
    /// A stripe that does not fit the code, or a stripe that cannot be decoded.
    ErasureCode(String),
    /// Anything else.
    Other(String),
}

pub type SUResult<T> = Result<T, SUError>;

/// `r` failed with an `ErasureCode` error.
pub open spec fn is_ec_err<T>(r: SUResult<T>) -> bool {
    r matches Err(SUError::ErasureCode(_))
}

/// `r` failed with a `Range` error.
pub open spec fn is_range_err<T>(r: SUResult<T>) -> bool {
    r matches Err(SUError::Range(_))
}

impl SUError {
    pub fn invalid_arg(e: &str) -> (r: SUError)
        ensures
            r matches SUError::InvalidArg(_),
    {
        SUError::InvalidArg(e.to_owned())
    }

    pub fn other(e: &str) -> (r: SUError)
        ensures
            r matches SUError::Other(_),
    {
        SUError::Other(e.to_owned())
    }

    pub fn out_of_range(e: &str) -> (r: SUError)
        ensures
            r matches SUError::Range(_),
    {
        SUError::Range(e.to_owned())
    }

    pub fn range_not_match(e: &str) -> (r: SUError)
        ensures
            r matches SUError::Range(_),
    {
        SUError::Range(e.to_owned())
    }

    pub fn erasure_code(e: &str) -> (r: SUError)
        ensures
            r matches SUError::ErasureCode(_),
    {
        SUError::ErasureCode(e.to_owned())
    }

    /// The description of an I/O error, `None` for the other kinds.
    pub fn into_io_err(self) -> (r: Option<String>)
        ensures
            self matches SUError::Io(s) ==> r == Some(s),
            !(self matches SUError::Io(_)) ==> r.is_none(),
    {
        match self {
            SUError::Io(s) => Some(s),
            _ => None,
        }
    }
}

} // verus!
