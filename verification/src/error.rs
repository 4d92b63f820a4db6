//! The errors of the library.
use vstd::prelude::*;
use crate::model::ErrorModel;
use crate::number::NumberError;

verus! {

/// Why a search, a line or a key could not be read.
#[derive(Debug, Clone)]
pub enum Error {
    /// A line that is not valid UTF-8.
    InvalidUtf8,
    /// A line without the key column; it holds the line.
    InvalidLine(String),
    /// A key that is not a decimal `i128` in numeric mode.
    InvalidNumber(NumberError),
    /// A delimiter argument that is not exactly one character; it holds the
    /// argument.
    InvalidDelimiter(String),
}

impl View for Error {
    type V = ErrorModel;

    open spec fn view(&self) -> ErrorModel {
        match self {
            Error::InvalidUtf8 => ErrorModel::InvalidUtf8,
            Error::InvalidLine(s) => ErrorModel::InvalidLine(s@),
            Error::InvalidNumber(e) => ErrorModel::InvalidNumber(*e),
            Error::InvalidDelimiter(s) => ErrorModel::InvalidDelimiter(s@),
        }
    }
}

/// A result as the contracts see it: the view of its value or of its error.
pub open spec fn outcome<T: View>(r: Result<T, Error>) -> Result<T::V, ErrorModel> {
    match r {
        Ok(v) => Ok(v@),
        Err(e) => Err(e@),
    }
}

} // verus!
