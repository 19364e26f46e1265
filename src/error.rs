//! Errors of the reader and the writer.
use vstd::prelude::*;
use crate::types::ParseErrorKind;

verus! {

/// `std::io::Error`, carried through as it is.
#[verifier::external_type_specification]
#[verifier::external_body]
pub struct ExIoError(std::io::Error);

/// What can go wrong in reading or writing a file.
#[derive(Debug)]
pub enum MatError {
    /// The byte source or sink failed.
    IOError(std::io::Error),
    /// The bytes do not form a MAT-file.
    ParseError(ParseErrorKind),
    /// Stored numbers cannot be brought to their array's class.
    ConversionError,
    /// An invariant of the library does not hold.
    InternalError,
    /// An argument is out of what the operation accepts.
    ParamsError(String),
}

} // verus!
