//! The failure taxonomy of the decoder.
//!
//! Every decoding function returns a `Result` whose error carries a kind and
//! an optional boxed underlying cause, so a higher layer can add context (for
//! example, which field definition failed) without discarding the original
//! failure.

use vstd::prelude::*;

verus! {

/// What went wrong, without regard to how it is rendered.
#[derive(Debug)]
pub enum ErrorKind {
    /// A text region was not valid UTF-8.
    Utf,
    /// A numeric region was not a decimal integer, or its value does not fit
    /// the receiving machine integer.
    ParseInt,
    /// The byte source ended in the middle of a record frame.
    UnexpectedEof,
    /// The byte source ended cleanly between records; translated into normal
    /// end of iteration, never surfaced to the caller.
    Eof,
    /// A leader sub-field could not be decoded.
    InvalidLeader,
    /// The directory region was not a whole number of fixed-width entries,
    /// or no record separator terminated it.
    BadDirectoryData,
    /// A field-control region could not be decoded.
    BadFieldControl,
    /// An unrecognized data-structure code, carried along as text.
    BadDataStructureCode(String),
    /// An unrecognized data-type code, carried along as text.
    BadDataTypeCode(String),
    /// An unrecognized truncated-escape-sequence code, carried along as text.
    BadTruncEscSeq(String),
    /// A format-control region too short to contain a parenthesized list.
    EmptyFormatControls,
    /// A format-control element did not match `[count]letter[(width)]`.
    BadFormatControls,
    /// A data descriptive field had no field-control segment of full width.
    InvalidHeader,
    /// The display name of a data descriptive field could not be decoded.
    CouldNotParseName,
    /// A data descriptive field could not be decoded; names the field.
    InvalidDDF(String),
    /// The set of data descriptive fields could not be decoded.
    InvalidDDFS,
    /// The data descriptive record could not be decoded.
    InvalidDDR,
    /// A data record did not match the schema.
    InvalidDR,
    /// The stream could not be bootstrapped from its first record.
    CouldNotParseCatalog,
}

/// A decoding failure: a kind plus an optional underlying cause.
#[derive(Debug)]
pub struct Error {
    pub kind: ErrorKind,
    pub cause: Option<Box<Error>>,
}

impl Error {
    /// A fresh error with no underlying cause.
    pub fn new(kind: ErrorKind) -> (r: Error)
        ensures
            r.kind == kind,
            r.cause is None,
    {
        Error { kind, cause: None }
    }

    /// Wraps this error as the cause of a higher-level kind.
    pub fn wrap(self, kind: ErrorKind) -> (r: Error)
        ensures
            r.kind == kind,
            r.cause matches Some(c) && c == self,
    {
        Error { kind, cause: Some(Box::new(self)) }
    }
}

} // verus!
