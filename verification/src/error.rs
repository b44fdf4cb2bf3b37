//! What can go wrong.
use reqwest::header::ToStrError;
use std::num::ParseIntError;
use vstd::prelude::*;

verus! {

/// Shortcut for `Result<T, ziponline::Error>`
pub type Result<T> = core::result::Result<T, Error>;

/// Errors for invalid replies and invalid zip file formats.
#[derive(Debug)]
pub enum Error {
    /// When the filesize is not provided, a HEAD request is made to retrieve the filesize.
    /// If the reply does not contain a `content-length` header this error will be returned.
    ContentLengthMissing,
    /// The `content-length` header of the reply is not valid ASCII.
    ContentLengthInvalidAscii(ToStrError),
    /// The `content-length` header of the reply could not be parsed as a number.
    ContentLengthParse(ParseIntError),
    /// The zip file stream ended unexpectedly.
    UnexpectedEof,
    /// The end of central directory header could not be found, this may be a sign of corruption.
    EocdNotFound,
    /// When trying to extract a file, it could not be found.
    CdFileNotFound,
    /// A file header is malformed or broken, this may be a sign of corruption.
    MalformedFileHeader,
}

/// What an extraction cannot go on from, and no error is made for.
#[derive(Debug, PartialEq, Eq, Structural)]
pub enum Abort {
    /// An offset in the archive is out of the range of its number.
    Overflow,
    /// The file is compressed in another way than with DEFLATE.
    UnsupportedCompression,
}

/// Why an extraction has come to nothing.
#[derive(Debug)]
pub enum Failure {
    /// The archive, or a reply, is not as it should be.
    Error(Error),
    /// The caller has to give up.
    Abort(Abort),
}

/// How far a search in a stream has come.
#[derive(Debug)]
pub enum Step<T> {
    /// The next chunk of the stream has to come first.
    NeedMore,
    /// The search is over.
    Done(T),
}

} // verus!
