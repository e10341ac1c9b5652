//! The ways a request can fail.
use vstd::prelude::*;

verus! {

/// Why a request could not be served. A server answers any of these that
/// comes after the request head with a plain 404.
#[derive(Debug, Clone, Copy, PartialEq, Eq, Structural)]
pub enum HttpError {
    /// No request line could be read.
    MalformedRequest,
    /// The method is neither GET nor POST.
    UnsupportedMethod,
    /// The request line holds no path.
    MissingPath,
    /// The path is too short for its route, or its file name is not text.
    InvalidPath,
    /// A file route was asked for, but no directory is served.
    NoDirectoryConfigured,
    /// No such route, or no such file.
    NotFound,
    /// An upload came without a `Content-Length` header.
    MissingContentLength,
    /// The `Content-Length` header is not an unsigned number.
    InvalidContentLength,
    /// The connection ended before the declared body did.
    TruncatedBody,
    /// A response carries a status code with no reason phrase.
    UnknownStatus,
    /// Bytes that should be text are not valid UTF-8.
    DecodeError,
}

} // verus!
