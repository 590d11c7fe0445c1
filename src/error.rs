//! The ways a parse can fail.
use vstd::prelude::*;

verus! {

/// A failure of the parse, reported by the call that detected it.
#[derive(Clone, Copy, Debug, PartialEq, Eq, Structural)]
pub enum Error {
    /// The `Content-Type` is absent, is not `multipart/form-data`, or has no boundary.
    MissingOrInvalidContentType,
    /// The body ended before the terminal boundary was seen.
    TruncatedStream,
    /// A part's headers have no field name, bad quoting, or are too long.
    MalformedPartHeader,
    /// A field's name is not among the allowed ones.
    DisallowedFieldName,
    /// The bytes of all fields together went over the whole-stream limit.
    WholeStreamLimitExceeded,
    /// The bytes of one field went over its limit.
    PerFieldLimitExceeded,
    /// The body's source failed.
    UpstreamIoError,
}

impl Error {
    /// A short description of the failure.
    pub fn message(&self) -> (r: &'static str) {
        match self {
            Error::MissingOrInvalidContentType => "Content-Type is not multipart/form-data",
            Error::TruncatedStream => "the multipart stream ended before its terminal boundary",
            Error::MalformedPartHeader => "a part's headers are malformed",
            Error::DisallowedFieldName => "a field's name is not allowed",
            Error::WholeStreamLimitExceeded => "the whole-stream size limit was exceeded",
            Error::PerFieldLimitExceeded => "a field's size limit was exceeded",
            Error::UpstreamIoError => "the request body could not be read",
        }
    }
}

} // verus!
