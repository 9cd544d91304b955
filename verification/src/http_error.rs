//! The closed set of protocol-failure kinds.
//!
//! Every fallible operation of the engine reports one of these kinds; the
//! connection pipeline is the single place that turns a kind into an HTTP
//! error response.

use vstd::prelude::*;

verus! {

/// A protocol failure, each kind mapped to a fixed HTTP status.
#[derive(Debug, Clone, Copy, PartialEq, Eq, Structural)]
pub enum HttpError {
    /// Malformed request line, missing required framing header, or a
    /// malformed chunk terminator (status 400).
    Error400,
    /// Declared or accumulated body exceeds the configured maximum (413).
    Error413,
    /// Used by application-level handlers, not by the engine itself (404).
    Error404,
    /// Unrecognized `Content-Encoding` scheme (415).
    Error415,
    /// A chunk-size digit string that is not a valid non-negative decimal
    /// integer (500).
    ErrorParsingChunkSize,
    /// Any other failure surfaced from I/O or decompression (500).
    Error500,
}

impl HttpError {
    /// The HTTP status code served for this failure kind.
    pub fn status_code(&self) -> (status: u32)
        ensures
            status == self.spec_status_code(),
    {
        match self {
            HttpError::Error400 => 400,
            HttpError::Error413 => 413,
            HttpError::Error404 => 404,
            HttpError::Error415 => 415,
            HttpError::ErrorParsingChunkSize => 500,
            HttpError::Error500 => 500,
        }
    }

    /// The status code of each kind: 400, 413, 404, 415, and 500 for both
    /// chunk-size parse failures and internal failures.
    pub open spec fn spec_status_code(&self) -> u32 {
        match self {
            HttpError::Error400 => 400,
            HttpError::Error413 => 413,
            HttpError::Error404 => 404,
            HttpError::Error415 => 415,
            HttpError::ErrorParsingChunkSize => 500,
            HttpError::Error500 => 500,
        }
    }

    /// A short human-readable description of the failure.
    pub fn message(&self) -> (msg: &'static str)
        ensures
            msg@ == self.spec_message(),
    {
        match self {
            HttpError::Error400 => "Error 400: Bad Request",
            HttpError::Error413 => "Error 413: Content Too Large",
            HttpError::Error404 => "Error 404: Not Found",
            HttpError::Error415 => "Error 415: Unsupported Media Type",
            HttpError::ErrorParsingChunkSize => "Error 500: chunk header size not a valid number",
            HttpError::Error500 => "Error 500: Internal Server Error",
        }
    }

    /// The description text of each kind.
    pub open spec fn spec_message(&self) -> Seq<char> {
        match self {
            HttpError::Error400 => "Error 400: Bad Request"@,
            HttpError::Error413 => "Error 413: Content Too Large"@,
            HttpError::Error404 => "Error 404: Not Found"@,
            HttpError::Error415 => "Error 415: Unsupported Media Type"@,
            HttpError::ErrorParsingChunkSize => "Error 500: chunk header size not a valid number"@,
            HttpError::Error500 => "Error 500: Internal Server Error"@,
        }
    }
}

} // verus!
