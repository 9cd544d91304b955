//! The encoding adapter: gzip and deflate decompression behind a
//! two-variant capability.
//!
//! Decompression itself is done by the `flate2` crate.  What a decoder
//! returns is a pure function of its input bytes, so each scheme's result is
//! given a name — [`gzip_inflate`], [`deflate_inflate`] — and the contracts
//! of this module speak through those names: `None` stands for an input the
//! decoder rejects, `Some` for the decompressed bytes.

use std::io::Read;

use vstd::prelude::*;

use crate::http_error::HttpError;

verus! {

/// A recognized `Content-Encoding` scheme.
#[derive(Debug, Clone, Copy, PartialEq, Eq, Structural)]
pub enum Encoding {
    Gzip,
    Deflate,
}

/// What gzip decompression yields on the given input: the decompressed
/// bytes, or `None` when the input is rejected.  The result depends on the
/// input bytes alone.
pub uninterp spec fn gzip_inflate(data: Seq<u8>) -> Option<Seq<u8>>;

/// What deflate decompression yields on the given input; `None` when the
/// input is rejected.  The result depends on the input bytes alone.
pub uninterp spec fn deflate_inflate(data: Seq<u8>) -> Option<Seq<u8>>;

/// Relies on `flate2::read::GzDecoder`: reading it to the end decompresses
/// the gzip stream `data`, failing on malformed input; the outcome is a
/// function of `data` alone.
#[verifier::external_body]
fn gzip(data: &[u8]) -> (r: Result<Vec<u8>, HttpError>)
    ensures
        match r {
            Ok(out) => gzip_inflate(data@) == Some(out@),
            Err(e) => gzip_inflate(data@) is None && e == HttpError::Error500,
        },
{
    let mut decoder = flate2::read::GzDecoder::new(data);
    let mut retval = Vec::new();
    match decoder.read_to_end(&mut retval) {
        Ok(_) => Ok(retval),
        Err(_) => Err(HttpError::Error500),
    }
}

/// Relies on `flate2::read::DeflateDecoder`: reading it to the end
/// decompresses the raw deflate stream `data`, failing on malformed input;
/// the outcome is a function of `data` alone.
#[verifier::external_body]
fn deflate(data: &[u8]) -> (r: Result<Vec<u8>, HttpError>)
    ensures
        match r {
            Ok(out) => deflate_inflate(data@) == Some(out@),
            Err(e) => deflate_inflate(data@) is None && e == HttpError::Error500,
        },
{
    let mut decoder = flate2::read::DeflateDecoder::new(data);
    let mut retval = Vec::new();
    match decoder.read_to_end(&mut retval) {
        Ok(_) => Ok(retval),
        Err(_) => Err(HttpError::Error500),
    }
}

/// What decompressing `data` under the given scheme yields.
pub open spec fn spec_uncompress(data: Seq<u8>, encoding: Encoding) -> Option<Seq<u8>> {
    match encoding {
        Encoding::Gzip => gzip_inflate(data),
        Encoding::Deflate => deflate_inflate(data),
    }
}

/// Decompresses `data` under the given scheme; a rejected input surfaces as
/// an internal failure.
pub fn uncompress(data: &[u8], encoding: Encoding) -> (r: Result<Vec<u8>, HttpError>)
    ensures
        match r {
            Ok(out) => spec_uncompress(data@, encoding) == Some(out@),
            Err(e) => spec_uncompress(data@, encoding) is None && e == HttpError::Error500,
        },
{
    match encoding {
        Encoding::Gzip => gzip(data),
        Encoding::Deflate => deflate(data),
    }
}

} // verus!
