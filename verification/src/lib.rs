//! A minimal HTTP/1.1 server engine.
//!
//! The library reconstructs well-formed HTTP requests from arbitrarily
//! fragmented byte streams, decodes fixed-length and chunked request bodies
//! (optionally gzip/deflate compressed), and serializes responses back onto
//! the wire.  The connection pipeline lives in [`worker`]; the chunked
//! transfer-coding state machine in [`chunk_handler`]; header parsing in
//! [`request`]; response rendering in [`response`].

pub mod chunk_handler;
pub mod content_type;
pub mod encoding;
pub mod http_error;
pub mod mock;
pub mod request;
pub mod response;
pub mod worker;
