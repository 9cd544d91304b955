//! The connection pipeline: one worker runs the request/response loop for a
//! single connection.
//!
//! The socket is abstracted as a [`ByteStream`]: its incoming bytes are
//! modeled as the sequence the peer delivers before closing, and reads hand
//! over successive prefixes of it in fragments of arbitrary size.  Every
//! contract of the pipeline is therefore a statement over the whole
//! delivered stream, independent of how reads split it: the worker
//! accumulates bytes until the CRLFCRLF header boundary, parses the header
//! block, acquires the body by Content-Length or by chunked transfer
//! coding, decompresses it if a Content-Encoding is declared, and carries
//! every byte past the current message over to the next one.

use vstd::prelude::*;
use vstd::string::StrSliceExecFns;

use crate::chunk_handler::chunk_feed;
use crate::chunk_handler::chunk_feed_bytes;
use crate::chunk_handler::init_model;
use crate::chunk_handler::lemma_chunk_feed_bytes_concat;
use crate::chunk_handler::lemma_chunk_feed_bytes_error_extends;
use crate::chunk_handler::lemma_feed_bytes_body_monotone;
use crate::chunk_handler::wf_chunk;
use crate::chunk_handler::ChunkHandler;
use crate::chunk_handler::ChunkState;
use crate::content_type::ContentType;
use crate::encoding::spec_uncompress;
use crate::encoding::Encoding;
use crate::http_error::HttpError;
use crate::request::is_chunked_value;
use crate::request::find_char;
use crate::request::spec_is_chunked_value;
use crate::request::spec_content_length;
use crate::request::spec_headers;
use crate::request::spec_is_body;
use crate::request::spec_lookup;
use crate::request::spec_tokens;
use crate::request::trim_in;
use crate::request::Request;
use crate::response::Response;

verus! {

/// A header block larger than this is rejected with `Error400`.
pub const MAX_HEADER_SIZE: usize = 16_000;

/// A body larger than this is rejected with `Error413`.
pub const MAX_BODY_SIZE: usize = 1024 * 1024;

/// One connection's bidirectional byte stream.
///
/// The incoming side is modeled as the sequence of bytes the peer delivers
/// before closing; reads consume successive prefixes of it, in fragments of
/// whatever size the transport happens to produce.  The outgoing side
/// collects everything written.  An implementation may fail any operation
/// with the error it maps transport failures to.
pub trait ByteStream {
    /// The bytes that remain to be delivered before the stream ends.  An
    /// implementation supplies its own model; the default stands only for
    /// implementations outside the verifier, of which nothing is proved.
    open spec fn incoming(&self) -> Seq<u8> {
        Seq::empty()
    }

    /// Everything written to the stream so far.
    open spec fn written(&self) -> Seq<u8> {
        Seq::empty()
    }

    /// Whether this stream is failure-free: its reads and writes never
    /// report a transport error (a read of more than the stream holds still
    /// fails).  The scripted mock is failure-free; a real transport is not,
    /// and an implementation outside the verifier inherits the default.
    open spec fn reliable(&self) -> bool {
        false
    }

    /// Blocking read of at most `max` bytes.  A successful read delivers
    /// the next bytes of the stream in order, and is empty only when the
    /// stream is exhausted — the peer closed — or `max` is zero.  Even a
    /// failed read consumes only from the front of the stream.
    fn read_some(&mut self, max: usize) -> (r: Result<Vec<u8>, HttpError>)
        ensures
            final(self).reliable() == old(self).reliable(),
            old(self).reliable() ==> r is Ok,
            match r {
                Ok(data) => {
                    &&& data@.len() <= max
                    &&& data@.len() <= old(self).incoming().len()
                    &&& data@ == old(self).incoming().take(data@.len() as int)
                    &&& final(self).incoming() == old(self).incoming().skip(data@.len() as int)
                    &&& final(self).written() == old(self).written()
                    &&& (data@.len() == 0 ==> old(self).incoming().len() == 0 || max == 0)
                },
                Err(_) => {
                    &&& final(self).written() == old(self).written()
                    &&& exists|k: int|
                        0 <= k <= old(self).incoming().len() && final(self).incoming() == old(
                            self,
                        ).incoming().skip(k)
                },
            },
    ;

    /// Blocking read of exactly `n` bytes; fails when the stream ends
    /// first.  Even a failed read consumes only from the front of the
    /// stream.
    fn read_exact(&mut self, n: usize) -> (r: Result<Vec<u8>, HttpError>)
        ensures
            final(self).reliable() == old(self).reliable(),
            old(self).reliable() && n <= old(self).incoming().len() ==> r is Ok,
            match r {
                Ok(data) => {
                    &&& n <= old(self).incoming().len()
                    &&& data@ == old(self).incoming().take(n as int)
                    &&& final(self).incoming() == old(self).incoming().skip(n as int)
                    &&& final(self).written() == old(self).written()
                },
                Err(_) => {
                    &&& final(self).written() == old(self).written()
                    &&& exists|k: int|
                        0 <= k <= old(self).incoming().len() && final(self).incoming() == old(
                            self,
                        ).incoming().skip(k)
                },
            },
    ;

    /// Writes all of `bytes`.  A failed write has sent some prefix of
    /// them.
    fn write_all(&mut self, bytes: &[u8]) -> (r: Result<(), HttpError>)
        ensures
            final(self).reliable() == old(self).reliable(),
            old(self).reliable() ==> r is Ok,
            match r {
                Ok(_) => final(self).written() == old(self).written() + bytes@ && final(self).incoming()
                    == old(self).incoming(),
                Err(_) => {
                    &&& final(self).incoming() == old(self).incoming()
                    &&& exists|p: Seq<u8>|
                        p.is_prefix_of(bytes@) && final(self).written() == old(self).written() + p
                },
            },
    ;
}

/// Whether the four bytes at `i` are CR LF CR LF.
pub open spec fn is_crlfcrlf_at(s: Seq<u8>, i: int) -> bool {
    s[i] == 13 && s[i + 1] == 10 && s[i + 2] == 13 && s[i + 3] == 10
}

/// The first position at or after `p` where CR LF CR LF starts, if any.
pub open spec fn find_crlfcrlf_from(s: Seq<u8>, p: int) -> Option<int>
    decreases s.len() - p,
    when 0 <= p <= s.len()
{
    if p + 4 > s.len() {
        None
    } else if is_crlfcrlf_at(s, p) {
        Some(p)
    } else {
        find_crlfcrlf_from(s, p + 1)
    }
}

/// The header boundary: the first position where CR LF CR LF starts.
pub open spec fn find_crlfcrlf(s: Seq<u8>) -> Option<int> {
    find_crlfcrlf_from(s, 0)
}

/// A boundary found in a prefix is the boundary of the whole stream.
pub proof fn lemma_find_crlfcrlf_prefix(s: Seq<u8>, t: Seq<u8>, p: int)
    requires
        s.is_prefix_of(t),
        0 <= p <= s.len(),
        find_crlfcrlf_from(s, p) is Some,
    ensures
        find_crlfcrlf_from(t, p) == find_crlfcrlf_from(s, p),
    decreases s.len() - p,
{
    if p + 4 <= s.len() {
        assert(s[p] == t[p] && s[p + 1] == t[p + 1] && s[p + 2] == t[p + 2] && s[p + 3] == t[p
            + 3]);
        if !is_crlfcrlf_at(s, p) {
            lemma_find_crlfcrlf_prefix(s, t, p + 1);
        }
    }
}

/// The scan never reports a position before its start.
proof fn lemma_find_crlfcrlf_from_ge(s: Seq<u8>, p: int)
    requires
        0 <= p <= s.len(),
        find_crlfcrlf_from(s, p) is Some,
    ensures
        find_crlfcrlf_from(s, p)->Some_0 >= p,
    decreases s.len() - p,
{
    if p + 4 <= s.len() && !is_crlfcrlf_at(s, p) {
        lemma_find_crlfcrlf_from_ge(s, p + 1);
    }
}

/// A boundary that a prefix misses lies beyond that prefix.
proof fn lemma_boundary_beyond_prefix(lo: Seq<u8>, t: Seq<u8>, p: int)
    requires
        lo.is_prefix_of(t),
        0 <= p <= lo.len(),
        find_crlfcrlf_from(lo, p) is None,
        find_crlfcrlf_from(t, p) is Some,
    ensures
        find_crlfcrlf_from(t, p)->Some_0 + 4 > lo.len(),
    decreases lo.len() - p,
{
    if p + 4 <= lo.len() {
        assert(lo[p] == t[p] && lo[p + 1] == t[p + 1] && lo[p + 2] == t[p + 2] && lo[p + 3] == t[p
            + 3]);
        assert(!is_crlfcrlf_at(t, p));
        lemma_boundary_beyond_prefix(lo, t, p + 1);
    } else {
        lemma_find_crlfcrlf_from_ge(t, p);
    }
}

/// Scans a buffer for the header boundary.
pub fn get_double_crcn_index(buffer: &[u8]) -> (r: Option<usize>)
    ensures
        match r {
            Some(i) => i + 4 <= buffer@.len() && find_crlfcrlf(buffer@) == Some(i as int),
            None => find_crlfcrlf(buffer@) is None,
        },
{
    if buffer.len() < 4 {
        return None;
    }
    let end = buffer.len() - 3;
    let mut i: usize = 0;
    while i < end
        invariant
            end == buffer@.len() - 3,
            4 <= buffer@.len(),
            i <= end,
            find_crlfcrlf(buffer@) == find_crlfcrlf_from(buffer@, i as int),
        decreases buffer@.len() - i,
    {
        if buffer[i] == 13 && buffer[i + 1] == 10 && buffer[i + 2] == 13 && buffer[i + 3] == 10 {
            return Some(i);
        }
        i += 1;
    }
    None
}

/// One worker owns one connection: its stream, the bytes already read past
/// the previous message, and the peer's address for reporting.
pub struct Worker<T: ByteStream> {
    pub socket: T,
    pub leftover: Vec<u8>,
    pub peer: String,
}

impl<T: ByteStream> Worker<T> {
    /// A worker for a fresh connection: nothing carried over yet.
    pub fn new(socket: T, peer: String) -> (r: Self)
        ensures
            r.socket == socket,
            r.leftover@ == Seq::<u8>::empty(),
            r.peer == peer,
    {
        Self { socket, leftover: Vec::new(), peer }
    }

    /// Reads the remainder of a fixed-length body from the socket: the
    /// declared length exceeds what the header read already delivered.
    fn read_remaining(&mut self, buffer: &[u8], body_length: usize) -> (r: Result<
        Vec<u8>,
        HttpError,
    >)
        requires
            buffer@.len() < body_length,
        ensures
            final(self).socket.reliable() == old(self).socket.reliable(),
            old(self).socket.reliable() && body_length - buffer@.len() <= old(
                self,
            ).socket.incoming().len() ==> r is Ok,
            exists|k: int|
                0 <= k <= old(self).socket.incoming().len() && final(self).socket.incoming()
                    == old(self).socket.incoming().skip(k),
            match r {
                Ok(rem) => {
                    &&& body_length - buffer@.len() <= old(self).socket.incoming().len()
                    &&& rem@.len() == body_length - buffer@.len()
                    &&& rem@ == old(self).socket.incoming().take(body_length - buffer@.len())
                    &&& final(self).socket.incoming() == old(self).socket.incoming().skip(
                        body_length - buffer@.len(),
                    )
                    &&& final(self).socket.written() == old(self).socket.written()
                    &&& final(self).leftover == old(self).leftover
                    &&& final(self).peer == old(self).peer
                },
                Err(_) => {
                    &&& final(self).socket.written() == old(self).socket.written()
                    &&& final(self).leftover == old(self).leftover
                    &&& final(self).peer == old(self).peer
                },
            },
    {
        let remaining_size = body_length - buffer.len();
        let r = self.socket.read_exact(remaining_size);
        proof {
            if r is Ok {
                assert(self.socket.incoming() == old(self).socket.incoming().skip(
                    remaining_size as int,
                ));
            }
        }
        r
    }

    /// Concatenates the bytes delivered with the header read and the rest
    /// read from the socket into one body.
    fn assemble_buffer_with_remaining(
        &self,
        buffer: &[u8],
        remaining_buffer: &[u8],
        body_length: usize,
    ) -> (r: Result<Vec<u8>, HttpError>)
        ensures
            match r {
                Ok(body) => body@ == buffer@ + remaining_buffer@,
                Err(_) => false,
            },
    {
        let mut body: Vec<u8> = Vec::with_capacity(body_length);
        body.extend_from_slice(buffer);
        body.extend_from_slice(remaining_buffer);
        proof {
            assert(Seq::<u8>::empty() + buffer@ =~= buffer@);
        }
        Ok(body)
    }

    /// Slices a fixed-length body out of the bytes at hand, reading the
    /// remainder from the socket when they do not suffice.  Bytes beyond
    /// the declared length are the next message's and become the carried
    /// leftover.  When the bytes at hand already cover the declared length,
    /// the socket is not touched.
    fn handle_content_length_body(&mut self, buffer: &[u8], body_length: usize) -> (r: Result<
        Vec<u8>,
        HttpError,
    >)
        requires
            old(self).leftover@.len() == 0,
        ensures
            final(self).socket.reliable() == old(self).socket.reliable(),
            body_length <= buffer@.len() ==> r is Ok,
            old(self).socket.reliable() && body_length <= buffer@.len() + old(
                self,
            ).socket.incoming().len() ==> r is Ok,
            exists|k: int|
                0 <= k <= old(self).socket.incoming().len() && final(self).socket.incoming()
                    == old(self).socket.incoming().skip(k),
            match r {
                Ok(body) => {
                    let t = buffer@ + old(self).socket.incoming();
                    &&& body_length <= t.len()
                    &&& body@ == t.take(body_length as int)
                    &&& final(self).leftover@ + final(self).socket.incoming() == t.skip(
                        body_length as int,
                    )
                    &&& final(self).socket.written() == old(self).socket.written()
                    &&& (body_length <= buffer@.len() ==> final(self).socket == old(self).socket)
                    &&& final(self).peer == old(self).peer
                },
                Err(_) => {
                    &&& buffer@.len() < body_length
                    &&& final(self).socket.written() == old(self).socket.written()
                    &&& final(self).leftover == old(self).leftover
                    &&& final(self).peer == old(self).peer
                },
            },
    {
        let ghost t = buffer@ + old(self).socket.incoming();
        proof {
            assert(old(self).socket.incoming() =~= old(self).socket.incoming().skip(0));
        }
        if body_length < buffer.len() {
            self.leftover = vstd::slice::slice_to_vec(
                vstd::slice::slice_subrange(buffer, body_length, buffer.len()),
            );
            let body = vstd::slice::slice_to_vec(
                vstd::slice::slice_subrange(buffer, 0, body_length),
            );
            proof {
                assert(body@ =~= t.take(body_length as int));
                assert(self.leftover@ + self.socket.incoming() =~= t.skip(body_length as int));
            }
            Ok(body)
        } else if body_length == buffer.len() {
            let body = vstd::slice::slice_to_vec(buffer);
            proof {
                assert(body@ =~= t.take(body_length as int));
                assert(self.leftover@ + self.socket.incoming() =~= t.skip(body_length as int));
            }
            Ok(body)
        } else {
            match self.read_remaining(buffer, body_length) {
                Ok(remaining_buffer) => {
                    let body = match self.assemble_buffer_with_remaining(
                        buffer,
                        remaining_buffer.as_slice(),
                        body_length,
                    ) {
                        Ok(b) => b,
                        Err(e) => {
                            return Err(e);
                        },
                    };
                    proof {
                        assert(body@ == buffer@ + remaining_buffer@);
                        assert(remaining_buffer@ == old(self).socket.incoming().take(
                            body_length - buffer@.len(),
                        ));
                        assert(body_length - buffer@.len() <= old(self).socket.incoming().len());
                        assert(t.len() >= body_length);
                        assert(self.leftover@ =~= Seq::<u8>::empty());
                        assert(body@ =~= t.take(body_length as int));
                        assert(self.leftover@ + self.socket.incoming() =~= t.skip(
                            body_length as int,
                        ));
                    }
                    Ok(body)
                },
                Err(e) => Err(e),
            }
        }
    }
}

/// What decoding the body under the declared `Content-Encoding` yields:
/// without the header the raw bytes pass through; a recognized scheme must
/// decompress them; an unrecognized scheme never yields a body.
pub open spec fn decoded(hs: Seq<(Seq<char>, Seq<char>)>, raw: Seq<u8>, body: Seq<u8>) -> bool {
    match spec_lookup(hs, "Content-Encoding"@) {
        None => body == raw,
        Some(v) => match spec_encoding_of(v) {
            Some(enc) => spec_uncompress(raw, enc) == Some(body),
            None => false,
        },
    }
}

/// How a message's raw body and the carried leftover relate to the bytes
/// `t` that follow the header block on the wire.  With a `Transfer-Encoding`
/// header, some prefix of `t` drives the chunk machine to completion: the
/// raw body is what it accumulated, and the leftover is what it captured
/// past the terminator plus everything not yet consumed.  Otherwise the
/// declared `Content-Length` takes that many bytes and leaves the rest.
pub open spec fn raw_body_outcome(
    hs: Seq<(Seq<char>, Seq<char>)>,
    raw: Seq<u8>,
    t: Seq<u8>,
    carry: Seq<u8>,
) -> bool {
    match spec_lookup(hs, "Transfer-Encoding"@) {
        Some(v) => {
            &&& spec_is_chunked_value(v)
            &&& exists|m: int|
                {
                    let fed = chunk_feed_bytes(init_model(), #[trigger] t.take(m));
                    &&& 0 <= m <= t.len()
                    &&& fed is Ok
                    &&& fed->Ok_0.state is Done
                    &&& raw == fed->Ok_0.body
                    &&& carry == fed->Ok_0.leftover + t.skip(m)
                }
        },
        None => match spec_content_length(hs) {
            Some(n) => n <= MAX_BODY_SIZE && n <= t.len() && raw == t.take(n as int) && carry
                == t.skip(n as int),
            None => false,
        },
    }
}

/// The whole outcome of one message: a request without a declared body
/// keeps every byte after the header block for the next message; one with a
/// body takes its raw bytes as [`raw_body_outcome`] says and decodes them as
/// [`decoded`] says.
pub open spec fn message_outcome(
    hs: Seq<(Seq<char>, Seq<char>)>,
    body: Seq<u8>,
    rest: Seq<u8>,
    carry: Seq<u8>,
) -> bool {
    if !spec_is_body(hs) {
        body == Seq::<u8>::empty() && carry == rest
    } else {
        exists|raw: Seq<u8>|
            #[trigger] raw_body_outcome(hs, raw, rest, carry) && decoded(hs, raw, body)
    }
}

/// Composing suffixes: consuming more still leaves a suffix of the
/// original stream.
proof fn lemma_skip_skip(s: Seq<u8>, a: int, b: int)
    requires
        0 <= a,
        0 <= b,
        a + b <= s.len(),
    ensures
        s.skip(a).skip(b) == s.skip(a + b),
{
    assert(s.skip(a).skip(b) =~= s.skip(a + b));
}

/// Serving one message always consumes ground: the carried leftover is
/// never longer than the bytes that followed the header block.
proof fn lemma_outcome_carry_shrinks(
    hs: Seq<(Seq<char>, Seq<char>)>,
    body: Seq<u8>,
    rest: Seq<u8>,
    carry: Seq<u8>,
)
    requires
        message_outcome(hs, body, rest, carry),
    ensures
        carry.len() <= rest.len(),
{
    if spec_is_body(hs) {
        let raw = choose|raw: Seq<u8>|
            #[trigger] raw_body_outcome(hs, raw, rest, carry) && decoded(hs, raw, body);
        match spec_lookup(hs, "Transfer-Encoding"@) {
            Some(v) => {
                let m = choose|m: int|
                    {
                        let fed = chunk_feed_bytes(init_model(), #[trigger] rest.take(m));
                        &&& 0 <= m <= rest.len()
                        &&& fed is Ok
                        &&& fed->Ok_0.state is Done
                        &&& raw == fed->Ok_0.body
                        &&& carry == fed->Ok_0.leftover + rest.skip(m)
                    };
                let fed = chunk_feed_bytes(init_model(), rest.take(m));
                if m == 0 {
                    assert(rest.take(0) =~= Seq::<u8>::empty());
                    assert(fed == Ok::<_, HttpError>(init_model()));
                    assert(false);
                }
                crate::chunk_handler::lemma_feed_bytes_leftover_bound(init_model(), rest.take(m));
            },
            None => {},
        }
    }
}

/// The chunked body completes somewhere in the stream `t`, within the size
/// bound: feeding all of `t` ends `Done` — completion absorbs any tail into
/// the leftover — with the accumulated body under the maximum.
pub open spec fn chunked_complete_in_stream(t: Seq<u8>) -> bool {
    let fed = chunk_feed_bytes(init_model(), t);
    &&& fed is Ok
    &&& fed->Ok_0.state is Done
    &&& fed->Ok_0.body.len() < MAX_BODY_SIZE
}

/// The body of a message is already decided by the bytes `rest` at hand:
/// a declared length they cover, within the maximum, or a chunked body the
/// machine completes on them alone.
pub open spec fn body_complete_in(hs: Seq<(Seq<char>, Seq<char>)>, rest: Seq<u8>) -> bool {
    match spec_lookup(hs, "Transfer-Encoding"@) {
        Some(v) => spec_is_chunked_value(v) && ({
            let fed = chunk_feed(init_model(), rest);
            fed is Ok && fed->Ok_0.state is Done
        }),
        None => match spec_content_length(hs) {
            Some(n) => n <= MAX_BODY_SIZE && n <= rest.len(),
            None => false,
        },
    }
}

/// The body of a message is decided by the stream `t` as a whole: a
/// declared length the stream covers, within the maximum, or a chunked body
/// the machine completes within it.
pub open spec fn body_complete_in_stream(hs: Seq<(Seq<char>, Seq<char>)>, t: Seq<u8>) -> bool {
    match spec_lookup(hs, "Transfer-Encoding"@) {
        Some(v) => spec_is_chunked_value(v) && chunked_complete_in_stream(t),
        None => match spec_content_length(hs) {
            Some(n) => n <= MAX_BODY_SIZE && n <= t.len(),
            None => false,
        },
    }
}

/// A whole message already decided by the bytes at hand: the header block
/// is complete and parses, no decompression is declared, and the body — if
/// one is declared — lies within the bytes after the boundary.  Serving
/// such a message needs no stream call and cannot fail.
pub open spec fn complete_in_hand(s: Seq<u8>) -> bool {
    &&& find_crlfcrlf(s) is Some
    &&& ({
        let i = find_crlfcrlf(s)->Some_0;
        let head = utf8_lossy(s.subrange(0, i));
        let hs = spec_headers(head);
        &&& spec_tokens(head).len() >= 3
        &&& spec_lookup(hs, "Content-Encoding"@) is None
        &&& (spec_is_body(hs) ==> body_complete_in(hs, s.skip(i + 4)))
    })
}

/// A whole message decided by the stream `s` as a whole: the header
/// boundary appears within the size limit, the request line parses, no
/// decompression is declared, and the body — if any — is covered by the
/// remaining stream.  On a failure-free stream, serving such a message
/// cannot fail.
pub open spec fn complete_in_stream(s: Seq<u8>) -> bool {
    &&& find_crlfcrlf(s) is Some
    &&& ({
        let i = find_crlfcrlf(s)->Some_0;
        let head = utf8_lossy(s.subrange(0, i));
        let hs = spec_headers(head);
        &&& i + 4 <= MAX_HEADER_SIZE + 1
        &&& spec_tokens(head).len() >= 3
        &&& spec_lookup(hs, "Content-Encoding"@) is None
        &&& (spec_is_body(hs) ==> body_complete_in_stream(hs, s.skip(i + 4)))
    })
}

/// The scheme a `Content-Encoding` value names: its first space-delimited
/// piece, trimmed, matched exactly.
pub open spec fn spec_encoding_of(v: Seq<char>) -> Option<Encoding> {
    let e = find_char(v, 0, v.len() as int, ' ');
    let w = trim_in(v, 0, e);
    if w == "gzip"@ {
        Some(Encoding::Gzip)
    } else if w == "deflate"@ {
        Some(Encoding::Deflate)
    } else {
        None
    }
}

/// Resolves a `Content-Encoding` value to a known scheme.
pub fn get_encoding(encoding: &str) -> (r: Option<Encoding>)
    ensures
        r == spec_encoding_of(encoding@),
{
    let n = encoding.unicode_len();
    let e = crate::request::find_char_at(encoding, 0, n, ' ');
    let a = crate::request::skip_ws_at(encoding, 0, e);
    let b = crate::request::trim_end_at(encoding, a, e);
    let w = crate::request::substring_string(encoding, a, b);
    if w == "gzip".to_owned() {
        Some(Encoding::Gzip)
    } else if w == "deflate".to_owned() {
        Some(Encoding::Deflate)
    } else {
        None
    }
}

/// What lossy UTF-8 decoding makes of the given bytes; a function of the
/// bytes alone.
pub uninterp spec fn utf8_lossy(bytes: Seq<u8>) -> Seq<char>;

/// Relies on `String::from_utf8_lossy`: the decoding is a function of the
/// bytes alone, and a sequence of bytes below 0x80 — plain ASCII — is valid
/// UTF-8 and decodes to exactly those characters.
#[verifier::external_body]
fn bytes_to_text(bytes: &[u8]) -> (r: String)
    ensures
        r@ == utf8_lossy(bytes@),
        (forall|i: int| 0 <= i < bytes@.len() ==> bytes@[i] < 0x80) ==> r@ == bytes@.map_values(
            |b: u8| b as char,
        ),
{
    String::from_utf8_lossy(bytes).into_owned()
}

/// The response served when a request fails: the kind's status code and its
/// description as the body.
fn error_response(error: &HttpError) -> (r: Response)
    ensures
        r.status == error.spec_status_code(),
        r.body@ == vstd::utf8::encode_utf8(error.spec_message()),
{
    let status = error.status_code();
    let msg = error.message();
    let body = msg.as_bytes_vec();
    Response::new(status, body, Vec::new(), ContentType::TextHtml)
}

/// Every response the loop sends is accounted for: it is a possible output
/// of the handler, or it carries the status of one of the failure kinds.
pub open spec fn response_accounted<F: Fn(Request) -> Response>(f: F, resp: Response) -> bool {
    (exists|req: Request| call_ensures(f, (req,), resp)) || (exists|e: HttpError|
    resp.status == e.spec_status_code())
}

/// The exact bytes a response puts on the wire.
pub open spec fn spec_wire(resp: Response) -> Seq<u8> {
    vstd::utf8::encode_utf8(resp.spec_head()) + resp.body@
}

/// The concatenated wire forms of a list of responses, in order.
pub open spec fn concat_wires(rs: Seq<Response>) -> Seq<u8>
    decreases rs.len(),
{
    if rs.len() == 0 {
        Seq::empty()
    } else {
        spec_wire(rs.first()) + concat_wires(rs.drop_first())
    }
}

/// Every response in the list is accounted for.
pub open spec fn all_accounted<F: Fn(Request) -> Response>(f: F, rs: Seq<Response>) -> bool {
    forall|i: int| 0 <= i < rs.len() ==> response_accounted(f, #[trigger] rs[i])
}

/// What the connection loop sends: the stream's written bytes grow by the
/// wire forms of accounted responses, in order — possibly cut short by a
/// failed write, which leaves a prefix of one more accounted response.
pub open spec fn wrote_accounted<F: Fn(Request) -> Response>(
    f: F,
    w0: Seq<u8>,
    w1: Seq<u8>,
) -> bool {
    exists|rs: Seq<Response>, partial: Seq<u8>|
        {
            &&& all_accounted(f, rs)
            &&& (partial.len() == 0 || exists|resp: Response|
                response_accounted(f, resp) && partial.is_prefix_of(spec_wire(resp)))
            &&& w1 == w0 + #[trigger] (concat_wires(rs) + partial)
        }
}

proof fn lemma_wrote_accounted_intro<F: Fn(Request) -> Response>(
    f: F,
    w0: Seq<u8>,
    w1: Seq<u8>,
    rs: Seq<Response>,
    partial: Seq<u8>,
)
    requires
        all_accounted(f, rs),
        partial.len() == 0 || exists|resp: Response|
            response_accounted(f, resp) && partial.is_prefix_of(spec_wire(resp)),
        w1 == w0 + (concat_wires(rs) + partial),
    ensures
        wrote_accounted(f, w0, w1),
{
}

/// Sending one more response appends its wire form.
proof fn lemma_concat_wires_snoc(rs: Seq<Response>, resp: Response)
    ensures
        concat_wires(rs.push(resp)) == concat_wires(rs) + spec_wire(resp),
    decreases rs.len(),
{
    if rs.len() == 0 {
        assert(rs.push(resp).first() == resp);
        assert(rs.push(resp).drop_first() =~= Seq::<Response>::empty());
        assert(spec_wire(resp) + concat_wires(Seq::<Response>::empty()) =~= spec_wire(resp));
        assert(concat_wires(rs) + spec_wire(resp) =~= spec_wire(resp));
    } else {
        assert(rs.push(resp).first() == rs.first());
        assert(rs.push(resp).drop_first() =~= rs.drop_first().push(resp));
        lemma_concat_wires_snoc(rs.drop_first(), resp);
        assert(spec_wire(rs.first()) + (concat_wires(rs.drop_first()) + spec_wire(resp)) =~= (
        spec_wire(rs.first()) + concat_wires(rs.drop_first())) + spec_wire(resp));
    }
}

impl<T: ByteStream> Worker<T> {
    /// Runs the request/response loop until the peer closes, a write
    /// fails, or an error response ends the connection.  What is written is
    /// each response's wire bytes in order; the loop itself blocks on the
    /// stream, so nothing more can be promised of its outcome.
    pub fn run<F: Fn(Request) -> Response + Copy>(&mut self, handle_client: F)
        requires
            forall|req: Request| call_requires(handle_client, (req,)),
        ensures
            wrote_accounted(
                handle_client,
                old(self).socket.written(),
                final(self).socket.written(),
            ),
    {
        let ghost mut sent: Seq<Response> = Seq::empty();
        proof {
            assert(old(self).socket.written() + concat_wires(sent) =~= old(
                self,
            ).socket.written());
        }
        loop
            invariant
                forall|req: Request| call_requires(handle_client, (req,)),
                all_accounted(handle_client, sent),
                self.socket.written() == old(self).socket.written() + concat_wires(sent),
            decreases self.leftover@.len() + self.socket.incoming().len(),
        {
            match self.get_response(handle_client) {
                Some(response) => {
                    let bytes = response.as_bytes();
                    proof {
                        assert(bytes@ == spec_wire(response));
                    }
                    let ghost w_before = self.socket.written();
                    match self.socket.write_all(bytes.as_slice()) {
                        Ok(_) => {},
                        Err(_) => {
                            proof {
                                let p = choose|p: Seq<u8>|
                                    p.is_prefix_of(bytes@) && self.socket.written() == w_before
                                        + p;
                                assert(p.len() == 0 || exists|resp: Response|
                                    response_accounted(handle_client, resp) && p.is_prefix_of(
                                        spec_wire(resp),
                                    )) by {
                                    if p.len() > 0 {
                                        assert(response_accounted(handle_client, response)
                                            && p.is_prefix_of(spec_wire(response)));
                                    }
                                }
                                assert(self.socket.written() =~= old(self).socket.written() + (
                                concat_wires(sent) + p));
                                lemma_wrote_accounted_intro(
                                    handle_client,
                                    old(self).socket.written(),
                                    self.socket.written(),
                                    sent,
                                    p,
                                );
                            }
                            return;
                        },
                    }
                    proof {
                        lemma_concat_wires_snoc(sent, response);
                        sent = sent.push(response);
                        assert(all_accounted(handle_client, sent)) by {
                            assert(forall|i: int|
                                0 <= i < sent.len() - 1 ==> #[trigger] sent[i]
                                    == sent.drop_last()[i]);
                            assert(sent[sent.len() - 1] == response);
                        }
                        assert(self.socket.written() =~= old(self).socket.written()
                            + concat_wires(sent));
                    }
                    if response.is_error_status() {
                        proof {
                            assert(self.socket.written() =~= old(self).socket.written() + (
                            concat_wires(sent) + Seq::<u8>::empty()));
                            lemma_wrote_accounted_intro(
                                handle_client,
                                old(self).socket.written(),
                                self.socket.written(),
                                sent,
                                Seq::empty(),
                            );
                        }
                        return;
                    }
                },
                None => {
                    proof {
                        assert(self.socket.written() =~= old(self).socket.written() + (
                        concat_wires(sent) + Seq::<u8>::empty()));
                        lemma_wrote_accounted_intro(
                            handle_client,
                            old(self).socket.written(),
                            self.socket.written(),
                            sent,
                            Seq::empty(),
                        );
                    }
                    return;
                },
            }
        }
    }

    /// One turn of the loop: the handler's response for the next request,
    /// an error response for a failed one, nothing on clean close.
    fn get_response<F: Fn(Request) -> Response + Copy>(&mut self, handle_client: F) -> (r: Option<
        Response,
    >)
        requires
            forall|req: Request| call_requires(handle_client, (req,)),
        ensures
            final(self).socket.written() == old(self).socket.written(),
            r matches Some(resp) ==> response_accounted(handle_client, resp),
            r matches Some(resp) && resp.status < 400 ==> final(self).leftover@.len()
                + final(self).socket.incoming().len() < old(self).leftover@.len()
                + old(self).socket.incoming().len(),
    {
        match self.get_request() {
            Ok(opt) => match opt {
                Some(request) => {
                    let ghost req_snapshot = request;
                    let resp = handle_client(request);
                    proof {
                        assert(response_accounted(handle_client, resp)) by {
                            assert(call_ensures(handle_client, (req_snapshot,), resp));
                        }
                    }
                    Some(resp)
                },
                None => None,
            },
            Err(error) => {
                let resp = error_response(&error);
                proof {
                    assert(response_accounted(handle_client, resp)) by {
                        assert(resp.status == error.spec_status_code());
                    }
                }
                Some(resp)
            },
        }
    }

    /// Assembles the next request from the connection.
    ///
    /// Bytes carried over from the previous message are consumed first,
    /// then reads accumulate until the CRLFCRLF header boundary appears;
    /// the contract below is stated over that whole stream, so it holds for
    /// every fragmentation the transport produces.  `Ok(None)` is a clean
    /// close: the peer's stream ended without starting another request.
    /// Whatever follows the current message — its boundary given by the
    /// header block and the body framing — is carried, complete and
    /// unduplicated, in the new leftover plus the unread stream.
    ///
    /// Outcomes the bytes decide are promised, not merely permitted: a
    /// message complete in the carried leftover is served without touching
    /// the stream, and a leftover whose header block is short a token,
    /// oversized, missing its framing header or oversized in its declared
    /// length draws its exact error.  On a failure-free stream the same
    /// holds for the stream as a whole: a complete message is served, a
    /// stream that ends without a boundary is a clean close within the size
    /// limit and a `Error400` beyond it.  Transport failures may surface as
    /// an error at any point; even then the stream has only been consumed
    /// from the front and nothing has been written.
    pub fn get_request(&mut self) -> (r: Result<Option<Request>, HttpError>)
        ensures
            final(self).socket.written() == old(self).socket.written(),
            final(self).socket.reliable() == old(self).socket.reliable(),
            final(self).peer == old(self).peer,
            complete_in_hand(old(self).leftover@) ==> r is Ok && r->Ok_0 is Some,
            old(self).socket.reliable() && complete_in_stream(
                old(self).leftover@ + old(self).socket.incoming(),
            ) ==> r is Ok && r->Ok_0 is Some,
            old(self).socket.reliable() && find_crlfcrlf(
                old(self).leftover@ + old(self).socket.incoming(),
            ) is None && old(self).leftover@.len() + old(self).socket.incoming().len()
                <= MAX_HEADER_SIZE ==> r == Ok::<Option<Request>, HttpError>(None),
            old(self).socket.reliable() && find_crlfcrlf(
                old(self).leftover@ + old(self).socket.incoming(),
            ) is None && old(self).leftover@.len() + old(self).socket.incoming().len()
                > MAX_HEADER_SIZE ==> r == Err::<Option<Request>, HttpError>(HttpError::Error400),
            ({
                let lo = old(self).leftover@;
                &&& (find_crlfcrlf(lo) is Some && spec_tokens(
                    utf8_lossy(lo.subrange(0, find_crlfcrlf(lo)->Some_0)),
                ).len() < 3 ==> r == Err::<Option<Request>, HttpError>(HttpError::Error400))
                &&& (find_crlfcrlf(lo) is None && lo.len() > MAX_HEADER_SIZE ==> r == Err::<
                    Option<Request>,
                    HttpError,
                >(HttpError::Error400))
                &&& (find_crlfcrlf(lo) is Some && ({
                    let head = utf8_lossy(lo.subrange(0, find_crlfcrlf(lo)->Some_0));
                    let hs = spec_headers(head);
                    &&& spec_tokens(head).len() >= 3
                    &&& spec_is_body(hs)
                    &&& spec_lookup(hs, "Transfer-Encoding"@) is None
                    &&& spec_content_length(hs) is None
                }) ==> r == Err::<Option<Request>, HttpError>(HttpError::Error400))
                &&& (find_crlfcrlf(lo) is Some && ({
                    let head = utf8_lossy(lo.subrange(0, find_crlfcrlf(lo)->Some_0));
                    let hs = spec_headers(head);
                    &&& spec_tokens(head).len() >= 3
                    &&& spec_lookup(hs, "Transfer-Encoding"@) is None
                    &&& (match spec_content_length(hs) {
                        Some(n) => n > MAX_BODY_SIZE,
                        None => false,
                    })
                }) ==> r == Err::<Option<Request>, HttpError>(HttpError::Error413)
                    && final(self).socket == old(self).socket)
            }),
            ({
                let s0 = old(self).leftover@ + old(self).socket.incoming();
                match r {
                    Ok(opt) => match opt {
                        Some(req) => {
                            &&& find_crlfcrlf(s0) is Some
                            &&& final(self).leftover@.len() + final(self).socket.incoming().len()
                                < s0.len()
                            &&& ({
                                let i = find_crlfcrlf(s0)->Some_0;
                                let head = utf8_lossy(s0.subrange(0, i));
                                let rest = s0.skip(i + 4);
                                &&& spec_tokens(head).len() >= 3
                                &&& req.method@ == spec_tokens(head)[0]
                                &&& req.uri@ == spec_tokens(head)[1]
                                &&& req.version@ == spec_tokens(head)[2]
                                &&& req.hdrs() == spec_headers(head)
                                &&& message_outcome(
                                    req.hdrs(),
                                    req.body@,
                                    rest,
                                    final(self).leftover@ + final(self).socket.incoming(),
                                )
                            })
                        },
                        None => find_crlfcrlf(s0) is None && final(self).socket.incoming().len()
                            == 0,
                    },
                    Err(e) => exists|k: int|
                        0 <= k <= old(self).socket.incoming().len()
                            && final(self).socket.incoming() == old(self).socket.incoming().skip(k),
                }
            }),
    {
        let ghost s0 = old(self).leftover@ + old(self).socket.incoming();
        let ghost lo = old(self).leftover@;
        let mut buffer: Vec<u8> = Vec::new();
        buffer.append(&mut self.leftover);
        proof {
            assert(buffer@ =~= lo);
            assert(buffer@ =~= s0.take(buffer@.len() as int));
            assert(self.socket.incoming() =~= s0.skip(buffer@.len() as int));
        }
        // a message whose header boundary already lies in the carried bytes
        // is served — or refused — without touching the stream
        if let Some(index) = get_double_crcn_index(buffer.as_slice()) {
            proof {
                assert(lo.is_prefix_of(s0));
                lemma_find_crlfcrlf_prefix(lo, s0, 0);
                assert(buffer@.subrange(0, index as int) =~= lo.subrange(0, index as int));
                assert(buffer@.skip(index as int + 4) =~= lo.skip(index as int + 4));
                assert(buffer@.subrange(0, index as int) =~= s0.subrange(0, index as int));
                assert(buffer@.skip(index as int + 4) + s0.skip(buffer@.len() as int) =~= s0.skip(
                    index as int + 4,
                ));
            }
            match self.process_packet(index, buffer.as_slice()) {
                Ok(req) => {
                    proof {
                        lemma_outcome_carry_shrinks(
                            req.hdrs(),
                            req.body@,
                            s0.skip(index as int + 4),
                            self.leftover@ + self.socket.incoming(),
                        );
                    }
                    return Ok(Some(req));
                },
                Err(e) => {
                    proof {
                        if old(self).socket.reliable() && complete_in_stream(s0) {
                            assert(false);
                        }
                    }
                    return Err(e);
                },
            }
        }
        if buffer.len() > MAX_HEADER_SIZE {
            proof {
                assert(self.socket.incoming() =~= old(self).socket.incoming().skip(0));
                assert(lo.is_prefix_of(s0));
                if complete_in_stream(s0) {
                    lemma_boundary_beyond_prefix(lo, s0, 0);
                    assert(false);
                }
            }
            return Err(HttpError::Error400);
        }
        loop
            invariant
                self.leftover@.len() == 0,
                s0 == old(self).leftover@ + old(self).socket.incoming(),
                lo == old(self).leftover@,
                find_crlfcrlf(lo) is None,
                lo.len() <= MAX_HEADER_SIZE,
                lo.len() <= buffer@.len() <= s0.len(),
                buffer@.len() <= MAX_HEADER_SIZE,
                find_crlfcrlf(buffer@) is None,
                buffer@ == s0.take(buffer@.len() as int),
                self.socket.incoming() == s0.skip(buffer@.len() as int),
                self.socket.written() == old(self).socket.written(),
                self.socket.reliable() == old(self).socket.reliable(),
                self.peer == old(self).peer,
            decreases s0.len() - buffer@.len(),
        {
            let ghost consumed = buffer@.len() - lo.len();
            proof {
                assert(self.socket.incoming() =~= old(self).socket.incoming().skip(consumed));
            }
            let data = match self.socket.read_some(1024) {
                Ok(d) => d,
                Err(e) => {
                    proof {
                        let ghost inc0 = s0.skip(buffer@.len() as int);
                        let kk = choose|kk: int|
                            0 <= kk <= inc0.len() && self.socket.incoming() == inc0.skip(kk);
                        lemma_skip_skip(old(self).socket.incoming(), consumed, kk);
                    }
                    return Err(e);
                },
            };
            if data.len() == 0 {
                proof {
                    assert(s0 =~= buffer@);
                }
                return Ok(None);
            }
            buffer.extend_from_slice(data.as_slice());
            proof {
                assert(buffer@ =~= s0.take(buffer@.len() as int));
                assert(self.socket.incoming() =~= s0.skip(buffer@.len() as int));
            }
            if let Some(index) = get_double_crcn_index(buffer.as_slice()) {
                proof {
                    assert(buffer@.is_prefix_of(s0));
                    lemma_find_crlfcrlf_prefix(buffer@, s0, 0);
                    assert(buffer@.subrange(0, index as int) =~= s0.subrange(0, index as int));
                    assert(buffer@.skip(index as int + 4) + s0.skip(buffer@.len() as int)
                        =~= s0.skip(index as int + 4));
                }
                let ghost consumed2 = buffer@.len() - lo.len();
                match self.process_packet(index, buffer.as_slice()) {
                    Ok(req) => {
                        proof {
                            lemma_outcome_carry_shrinks(
                                req.hdrs(),
                                req.body@,
                                s0.skip(index as int + 4),
                                self.leftover@ + self.socket.incoming(),
                            );
                        }
                        return Ok(Some(req));
                    },
                    Err(e) => {
                        proof {
                            let ghost inc0 = s0.skip(lo.len() + consumed2);
                            let kk = choose|kk: int|
                                0 <= kk <= inc0.len() && self.socket.incoming() == inc0.skip(kk);
                            lemma_skip_skip(old(self).socket.incoming(), consumed2, kk);
                            if old(self).socket.reliable() && complete_in_stream(s0) {
                                assert(false);
                            }
                        }
                        return Err(e);
                    },
                }
            }
            if buffer.len() > MAX_HEADER_SIZE {
                proof {
                    assert(self.socket.incoming() =~= old(self).socket.incoming().skip(
                        buffer@.len() - lo.len(),
                    ));
                    assert(buffer@.is_prefix_of(s0));
                    if complete_in_stream(s0) {
                        lemma_boundary_beyond_prefix(buffer@, s0, 0);
                        assert(false);
                    }
                }
                return Err(HttpError::Error400);
            }
        }
    }

    /// Splits the accumulated buffer at the header boundary, builds the
    /// request from the header text, and acquires its body — or, for a
    /// request without one, keeps the bytes past the boundary for the next
    /// message.
    fn process_packet(&mut self, index: usize, buffer: &[u8]) -> (r: Result<Request, HttpError>)
        requires
            old(self).leftover@.len() == 0,
            index + 4 <= buffer@.len(),
        ensures
            final(self).socket.written() == old(self).socket.written(),
            final(self).socket.reliable() == old(self).socket.reliable(),
            final(self).peer == old(self).peer,
            exists|k: int|
                0 <= k <= old(self).socket.incoming().len() && final(self).socket.incoming()
                    == old(self).socket.incoming().skip(k),
            ({
                let head = utf8_lossy(buffer@.subrange(0, index as int));
                let hs = spec_headers(head);
                &&& (old(self).socket.reliable() && spec_tokens(head).len() >= 3 && spec_lookup(
                    hs,
                    "Content-Encoding"@,
                ) is None && (!spec_is_body(hs) || body_complete_in_stream(
                    hs,
                    buffer@.skip(index as int + 4) + old(self).socket.incoming(),
                )) ==> r is Ok)
                &&& (spec_tokens(head).len() < 3 ==> r == Err::<Request, HttpError>(
                    HttpError::Error400,
                ) && *final(self) == *old(self))
                &&& (spec_tokens(head).len() >= 3 && spec_lookup(hs, "Content-Encoding"@) is None
                    && (!spec_is_body(hs) || body_complete_in(
                    hs,
                    buffer@.skip(index as int + 4),
                )) ==> r is Ok && final(self).socket == old(self).socket)
                &&& (spec_tokens(head).len() >= 3 && spec_is_body(hs) && spec_lookup(
                    hs,
                    "Transfer-Encoding"@,
                ) is None && spec_content_length(hs) is None ==> r == Err::<Request, HttpError>(
                    HttpError::Error400,
                ))
                &&& (spec_tokens(head).len() >= 3 && spec_lookup(hs, "Transfer-Encoding"@) is None
                    && (match spec_content_length(hs) {
                    Some(n) => n > MAX_BODY_SIZE,
                    None => false,
                }) ==> r == Err::<Request, HttpError>(HttpError::Error413) && final(self).socket
                    == old(self).socket)
            }),
            ({
                let head = utf8_lossy(buffer@.subrange(0, index as int));
                let rest = buffer@.skip(index as int + 4) + old(self).socket.incoming();
                match r {
                    Ok(req) => {
                        &&& spec_tokens(head).len() >= 3
                        &&& req.method@ == spec_tokens(head)[0]
                        &&& req.uri@ == spec_tokens(head)[1]
                        &&& req.version@ == spec_tokens(head)[2]
                        &&& req.hdrs() == spec_headers(head)
                        &&& message_outcome(
                            req.hdrs(),
                            req.body@,
                            rest,
                            final(self).leftover@ + final(self).socket.incoming(),
                        )
                    },
                    Err(e) => spec_tokens(head).len() < 3 ==> e == HttpError::Error400,
                }
            }),
    {
        let head_bytes = vstd::slice::slice_subrange(buffer, 0, index);
        let head = bytes_to_text(head_bytes);
        let mut request = match Request::new(head.as_str()) {
            Ok(rq) => rq,
            Err(e) => {
                proof {
                    assert(self.socket.incoming() =~= old(self).socket.incoming().skip(0));
                }
                return Err(e);
            },
        };
        let blen = buffer.len();
        let rest_buf = vstd::slice::slice_subrange(buffer, index + 4, blen);
        if request.is_body() {
            let body = match self.read_body(rest_buf, &request) {
                Ok(b) => b,
                Err(e) => {
                    return Err(e);
                },
            };
            request.body = body;
            Ok(request)
        } else {
            self.leftover = vstd::slice::slice_to_vec(rest_buf);
            proof {
                assert(self.leftover@ + self.socket.incoming() =~= buffer@.skip(index as int + 4)
                    + old(self).socket.incoming());
                assert(self.socket.incoming() =~= old(self).socket.incoming().skip(0));
            }
            Ok(request)
        }
    }

    /// Acquires the raw body and decodes it under the declared
    /// `Content-Encoding`.
    fn read_body(&mut self, buffer: &[u8], request: &Request) -> (r: Result<Vec<u8>, HttpError>)
        requires
            old(self).leftover@.len() == 0,
        ensures
            final(self).socket.written() == old(self).socket.written(),
            final(self).peer == old(self).peer,
            final(self).socket.reliable() == old(self).socket.reliable(),
            spec_lookup(request.hdrs(), "Content-Encoding"@) is None && body_complete_in(
                request.hdrs(),
                buffer@,
            ) ==> r is Ok && final(self).socket == old(self).socket,
            old(self).socket.reliable() && spec_lookup(request.hdrs(), "Content-Encoding"@)
                is None && body_complete_in_stream(
                request.hdrs(),
                buffer@ + old(self).socket.incoming(),
            ) ==> r is Ok,
            exists|k: int|
                0 <= k <= old(self).socket.incoming().len() && final(self).socket.incoming()
                    == old(self).socket.incoming().skip(k),
            match r {
                Ok(body) => exists|raw: Seq<u8>|
                    #[trigger] raw_body_outcome(
                        request.hdrs(),
                        raw,
                        buffer@ + old(self).socket.incoming(),
                        final(self).leftover@ + final(self).socket.incoming(),
                    ) && decoded(request.hdrs(), raw, body@),
                Err(e) => {
                    &&& (spec_lookup(request.hdrs(), "Transfer-Encoding"@) is None
                        && spec_content_length(request.hdrs()) is None ==> e == HttpError::Error400)
                    &&& (spec_lookup(request.hdrs(), "Transfer-Encoding"@) is None && match
                        spec_content_length(request.hdrs()) {
                        Some(n) => n > MAX_BODY_SIZE,
                        None => false,
                    } ==> e == HttpError::Error413 && final(self).socket == old(self).socket)
                    &&& (match spec_lookup(request.hdrs(), "Transfer-Encoding"@) {
                        Some(v) => !spec_is_chunked_value(v) ==> e == HttpError::Error400,
                        None => true,
                    })
                },
            },
    {
        let body = match self.get_body(buffer, request) {
            Ok(b) => b,
            Err(e) => {
                return Err(e);
            },
        };
        self.uncompress(body.as_slice(), request)
    }

    /// Dispatches body acquisition by framing mode: chunked transfer coding
    /// when `Transfer-Encoding` is present, otherwise the declared
    /// `Content-Length` — which must exist, parse, and respect the maximum.
    /// An oversized declaration is rejected before any body byte is read.
    fn get_body(&mut self, buffer: &[u8], request: &Request) -> (r: Result<Vec<u8>, HttpError>)
        requires
            old(self).leftover@.len() == 0,
        ensures
            final(self).socket.written() == old(self).socket.written(),
            final(self).peer == old(self).peer,
            final(self).socket.reliable() == old(self).socket.reliable(),
            body_complete_in(request.hdrs(), buffer@) ==> r is Ok && final(self).socket == old(
                self,
            ).socket,
            old(self).socket.reliable() && body_complete_in_stream(
                request.hdrs(),
                buffer@ + old(self).socket.incoming(),
            ) ==> r is Ok,
            exists|k: int|
                0 <= k <= old(self).socket.incoming().len() && final(self).socket.incoming()
                    == old(self).socket.incoming().skip(k),
            match r {
                Ok(raw) => raw_body_outcome(
                    request.hdrs(),
                    raw@,
                    buffer@ + old(self).socket.incoming(),
                    final(self).leftover@ + final(self).socket.incoming(),
                ),
                Err(e) => {
                    &&& (spec_lookup(request.hdrs(), "Transfer-Encoding"@) is None
                        && spec_content_length(request.hdrs()) is None ==> e == HttpError::Error400
                        && *final(self) == *old(self))
                    &&& (spec_lookup(request.hdrs(), "Transfer-Encoding"@) is None && match
                        spec_content_length(request.hdrs()) {
                        Some(n) => n > MAX_BODY_SIZE,
                        None => false,
                    } ==> e == HttpError::Error413 && *final(self) == *old(self))
                    &&& (match spec_lookup(request.hdrs(), "Transfer-Encoding"@) {
                        Some(v) => !spec_is_chunked_value(v) ==> e == HttpError::Error400
                            && *final(self) == *old(self),
                        None => true,
                    })
                },
            },
    {
        if let Some(encoding) = request.get_value("Transfer-Encoding") {
            self.handle_chunked_body(buffer, encoding)
        } else if let Some(body_length) = request.get_content_length() {
            if body_length > MAX_BODY_SIZE {
                proof {
                    assert(self.socket.incoming() =~= old(self).socket.incoming().skip(0));
                }
                return Err(HttpError::Error413);
            }
            self.handle_content_length_body(buffer, body_length)
        } else {
            proof {
                assert(self.socket.incoming() =~= old(self).socket.incoming().skip(0));
            }
            Err(HttpError::Error400)
        }
    }

    /// Decodes a body under its declared `Content-Encoding`: absent passes
    /// the bytes through, an unrecognized scheme is an unsupported media
    /// type, and a recognized one decompresses.
    fn uncompress(&self, body: &[u8], request: &Request) -> (r: Result<Vec<u8>, HttpError>)
        ensures
            spec_lookup(request.hdrs(), "Content-Encoding"@) is None ==> r is Ok,
            match r {
                Ok(out) => decoded(request.hdrs(), body@, out@),
                Err(e) => match spec_lookup(request.hdrs(), "Content-Encoding"@) {
                    None => false,
                    Some(v) => match spec_encoding_of(v) {
                        None => e == HttpError::Error415,
                        Some(enc) => e == HttpError::Error500 && spec_uncompress(body@, enc)
                            is None,
                    },
                },
            },
    {
        if let Some(encoding) = request.get_value("Content-Encoding") {
            if let Some(enc) = get_encoding(encoding) {
                crate::encoding::uncompress(body, enc)
            } else {
                Err(HttpError::Error415)
            }
        } else {
            Ok(vstd::slice::slice_to_vec(body))
        }
    }

    /// Drives the chunk machine with the bytes at hand, then with further
    /// reads, until the terminal chunk completes; its accumulated payload
    /// is the raw body and its captured remainder becomes the carried
    /// leftover.  A `Transfer-Encoding` that does not announce chunked
    /// framing is rejected untouched; a machine verdict already decided by
    /// the bytes at hand — completion or failure — is honoured without a
    /// read; a stream that ends mid-body is a framing failure.
    fn handle_chunked_body(&mut self, buffer: &[u8], encoding_field: &str) -> (r: Result<
        Vec<u8>,
        HttpError,
    >)
        requires
            old(self).leftover@.len() == 0,
        ensures
            final(self).socket.written() == old(self).socket.written(),
            final(self).socket.reliable() == old(self).socket.reliable(),
            final(self).peer == old(self).peer,
            exists|k: int|
                0 <= k <= old(self).socket.incoming().len() && final(self).socket.incoming()
                    == old(self).socket.incoming().skip(k),
            old(self).socket.reliable() && spec_is_chunked_value(encoding_field@)
                && chunked_complete_in_stream(buffer@ + old(self).socket.incoming()) ==> r is Ok,
            spec_is_chunked_value(encoding_field@) && ({
                let fed = chunk_feed(init_model(), buffer@);
                fed is Ok && fed->Ok_0.state is Done
            }) ==> r is Ok && final(self).socket == old(self).socket,
            spec_is_chunked_value(encoding_field@) && chunk_feed(init_model(), buffer@) is Err
                ==> r == Err::<Vec<u8>, HttpError>(
                chunk_feed(init_model(), buffer@)->Err_0,
            ) && final(self).socket == old(self).socket,
            match r {
                Ok(body) => {
                    let t = buffer@ + old(self).socket.incoming();
                    &&& spec_is_chunked_value(encoding_field@)
                    &&& exists|m: int|
                        {
                            let fed = chunk_feed_bytes(init_model(), #[trigger] t.take(m));
                            &&& 0 <= m <= t.len()
                            &&& fed is Ok
                            &&& fed->Ok_0.state is Done
                            &&& body@ == fed->Ok_0.body
                            &&& final(self).leftover@ + final(self).socket.incoming() == fed->Ok_0.leftover
                                + t.skip(m)
                        }
                },
                Err(e) => {
                    &&& (!spec_is_chunked_value(encoding_field@) ==> e == HttpError::Error400
                        && *final(self) == *old(self))
                    &&& final(self).leftover@ == old(self).leftover@
                },
            },
    {
        if !is_chunked_value(encoding_field) {
            proof {
                assert(self.socket.incoming() =~= old(self).socket.incoming().skip(0));
            }
            return Err(HttpError::Error400);
        }
        let ghost t = buffer@ + old(self).socket.incoming();
        let mut chunk_handler = match ChunkHandler::new(buffer) {
            Ok(h) => h,
            Err(e) => {
                proof {
                    assert(self.socket.incoming() =~= old(self).socket.incoming().skip(0));
                    if chunked_complete_in_stream(t) {
                        assert(t.take(buffer@.len() as int) =~= buffer@);
                        lemma_chunk_feed_bytes_error_extends(
                            init_model(),
                            t,
                            buffer@.len() as int,
                            e,
                        );
                    }
                }
                return Err(e);
            },
        };
        let ghost mut fed: int = buffer@.len() as int;
        proof {
            assert(t.take(fed) =~= buffer@);
            assert(t.skip(fed) =~= old(self).socket.incoming());
        }
        if chunk_handler.is_body_ready() {
            let ghost m_done = chunk_handler@;
            let (body, leftover) = chunk_handler.into_parts();
            self.leftover = leftover;
            proof {
                assert(self.leftover@ + self.socket.incoming() =~= m_done.leftover + t.skip(fed));
                assert(self.socket.incoming() =~= old(self).socket.incoming().skip(0));
            }
            return Ok(body);
        }
        while !chunk_handler.is_body_ready()
            invariant
                wf_chunk(chunk_handler@),
                0 <= fed <= t.len(),
                t == buffer@ + old(self).socket.incoming(),
                chunk_feed_bytes(init_model(), t.take(fed)) == Ok::<_, HttpError>(chunk_handler@),
                t.skip(fed) == self.socket.incoming(),
                self.socket.written() == old(self).socket.written(),
                self.leftover@.len() == 0,
                self.peer == old(self).peer,
                spec_is_chunked_value(encoding_field@),
                buffer@.len() <= fed,
                old(self).leftover@.len() == 0,
                self.socket.reliable() == old(self).socket.reliable(),
                chunk_feed(init_model(), buffer@) is Ok,
                !(chunk_feed(init_model(), buffer@)->Ok_0.state is Done),
            decreases self.socket.incoming().len(),
        {
            let ghost inc0 = self.socket.incoming();
            let ghost k0 = fed - buffer@.len();
            proof {
                assert(inc0 =~= old(self).socket.incoming().skip(k0));
            }
            let data = match self.socket.read_some(1024) {
                Ok(d) => d,
                Err(e) => {
                    proof {
                        let kk = choose|kk: int|
                            0 <= kk <= inc0.len() && self.socket.incoming() == inc0.skip(kk);
                        lemma_skip_skip(old(self).socket.incoming(), k0, kk);
                        assert(self.leftover@ =~= old(self).leftover@);
                    }
                    return Err(e);
                },
            };
            if data.len() == 0 {
                proof {
                    assert(self.socket.incoming() =~= old(self).socket.incoming().skip(k0));
                    assert(self.leftover@ =~= old(self).leftover@);
                    if chunked_complete_in_stream(t) {
                        assert(t.skip(fed).len() == 0);
                        assert(t.take(fed) =~= t);
                    }
                }
                return Err(HttpError::Error400);
            }
            let ghost head = chunk_handler@;
            match chunk_handler.parse_chunks(data.as_slice()) {
                Ok(_) => {
                    proof {
                        lemma_chunk_feed_bytes_concat(init_model(), t.take(fed), data@);
                        assert(t.take(fed) + data@ =~= t.take(fed + data@.len()));
                        fed = fed + data@.len();
                    }
                },
                Err(e) => {
                    proof {
                        lemma_skip_skip(old(self).socket.incoming(), k0, data@.len() as int);
                        assert(self.leftover@ =~= old(self).leftover@);
                        if chunked_complete_in_stream(t) {
                            assert(t.take(fed) + t.skip(fed) =~= t);
                            lemma_chunk_feed_bytes_concat(init_model(), t.take(fed), t.skip(fed));
                            lemma_feed_bytes_body_monotone(head, t.skip(fed));
                            assert(head.body.len() < MAX_BODY_SIZE);
                            assert(chunk_feed_bytes(head, data@) == Err::<
                                crate::chunk_handler::ChunkModel,
                                HttpError,
                            >(e));
                            lemma_chunk_feed_bytes_concat(init_model(), t.take(fed), data@);
                            assert(t.take(fed) + data@ =~= t.take(fed + data@.len()));
                            lemma_chunk_feed_bytes_error_extends(
                                init_model(),
                                t,
                                fed + data@.len(),
                                e,
                            );
                        }
                    }
                    return Err(e);
                },
            }
        }
        let ghost m_final = chunk_handler@;
        let (body, leftover) = chunk_handler.into_parts();
        self.leftover = leftover;
        proof {
            assert(self.leftover@ + self.socket.incoming() =~= m_final.leftover + t.skip(fed));
            assert(self.socket.incoming() =~= old(self).socket.incoming().skip(
                fed - buffer@.len(),
            ));
        }
        Ok(body)
    }
}

} // verus!
