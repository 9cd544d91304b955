//! The chunked transfer-coding state machine.
//!
//! A [`ChunkHandler`] incrementally decodes RFC 7230 chunked framing from
//! arbitrarily fragmented byte buffers: each chunk is a decimal size line
//! terminated by CRLF, then that many data bytes, then CRLF; a zero-size
//! chunk followed by one more CRLF terminates the body, and every byte after
//! it belongs to the next message on the connection (the leftover).
//!
//! The machine is specified byte by byte: [`chunk_step`] gives the effect of
//! one input byte on the abstract state, [`chunk_feed_bytes`] folds it over a
//! buffer, and [`chunk_feed`] adds the body-size guard that every call to
//! [`ChunkHandler::parse_chunks`] performs on entry.  Because the
//! specification consumes one byte at a time, it is insensitive to how the
//! input is split into buffers, which is what
//! [`lemma_chunked_any_fragmentation`] proves.

use vstd::prelude::*;

use crate::http_error::HttpError;
use crate::worker::MAX_BODY_SIZE;

verus! {

/// The phase the decoder is in.
///
/// `Header` accumulates the chunk-size line; `Body` copies the announced
/// number of data bytes; `DataCr`/`DataLf` expect the CRLF that closes a
/// data chunk; `FinalCr`/`FinalLf` expect the CRLF that follows the
/// terminating zero-size chunk; `Done` is the completed state, in which any
/// further input is captured as leftover.  A buffer that runs out mid-item
/// simply leaves the machine in its current phase, which is where the next
/// buffer resumes.
#[derive(Debug, Clone, Copy, PartialEq, Eq, Structural)]
pub enum ChunkState {
    Header,
    Body,
    DataCr,
    DataLf,
    FinalCr,
    FinalLf,
    Done,
}

/// The abstract state of the decoder: accumulated body, leftover bytes
/// beyond the terminator, the partial chunk-size line, the count of data
/// bytes still owed by the current chunk, and the phase.
#[verifier::ext_equal]
pub struct ChunkModel {
    pub body: Seq<u8>,
    pub leftover: Seq<u8>,
    pub size_str: Seq<u8>,
    pub size: nat,
    pub state: ChunkState,
}

/// The state of a freshly created decoder.
pub open spec fn init_model() -> ChunkModel {
    ChunkModel {
        body: Seq::empty(),
        leftover: Seq::empty(),
        size_str: Seq::empty(),
        size: 0,
        state: ChunkState::Header,
    }
}

/// An ASCII decimal digit.
pub open spec fn is_digit(b: u8) -> bool {
    48 <= b <= 57
}

pub open spec fn all_digits(s: Seq<u8>) -> bool {
    forall|i: int| 0 <= i < s.len() ==> is_digit(#[trigger] s[i])
}

/// The numeric value of a digit string, most significant digit first.
pub open spec fn dec_value_bytes(s: Seq<u8>) -> int
    decreases s.len(),
{
    if s.len() == 0 {
        0
    } else {
        dec_value_bytes(s.drop_last()) * 10 + (s.last() - 48)
    }
}

/// The chunk-size parse: a non-empty string of decimal digits whose value
/// fits in `usize`; anything else is rejected.
pub open spec fn parse_dec_bytes(s: Seq<u8>) -> Option<nat> {
    if s.len() > 0 && all_digits(s) && dec_value_bytes(s) <= usize::MAX as int {
        Some(dec_value_bytes(s) as nat)
    } else {
        None
    }
}

/// Structural soundness of a decoder state: a data count is outstanding
/// exactly in `Body`, it fits in `usize`, and the size line accumulates only
/// in `Header`.
pub open spec fn wf_chunk(m: ChunkModel) -> bool {
    &&& (m.state is Body ==> 1 <= m.size <= usize::MAX)
    &&& (!(m.state is Body) ==> m.size == 0)
    &&& (!(m.state is Header) ==> m.size_str.len() == 0)
}

/// The effect of one input byte on the decoder state.
///
/// In `Header`, a LF that follows a buffered CR completes the size line: the
/// bytes before the CR must parse as a decimal size, zero meaning the
/// terminal chunk.  In `Body`, the byte is copied into the body.  The four
/// CRLF phases demand exactly CR then LF and fail with `Error400` (a
/// malformed chunk terminator) otherwise.  In `Done`, the byte belongs to
/// the next message.
pub open spec fn chunk_step(m: ChunkModel, b: u8) -> Result<ChunkModel, HttpError> {
    match m.state {
        ChunkState::Header => {
            if m.size_str.len() > 0 && m.size_str.last() == 13 && b == 10 {
                match parse_dec_bytes(m.size_str.drop_last()) {
                    Some(n) => {
                        if n == 0 {
                            Ok(ChunkModel { size_str: Seq::empty(), state: ChunkState::FinalCr, ..m })
                        } else {
                            Ok(ChunkModel {
                                size_str: Seq::empty(),
                                size: n,
                                state: ChunkState::Body,
                                ..m
                            })
                        }
                    },
                    None => Err(HttpError::ErrorParsingChunkSize),
                }
            } else {
                Ok(ChunkModel { size_str: m.size_str.push(b), ..m })
            }
        },
        ChunkState::Body => {
            if m.size == 1 {
                Ok(ChunkModel { body: m.body.push(b), size: 0, state: ChunkState::DataCr, ..m })
            } else {
                Ok(ChunkModel { body: m.body.push(b), size: (m.size - 1) as nat, ..m })
            }
        },
        ChunkState::DataCr => {
            if b == 13 {
                Ok(ChunkModel { state: ChunkState::DataLf, ..m })
            } else {
                Err(HttpError::Error400)
            }
        },
        ChunkState::DataLf => {
            if b == 10 {
                Ok(ChunkModel { state: ChunkState::Header, ..m })
            } else {
                Err(HttpError::Error400)
            }
        },
        ChunkState::FinalCr => {
            if b == 13 {
                Ok(ChunkModel { state: ChunkState::FinalLf, ..m })
            } else {
                Err(HttpError::Error400)
            }
        },
        ChunkState::FinalLf => {
            if b == 10 {
                Ok(ChunkModel { state: ChunkState::Done, ..m })
            } else {
                Err(HttpError::Error400)
            }
        },
        ChunkState::Done => Ok(ChunkModel { leftover: m.leftover.push(b), ..m }),
    }
}

/// Folds [`chunk_step`] over a buffer, stopping at the first failure.
pub open spec fn chunk_feed_bytes(m: ChunkModel, input: Seq<u8>) -> Result<ChunkModel, HttpError>
    decreases input.len(),
{
    if input.len() == 0 {
        Ok(m)
    } else {
        match chunk_step(m, input.first()) {
            Ok(m2) => chunk_feed_bytes(m2, input.drop_first()),
            Err(e) => Err(e),
        }
    }
}

/// One call of [`ChunkHandler::parse_chunks`]: the accumulated body is
/// checked against the maximum before any byte is consumed.
pub open spec fn chunk_feed(m: ChunkModel, input: Seq<u8>) -> Result<ChunkModel, HttpError> {
    if m.body.len() >= MAX_BODY_SIZE {
        Err(HttpError::Error413)
    } else {
        chunk_feed_bytes(m, input)
    }
}

/// A transient state machine instance that decodes one chunked body.
#[derive(Debug)]
pub struct ChunkHandler {
    /// The chunk payloads accumulated so far, framing stripped.
    pub body: Vec<u8>,
    /// Bytes beyond the terminating chunk; they belong to the next request.
    pub leftover: Vec<u8>,
    size_str: Vec<u8>,
    size: usize,
    state: ChunkState,
}

impl View for ChunkHandler {
    type V = ChunkModel;

    closed spec fn view(&self) -> ChunkModel {
        ChunkModel {
            body: self.body@,
            leftover: self.leftover@,
            size_str: self.size_str@,
            size: self.size as nat,
            state: self.state,
        }
    }
}

impl ChunkHandler {
    /// Consumes the decoder, yielding the accumulated body and the leftover
    /// bytes that belong to the next message.
    pub fn into_parts(self) -> (r: (Vec<u8>, Vec<u8>))
        ensures
            r.0@ == self@.body,
            r.1@ == self@.leftover,
    {
        (self.body, self.leftover)
    }

    /// Creates a decoder and feeds it the bytes already read past the
    /// header block, if any.
    pub fn new(leftover: &[u8]) -> (r: Result<Self, HttpError>)
        ensures
            match r {
                Ok(h) => wf_chunk(h@) && chunk_feed(init_model(), leftover@) == Ok::<
                    ChunkModel,
                    HttpError,
                >(h@),
                Err(e) => chunk_feed(init_model(), leftover@) == Err::<ChunkModel, HttpError>(e),
            },
    {
        let mut handler = Self {
            body: Vec::new(),
            leftover: Vec::new(),
            size_str: Vec::new(),
            size: 0,
            state: ChunkState::Header,
        };
        assert(handler@ =~= init_model());
        match handler.parse_chunks(leftover) {
            Ok(()) => Ok(handler),
            Err(e) => Err(e),
        }
    }

    /// True exactly when the terminal chunk and its trailing CRLF have been
    /// consumed; only then may `body` and `leftover` be taken.
    pub fn is_body_ready(&self) -> (r: bool)
        ensures
            r == (self@.state is Done),
    {
        self.state == ChunkState::Done
    }

    /// Feeds one buffer of fresh input to the machine.
    ///
    /// Fails with `Error413` when the accumulated body has already reached
    /// the configured maximum, with `ErrorParsingChunkSize` when a size line
    /// is not a valid decimal number, and with `Error400` when a required
    /// CRLF terminator is malformed.
    pub fn parse_chunks(&mut self, buffer: &[u8]) -> (r: Result<(), HttpError>)
        requires
            wf_chunk(old(self)@),
        ensures
            old(self)@.body.is_prefix_of(final(self)@.body),
            match r {
                Ok(()) => wf_chunk(final(self)@) && chunk_feed(old(self)@, buffer@) == Ok::<
                    ChunkModel,
                    HttpError,
                >(final(self)@),
                Err(e) => {
                    &&& chunk_feed(old(self)@, buffer@) == Err::<ChunkModel, HttpError>(e)
                    &&& (old(self)@.body.len() >= MAX_BODY_SIZE ==> final(self)@ == old(self)@)
                },
            },
    {
        if self.body.len() >= MAX_BODY_SIZE {
            proof {
                assert(self@.body.is_prefix_of(self@.body)) by {
                    assert(self@.body =~= self@.body.subrange(0, self@.body.len() as int));
                }
            }
            return Err(HttpError::Error413);
        }
        let ghost m0 = self@;
        let ghost input = buffer@;
        proof {
            assert(m0.body.is_prefix_of(m0.body)) by {
                assert(m0.body =~= m0.body.subrange(0, m0.body.len() as int));
            }
        }
        let mut i: usize = 0;
        while i < buffer.len()
            invariant
                i <= buffer.len(),
                input == buffer@,
                m0 == old(self)@,
                m0.body.len() < MAX_BODY_SIZE,
                wf_chunk(self@),
                m0.body.is_prefix_of(self@.body),
                chunk_feed_bytes(m0, input.take(i as int)) == Ok::<ChunkModel, HttpError>(self@),
            decreases buffer.len() - i,
        {
            let b = buffer[i];
            proof {
                lemma_chunk_feed_bytes_snoc(m0, input, i as int);
            }
            let ghost before = self@;
            match self.step_byte(b) {
                Ok(()) => {
                    proof {
                        assert(m0.body.is_prefix_of(self@.body)) by {
                            assert(forall|j: int|
                                0 <= j < m0.body.len() ==> #[trigger] m0.body[j] == before.body[j]);
                        }
                    }
                },
                Err(e) => {
                    proof {
                        lemma_chunk_feed_bytes_error_extends(m0, input, i as int + 1, e);
                    }
                    return Err(e);
                },
            }
            i += 1;
        }
        proof {
            assert(input.take(buffer@.len() as int) =~= input);
        }
        Ok(())
    }

    /// Advances the machine by a single input byte.
    fn step_byte(&mut self, b: u8) -> (r: Result<(), HttpError>)
        requires
            wf_chunk(old(self)@),
        ensures
            match r {
                Ok(()) => {
                    &&& wf_chunk(final(self)@)
                    &&& chunk_step(old(self)@, b) == Ok::<ChunkModel, HttpError>(final(self)@)
                    &&& old(self)@.body.is_prefix_of(final(self)@.body)
                },
                Err(e) => chunk_step(old(self)@, b) == Err::<ChunkModel, HttpError>(e)
                    && final(self)@.body == old(self)@.body,
            },
    {
        proof {
            assert(self@.body.is_prefix_of(self@.body.push(b))) by {
                assert(self@.body =~= self@.body.push(b).subrange(0, self@.body.len() as int));
            }
            assert(self@.body.is_prefix_of(self@.body)) by {
                assert(self@.body =~= self@.body.subrange(0, self@.body.len() as int));
            }
        }
        match self.state {
            ChunkState::Header => {
                if b == 10 && self.size_str.len() > 0 && self.size_str[self.size_str.len() - 1]
                    == 13 {
                    let _ = self.size_str.pop();
                    assert(self.size_str@ =~= old(self)@.size_str.drop_last());
                    match parse_size(&self.size_str) {
                        Ok(n) => {
                            self.size_str.clear();
                            if n == 0 {
                                self.state = ChunkState::FinalCr;
                            } else {
                                self.size = n;
                                self.state = ChunkState::Body;
                            }
                            Ok(())
                        },
                        Err(e) => Err(e),
                    }
                } else {
                    self.size_str.push(b);
                    Ok(())
                }
            },
            ChunkState::Body => {
                self.body.push(b);
                self.size = self.size - 1;
                if self.size == 0 {
                    self.state = ChunkState::DataCr;
                }
                Ok(())
            },
            ChunkState::DataCr => {
                if b == 13 {
                    self.state = ChunkState::DataLf;
                    Ok(())
                } else {
                    Err(HttpError::Error400)
                }
            },
            ChunkState::DataLf => {
                if b == 10 {
                    self.state = ChunkState::Header;
                    Ok(())
                } else {
                    Err(HttpError::Error400)
                }
            },
            ChunkState::FinalCr => {
                if b == 13 {
                    self.state = ChunkState::FinalLf;
                    Ok(())
                } else {
                    Err(HttpError::Error400)
                }
            },
            ChunkState::FinalLf => {
                if b == 10 {
                    self.state = ChunkState::Done;
                    Ok(())
                } else {
                    Err(HttpError::Error400)
                }
            },
            ChunkState::Done => {
                self.leftover.push(b);
                Ok(())
            },
        }
    }
}

/// Parses a chunk-size digit string as a non-negative decimal integer.
fn parse_size(size: &Vec<u8>) -> (r: Result<usize, HttpError>)
    ensures
        match r {
            Ok(n) => parse_dec_bytes(size@) == Some(n as nat),
            Err(e) => e == HttpError::ErrorParsingChunkSize && parse_dec_bytes(size@) is None,
        },
{
    if size.len() == 0 {
        return Err(HttpError::ErrorParsingChunkSize);
    }
    let mut acc: usize = 0;
    let mut i: usize = 0;
    while i < size.len()
        invariant
            i <= size.len(),
            all_digits(size@.take(i as int)),
            acc == dec_value_bytes(size@.take(i as int)),
        decreases size.len() - i,
    {
        let b = size[i];
        if b < 48 || b > 57 {
            assert(!is_digit(size@[i as int]));
            return Err(HttpError::ErrorParsingChunkSize);
        }
        let d = (b - 48) as usize;
        proof {
            assert(size@.take(i as int + 1).drop_last() =~= size@.take(i as int));
            assert(size@.take(i as int + 1).last() == size@[i as int]);
        }
        let shifted = match acc.checked_mul(10) {
            Some(v) => v,
            None => {
                proof {
                    if all_digits(size@) {
                        lemma_dec_value_monotone(size@, i as int + 1);
                    }
                }
                return Err(HttpError::ErrorParsingChunkSize);
            },
        };
        let next = match shifted.checked_add(d) {
            Some(v) => v,
            None => {
                proof {
                    if all_digits(size@) {
                        lemma_dec_value_monotone(size@, i as int + 1);
                    }
                }
                return Err(HttpError::ErrorParsingChunkSize);
            },
        };
        acc = next;
        i += 1;
    }
    proof {
        assert(size@.take(size@.len() as int) =~= size@);
    }
    Ok(acc)
}

/// The value of a digit string never decreases when more digits follow:
/// the value of the whole string is at least the value of any prefix.
proof fn lemma_dec_value_monotone(s: Seq<u8>, i: int)
    requires
        0 <= i <= s.len(),
        all_digits(s),
    ensures
        dec_value_bytes(s) >= dec_value_bytes(s.take(i)),
    decreases s.len() - i,
{
    lemma_dec_value_nonneg(s.take(i));
    if i < s.len() {
        assert(s.take(i + 1).drop_last() =~= s.take(i));
        assert(s.take(i + 1).last() == s[i]);
        assert(dec_value_bytes(s.take(i + 1)) == dec_value_bytes(s.take(i)) * 10 + (s[i] - 48));
        lemma_dec_value_nonneg(s.take(i + 1));
        lemma_dec_value_monotone(s, i + 1);
    } else {
        assert(s.take(i) =~= s);
    }
}

/// A digit string's value is non-negative.
proof fn lemma_dec_value_nonneg(s: Seq<u8>)
    requires
        all_digits(s),
    ensures
        dec_value_bytes(s) >= 0,
    decreases s.len(),
{
    if s.len() > 0 {
        assert(all_digits(s.drop_last())) by {
            assert(forall|i: int|
                0 <= i < s.drop_last().len() ==> #[trigger] s.drop_last()[i] == s[i]);
        }
        lemma_dec_value_nonneg(s.drop_last());
    }
}

/// Feeding one more byte: the fold over `take(i + 1)` is the fold over
/// `take(i)` followed by one step on `input[i]`.
pub proof fn lemma_chunk_feed_bytes_snoc(m: ChunkModel, input: Seq<u8>, i: int)
    requires
        0 <= i < input.len(),
    ensures
        chunk_feed_bytes(m, input.take(i + 1)) == match chunk_feed_bytes(m, input.take(i)) {
            Ok(m2) => chunk_step(m2, input[i]),
            Err(e) => Err(e),
        },
{
    lemma_chunk_feed_bytes_concat(m, input.take(i), seq![input[i]]);
    assert(input.take(i) + seq![input[i]] =~= input.take(i + 1));
    let m1 = chunk_feed_bytes(m, input.take(i));
    if m1 is Ok {
        let mm = m1->Ok_0;
        assert(chunk_feed_bytes(mm, seq![input[i]]) == match chunk_step(mm, input[i]) {
            Ok(m2) => chunk_feed_bytes(m2, seq![input[i]].drop_first()),
            Err(e) => Err(e),
        });
        if chunk_step(mm, input[i]) is Ok {
            assert(seq![input[i]].drop_first() =~= Seq::<u8>::empty());
        }
    }
}

/// Once the fold fails on a prefix, it fails on every extension with the
/// same error.
pub proof fn lemma_chunk_feed_bytes_error_extends(m: ChunkModel, input: Seq<u8>, i: int, e: HttpError)
    requires
        0 <= i <= input.len(),
        chunk_feed_bytes(m, input.take(i)) == Err::<ChunkModel, HttpError>(e),
    ensures
        chunk_feed_bytes(m, input) == Err::<ChunkModel, HttpError>(e),
{
    lemma_chunk_feed_bytes_concat(m, input.take(i), input.skip(i));
    assert(input.take(i) + input.skip(i) =~= input);
}

/// The decimal digit string of `n`, most significant digit first.
pub open spec fn dec_digits(n: nat) -> Seq<u8>
    decreases n,
{
    if n < 10 {
        seq![(48 + n) as u8]
    } else {
        dec_digits(n / 10).push((48 + n % 10) as u8)
    }
}

/// The concatenation of a sequence of byte strings, in order.
pub open spec fn concat_seqs(xs: Seq<Seq<u8>>) -> Seq<u8>
    decreases xs.len(),
{
    if xs.len() == 0 {
        Seq::empty()
    } else {
        xs.first() + concat_seqs(xs.drop_first())
    }
}

/// The wire form of one data chunk: its length in decimal, CRLF, the data,
/// CRLF.
pub open spec fn encode_chunk(data: Seq<u8>) -> Seq<u8> {
    dec_digits(data.len()) + seq![13u8, 10u8] + data + seq![13u8, 10u8]
}

/// The wire form of a whole chunked body: each chunk in order, then the
/// terminating zero-size chunk and its trailing CRLF.
pub open spec fn encode_chunks(chunks: Seq<Seq<u8>>) -> Seq<u8>
    decreases chunks.len(),
{
    if chunks.len() == 0 {
        seq![48u8, 13u8, 10u8, 13u8, 10u8]
    } else {
        encode_chunk(chunks.first()) + encode_chunks(chunks.drop_first())
    }
}

/// Repeated calls of [`ChunkHandler::parse_chunks`], one per fragment.
pub open spec fn feed_all(m: ChunkModel, frags: Seq<Seq<u8>>) -> Result<ChunkModel, HttpError>
    decreases frags.len(),
{
    if frags.len() == 0 {
        Ok(m)
    } else {
        match chunk_feed(m, frags.first()) {
            Ok(m2) => feed_all(m2, frags.drop_first()),
            Err(e) => Err(e),
        }
    }
}

proof fn lemma_dec_digits_all(n: nat)
    ensures
        dec_digits(n).len() > 0,
        all_digits(dec_digits(n)),
    decreases n,
{
    if n >= 10 {
        lemma_dec_digits_all(n / 10);
        let s = dec_digits(n / 10);
        let d = (48 + n % 10) as u8;
        assert(forall|i: int|
            0 <= i < s.push(d).len() ==> is_digit(#[trigger] s.push(d)[i])) by {
            assert(forall|i: int| 0 <= i < s.len() ==> s.push(d)[i] == s[i]);
            assert(s.push(d)[s.len() as int] == d);
        }
    }
}

proof fn lemma_dec_digits_value(n: nat)
    ensures
        dec_value_bytes(dec_digits(n)) == n,
    decreases n,
{
    if n < 10 {
        let s = dec_digits(n);
        assert(s.last() == (48 + n) as u8);
        assert((48 + n) as u8 == 48 + n);
        assert(s.drop_last() =~= Seq::<u8>::empty());
        assert(dec_value_bytes(s) == dec_value_bytes(Seq::<u8>::empty()) * 10 + (s.last() - 48));
    } else {
        lemma_dec_digits_value(n / 10);
        let s = dec_digits(n / 10);
        let d = (48 + n % 10) as u8;
        assert(d == 48 + n % 10);
        assert(s.push(d).drop_last() =~= s);
        assert(s.push(d).last() == d);
        assert(dec_value_bytes(s.push(d)) == (n / 10) * 10 + n % 10);
        assert((n / 10) * 10 + n % 10 == n) by (nonlinear_arith);
    }
}

/// While reading a size line whose buffered bytes hold no CR, a run of
/// CR-free bytes is simply buffered onto the size string: nothing can
/// complete the line before its CRLF.
proof fn lemma_feed_line_bytes(m: ChunkModel, ds: Seq<u8>)
    requires
        m.state is Header,
        forall|i: int| 0 <= i < m.size_str.len() ==> #[trigger] m.size_str[i] != 13,
        forall|i: int| 0 <= i < ds.len() ==> #[trigger] ds[i] != 13,
    ensures
        chunk_feed_bytes(m, ds) == Ok::<ChunkModel, HttpError>(
            ChunkModel { size_str: m.size_str + ds, ..m },
        ),
    decreases ds.len(),
{
    if ds.len() == 0 {
        assert(m.size_str + ds =~= m.size_str);
        assert(ChunkModel { size_str: m.size_str + ds, ..m } =~= m);
    } else {
        let b = ds.first();
        assert(ds[0] != 13);
        if m.size_str.len() > 0 {
            assert(m.size_str.last() == m.size_str[m.size_str.len() - 1]);
        }
        let m2 = ChunkModel { size_str: m.size_str.push(b), ..m };
        assert(chunk_step(m, b) == Ok::<ChunkModel, HttpError>(m2));
        assert(forall|i: int|
            0 <= i < m2.size_str.len() ==> #[trigger] m2.size_str[i] != 13) by {
            assert(forall|i: int|
                0 <= i < m.size_str.len() ==> m2.size_str[i] == m.size_str[i]);
            assert(m2.size_str[m.size_str.len() as int] == b);
        }
        assert(forall|i: int|
            0 <= i < ds.drop_first().len() ==> #[trigger] ds.drop_first()[i] == ds[i + 1]);
        lemma_feed_line_bytes(m2, ds.drop_first());
        assert(m2.size_str + ds.drop_first() =~= m.size_str + ds);
        assert(ChunkModel { size_str: m2.size_str + ds.drop_first(), ..m2 } =~= ChunkModel {
            size_str: m.size_str + ds,
            ..m
        });
    }
}

/// Feeding a complete size line from a fresh line start parses its value.
proof fn lemma_feed_size_line(m: ChunkModel, n: nat)
    requires
        m.state is Header,
        m.size_str.len() == 0,
        n <= usize::MAX,
    ensures
        chunk_feed_bytes(m, dec_digits(n) + seq![13u8, 10u8]) == Ok::<ChunkModel, HttpError>(
            if n == 0 {
                ChunkModel { size_str: Seq::empty(), state: ChunkState::FinalCr, ..m }
            } else {
                ChunkModel { size_str: Seq::empty(), size: n, state: ChunkState::Body, ..m }
            },
        ),
{
    let ds = dec_digits(n);
    lemma_dec_digits_all(n);
    lemma_dec_digits_value(n);
    assert(forall|i: int| 0 <= i < ds.len() ==> #[trigger] ds[i] != 13) by {
        assert(forall|i: int| 0 <= i < ds.len() ==> is_digit(#[trigger] ds[i]));
    }
    lemma_feed_line_bytes(m, ds);
    let m1 = ChunkModel { size_str: m.size_str + ds, ..m };
    assert(m.size_str + ds =~= ds);
    lemma_chunk_feed_bytes_concat(m, ds, seq![13u8, 10u8]);
    // the CR is buffered: the digit string never ends in CR
    assert(is_digit(ds.last())) by {
        assert(ds.last() == ds[ds.len() - 1]);
    }
    let m2 = ChunkModel { size_str: ds.push(13u8), ..m1 };
    assert(chunk_step(m1, 13u8) == Ok::<ChunkModel, HttpError>(m2));
    // the LF completes the line; the buffered digits parse back to n
    assert(m2.size_str.last() == 13);
    assert(m2.size_str.drop_last() =~= ds);
    assert(parse_dec_bytes(ds) == Some(n));
    let target = if n == 0 {
        ChunkModel { size_str: Seq::empty(), state: ChunkState::FinalCr, ..m }
    } else {
        ChunkModel { size_str: Seq::empty(), size: n, state: ChunkState::Body, ..m }
    };
    assert(chunk_step(m2, 10u8) == Ok::<ChunkModel, HttpError>(target)) by {
        if n == 0 {
            assert(ChunkModel {
                size_str: Seq::<u8>::empty(),
                state: ChunkState::FinalCr,
                ..m2
            } =~= target);
        } else {
            assert(ChunkModel {
                size_str: Seq::<u8>::empty(),
                size: n,
                state: ChunkState::Body,
                ..m2
            } =~= target);
        }
    }
    let two = seq![13u8, 10u8];
    assert(two.first() == 13u8);
    assert(two.drop_first() =~= seq![10u8]);
    assert(seq![10u8].first() == 10u8);
    assert(seq![10u8].drop_first() =~= Seq::<u8>::empty());
    assert(chunk_feed_bytes(target, Seq::<u8>::empty()) == Ok::<ChunkModel, HttpError>(target));
    assert(chunk_feed_bytes(m2, seq![10u8]) == Ok::<ChunkModel, HttpError>(target));
    assert(chunk_feed_bytes(m1, two) == Ok::<ChunkModel, HttpError>(target));
}

/// Feeding exactly the announced number of data bytes copies them into the
/// body and leaves the machine expecting the chunk's trailing CRLF.
proof fn lemma_feed_data(m: ChunkModel, data: Seq<u8>)
    requires
        m.state is Body,
        m.size == data.len(),
        data.len() >= 1,
    ensures
        chunk_feed_bytes(m, data) == Ok::<ChunkModel, HttpError>(
            ChunkModel { body: m.body + data, size: 0, state: ChunkState::DataCr, ..m },
        ),
    decreases data.len(),
{
    let b = data.first();
    let target = ChunkModel { body: m.body + data, size: 0, state: ChunkState::DataCr, ..m };
    if data.len() == 1 {
        let m2 = ChunkModel { body: m.body.push(b), size: 0, state: ChunkState::DataCr, ..m };
        assert(chunk_step(m, b) == Ok::<ChunkModel, HttpError>(m2));
        assert(data.drop_first() =~= Seq::<u8>::empty());
        assert(chunk_feed_bytes(m2, Seq::<u8>::empty()) == Ok::<ChunkModel, HttpError>(m2));
        assert(m.body.push(b) =~= m.body + data);
        assert(m2 =~= target);
    } else {
        let m2 = ChunkModel { body: m.body.push(b), size: (m.size - 1) as nat, ..m };
        assert(chunk_step(m, b) == Ok::<ChunkModel, HttpError>(m2));
        lemma_feed_data(m2, data.drop_first());
        assert(m2.body + data.drop_first() =~= m.body + data);
        assert(ChunkModel {
            body: m2.body + data.drop_first(),
            size: 0,
            state: ChunkState::DataCr,
            ..m2
        } =~= target);
    }
}

/// After completion, every further byte is captured as leftover.
proof fn lemma_feed_done(m: ChunkModel, rest: Seq<u8>)
    requires
        m.state is Done,
    ensures
        chunk_feed_bytes(m, rest) == Ok::<ChunkModel, HttpError>(
            ChunkModel { leftover: m.leftover + rest, ..m },
        ),
    decreases rest.len(),
{
    let target = ChunkModel { leftover: m.leftover + rest, ..m };
    if rest.len() == 0 {
        assert(m.leftover + rest =~= m.leftover);
        assert(target =~= m);
    } else {
        let b = rest.first();
        let m2 = ChunkModel { leftover: m.leftover.push(b), ..m };
        assert(chunk_step(m, b) == Ok::<ChunkModel, HttpError>(m2));
        lemma_feed_done(m2, rest.drop_first());
        assert(m2.leftover + rest.drop_first() =~= m.leftover + rest);
        assert(ChunkModel { leftover: m2.leftover + rest.drop_first(), ..m2 } =~= target);
    }
}

/// Feeding one whole encoded chunk from a line start appends its payload to
/// the body and returns to a line start.
proof fn lemma_feed_one_chunk(m: ChunkModel, data: Seq<u8>)
    requires
        m.state is Header,
        m.size_str.len() == 0,
        m.size == 0,
        0 < data.len() <= usize::MAX,
    ensures
        chunk_feed_bytes(m, encode_chunk(data)) == Ok::<ChunkModel, HttpError>(
            ChunkModel { body: m.body + data, ..m },
        ),
{
    let line = dec_digits(data.len()) + seq![13u8, 10u8];
    let tail = data + seq![13u8, 10u8];
    assert(encode_chunk(data) =~= line + tail);
    lemma_chunk_feed_bytes_concat(m, line, tail);
    lemma_feed_size_line(m, data.len());
    let m1 = ChunkModel { size_str: Seq::empty(), size: data.len(), state: ChunkState::Body, ..m };
    lemma_chunk_feed_bytes_concat(m1, data, seq![13u8, 10u8]);
    lemma_feed_data(m1, data);
    let m2 = ChunkModel { body: m1.body + data, size: 0, state: ChunkState::DataCr, ..m1 };
    let m3 = ChunkModel { state: ChunkState::DataLf, ..m2 };
    assert(chunk_step(m2, 13u8) == Ok::<ChunkModel, HttpError>(m3));
    let m4 = ChunkModel { state: ChunkState::Header, ..m3 };
    assert(chunk_step(m3, 10u8) == Ok::<ChunkModel, HttpError>(m4));
    let two = seq![13u8, 10u8];
    assert(two.first() == 13u8);
    assert(two.drop_first() =~= seq![10u8]);
    assert(seq![10u8].first() == 10u8);
    assert(seq![10u8].drop_first() =~= Seq::<u8>::empty());
    assert(chunk_feed_bytes(m4, Seq::<u8>::empty()) == Ok::<ChunkModel, HttpError>(m4));
    assert(chunk_feed_bytes(m3, seq![10u8]) == Ok::<ChunkModel, HttpError>(m4));
    assert(chunk_feed_bytes(m2, two) == Ok::<ChunkModel, HttpError>(m4));
    assert(m4 =~= ChunkModel { body: m.body + data, ..m });
}

/// Feeding the terminating zero-size chunk and everything after it
/// completes the body; the remainder becomes leftover.
proof fn lemma_feed_terminal(m: ChunkModel, rest: Seq<u8>)
    requires
        m.state is Header,
        m.size_str.len() == 0,
        m.size == 0,
    ensures
        chunk_feed_bytes(m, seq![48u8, 13u8, 10u8, 13u8, 10u8] + rest) == Ok::<
            ChunkModel,
            HttpError,
        >(ChunkModel { leftover: m.leftover + rest, state: ChunkState::Done, ..m }),
{
    let line = seq![48u8, 13u8, 10u8];
    assert(line =~= dec_digits(0) + seq![13u8, 10u8]);
    lemma_feed_size_line(m, 0);
    let m1 = ChunkModel { size_str: Seq::empty(), state: ChunkState::FinalCr, ..m };
    let m2 = ChunkModel { state: ChunkState::FinalLf, ..m1 };
    assert(chunk_step(m1, 13u8) == Ok::<ChunkModel, HttpError>(m2));
    let m3 = ChunkModel { state: ChunkState::Done, ..m2 };
    assert(chunk_step(m2, 10u8) == Ok::<ChunkModel, HttpError>(m3));
    assert(seq![48u8, 13u8, 10u8, 13u8, 10u8] + rest =~= line + (seq![13u8, 10u8] + rest));
    lemma_chunk_feed_bytes_concat(m, line, seq![13u8, 10u8] + rest);
    assert((seq![13u8, 10u8] + rest).drop_first() =~= seq![10u8] + rest);
    assert((seq![10u8] + rest).drop_first() =~= rest);
    assert((seq![13u8, 10u8] + rest).first() == 13u8);
    assert((seq![10u8] + rest).first() == 10u8);
    lemma_feed_done(m3, rest);
    assert(chunk_feed_bytes(m2, seq![10u8] + rest) == chunk_feed_bytes(m3, rest));
    assert(chunk_feed_bytes(m1, seq![13u8, 10u8] + rest) == chunk_feed_bytes(m2, seq![10u8] + rest));
    assert(ChunkModel { leftover: m3.leftover + rest, ..m3 } =~= ChunkModel {
        leftover: m.leftover + rest,
        state: ChunkState::Done,
        ..m
    });
}

/// Feeding a whole encoded chunked body from a line start: the machine ends
/// `Done`, the body grows by the concatenated payloads, and the bytes after
/// the terminator become leftover.
proof fn lemma_feed_encoded(m: ChunkModel, chunks: Seq<Seq<u8>>, rest: Seq<u8>)
    requires
        m.state is Header,
        m.size_str.len() == 0,
        m.size == 0,
        forall|i: int| 0 <= i < chunks.len() ==> 0 < #[trigger] chunks[i].len() <= usize::MAX,
    ensures
        chunk_feed_bytes(m, encode_chunks(chunks) + rest) == Ok::<ChunkModel, HttpError>(
            ChunkModel {
                body: m.body + concat_seqs(chunks),
                leftover: m.leftover + rest,
                state: ChunkState::Done,
                ..m
            },
        ),
    decreases chunks.len(),
{
    let target = ChunkModel {
        body: m.body + concat_seqs(chunks),
        leftover: m.leftover + rest,
        state: ChunkState::Done,
        ..m
    };
    if chunks.len() == 0 {
        lemma_feed_terminal(m, rest);
        assert(m.body + concat_seqs(chunks) =~= m.body);
        assert(encode_chunks(chunks) + rest =~= seq![48u8, 13u8, 10u8, 13u8, 10u8] + rest);
        assert(ChunkModel { leftover: m.leftover + rest, state: ChunkState::Done, ..m } =~= target);
    } else {
        let data = chunks.first();
        lemma_feed_one_chunk(m, data);
        let m1 = ChunkModel { body: m.body + data, ..m };
        assert(encode_chunks(chunks) + rest =~= encode_chunk(data) + (encode_chunks(
            chunks.drop_first(),
        ) + rest));
        lemma_chunk_feed_bytes_concat(m, encode_chunk(data), encode_chunks(chunks.drop_first()) + rest);
        lemma_feed_encoded(m1, chunks.drop_first(), rest);
        assert(m1.body + concat_seqs(chunks.drop_first()) =~= m.body + concat_seqs(chunks));
        assert(ChunkModel {
            body: m1.body + concat_seqs(chunks.drop_first()),
            leftover: m1.leftover + rest,
            state: ChunkState::Done,
            ..m1
        } =~= target);
    }
}

/// Feeding a complete well-formed chunked body to a fresh machine yields
/// exactly the concatenated payloads, with everything after the terminator
/// as leftover.
pub proof fn lemma_chunk_machine_accepts(chunks: Seq<Seq<u8>>, rest: Seq<u8>)
    requires
        forall|i: int| 0 <= i < chunks.len() ==> 0 < #[trigger] chunks[i].len() <= usize::MAX,
    ensures
        chunk_feed_bytes(init_model(), encode_chunks(chunks) + rest) == Ok::<
            ChunkModel,
            HttpError,
        >(
            ChunkModel {
                body: concat_seqs(chunks),
                leftover: rest,
                size_str: Seq::empty(),
                size: 0,
                state: ChunkState::Done,
            },
        ),
{
    lemma_feed_encoded(init_model(), chunks, rest);
    assert(Seq::<u8>::empty() + concat_seqs(chunks) =~= concat_seqs(chunks));
    assert(Seq::<u8>::empty() + rest =~= rest);
}

/// A chunk-size line that is not a valid non-negative decimal integer is
/// rejected with exactly `ErrorParsingChunkSize` — never accepted and never
/// silently truncated — whatever bytes follow the line.  Oversized values
/// fail the parse like malformed ones, so overflow is an error, not a
/// wrap-around.
pub proof fn lemma_chunk_size_parse_error(digits: Seq<u8>, rest: Seq<u8>)
    requires
        forall|i: int| 0 <= i < digits.len() ==> #[trigger] digits[i] != 13,
        parse_dec_bytes(digits) is None,
    ensures
        chunk_feed_bytes(init_model(), digits + seq![13u8, 10u8] + rest) == Err::<
            ChunkModel,
            HttpError,
        >(HttpError::ErrorParsingChunkSize),
{
    let m0 = init_model();
    lemma_feed_line_bytes(m0, digits);
    let m1 = ChunkModel { size_str: m0.size_str + digits, ..m0 };
    assert(m0.size_str + digits =~= digits);
    // the CR is buffered: it is not itself a LF after a CR
    let m2 = ChunkModel { size_str: digits.push(13u8), ..m1 };
    assert(chunk_step(m1, 13u8) == Ok::<ChunkModel, HttpError>(m2));
    // the LF completes the line, and the buffered bytes fail the parse
    assert(m2.size_str.last() == 13);
    assert(m2.size_str.drop_last() =~= digits);
    assert(chunk_step(m2, 10u8) == Err::<ChunkModel, HttpError>(HttpError::ErrorParsingChunkSize));
    lemma_chunk_feed_bytes_concat(m0, digits, seq![13u8, 10u8] + rest);
    assert(digits + seq![13u8, 10u8] + rest =~= digits + (seq![13u8, 10u8] + rest));
    assert((seq![13u8, 10u8] + rest).first() == 13u8);
    assert((seq![13u8, 10u8] + rest).drop_first() =~= seq![10u8] + rest);
    assert((seq![10u8] + rest).first() == 10u8);
    assert(chunk_feed_bytes(m2, seq![10u8] + rest) == Err::<ChunkModel, HttpError>(
        HttpError::ErrorParsingChunkSize,
    ));
    assert(chunk_feed_bytes(m1, seq![13u8, 10u8] + rest) == Err::<ChunkModel, HttpError>(
        HttpError::ErrorParsingChunkSize,
    ));
}

/// A run of the machine sends at most one byte per input byte to the
/// leftover; moreover, starting anywhere short of completion, at least one
/// input byte is consumed by the framing rather than captured.
pub proof fn lemma_feed_bytes_leftover_bound(m: ChunkModel, x: Seq<u8>)
    requires
        chunk_feed_bytes(m, x) is Ok,
    ensures
        ({
            let mm = chunk_feed_bytes(m, x)->Ok_0;
            &&& mm.leftover.len() <= m.leftover.len() + x.len()
            &&& (!(m.state is Done) ==> mm.leftover.len() <= m.leftover.len() + (if x.len() > 0 {
                x.len() - 1
            } else {
                0
            }))
        }),
    decreases x.len(),
{
    if x.len() > 0 {
        let m2 = chunk_step(m, x.first())->Ok_0;
        lemma_feed_bytes_leftover_bound(m2, x.drop_first());
    }
}

/// A successful fold never shrinks the body.
pub proof fn lemma_feed_bytes_body_monotone(m: ChunkModel, s: Seq<u8>)
    requires
        chunk_feed_bytes(m, s) is Ok,
    ensures
        m.body.len() <= chunk_feed_bytes(m, s)->Ok_0.body.len(),
    decreases s.len(),
{
    if s.len() > 0 {
        let m2 = chunk_step(m, s.first())->Ok_0;
        lemma_feed_bytes_body_monotone(m2, s.drop_first());
    }
}

/// Feeding fragment by fragment agrees with feeding the concatenation, as
/// long as the finished body respects the maximum: the guard at the head of
/// each call then never trips.
proof fn lemma_feed_all_agrees(m: ChunkModel, frags: Seq<Seq<u8>>)
    requires
        chunk_feed_bytes(m, concat_seqs(frags)) is Ok,
        chunk_feed_bytes(m, concat_seqs(frags))->Ok_0.body.len() < MAX_BODY_SIZE,
    ensures
        feed_all(m, frags) == chunk_feed_bytes(m, concat_seqs(frags)),
    decreases frags.len(),
{
    lemma_feed_bytes_body_monotone(m, concat_seqs(frags));
    if frags.len() > 0 {
        lemma_chunk_feed_bytes_concat(m, frags.first(), concat_seqs(frags.drop_first()));
        let m1 = chunk_feed_bytes(m, frags.first())->Ok_0;
        lemma_feed_all_agrees(m1, frags.drop_first());
    }
}

/// However a valid chunked body is fragmented across reads — mid size
/// digit, mid CRLF, or mid payload — feeding the fragments in order
/// reconstructs exactly the concatenation of the chunk payloads, and the
/// bytes following the terminator are carried over as leftover, none lost
/// and none duplicated.
pub proof fn lemma_chunked_any_fragmentation(
    chunks: Seq<Seq<u8>>,
    frags: Seq<Seq<u8>>,
    rest: Seq<u8>,
)
    requires
        forall|i: int| 0 <= i < chunks.len() ==> 0 < #[trigger] chunks[i].len() <= usize::MAX,
        concat_seqs(chunks).len() < MAX_BODY_SIZE,
        concat_seqs(frags) == encode_chunks(chunks) + rest,
    ensures
        feed_all(init_model(), frags) == Ok::<ChunkModel, HttpError>(
            ChunkModel {
                body: concat_seqs(chunks),
                leftover: rest,
                size_str: Seq::empty(),
                size: 0,
                state: ChunkState::Done,
            },
        ),
{
    lemma_chunk_machine_accepts(chunks, rest);
    lemma_feed_all_agrees(init_model(), frags);
}

/// Splitting the input does not change the fold: feeding `a + b` is feeding
/// `a`, then feeding `b` from the state reached.
pub proof fn lemma_chunk_feed_bytes_concat(m: ChunkModel, a: Seq<u8>, b: Seq<u8>)
    ensures
        chunk_feed_bytes(m, a + b) == match chunk_feed_bytes(m, a) {
            Ok(m2) => chunk_feed_bytes(m2, b),
            Err(e) => Err(e),
        },
    decreases a.len(),
{
    if a.len() == 0 {
        assert(a + b =~= b);
    } else {
        assert((a + b).first() == a.first());
        match chunk_step(m, a.first()) {
            Ok(m2) => {
                assert((a + b).drop_first() =~= a.drop_first() + b);
                lemma_chunk_feed_bytes_concat(m2, a.drop_first(), b);
            },
            Err(_) => {
                assert((a + b).len() > 0);
            },
        }
    }
}

} // verus!
