//! An in-memory byte stream for exercising the pipeline: it delivers a
//! scripted list of fragments, one read apiece, and records everything
//! written to it.

use vstd::prelude::*;

use crate::http_error::HttpError;
use crate::worker::ByteStream;

verus! {

/// The bytes a fragment list delivers, in order.
pub open spec fn frags_bytes(frags: Seq<Vec<u8>>) -> Seq<u8>
    decreases frags.len(),
{
    if frags.len() == 0 {
        Seq::empty()
    } else {
        frags.first()@ + frags_bytes(frags.drop_first())
    }
}

/// The bytes a fragment stack delivers: the top of the stack — its last
/// element — comes first.
pub open spec fn stack_bytes(frags: Seq<Vec<u8>>) -> Seq<u8>
    decreases frags.len(),
{
    if frags.len() == 0 {
        Seq::empty()
    } else {
        frags.last()@ + stack_bytes(frags.drop_last())
    }
}

/// The next fragment still to be delivered, skipping exhausted ones.
pub open spec fn next_frag(frags: Seq<Vec<u8>>) -> Seq<u8>
    decreases frags.len(),
{
    if frags.len() == 0 {
        Seq::empty()
    } else if frags.last()@.len() > 0 {
        frags.last()@
    } else {
        next_frag(frags.drop_last())
    }
}

/// A scripted connection.  `data` holds the fragments still to be
/// delivered, top of the stack first, so each read returns at most one
/// scripted fragment and the fragment boundaries are exactly where reads
/// split.  `receive` collects everything written.
pub struct TcpStreamMock {
    pub data: Vec<Vec<u8>>,
    pub receive: Vec<u8>,
}

impl TcpStreamMock {
    /// A mock that delivers the given fragments in order, then reports end
    /// of stream.
    pub fn new(request_bytes: Vec<Vec<u8>>) -> (r: Self)
        ensures
            r.incoming() == frags_bytes(request_bytes@),
            r.written() == Seq::<u8>::empty(),
    {
        let ghost orig = request_bytes@;
        let mut input = request_bytes;
        let mut data: Vec<Vec<u8>> = Vec::new();
        proof {
            assert(input@ =~= orig.take(input@.len() as int));
            assert(orig.skip(orig.len() as int) =~= Seq::<Vec<u8>>::empty());
        }
        while input.len() > 0
            invariant
                input@.len() <= orig.len(),
                input@ == orig.take(input@.len() as int),
                stack_bytes(data@) == frags_bytes(orig.skip(input@.len() as int)),
            decreases input.len(),
        {
            let ghost k = input@.len() as int;
            let ghost data0 = data@;
            let frag = match input.pop() {
                Some(f) => f,
                None => {
                    proof {
                        assert(false);
                    }
                    Vec::new()
                },
            };
            proof {
                assert(orig.take(k).last() == orig[k - 1]);
                assert(input@ =~= orig.take(k - 1));
            }
            data.push(frag);
            proof {
                assert(data@.drop_last() =~= data0);
                assert(data@.last() == frag);
                assert(orig.skip(k - 1).first() == orig[k - 1]);
                assert(orig.skip(k - 1).drop_first() =~= orig.skip(k));
            }
        }
        proof {
            assert(orig.skip(0) =~= orig);
        }
        Self { data, receive: Vec::new() }
    }
}

impl ByteStream for TcpStreamMock {
    open spec fn incoming(&self) -> Seq<u8> {
        stack_bytes(self.data@)
    }

    open spec fn written(&self) -> Seq<u8> {
        self.receive@
    }

    open spec fn reliable(&self) -> bool {
        true
    }

    /// A read never fails and never spans two scripted fragments: it
    /// delivers exactly the next fragment, clipped to `max` — so the
    /// scripted boundaries are where the stream splits.
    fn read_some(&mut self, max: usize) -> (r: Result<Vec<u8>, HttpError>)
        ensures
            r is Ok,
            r->Ok_0@.len() == if max <= next_frag(old(self).data@).len() {
                max as int
            } else {
                next_frag(old(self).data@).len() as int
            },
    {
        if max == 0 {
            let out: Vec<u8> = Vec::new();
            proof {
                assert(out@ =~= old(self).incoming().take(0));
                assert(self.incoming() =~= old(self).incoming().skip(0));
            }
            return Ok(out);
        }
        while self.data.len() > 0
            invariant
                stack_bytes(self.data@) == old(self).incoming(),
                next_frag(self.data@) == next_frag(old(self).data@),
                self.receive == old(self).receive,
                max >= 1,
            decreases self.data@.len(),
        {
            let ghost data0 = self.data@;
            let frag = match self.data.pop() {
                Some(f) => f,
                None => {
                    proof {
                        assert(false);
                    }
                    Vec::new()
                },
            };
            proof {
                assert(data0.last() == frag);
                assert(self.data@ =~= data0.drop_last());
            }
            if frag.len() == 0 {
                proof {
                    assert(frag@ + stack_bytes(self.data@) =~= stack_bytes(self.data@));
                }
                continue ;
            }
            let k = if max < frag.len() {
                max
            } else {
                frag.len()
            };
            let out = vstd::slice::slice_to_vec(
                vstd::slice::slice_subrange(frag.as_slice(), 0, k),
            );
            let ghost tail = stack_bytes(self.data@);
            proof {
                assert(stack_bytes(data0) =~= frag@ + tail);
            }
            if k < frag.len() {
                let rest = vstd::slice::slice_to_vec(
                    vstd::slice::slice_subrange(frag.as_slice(), k, frag.len()),
                );
                self.data.push(rest);
                proof {
                    assert(self.data@.drop_last() =~= data0.drop_last());
                    assert(stack_bytes(self.data@) =~= frag@.skip(k as int) + tail);
                }
            }
            proof {
                assert(out@ =~= (frag@ + tail).take(k as int));
                assert(stack_bytes(self.data@) =~= (frag@ + tail).skip(k as int));
                assert(out@.len() == k);
                assert(out@ == old(self).incoming().take(out@.len() as int));
                assert(stack_bytes(self.data@) == old(self).incoming().skip(out@.len() as int));
                assert(next_frag(data0) == frag@);
            }
            return Ok(out);
        }
        let out: Vec<u8> = Vec::new();
        proof {
            assert(out@ =~= old(self).incoming().take(0));
            assert(self.incoming() =~= old(self).incoming().skip(0));
        }
        Ok(out)
    }

    fn read_exact(&mut self, n: usize) -> (r: Result<Vec<u8>, HttpError>) {
        let mut out: Vec<u8> = Vec::new();
        proof {
            assert(out@ =~= old(self).incoming().take(0));
            assert(stack_bytes(self.data@) =~= old(self).incoming().skip(0));
        }
        while out.len() < n
            invariant
                out@.len() <= n,
                out@.len() <= old(self).incoming().len(),
                out@ == old(self).incoming().take(out@.len() as int),
                stack_bytes(self.data@) == old(self).incoming().skip(out@.len() as int),
                self.receive == old(self).receive,
            decreases n - out.len(), self.data@.len(),
        {
            if self.data.len() == 0 {
                proof {
                    assert(old(self).incoming().skip(out@.len() as int).len() == 0);
                }
                return Err(HttpError::Error500);
            }
            let ghost data0 = self.data@;
            let ghost done = out@.len() as int;
            let frag = match self.data.pop() {
                Some(f) => f,
                None => {
                    return Err(HttpError::Error500);
                },
            };
            proof {
                assert(data0.last() == frag);
                assert(self.data@ =~= data0.drop_last());
            }
            if frag.len() == 0 {
                proof {
                    assert(frag@ + stack_bytes(self.data@) =~= stack_bytes(self.data@));
                }
                continue ;
            }
            let need = n - out.len();
            let k = if need < frag.len() {
                need
            } else {
                frag.len()
            };
            let ghost tail = stack_bytes(self.data@);
            proof {
                assert(stack_bytes(data0) =~= frag@ + tail);
            }
            out.extend_from_slice(vstd::slice::slice_subrange(frag.as_slice(), 0, k));
            if k < frag.len() {
                let rest = vstd::slice::slice_to_vec(
                    vstd::slice::slice_subrange(frag.as_slice(), k, frag.len()),
                );
                self.data.push(rest);
                proof {
                    assert(self.data@.drop_last() =~= data0.drop_last());
                    assert(stack_bytes(self.data@) =~= frag@.skip(k as int) + tail);
                }
            }
            proof {
                let oinc = old(self).incoming();
                assert(oinc.skip(done) == frag@ + tail);
                assert(out@ =~= oinc.take(done) + oinc.skip(done).take(k as int));
                assert(oinc.take(done) + oinc.skip(done).take(k as int) =~= oinc.take(done + k));
                assert(stack_bytes(self.data@) =~= (frag@ + tail).skip(k as int));
                assert((frag@ + tail).skip(k as int) =~= oinc.skip(done).skip(k as int));
                assert(oinc.skip(done).skip(k as int) =~= oinc.skip(done + k));
            }
        }
        proof {
            assert(out@.len() == n);
        }
        Ok(out)
    }

    fn write_all(&mut self, bytes: &[u8]) -> (r: Result<(), HttpError>) {
        self.receive.extend_from_slice(bytes);
        Ok(())
    }
}

} // verus!
