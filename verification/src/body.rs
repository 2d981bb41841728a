//! Response bodies on their way to a client, and what is kept of them.

use hyper::body::Bytes;
use vstd::prelude::*;

use crate::cache::{after_put, MemCache};

verus! {

#[verifier::external_type_specification]
#[verifier::external_body]
pub struct ExBytes(Bytes);

/// The bytes that a buffer holds.
pub uninterp spec fn bytes_of(buffer: Bytes) -> Seq<u8>;

/// `Bytes::from` a vector holds the bytes of the vector.
#[verifier::external_body]
pub(crate) fn buffer_from(bytes: Vec<u8>) -> (buffer: Bytes)
    ensures
        bytes_of(buffer) == bytes@,
{
    Bytes::from(bytes)
}

/// `Bytes::clone` holds the same bytes.
#[verifier::external_body]
fn clone_buffer(buffer: &Bytes) -> (copy: Bytes)
    ensures
        bytes_of(copy) == bytes_of(*buffer),
{
    buffer.clone()
}

/// `Bytes::as_ref` gives the bytes.
#[verifier::external_body]
fn buffer_bytes(buffer: &Bytes) -> (bytes: &[u8])
    ensures
        bytes@ == bytes_of(*buffer),
{
    buffer.as_ref()
}

/// The bytes of buffers, one after the other.
pub open spec fn joined(buffers: Seq<Bytes>) -> Seq<u8>
    decreases buffers.len(),
{
    if buffers.len() == 0 {
        Seq::empty()
    } else {
        joined(buffers.drop_last()) + bytes_of(buffers.last())
    }
}

/// What asking a body for its next frame can give: nothing yet, the end, an
/// error, a frame of data or any other frame.
pub enum Polled<Error, Other> {
    Pending,
    End,
    Failed(Error),
    Data(Bytes),
    Other(Other),
}

/// Watches the body of a response that is to be cached, and keeps a copy.
pub struct IncomingTeeSink {
    sink: Option<Vec<u8>>,
    frame_data: Vec<Bytes>,
    key: String,
}

impl IncomingTeeSink {
    /// The bytes that come before the body, until they have been handed on.
    pub closed spec fn head(&self) -> Option<Seq<u8>> {
        match self.sink {
            Some(bytes) => Some(bytes@),
            None => None,
        }
    }

    /// The bytes of the body so far.
    pub closed spec fn body(&self) -> Seq<u8> {
        joined(self.frame_data@)
    }

    /// The key that the response is to be cached under.
    pub closed spec fn key(&self) -> Seq<char> {
        self.key@
    }

    /// A watcher that has seen nothing of the body. `sink` is the entry of the
    /// response up to its body.
    pub fn new(sink: Vec<u8>, key: String) -> (tee: Self)
        ensures
            tee.head() == Some(sink@),
            tee.body() == Seq::<u8>::empty(),
            tee.key() == key@,
    {
        IncomingTeeSink { sink: Some(sink), frame_data: Vec::with_capacity(5), key }
    }

    /// Takes what the body gave, keeps a copy of the data in it, and hands it
    /// on as it is.
    pub fn poll_frame<Error, Other>(&mut self, polled: Polled<Error, Other>) -> (passed: Polled<
        Error,
        Other,
    >)
        ensures
            passed == polled,
            final(self).body() == match polled {
                Polled::Data(data) => old(self).body() + bytes_of(data),
                _ => old(self).body(),
            },
            final(self).head() == old(self).head(),
            final(self).key() == old(self).key(),
    {
        match polled {
            Polled::Data(data) => {
                self.frame_data.push(clone_buffer(&data));
                assert(self.frame_data@.drop_last() == old(self).frame_data@);
                Polled::Data(data)
            },
            other => other,
        }
    }

    /// Ends the watch. A body that has come to its end is stored behind its
    /// head; of any other nothing is stored.
    pub fn finish(&mut self, end_stream: bool, cache: &mut MemCache)
        requires
            old(self).head() is Some,
        ensures
            final(self).head() is None,
            final(self).body() == old(self).body(),
            final(self).key() == old(self).key(),
            final(cache).capacity() == old(cache).capacity(),
            final(cache)@ == if end_stream {
                after_put(
                    old(cache)@,
                    old(cache).capacity(),
                    old(self).key(),
                    old(self).head().unwrap() + old(self).body(),
                )
            } else {
                old(cache)@
            },
            old(cache).wf() ==> final(cache).wf(),
    {
        let mut sink = self.sink.take().unwrap();
        let ghost head = sink@;
        if end_stream {
            for i in 0..self.frame_data.len()
                invariant
                    sink@ == head + joined(self.frame_data@.take(i as int)),
            {
                sink.extend_from_slice(buffer_bytes(&self.frame_data[i]));
                proof {
                    let seen = self.frame_data@.take(i + 1);
                    assert(seen.drop_last() == self.frame_data@.take(i as int));
                    assert(sink@ == head + joined(seen));
                }
            }
            assert(self.frame_data@.take(self.frame_data@.len() as int) == self.frame_data@);
            cache.store_key(self.key.clone(), sink.as_slice());
        }
    }
}

/// Where the body of a response comes from.
pub enum CacheBody {
    /// From the upstream host, and it is being cached.
    Sink(IncomingTeeSink),
    /// From the cache.
    Source(Bytes),
    /// From the upstream host, and it is not cached, because a rule or the
    /// configuration says so.
    Skip,
}

} // verus!
