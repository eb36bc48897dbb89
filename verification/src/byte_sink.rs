//! An in-memory output sink that accepts a bounded number of bytes.

use vstd::prelude::*;
use vstd::slice::slice_subrange;

verus! {

/// Bytes written so far, and the most the sink will ever hold.
pub struct ByteSink {
    data: Vec<u8>,
    limit: usize,
}

impl View for ByteSink {
    type V = Seq<u8>;

    closed spec fn view(&self) -> Seq<u8> {
        self.data@
    }
}

impl ByteSink {
    /// The number of bytes the sink holds when full.
    pub closed spec fn capacity(&self) -> usize {
        self.limit
    }

    /// The sink never holds more than its capacity.
    pub open spec fn wf(&self) -> bool {
        self@.len() <= self.capacity()
    }

    /// How many more bytes the sink accepts.
    pub open spec fn room(&self) -> nat {
        (self.capacity() - self@.len()) as nat
    }

    /// An empty sink that is bounded by the address space only.
    pub fn new() -> (sink: ByteSink)
        ensures
            sink.wf(),
            sink@ == Seq::<u8>::empty(),
            sink.capacity() == usize::MAX,
    {
        ByteSink { data: Vec::new(), limit: usize::MAX }
    }

    /// An empty sink that accepts `limit` bytes.
    pub fn with_limit(limit: usize) -> (sink: ByteSink)
        ensures
            sink.wf(),
            sink@ == Seq::<u8>::empty(),
            sink.capacity() == limit,
    {
        ByteSink { data: Vec::new(), limit }
    }

    /// The number of bytes held.
    pub fn len(&self) -> (n: usize)
        ensures
            n == self@.len(),
    {
        self.data.len()
    }

    /// The bytes held.
    pub fn as_slice(&self) -> (bytes: &[u8])
        ensures
            bytes@ == self@,
    {
        self.data.as_slice()
    }

    /// Gives up the bytes held.
    pub fn into_vec(self) -> (bytes: Vec<u8>)
        ensures
            bytes@ == self@,
    {
        self.data
    }

    /// Appends as long a prefix of `buf` as there is room for and returns
    /// its length.
    pub fn write(&mut self, buf: &[u8]) -> (accepted: usize)
        requires
            old(self).wf(),
        ensures
            final(self).wf(),
            final(self).capacity() == old(self).capacity(),
            accepted as nat == if buf@.len() <= old(self).room() {
                buf@.len()
            } else {
                old(self).room()
            },
            final(self)@ == old(self)@ + buf@.take(accepted as int),
    {
        let room = self.limit - self.data.len();
        let accepted = if buf.len() <= room {
            buf.len()
        } else {
            room
        };
        self.data.extend_from_slice(slice_subrange(buf, 0, accepted));
        accepted
    }
}

} // verus!
