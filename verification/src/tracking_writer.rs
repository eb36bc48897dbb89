//! Output that remembers what a back-reference may ask for.

use vstd::prelude::*;
use vstd::slice::slice_subrange;
use vstd::arithmetic::div_mod::{lemma_mod_sub_multiples_vanish, lemma_small_mod};
use std::collections::VecDeque;
use crate::byte_sink::ByteSink;
use crate::checksum::{
    Crc32,
    Crc32Digest,
    CrcAlgorithm,
    crc_of,
    digest_algorithm,
    digest_input,
    finalize_digest,
    start_digest,
    update_digest,
};
use crate::error::Error;

verus! {

/// The size of the sliding window.
pub const HISTORY_SIZE: usize = 32768;

/// The last `count` bytes of `bytes`, or all of them if there are fewer.
pub open spec fn last_bytes(bytes: Seq<u8>, count: nat) -> Seq<u8> {
    if bytes.len() <= count {
        bytes
    } else {
        bytes.skip(bytes.len() - count)
    }
}

/// What a back-reference of `len` bytes at distance `dist` stands for after
/// `out`: the last `dist` bytes of `out`, repeated as often as needed.
pub open spec fn back_copy(out: Seq<u8>, dist: nat, len: nat) -> Seq<u8> {
    Seq::new(len, |i: int| out[out.len() - dist + i % (dist as int)])
}

/// `out` after `len` bytes were appended one at a time, each a copy of the
/// byte that stood `dist` places before the end at that moment.
pub open spec fn serial_copy(out: Seq<u8>, dist: nat, len: nat) -> Seq<u8>
    decreases len,
{
    if len == 0 {
        out
    } else {
        let before = serial_copy(out, dist, (len - 1) as nat);
        before.push(before[before.len() - dist])
    }
}

/// A back-reference emits what a byte-by-byte copy would, also where the
/// run overlaps itself.
pub proof fn lemma_back_copy_is_serial(out: Seq<u8>, dist: nat, len: nat)
    requires
        1 <= dist <= out.len(),
    ensures
        serial_copy(out, dist, len) == out + back_copy(out, dist, len),
    decreases len,
{
    if len == 0 {
        assert(out + back_copy(out, dist, 0) =~= out);
    } else {
        let shorter = (len - 1) as nat;
        lemma_back_copy_is_serial(out, dist, shorter);
        let before = out + back_copy(out, dist, shorter);
        let source = before.len() - dist;
        if shorter < dist {
            lemma_small_mod(shorter, dist);
        } else {
            lemma_mod_sub_multiples_vanish(shorter as int, dist as int);
        }
        assert(before[source] == out[out.len() - dist + (shorter as int) % (dist as int)]);
        assert(before.push(before[source]) =~= out + back_copy(out, dist, len));
    }
}

/// A writer in front of a sink. It counts and checksums the bytes that the
/// sink accepted and keeps the last `HISTORY_SIZE` of them.
pub struct TrackingWriter<'a> {
    inner: &'a mut ByteSink,
    history: VecDeque<u8>,
    byte_count: usize,
    digest: Crc32Digest<'a>,
}

impl<'a> TrackingWriter<'a> {
    /// The sink as it stands.
    pub closed spec fn sink(&self) -> ByteSink {
        *self.inner
    }

    /// The borrow of the sink that the writer holds.
    pub closed spec fn target(&self) -> &'a mut ByteSink {
        self.inner
    }

    /// The number of bytes the sink accepted from this writer.
    pub closed spec fn count(&self) -> nat {
        self.byte_count as nat
    }

    /// The window of recent bytes.
    pub closed spec fn history(&self) -> Seq<u8> {
        self.history@
    }

    /// The bytes that the checksum covers.
    pub closed spec fn summed(&self) -> Seq<u8> {
        digest_input(self.digest)
    }

    /// The algorithm of the checksum: that of the engine that the writer
    /// was made with.
    pub closed spec fn algorithm(&self) -> CrcAlgorithm {
        digest_algorithm(self.digest)
    }

    /// The bytes the sink accepted from this writer.
    pub open spec fn written(&self) -> Seq<u8> {
        self.sink()@.skip(self.sink()@.len() - self.count())
    }

    /// How many more bytes the sink accepts.
    pub open spec fn room(&self) -> nat {
        self.sink().room()
    }

    /// What the sink held before this writer wrote to it.
    pub open spec fn base(&self) -> Seq<u8> {
        self.sink()@.take(self.sink()@.len() - self.count())
    }

    /// The most that this writer can ever have written.
    pub open spec fn budget(&self) -> nat {
        self.written().len() + self.room()
    }

    /// `self` is a later state of the writer `before`: on the same sink,
    /// behind the same earlier contents.
    pub open spec fn follows(&self, before: TrackingWriter) -> bool {
        &&& self.wf()
        &&& self.sink().capacity() == before.sink().capacity()
        &&& self.base() == before.base()
        &&& self.budget() == before.budget()
        &&& self.algorithm() == before.algorithm()
    }

    /// The count, the window and the checksum agree with what was written.
    pub open spec fn wf(&self) -> bool {
        &&& self.sink().wf()
        &&& self.count() <= self.sink()@.len()
        &&& self.history() == last_bytes(self.written(), HISTORY_SIZE as nat)
        &&& self.summed() == self.written()
    }

    /// The window holds as many bytes as were written, up to its size.
    pub proof fn lemma_history_len(&self)
        requires
            self.wf(),
        ensures
            self.history().len() == if self.count() <= HISTORY_SIZE {
                self.count()
            } else {
                HISTORY_SIZE as nat
            },
    {
    }

    /// A writer that has written nothing yet.
    pub fn new(crc: &'a Crc32, inner: &'a mut ByteSink) -> (writer: TrackingWriter<'a>)
        requires
            old(inner).wf(),
        ensures
            writer.wf(),
            writer.count() == 0,
            writer.algorithm() == crc.algorithm(),
            writer.sink() == *old(inner),
            writer.base() == old(inner)@,
            *final(writer.target()) == *final(inner),
    {
        let writer = TrackingWriter {
            inner,
            history: VecDeque::with_capacity(HISTORY_SIZE),
            byte_count: 0,
            digest: start_digest(crc),
        };
        assert(writer.written() =~= Seq::<u8>::empty());
        assert(writer.base() =~= old(inner)@);
        writer
    }

    /// Offers `buf` to the sink and returns how many bytes of it the sink
    /// accepted. Those bytes, and no others, are counted, checksummed and
    /// remembered.
    pub fn write(&mut self, buf: &[u8]) -> (accepted: usize)
        requires
            old(self).wf(),
        ensures
            final(self).follows(*old(self)),
            *final(final(self).target()) == *final(old(self).target()),
            accepted as nat == if buf@.len() <= old(self).room() {
                buf@.len()
            } else {
                old(self).room()
            },
            final(self).written() == old(self).written() + buf@.take(accepted as int),
            final(self).count() == old(self).count() + accepted,
    {
        let ghost before = self.written();
        let accepted = self.inner.write(buf);
        let taken = slice_subrange(buf, 0, accepted);
        update_digest(&mut self.digest, taken);
        self.byte_count = self.byte_count + accepted;
        assert(self.written() =~= before + taken@);
        let ghost stepped = *self;
        let mut i: usize = 0;
        while i < accepted
            invariant
                i <= accepted == taken@.len(),
                self.history@ == last_bytes(before + taken@.take(i as int), HISTORY_SIZE as nat),
                self.inner == stepped.inner,
                self.byte_count == stepped.byte_count,
                self.digest == stepped.digest,
            decreases accepted - i,
        {
            if self.history.len() >= HISTORY_SIZE {
                self.history.pop_front();
            }
            self.history.push_back(taken[i]);
            assert(taken@.take(i + 1) =~= taken@.take(i as int).push(taken@[i as int]));
            assert(self.history@ =~= last_bytes(
                before + taken@.take(i + 1),
                HISTORY_SIZE as nat,
            ));
            i = i + 1;
        }
        assert(taken@.take(accepted as int) =~= taken@);
        assert(self.base() =~= old(self).base());
        accepted
    }

    /// Writes all of `buf`, or as much of it as the sink accepts.
    pub fn write_all(&mut self, buf: &[u8]) -> (r: Result<(), Error>)
        requires
            old(self).wf(),
        ensures
            final(self).follows(*old(self)),
            *final(final(self).target()) == *final(old(self).target()),
            final(self).written() == emitted(old(self).written(), old(self).room(), buf@),
            r is Ok <==> buf@.len() <= old(self).room(),
            r is Err ==> r == Err::<(), Error>(Error::IoError),
    {
        let accepted = self.write(buf);
        if accepted == buf.len() {
            assert(buf@.take(accepted as int) =~= buf@);
            Ok(())
        } else {
            Err(Error::IoError)
        }
    }

    /// Writes one byte.
    pub fn write_u8(&mut self, byte: u8) -> (r: Result<(), Error>)
        requires
            old(self).wf(),
        ensures
            final(self).follows(*old(self)),
            *final(final(self).target()) == *final(old(self).target()),
            final(self).written() == emitted(old(self).written(), old(self).room(), seq![byte]),
            r is Ok <==> 1 <= old(self).room(),
            r is Err ==> r == Err::<(), Error>(Error::IoError),
    {
        let one: [u8; 1] = [byte];
        assert(one@ =~= seq![byte]);
        self.write_all(one.as_slice())
    }

    /// Writes again the `len` bytes that start `dist` bytes back, taking
    /// bytes of the run itself where it reaches past the end.
    pub fn write_previous(&mut self, dist: usize, len: usize) -> (r: Result<(), Error>)
        requires
            old(self).wf(),
        ensures
            final(self).follows(*old(self)),
            *final(final(self).target()) == *final(old(self).target()),
            match r {
                Ok(()) => {
                    &&& 1 <= dist <= old(self).history().len()
                    &&& len <= old(self).room()
                },
                Err(e) => if dist == 0 || dist > old(self).history().len() {
                    e == Error::BadBackReference
                } else {
                    e == Error::IoError && len > old(self).room()
                },
            },
            final(self).written() == if dist == 0 || dist > old(self).history().len() {
                old(self).written()
            } else {
                emitted(
                    old(self).written(),
                    old(self).room(),
                    back_copy(old(self).written(), dist as nat, len as nat),
                )
            },
    {
        let held = self.history.len();
        if dist == 0 || dist > held {
            return Err(Error::BadBackReference);
        }
        let ghost out = self.written();
        let start = held - dist;
        let mut chunk: Vec<u8> = Vec::new();
        let mut i: usize = 0;
        while i < len
            invariant
                i <= len,
                1 <= dist <= held,
                start == held - dist,
                held == self.history@.len(),
                self.history@ == last_bytes(out, HISTORY_SIZE as nat),
                chunk@ == back_copy(out, dist as nat, i as nat),
            decreases len - i,
        {
            let byte = if i < dist {
                proof {
                    lemma_small_mod(i as nat, dist as nat);
                }
                self.history[start + i]
            } else {
                proof {
                    lemma_mod_sub_multiples_vanish(i as int, dist as int);
                }
                chunk[i - dist]
            };
            chunk.push(byte);
            assert(chunk@ =~= back_copy(out, dist as nat, (i + 1) as nat));
            i = i + 1;
        }
        self.write_all(chunk.as_slice())
    }

    /// The number of bytes written.
    pub fn byte_count(&self) -> (count: usize)
        ensures
            count == self.count(),
    {
        self.byte_count
    }

    /// Ends the writer without asking for the checksum, and gives the
    /// sink back.
    pub fn into_inner(self) -> (sink: &'a mut ByteSink)
        ensures
            *sink == self.sink(),
            *final(sink) == *final(self.target()),
    {
        self.inner
    }

    /// Ends the writer: the checksum of what was written, which is the
    /// CRC-32 where the writer was made with an engine of `Crc32::new`, and
    /// the sink.
    pub fn crc32(self) -> (r: (u32, &'a mut ByteSink))
        requires
            self.wf(),
        ensures
            r.0 == crc_of(self.algorithm(), self.written()),
            *r.1 == self.sink(),
            *final(r.1) == *final(self.target()),
    {
        (finalize_digest(self.digest), self.inner)
    }
}

/// `out` after a sink with `room` bytes left was offered `chunk`: the part
/// that fits is appended.
pub open spec fn emitted(out: Seq<u8>, room: nat, chunk: Seq<u8>) -> Seq<u8> {
    if chunk.len() <= room {
        out + chunk
    } else {
        out + chunk.take(room as int)
    }
}

} // verus!
