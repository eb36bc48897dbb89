//! Decompression of gzip streams.
//!
//! The input is one or more concatenated gzip members whose payload is a
//! DEFLATE stream. Each member is inflated into a byte sink and its stored
//! length and CRC-32 are held against the trailer.
//!
//! Input and output are bytes in memory: a [`byte_reader::ByteReader`] and
//! a [`byte_sink::ByteSink`]. On top of them stand the bit reader, the
//! writer that keeps the sliding window, the Huffman codes, the blocks of
//! DEFLATE and the framing of gzip. What each of them does is said over
//! the input as a sequence of bytes and a position in it.

use vstd::prelude::*;

pub mod error;
pub mod checksum;
pub mod byte_sink;
pub mod byte_reader;
pub mod bit_reader;
pub mod tracking_writer;
pub mod huffman_coding;
pub mod deflate;
pub mod gzip;

use crate::byte_reader::ByteReader;
use crate::byte_sink::ByteSink;
use crate::deflate::Inflated;
use crate::error::Error;
use crate::gzip::{GzipReader, lemma_member_advances, member_at};

verus! {

/// The members from byte `pos` on, up to the end of the input. `out` is
/// what the members before gave, and `budget` the most that all members
/// together may give.
pub open spec fn members_at(data: Seq<u8>, pos: nat, out: Seq<u8>, budget: nat) -> Inflated
    decreases data.len() - pos,
{
    if pos >= data.len() {
        Inflated { out, end: Ok(pos) }
    } else {
        let member = member_at(data, pos, (budget - out.len()) as nat);
        proof {
            lemma_member_advances(data, pos, (budget - out.len()) as nat);
        }
        match member.end {
            Err(e) => Inflated { out: out + member.out, end: Err(e) },
            Ok(next) => members_at(data, next, out + member.out, budget),
        }
    }
}

/// Decompresses what is left of `input`, one member after the other, into
/// `output`. The input has to end with a member. What was decoded before a
/// failure stays in the sink.
pub fn decompress(input: ByteReader, output: &mut ByteSink) -> (r: Result<(), Error>)
    requires
        input.wf(),
        old(output).wf(),
    ensures
        final(output).wf(),
        final(output).capacity() == old(output).capacity(),
        ({
            let all = members_at(input.data(), input.pos(), Seq::empty(), old(output).room());
            &&& final(output)@ == old(output)@ + all.out
            &&& match r {
                Ok(()) => all.end is Ok,
                Err(e) => all.end == Err::<nat, Error>(e),
            }
        }),
{
    let ghost data = input.data();
    let ghost budget = output.room();
    let ghost all = members_at(data, input.pos(), Seq::empty(), budget);
    let ghost before = output@;
    let mut left = input;
    assert(before + Seq::<u8>::empty() =~= before);
    assert(output@.skip(before.len() as int) =~= Seq::<u8>::empty());
    while !left.is_empty()
        invariant
            left.wf(),
            left.data() == data,
            data == input.data(),
            output.wf(),
            output.capacity() == old(output).capacity(),
            before == old(output)@,
            budget == old(output).room(),
            output@.len() >= before.len(),
            output@ == before + output@.skip(before.len() as int),
            all == members_at(input.data(), input.pos(), Seq::empty(), old(output).room()),
            all == members_at(data, left.pos(), output@.skip(before.len() as int), budget),
        decreases data.len() - left.pos(),
    {
        let ghost out = output@.skip(before.len() as int);
        let ghost member = member_at(data, left.pos(), (budget - out.len()) as nat);
        proof {
            lemma_member_advances(data, left.pos(), (budget - out.len()) as nat);
        }
        let gz_reader = GzipReader::new(left);
        match gz_reader.decompress(&mut *output) {
            Ok((rest, _)) => {
                left = rest;
            },
            Err(e) => {
                assert(output@.skip(before.len() as int) =~= out + member.out);
                assert(output@ =~= before + (out + member.out));
                return Err(e);
            },
        }
        assert(output@.skip(before.len() as int) =~= out + member.out);
    }
    Ok(())
}

} // verus!
