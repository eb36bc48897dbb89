//! The block structure of a DEFLATE stream.

use vstd::prelude::*;
use vstd::arithmetic::power2::lemma2_to64;
use vstd::std_specs::convert::FromSpecImpl;
use crate::bit_reader::{BitReader, bits_at};
use crate::byte_reader::{ByteReader, le_u16_of};
use crate::byte_sink::ByteSink;
use crate::checksum::{Crc32, crc32_of, iso_hdlc};
use crate::error::Error;
use crate::huffman_coding::{
    DistanceToken,
    HuffmanCoding,
    LitLenToken,
    canonical_codes,
    decode_litlen_distance_trees,
    dynamic_codes_at,
    fixed_distance_lengths,
    fixed_litlen_lengths,
    get_fixed_coding,
    lemma_distance_tokens_valid,
    lemma_litlen_tokens_valid,
    lemma_read_symbol_advances,
    read_symbol_at,
};
use crate::tracking_writer::{HISTORY_SIZE, TrackingWriter, back_copy, emitted};

verus! {

/// How the data of a block is written.
#[derive(Clone, Copy, Debug, PartialEq, Eq, Structural)]
pub enum CompressionType {
    /// Stored as it is.
    Uncompressed,
    /// In the two fixed codes.
    FixedTree,
    /// In two codes that the block describes.
    DynamicTree,
    /// The block type that is not in use.
    Reserved,
}

impl Default for CompressionType {
    /// A stored block.
    fn default() -> (kind: Self)
        ensures
            kind == CompressionType::Uncompressed,
    {
        CompressionType::Uncompressed
    }
}

impl From<u16> for CompressionType {
    /// The kind that the two bits of a block header name.
    fn from(num: u16) -> (kind: Self) {
        if num == 0 {
            CompressionType::Uncompressed
        } else if num == 1 {
            CompressionType::FixedTree
        } else if num == 2 {
            CompressionType::DynamicTree
        } else {
            CompressionType::Reserved
        }
    }
}

impl FromSpecImpl<u16> for CompressionType {
    open spec fn obeys_from_spec() -> bool {
        true
    }

    open spec fn from_spec(num: u16) -> Self {
        compression_type_of(num as nat)
    }
}

/// The kind of block that the two bits `num` name.
pub open spec fn compression_type_of(num: nat) -> CompressionType {
    if num == 0 {
        CompressionType::Uncompressed
    } else if num == 1 {
        CompressionType::FixedTree
    } else if num == 2 {
        CompressionType::DynamicTree
    } else {
        CompressionType::Reserved
    }
}

/// The three bits in front of a block.
#[derive(Debug)]
pub struct BlockHeader {
    pub is_final: bool,
    pub compression_type: CompressionType,
}

impl Default for BlockHeader {
    /// The header of a stored block that is not the last.
    fn default() -> (header: Self)
        ensures
            !header.is_final,
            header.compression_type == CompressionType::Uncompressed,
    {
        BlockHeader { is_final: false, compression_type: CompressionType::Uncompressed }
    }
}

/// What decoding gave: the output so far, and the position behind what was
/// decoded or the reason why decoding stopped.
pub struct Inflated {
    pub out: Seq<u8>,
    pub end: Result<nat, Error>,
}

/// The header that stands at `pos`: whether the block is the last one, and
/// its kind.
pub open spec fn block_header_at(data: Seq<u8>, pos: nat) -> (bool, CompressionType) {
    (bits_at(data, pos, 1) == 1, compression_type_of(bits_at(data, pos + 1, 2)))
}

/// A stored block whose header ended at `pos`: behind the next byte
/// boundary stand its length, the complement of the length, and the data.
/// `out` is the output so far, which can grow to `budget` bytes.
pub open spec fn stored_block_at(data: Seq<u8>, pos: nat, out: Seq<u8>, budget: nat) -> Inflated {
    let at = ((pos + 7) / 8) as int;
    let len = le_u16_of(data.skip(at));
    let nlen = le_u16_of(data.skip(at + 2));
    if at + 4 > data.len() {
        Inflated { out, end: Err(Error::UnexpectedEof) }
    } else if len + nlen != 0xffff {
        Inflated { out, end: Err(Error::BadStoredHeader) }
    } else if at + 4 + len > data.len() {
        Inflated { out, end: Err(Error::UnexpectedEof) }
    } else {
        let chunk = data.subrange(at + 4, at + 4 + len);
        Inflated {
            out: emitted(out, (budget - out.len()) as nat, chunk),
            end: if out.len() + len <= budget {
                Ok((8 * (at + 4 + len)) as nat)
            } else {
                Err(Error::IoError)
            },
        }
    }
}

/// The value of `extra_bits` bits at `pos`, none standing for 0, and the
/// position behind them.
pub open spec fn extra_at(data: Seq<u8>, pos: nat, extra_bits: nat) -> Result<(nat, nat), Error> {
    if extra_bits == 0 {
        Ok((0, pos))
    } else if pos + extra_bits > 8 * data.len() {
        Err(Error::UnexpectedEof)
    } else {
        Ok((bits_at(data, pos, extra_bits), pos + extra_bits))
    }
}

/// The match that follows a length symbol: its length, its distance and
/// the position behind it.
pub open spec fn match_at(
    distance: Map<(nat, nat), DistanceToken>,
    data: Seq<u8>,
    pos: nat,
    base: nat,
    extra_bits: nat,
) -> Result<(nat, nat, nat), Error> {
    match extra_at(data, pos, extra_bits) {
        Err(e) => Err(e),
        Ok((more, symbol_pos)) => match read_symbol_at(distance, data, symbol_pos) {
            Err(e) => Err(e),
            Ok((token, far_pos)) => match extra_at(data, far_pos, token.extra_bits as nat) {
                Err(e) => Err(e),
                Ok((far, next)) => Ok((base + more, token.base as nat + far, next)),
            },
        },
    }
}

/// A match ends behind where it starts.
pub proof fn lemma_match_advances(
    distance: Map<(nat, nat), DistanceToken>,
    data: Seq<u8>,
    pos: nat,
    base: nat,
    extra_bits: nat,
)
    ensures
        match_at(distance, data, pos, base, extra_bits) matches Ok((_, _, next)) ==> pos < next
            <= 8 * data.len(),
{
    if let Ok((more, symbol_pos)) = extra_at(data, pos, extra_bits) {
        lemma_read_symbol_advances(distance, data, symbol_pos, 0, 0);
    }
}

/// The symbols of a compressed block from `pos` on, up to the end of the
/// block: literals are appended to `out`, matches are copied from the last
/// `HISTORY_SIZE` bytes of it.
pub open spec fn symbols_at(
    litlen: Map<(nat, nat), LitLenToken>,
    distance: Map<(nat, nat), DistanceToken>,
    data: Seq<u8>,
    pos: nat,
    out: Seq<u8>,
    budget: nat,
) -> Inflated
    decreases 8 * data.len() - pos,
{
    match read_symbol_at(litlen, data, pos) {
        Err(e) => Inflated { out, end: Err(e) },
        Ok((token, next)) => {
            proof {
                lemma_read_symbol_advances(litlen, data, pos, 0, 0);
            }
            match token {
                LitLenToken::Literal(byte) => if out.len() < budget {
                    symbols_at(litlen, distance, data, next, out.push(byte), budget)
                } else {
                    Inflated { out, end: Err(Error::IoError) }
                },
                LitLenToken::EndOfBlock => Inflated { out, end: Ok(next) },
                LitLenToken::Length { base, extra_bits } => match match_at(
                    distance,
                    data,
                    next,
                    base as nat,
                    extra_bits as nat,
                ) {
                    Err(e) => Inflated { out, end: Err(e) },
                    Ok((len, dist, after)) => {
                        proof {
                            lemma_match_advances(distance, data, next, base as nat, extra_bits as nat);
                        }
                        if dist == 0 || dist > out.len() || dist > HISTORY_SIZE {
                            Inflated { out, end: Err(Error::BadBackReference) }
                        } else if out.len() + len > budget {
                            Inflated {
                                out: out + back_copy(out, dist, len).take(budget - out.len()),
                                end: Err(Error::IoError),
                            }
                        } else {
                            symbols_at(
                                litlen,
                                distance,
                                data,
                                after,
                                out + back_copy(out, dist, len),
                                budget,
                            )
                        }
                    },
                },
            }
        },
    }
}

/// The block whose header ended at `pos`.
#[verifier::opaque]
pub open spec fn block_at(
    kind: CompressionType,
    data: Seq<u8>,
    pos: nat,
    out: Seq<u8>,
    budget: nat,
) -> Inflated {
    match kind {
        CompressionType::Uncompressed => stored_block_at(data, pos, out, budget),
        CompressionType::FixedTree => symbols_at(
            canonical_codes::<LitLenToken>(fixed_litlen_lengths(), 288),
            canonical_codes::<DistanceToken>(fixed_distance_lengths(), 32),
            data,
            pos,
            out,
            budget,
        ),
        CompressionType::DynamicTree => match dynamic_codes_at(data, pos) {
            Err(e) => Inflated { out, end: Err(e) },
            Ok((litlen, distance, body)) => symbols_at(litlen, distance, data, body, out, budget),
        },
        CompressionType::Reserved => Inflated { out, end: Err(Error::BadBlockType) },
    }
}

/// The blocks from `pos` on, up to the one that is marked as the last.
pub open spec fn blocks_at(data: Seq<u8>, pos: nat, out: Seq<u8>, budget: nat) -> Inflated
    decreases 8 * data.len() - pos,
{
    if pos + 3 > 8 * data.len() {
        Inflated { out, end: Err(Error::UnexpectedEof) }
    } else {
        let (is_final, kind) = block_header_at(data, pos);
        let block = block_at(kind, data, pos + 3, out, budget);
        proof {
            lemma_block_advances(kind, data, pos + 3, out, budget);
        }
        match block.end {
            Err(_) => block,
            Ok(next) => if is_final {
                block
            } else {
                blocks_at(data, next, block.out, budget)
            },
        }
    }
}

/// What is left of a stream: nothing behind the last block.
pub open spec fn rest_at(
    finished: bool,
    data: Seq<u8>,
    pos: nat,
    out: Seq<u8>,
    budget: nat,
) -> Inflated {
    if finished {
        Inflated { out, end: Ok(pos) }
    } else {
        blocks_at(data, pos, out, budget)
    }
}

/// Copies a stored block to `writer`.
fn inflate_stored(bit_reader: &mut BitReader, writer: &mut TrackingWriter) -> (r: Result<(), Error>)
    requires
        old(bit_reader).wf(),
        old(writer).wf(),
    ensures
        final(bit_reader).wf(),
        final(bit_reader).data() == old(bit_reader).data(),
        final(writer).follows(*old(writer)),
        *final(final(writer).target()) == *final(old(writer).target()),
        ({
            let block = stored_block_at(
                old(bit_reader).data(),
                old(bit_reader).bit_pos(),
                old(writer).written(),
                old(writer).budget(),
            );
            &&& final(writer).written() == block.out
            &&& match r {
                Ok(()) => block.end == Ok::<nat, Error>(final(bit_reader).bit_pos()),
                Err(e) => block.end == Err::<nat, Error>(e),
            }
        }),
{
    let ghost data = bit_reader.data();
    let ghost at = bit_reader.stream().pos() as int;
    assert((bit_reader.bit_pos() + 7) / 8 == at);
    let reader = bit_reader.borrow_reader_from_boundary();
    let len = reader.read_u16_le()?;
    let nlen = reader.read_u16_le()?;
    assert(data.skip(at).skip(2) =~= data.skip(at + 2));
    assert((len == !nlen) <==> (len + nlen == 0xffff)) by (bit_vector);
    if len != !nlen {
        return Err(Error::BadStoredHeader);
    }
    let buffer = reader.read_exact(len as usize)?;
    assert(buffer@ =~= data.subrange(at + 4, at + 4 + len));
    writer.write_all(buffer.as_slice())
}

/// Decodes the symbols of a compressed block up to its end.
fn inflate_symbols(
    litlen: &HuffmanCoding<LitLenToken>,
    distance: &HuffmanCoding<DistanceToken>,
    bit_reader: &mut BitReader,
    writer: &mut TrackingWriter,
) -> (r: Result<(), Error>)
    requires
        old(bit_reader).wf(),
        old(writer).wf(),
        forall|code: (nat, nat)| #[trigger] litlen@.contains_key(code) ==> litlen@[code].valid(),
        forall|code: (nat, nat)| #[trigger] distance@.contains_key(code) ==> distance@[code].valid(),
    ensures
        final(bit_reader).wf(),
        final(bit_reader).data() == old(bit_reader).data(),
        final(writer).follows(*old(writer)),
        *final(final(writer).target()) == *final(old(writer).target()),
        ({
            let block = symbols_at(
                litlen@,
                distance@,
                old(bit_reader).data(),
                old(bit_reader).bit_pos(),
                old(writer).written(),
                old(writer).budget(),
            );
            &&& final(writer).written() == block.out
            &&& match r {
                Ok(()) => block.end == Ok::<nat, Error>(final(bit_reader).bit_pos()),
                Err(e) => block.end == Err::<nat, Error>(e),
            }
        }),
{
    let ghost data = bit_reader.data();
    let ghost budget = writer.budget();
    let ghost whole = symbols_at(
        litlen@,
        distance@,
        data,
        bit_reader.bit_pos(),
        writer.written(),
        budget,
    );
    loop
        invariant
            data == old(bit_reader).data(),
            bit_reader.wf(),
            bit_reader.data() == data,
            writer.follows(*old(writer)),
            *final(writer.target()) == *final(old(writer).target()),
            budget == old(writer).budget(),
            forall|code: (nat, nat)| #[trigger] litlen@.contains_key(code) ==> litlen@[code].valid(),
            forall|code: (nat, nat)| #[trigger]
                distance@.contains_key(code) ==> distance@[code].valid(),
            whole == symbols_at(
                litlen@,
                distance@,
                old(bit_reader).data(),
                old(bit_reader).bit_pos(),
                old(writer).written(),
                old(writer).budget(),
            ),
            whole == symbols_at(
                litlen@,
                distance@,
                data,
                bit_reader.bit_pos(),
                writer.written(),
                budget,
            ),
        decreases 8 * data.len() - bit_reader.bit_pos(),
    {
        let ghost pos = bit_reader.bit_pos();
        let ghost out = writer.written();
        proof {
            lemma_read_symbol_advances(litlen@, data, pos, 0, 0);
            lemma2_to64();
            writer.lemma_history_len();
        }
        let token = litlen.read_symbol(bit_reader)?;
        assert(litlen@.contains_value(token));
        assert(token.valid());
        match token {
            LitLenToken::Literal(byte) => {
                assert(out.push(byte) =~= out + seq![byte]);
                assert(out + seq![byte].take(0) =~= out);
                writer.write_u8(byte)?;
            },
            LitLenToken::EndOfBlock => {
                return Ok(());
            },
            LitLenToken::Length { base, extra_bits } => {
                let ghost next = bit_reader.bit_pos();
                proof {
                    lemma_match_advances(distance@, data, next, base as nat, extra_bits as nat);
                    crate::bit_reader::lemma_pow2_small(extra_bits as nat);
                }
                let more: u16 = if extra_bits != 0 {
                    bit_reader.read_bits(extra_bits)?.bits()
                } else {
                    0
                };
                let len: usize = base as usize + more as usize;
                proof {
                    lemma_read_symbol_advances(distance@, data, bit_reader.bit_pos(), 0, 0);
                }
                let far_token = distance.read_symbol(bit_reader)?;
                assert(distance@.contains_value(far_token));
                assert(far_token.valid());
                proof {
                    crate::bit_reader::lemma_pow2_small(far_token.extra_bits as nat);
                }
                let far: u16 = if far_token.extra_bits != 0 {
                    bit_reader.read_bits(far_token.extra_bits)?.bits()
                } else {
                    0
                };
                let dist: usize = far_token.base as usize + far as usize;
                assert(match_at(distance@, data, next, base as nat, extra_bits as nat) == Ok::<
                    (nat, nat, nat),
                    Error,
                >((len as nat, dist as nat, bit_reader.bit_pos())));
                writer.write_previous(dist, len)?;
            },
        }
    }
}

/// Inflates the block of the given kind whose header was just read.
fn inflate_block(
    kind: CompressionType,
    bit_reader: &mut BitReader,
    writer: &mut TrackingWriter,
) -> (r: Result<(), Error>)
    requires
        old(bit_reader).wf(),
        old(writer).wf(),
    ensures
        final(bit_reader).wf(),
        final(bit_reader).data() == old(bit_reader).data(),
        final(writer).follows(*old(writer)),
        *final(final(writer).target()) == *final(old(writer).target()),
        ({
            let block = block_at(
                kind,
                old(bit_reader).data(),
                old(bit_reader).bit_pos(),
                old(writer).written(),
                old(writer).budget(),
            );
            &&& final(writer).written() == block.out
            &&& match r {
                Ok(()) => block.end == Ok::<nat, Error>(final(bit_reader).bit_pos()),
                Err(e) => block.end == Err::<nat, Error>(e),
            }
        }),
{
    reveal(block_at);
    match kind {
        CompressionType::Reserved => Err(Error::BadBlockType),
        CompressionType::Uncompressed => inflate_stored(bit_reader, writer),
        CompressionType::FixedTree => {
            let (litlen, distance) = get_fixed_coding()?;
            proof {
                lemma_litlen_tokens_valid(fixed_litlen_lengths(), 288);
                lemma_distance_tokens_valid(fixed_distance_lengths(), 32);
            }
            inflate_symbols(&litlen, &distance, bit_reader, writer)
        },
        CompressionType::DynamicTree => {
            proof {
                lemma_dynamic_tokens_valid(bit_reader.data(), bit_reader.bit_pos());
            }
            let (litlen, distance) = decode_litlen_distance_trees(bit_reader)?;
            inflate_symbols(&litlen, &distance, bit_reader, writer)
        },
    }
}

/// A block ends behind its header.
pub proof fn lemma_block_advances(
    kind: CompressionType,
    data: Seq<u8>,
    pos: nat,
    out: Seq<u8>,
    budget: nat,
)
    ensures
        block_at(kind, data, pos, out, budget).end matches Ok(next) ==> pos <= next <= 8
            * data.len(),
{
    reveal(block_at);
    match kind {
        CompressionType::Reserved => {},
        CompressionType::Uncompressed => {},
        CompressionType::FixedTree => {
            lemma_symbols_advance(
                canonical_codes::<LitLenToken>(fixed_litlen_lengths(), 288),
                canonical_codes::<DistanceToken>(fixed_distance_lengths(), 32),
                data,
                pos,
                out,
                budget,
            );
        },
        CompressionType::DynamicTree => {
            if let Ok((litlen, distance, body)) = dynamic_codes_at(data, pos) {
                crate::huffman_coding::lemma_dynamic_codes_advance(data, pos);
                lemma_symbols_advance(litlen, distance, data, body, out, budget);
            }
        },
    }
}

/// The symbols of a block end behind where they start.
pub proof fn lemma_symbols_advance(
    litlen: Map<(nat, nat), LitLenToken>,
    distance: Map<(nat, nat), DistanceToken>,
    data: Seq<u8>,
    pos: nat,
    out: Seq<u8>,
    budget: nat,
)
    ensures
        symbols_at(litlen, distance, data, pos, out, budget).end matches Ok(next) ==> pos < next
            <= 8 * data.len(),
    decreases 8 * data.len() - pos,
{
    lemma_read_symbol_advances(litlen, data, pos, 0, 0);
    if let Ok((token, next)) = read_symbol_at(litlen, data, pos) {
        match token {
            LitLenToken::Literal(byte) => {
                if out.len() < budget {
                    lemma_symbols_advance(litlen, distance, data, next, out.push(byte), budget);
                }
            },
            LitLenToken::EndOfBlock => {},
            LitLenToken::Length { base, extra_bits } => {
                lemma_match_advances(distance, data, next, base as nat, extra_bits as nat);
                if let Ok((len, dist, after)) = match_at(
                    distance,
                    data,
                    next,
                    base as nat,
                    extra_bits as nat,
                ) {
                    if !(dist == 0 || dist > out.len() || dist > HISTORY_SIZE) && out.len() + len
                        <= budget {
                        lemma_symbols_advance(
                            litlen,
                            distance,
                            data,
                            after,
                            out + back_copy(out, dist, len),
                            budget,
                        );
                    }
                }
            },
        }
    }
}

/// A DEFLATE stream that is read block by block.
pub struct DeflateReader {
    bit_reader: BitReader,
    reached_last: bool,
}

impl DeflateReader {
    /// The bit reader underneath.
    pub closed spec fn reader(&self) -> BitReader {
        self.bit_reader
    }

    /// Whether the header of the last block has been read.
    pub closed spec fn finished(&self) -> bool {
        self.reached_last
    }

    /// The bit reader is well formed.
    pub open spec fn wf(&self) -> bool {
        self.reader().wf()
    }

    /// A stream that starts where `bit_reader` stands.
    pub fn new(bit_reader: BitReader) -> (stream: DeflateReader)
        ensures
            stream.reader() == bit_reader,
            !stream.finished(),
    {
        DeflateReader { bit_reader, reached_last: false }
    }

    /// Gives up the byte reader, which stands behind the last byte that
    /// the stream has touched.
    pub fn into_reader(self) -> (stream: ByteReader)
        ensures
            stream == self.reader().stream(),
    {
        self.bit_reader.into_reader()
    }

    /// Reads the header of the next block, if the last block has not been
    /// met yet.
    pub fn next_block(&mut self) -> (r: Option<Result<BlockHeader, Error>>)
        requires
            old(self).wf(),
        ensures
            final(self).wf(),
            final(self).reader().data() == old(self).reader().data(),
            match r {
                None => old(self).finished() && *final(self) == *old(self),
                Some(Ok(header)) => {
                    &&& !old(self).finished()
                    &&& old(self).reader().bit_pos() + 3 <= 8 * old(self).reader().data().len()
                    &&& (header.is_final, header.compression_type) == block_header_at(
                        old(self).reader().data(),
                        old(self).reader().bit_pos(),
                    )
                    &&& final(self).reader().bit_pos() == old(self).reader().bit_pos() + 3
                    &&& final(self).finished() == header.is_final
                },
                Some(Err(e)) => {
                    &&& !old(self).finished()
                    &&& !final(self).finished()
                    &&& e == Error::UnexpectedEof
                    &&& old(self).reader().bit_pos() + 3 > 8 * old(self).reader().data().len()
                },
            },
    {
        if self.reached_last {
            return None;
        }
        let is_final = match self.bit_reader.read_bits(1) {
            Ok(bit) => bit.bits() == 1,
            Err(e) => {
                return Some(Err(e));
            },
        };
        let kind = match self.bit_reader.read_bits(2) {
            Ok(bits) => bits.bits(),
            Err(e) => {
                return Some(Err(e));
            },
        };
        self.reached_last = is_final;
        Some(Ok(BlockHeader { is_final, compression_type: CompressionType::from(kind) }))
    }

    /// Inflates the blocks that are left of the stream into `output`.
    /// Gives the number of bytes that came out, modulo 2^32, their CRC-32,
    /// and the sink. What was decoded before a failure stays in the sink.
    pub fn deflate<'a>(&mut self, output: &'a mut ByteSink) -> (r: Result<
        (u32, (u32, &'a mut ByteSink)),
        Error,
    >)
        requires
            old(self).wf(),
            old(output).wf(),
        ensures
            final(self).wf(),
            final(self).reader().data() == old(self).reader().data(),
            ({
                let whole = rest_at(
                    old(self).finished(),
                    old(self).reader().data(),
                    old(self).reader().bit_pos(),
                    Seq::empty(),
                    old(output).room(),
                );
                match r {
                    Ok((count, (sum, sink))) => {
                        &&& whole.end == Ok::<nat, Error>(final(self).reader().bit_pos())
                        &&& final(self).finished()
                        &&& count as nat == whole.out.len() % 0x1_0000_0000
                        &&& sum == crc32_of(whole.out)
                        &&& sink@ == old(output)@ + whole.out
                        &&& sink.wf()
                        &&& sink.capacity() == old(output).capacity()
                        &&& *final(sink) == *final(output)
                    },
                    Err(e) => {
                        &&& whole.end == Err::<nat, Error>(e)
                        &&& final(output)@ == old(output)@ + whole.out
                        &&& final(output).wf()
                        &&& final(output).capacity() == old(output).capacity()
                    },
                }
            }),
    {
        let ghost data = self.bit_reader.data();
        let ghost budget = output.room();
        let ghost whole = rest_at(
            self.reached_last,
            data,
            self.bit_reader.bit_pos(),
            Seq::empty(),
            budget,
        );
        let crc = Crc32::new();
        let mut writer = TrackingWriter::new(&crc, &mut *output);
        assert(writer.written() =~= Seq::<u8>::empty());
        loop
            invariant_except_break
                whole == rest_at(
                    self.reached_last,
                    data,
                    self.bit_reader.bit_pos(),
                    writer.written(),
                    budget,
                ),
            invariant
                data == old(self).reader().data(),
                budget == old(output).room(),
                whole == rest_at(
                    old(self).finished(),
                    old(self).reader().data(),
                    old(self).reader().bit_pos(),
                    Seq::empty(),
                    old(output).room(),
                ),
                self.bit_reader.wf(),
                self.bit_reader.data() == data,
                writer.wf(),
                writer.algorithm() == iso_hdlc(),
                writer.budget() == budget,
                writer.base() == old(output)@,
                writer.sink().capacity() == old(output).capacity(),
                *final(writer.target()) == after_borrow(*output),
            ensures
                self.reached_last,
                whole == (Inflated {
                    out: writer.written(),
                    end: Ok(self.bit_reader.bit_pos()),
                }),
            decreases 8 * data.len() - self.bit_reader.bit_pos(),
        {
            let ghost pos = self.bit_reader.bit_pos();
            let ghost out = writer.written();
            let header = match self.next_block() {
                None => {
                    break ;
                },
                Some(Err(e)) => {
                    assert(writer.sink()@ =~= writer.base() + writer.written());
                    writer.into_inner();
                    return Err(e);
                },
                Some(Ok(header)) => header,
            };
            let ghost block = block_at(header.compression_type, data, pos + 3, out, budget);
            proof {
                lemma_block_advances(header.compression_type, data, pos + 3, out, budget);
            }
            let done = inflate_block(header.compression_type, &mut self.bit_reader, &mut writer);
            assert(writer.written() == block.out);
            assert(writer.sink()@ =~= writer.base() + writer.written());
            match done {
                Ok(()) => {
                    assert(block.end == Ok::<nat, Error>(self.bit_reader.bit_pos()));
                },
                Err(e) => {
                    assert(block.end == Err::<nat, Error>(e));
                    writer.into_inner();
                    return Err(e);
                },
            }
        }
        assert(writer.sink()@ =~= writer.base() + writer.written());
        let count = ((writer.byte_count() as u64) % 0x1_0000_0000u64) as u32;
        let (sum, _) = writer.crc32();
        Ok((count, (sum, output)))
    }
}

/// The symbols of the two codes of a dynamic block are valid.
proof fn lemma_dynamic_tokens_valid(data: Seq<u8>, pos: nat)
    ensures
        dynamic_codes_at(data, pos) matches Ok((litlen, distance, _)) ==> {
            &&& forall|code: (nat, nat)| #[trigger]
                litlen.contains_key(code) ==> litlen[code].valid()
            &&& forall|code: (nat, nat)| #[trigger]
                distance.contains_key(code) ==> distance[code].valid()
        },
{
    let hlit = bits_at(data, pos, 5) + 257;
    let hdist = bits_at(data, pos + 5, 5) + 1;
    let hclen = bits_at(data, pos + 10, 4) + 4;
    let body = pos + 14 + 3 * hclen;
    let tree_lengths = crate::huffman_coding::tree_code_lengths(data, pos + 14, hclen);
    if let Ok((lengths, end)) = crate::huffman_coding::code_lengths_at(
        canonical_codes::<crate::huffman_coding::TreeCodeToken>(tree_lengths, 19),
        data,
        body,
        Seq::empty(),
        hlit + hdist,
    ) {
        let litlen = lengths.take(hlit as int);
        let distance = lengths.skip(hlit as int);
        lemma_litlen_tokens_valid(litlen, litlen.len());
        lemma_distance_tokens_valid(distance, distance.len());
    }
}

/// The blocks of a stream end behind where they start, within the input.
pub proof fn lemma_blocks_advance(data: Seq<u8>, pos: nat, out: Seq<u8>, budget: nat)
    ensures
        blocks_at(data, pos, out, budget).end matches Ok(next) ==> pos + 3 <= next <= 8
            * data.len(),
    decreases 8 * data.len() - pos,
{
    if pos + 3 <= 8 * data.len() {
        let (is_final, kind) = block_header_at(data, pos);
        let block = block_at(kind, data, pos + 3, out, budget);
        lemma_block_advances(kind, data, pos + 3, out, budget);
        if let Ok(next) = block.end {
            if !is_final {
                lemma_blocks_advance(data, next, block.out, budget);
            }
        }
    }
}

} // verus!
