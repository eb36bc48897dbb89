//! The ways in which decompression can fail.

use vstd::prelude::*;

verus! {

/// Every failure is reported to the caller; none is recovered from.
#[derive(Clone, Copy, Debug, PartialEq, Eq, Structural)]
pub enum Error {
    /// The input ended in the middle of a field, a block or the trailer.
    UnexpectedEof,
    /// A member does not start with the bytes 0x1f 0x8b.
    BadMagic,
    /// A member names a compression method other than DEFLATE.
    UnsupportedMethod,
    /// The header checksum does not match the header bytes.
    BadHeaderCrc,
    /// A stored block whose length and complement disagree.
    BadStoredHeader,
    /// The reserved block type.
    BadBlockType,
    /// Code lengths that describe no usable Huffman code.
    BadTree,
    /// The bit stream matched no code word.
    BadCode,
    /// A back-reference that reaches before the start of the window.
    BadBackReference,
    /// The trailer's CRC-32 differs from that of the decoded data.
    CrcMismatch,
    /// The trailer's length differs from that of the decoded data.
    LengthMismatch,
    /// The output sink refused bytes.
    IoError,
}

} // verus!
