//! CRC-32 (ISO-HDLC), computed by the `crc` crate.

use vstd::prelude::*;

verus! {

/// What tells one CRC of up to 32 bits from another: the parameters by
/// which the catalogue of CRC algorithms describes it.
pub struct CrcAlgorithm {
    /// The number of bits of the checksum.
    pub width: u8,
    /// The generator polynomial, without its highest term.
    pub poly: u32,
    /// The register before the first byte is read.
    pub init: u32,
    /// Whether each byte is read with its lowest bit first.
    pub refin: bool,
    /// Whether the register is reflected before it is given out.
    pub refout: bool,
    /// What the register is xored with before it is given out.
    pub xorout: u32,
}

/// CRC-32/ISO-HDLC, the checksum of gzip: polynomial 0x04C11DB7 with input
/// and output reflected (0xEDB88320 in that form), initial value and final
/// xor 0xFFFFFFFF.
pub open spec fn iso_hdlc() -> CrcAlgorithm {
    CrcAlgorithm {
        width: 32,
        poly: 0x04c1_1db7,
        init: 0xffff_ffff,
        refin: true,
        refout: true,
        xorout: 0xffff_ffff,
    }
}

/// The checksum of `data` under `algorithm`: what a digest of the `crc`
/// crate gives, for an engine of that algorithm, when it has been fed
/// `data`.
pub uninterp spec fn crc_of(algorithm: CrcAlgorithm, data: Seq<u8>) -> u32;

/// The algorithm that an engine was made for.
pub uninterp spec fn engine_algorithm(crc: Crc32) -> CrcAlgorithm;

/// The algorithm of the engine that a digest was started from.
pub uninterp spec fn digest_algorithm(digest: Crc32Digest) -> CrcAlgorithm;

/// The bytes that a digest has been fed since it was started.
pub uninterp spec fn digest_input(digest: Crc32Digest) -> Seq<u8>;

/// The CRC-32/ISO-HDLC checksum of a byte string.
pub open spec fn crc32_of(data: Seq<u8>) -> u32 {
    crc_of(iso_hdlc(), data)
}

/// A CRC engine: `crc::Crc<u32>`, which holds its algorithm and the lookup
/// table for it.
#[verifier::external_body]
pub struct Crc32 {
    engine: crc::Crc<u32>,
}

/// A running checksum: `crc::Digest<u32>` borrowed from a [`Crc32`].
#[verifier::external_body]
pub struct Crc32Digest<'a> {
    digest: crc::Digest<'a, u32>,
}

/// `crc::Crc::<u32>::new` for the algorithm `CRC_32_ISO_HDLC` of the
/// catalogue: the engine keeps the algorithm that it is given, and the
/// catalogue lists that one with the parameters of `iso_hdlc`.
#[verifier::external_body]
fn iso_hdlc_engine() -> (crc: Crc32)
    ensures
        engine_algorithm(crc) == iso_hdlc(),
{
    Crc32 { engine: crc::Crc::<u32>::new(&crc::CRC_32_ISO_HDLC) }
}

/// `crc::Crc::<u32>::digest`: a fresh digest of the engine's algorithm,
/// which has been fed nothing.
#[verifier::external_body]
pub(crate) fn start_digest<'a>(crc: &'a Crc32) -> (digest: Crc32Digest<'a>)
    ensures
        digest_algorithm(digest) == engine_algorithm(*crc),
        digest_input(digest) == Seq::<u8>::empty(),
{
    Crc32Digest { digest: crc.engine.digest() }
}

/// `crc::Digest::<u32>::update`: the bytes are appended to what the digest
/// has been fed; its engine stays the same.
#[verifier::external_body]
pub(crate) fn update_digest<'a>(digest: &mut Crc32Digest<'a>, bytes: &[u8])
    ensures
        digest_algorithm(*final(digest)) == digest_algorithm(*old(digest)),
        digest_input(*final(digest)) == digest_input(*old(digest)) + bytes@,
{
    digest.digest.update(bytes)
}

/// `crc::Digest::<u32>::finalize`: the checksum, under the digest's
/// algorithm, of everything the digest has been fed.
#[verifier::external_body]
pub(crate) fn finalize_digest<'a>(digest: Crc32Digest<'a>) -> (sum: u32)
    ensures
        sum == crc_of(digest_algorithm(digest), digest_input(digest)),
{
    digest.digest.finalize()
}

impl Crc32 {
    /// The algorithm that the engine computes.
    pub open spec fn algorithm(&self) -> CrcAlgorithm {
        engine_algorithm(*self)
    }

    /// Builds the engine of CRC-32/ISO-HDLC and its lookup table.
    pub fn new() -> (crc: Crc32)
        ensures
            crc.algorithm() == iso_hdlc(),
    {
        iso_hdlc_engine()
    }
}

} // verus!
