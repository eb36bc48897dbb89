//! The gzip framing of a DEFLATE stream: member header and trailer.

use vstd::prelude::*;
use vstd::std_specs::convert::FromSpecImpl;
use crate::bit_reader::BitReader;
use crate::byte_reader::{ByteReader, le_u16_of, le_u32_of};
use crate::byte_sink::ByteSink;
use crate::checksum::{Crc32, crc32_of, finalize_digest, start_digest, update_digest};
use crate::deflate::{DeflateReader, Inflated, blocks_at, lemma_blocks_advance};
use crate::error::Error;

verus! {

/// The first byte of a member.
pub const ID1: u8 = 0x1f;

/// The second byte of a member.
pub const ID2: u8 = 0x8b;

/// The compression method DEFLATE.
pub const CM_DEFLATE: u8 = 8;

/// The bit of the flag byte that marks the data as text.
pub const FTEXT_OFFSET: u8 = 0;

/// The bit of the flag byte that announces a header checksum.
pub const FHCRC_OFFSET: u8 = 1;

/// The bit of the flag byte that announces an extra field.
pub const FEXTRA_OFFSET: u8 = 2;

/// The bit of the flag byte that announces a file name.
pub const FNAME_OFFSET: u8 = 3;

/// The bit of the flag byte that announces a comment.
pub const FCOMMENT_OFFSET: u8 = 4;

/// Bit `n` of `byte`.
pub open spec fn flag_bit(byte: u8, n: u8) -> bool {
    (byte >> n) & 1 == 1
}

/// `byte` with bit `n` set if `value`, and else cleared.
pub open spec fn with_bit(byte: u8, n: u8, value: bool) -> u8 {
    if value {
        byte | (1u8 << n)
    } else {
        byte & !(1u8 << n)
    }
}

/// Setting or clearing a bit changes that bit and no other.
pub proof fn lemma_with_bit(byte: u8, n: u8, value: bool, m: u8)
    requires
        n < 8,
        m < 8,
    ensures
        flag_bit(with_bit(byte, n, value), m) == if m == n {
            value
        } else {
            flag_bit(byte, m)
        },
{
    lemma_set_bit(byte, n, m);
}

/// What bit `m` is after bit `n` was set, and after it was cleared.
proof fn lemma_set_bit(byte: u8, n: u8, m: u8)
    requires
        n < 8,
        m < 8,
    ensures
        flag_bit(byte | (1u8 << n), m) == (m == n || flag_bit(byte, m)),
        flag_bit(byte & !(1u8 << n), m) == (m != n && flag_bit(byte, m)),
{
    assert(((byte | (1u8 << n)) >> m) & 1 == 1 <==> (m == n || (byte >> m) & 1 == 1)) by (bit_vector)
        requires
            n < 8,
            m < 8,
    ;
    assert(((byte & !(1u8 << n)) >> m) & 1 == 1 <==> (m != n && (byte >> m) & 1 == 1)) by (bit_vector)
        requires
            n < 8,
            m < 8,
    ;
}

/// The compression method that a member names.
#[derive(Clone, Copy, Debug, PartialEq, Eq, Structural)]
pub enum CompressionMethod {
    /// DEFLATE, the one method in use.
    Deflate,
    /// Any other method, by its number.
    Unknown(u8),
}

/// The method that the byte `value` names.
pub open spec fn method_of(value: u8) -> CompressionMethod {
    if value == CM_DEFLATE {
        CompressionMethod::Deflate
    } else {
        CompressionMethod::Unknown(value)
    }
}

/// The byte that names `method`.
pub open spec fn byte_of(method: CompressionMethod) -> u8 {
    match method {
        CompressionMethod::Deflate => CM_DEFLATE,
        CompressionMethod::Unknown(value) => value,
    }
}

impl From<u8> for CompressionMethod {
    /// The method that the third byte of a header names.
    fn from(value: u8) -> (method: Self) {
        if value == CM_DEFLATE {
            CompressionMethod::Deflate
        } else {
            CompressionMethod::Unknown(value)
        }
    }
}

impl FromSpecImpl<u8> for CompressionMethod {
    open spec fn obeys_from_spec() -> bool {
        true
    }

    open spec fn from_spec(value: u8) -> Self {
        method_of(value)
    }
}

impl From<CompressionMethod> for u8 {
    /// The byte that names the method in a header.
    fn from(method: CompressionMethod) -> (value: u8) {
        match method {
            CompressionMethod::Deflate => CM_DEFLATE,
            CompressionMethod::Unknown(value) => value,
        }
    }
}

impl FromSpecImpl<CompressionMethod> for u8 {
    open spec fn obeys_from_spec() -> bool {
        true
    }

    open spec fn from_spec(method: CompressionMethod) -> u8 {
        byte_of(method)
    }
}

impl Default for CompressionMethod {
    /// A method that is not in use.
    fn default() -> (method: Self)
        ensures
            method == CompressionMethod::Unknown(42),
    {
        CompressionMethod::Unknown(42)
    }
}

/// The flag byte of a member header.
#[derive(Debug)]
pub struct MemberFlags(u8);

impl View for MemberFlags {
    type V = u8;

    closed spec fn view(&self) -> u8 {
        self.0
    }
}

impl MemberFlags {
    /// The flags that `byte` holds.
    pub fn new(byte: u8) -> (flags: MemberFlags)
        ensures
            flags@ == byte,
    {
        MemberFlags(byte)
    }

    /// Whether bit `n` is set.
    fn bit(&self, n: u8) -> (set: bool)
        requires
            n < 8,
        ensures
            set == flag_bit(self@, n),
    {
        let byte = self.0;
        assert(((byte >> n) & 1 != 0) == ((byte >> n) & 1 == 1)) by (bit_vector);
        (byte >> n) & 1 != 0
    }

    /// Sets bit `n` if `value`, and else clears it.
    fn set_bit(&mut self, n: u8, value: bool)
        requires
            n < 8,
        ensures
            final(self)@ == with_bit(old(self)@, n, value),
    {
        if value {
            self.0 = self.0 | (1u8 << n);
        } else {
            self.0 = self.0 & !(1u8 << n);
        }
    }

    /// Whether the data is marked as text.
    pub fn is_text(&self) -> (set: bool)
        ensures
            set == flag_bit(self@, FTEXT_OFFSET),
    {
        self.bit(FTEXT_OFFSET)
    }

    /// Marks the data as text, or as binary.
    pub fn set_is_text(&mut self, value: bool)
        ensures
            final(self)@ == with_bit(old(self)@, FTEXT_OFFSET, value),
    {
        self.set_bit(FTEXT_OFFSET, value)
    }

    /// Whether a header checksum is announced.
    pub fn has_crc(&self) -> (set: bool)
        ensures
            set == flag_bit(self@, FHCRC_OFFSET),
    {
        self.bit(FHCRC_OFFSET)
    }

    /// Announces a header checksum, or none.
    pub fn set_has_crc(&mut self, value: bool)
        ensures
            final(self)@ == with_bit(old(self)@, FHCRC_OFFSET, value),
    {
        self.set_bit(FHCRC_OFFSET, value)
    }

    /// Whether an extra field is announced.
    pub fn has_extra(&self) -> (set: bool)
        ensures
            set == flag_bit(self@, FEXTRA_OFFSET),
    {
        self.bit(FEXTRA_OFFSET)
    }

    /// Announces an extra field, or none.
    pub fn set_has_extra(&mut self, value: bool)
        ensures
            final(self)@ == with_bit(old(self)@, FEXTRA_OFFSET, value),
    {
        self.set_bit(FEXTRA_OFFSET, value)
    }

    /// Whether a file name is announced.
    pub fn has_name(&self) -> (set: bool)
        ensures
            set == flag_bit(self@, FNAME_OFFSET),
    {
        self.bit(FNAME_OFFSET)
    }

    /// Announces a file name, or none.
    pub fn set_has_name(&mut self, value: bool)
        ensures
            final(self)@ == with_bit(old(self)@, FNAME_OFFSET, value),
    {
        self.set_bit(FNAME_OFFSET, value)
    }

    /// Whether a comment is announced.
    pub fn has_comment(&self) -> (set: bool)
        ensures
            set == flag_bit(self@, FCOMMENT_OFFSET),
    {
        self.bit(FCOMMENT_OFFSET)
    }

    /// Announces a comment, or none.
    pub fn set_has_comment(&mut self, value: bool)
        ensures
            final(self)@ == with_bit(old(self)@, FCOMMENT_OFFSET, value),
    {
        self.set_bit(FCOMMENT_OFFSET, value)
    }
}

/// What a member header says.
#[derive(Debug)]
pub struct MemberHeader {
    pub compression_method: CompressionMethod,
    pub modification_time: u32,
    pub extra: Option<Vec<u8>>,
    pub name: Option<Vec<u8>>,
    pub comment: Option<Vec<u8>>,
    pub extra_flags: u8,
    pub os: u8,
    pub has_crc: bool,
    pub is_text: bool,
}

/// A member header as plain values. The name and the comment stand
/// without the zero byte that ends them.
pub struct HeaderView {
    pub compression_method: CompressionMethod,
    pub modification_time: u32,
    pub extra: Option<Seq<u8>>,
    pub name: Option<Seq<u8>>,
    pub comment: Option<Seq<u8>>,
    pub extra_flags: u8,
    pub os: u8,
    pub has_crc: bool,
    pub is_text: bool,
}

/// The bytes of an optional field.
pub open spec fn field_view(field: Option<Vec<u8>>) -> Option<Seq<u8>> {
    match field {
        Some(bytes) => Some(bytes@),
        None => None,
    }
}

impl View for MemberHeader {
    type V = HeaderView;

    open spec fn view(&self) -> HeaderView {
        HeaderView {
            compression_method: self.compression_method,
            modification_time: self.modification_time,
            extra: field_view(self.extra),
            name: field_view(self.name),
            comment: field_view(self.comment),
            extra_flags: self.extra_flags,
            os: self.os,
            has_crc: self.has_crc,
            is_text: self.is_text,
        }
    }
}

/// The flag byte that announces what `header` holds.
pub open spec fn flags_of(header: HeaderView) -> u8 {
    with_bit(
        with_bit(
            with_bit(
                with_bit(with_bit(0, FTEXT_OFFSET, header.is_text), FHCRC_OFFSET, header.has_crc),
                FEXTRA_OFFSET,
                header.extra is Some,
            ),
            FNAME_OFFSET,
            header.name is Some,
        ),
        FCOMMENT_OFFSET,
        header.comment is Some,
    )
}

/// The two bytes of `value`, low byte first.
pub open spec fn le_bytes_u16(value: nat) -> Seq<u8> {
    seq![(value % 256) as u8, (value / 256 % 256) as u8]
}

/// The four bytes of `value`, lowest byte first.
pub open spec fn le_bytes_u32(value: nat) -> Seq<u8> {
    seq![
        (value % 256) as u8,
        (value / 256 % 256) as u8,
        (value / 65536 % 256) as u8,
        (value / 16777216 % 256) as u8,
    ]
}

/// A text field as it is written: the text and a zero byte.
pub open spec fn text_bytes(field: Option<Seq<u8>>) -> Seq<u8> {
    match field {
        Some(text) => text + seq![0u8],
        None => Seq::empty(),
    }
}

/// An extra field as it is written: its length, modulo 2^16, and the
/// field.
pub open spec fn extra_bytes(field: Option<Seq<u8>>) -> Seq<u8> {
    match field {
        Some(extra) => le_bytes_u16(extra.len() % 65536) + extra,
        None => Seq::empty(),
    }
}

/// The header as it is written, without the header checksum.
pub open spec fn header_bytes(header: HeaderView) -> Seq<u8> {
    seq![ID1, ID2, byte_of(header.compression_method), flags_of(header)] + le_bytes_u32(
        header.modification_time as nat,
    ) + seq![header.extra_flags, header.os] + extra_bytes(header.extra) + text_bytes(header.name)
        + text_bytes(header.comment)
}

/// The low sixteen bits of a checksum.
pub fn low_half(sum: u32) -> (low: u16)
    ensures
        low as nat == sum as nat % 65536,
{
    assert(sum & 0xffff == sum % 65536) by (bit_vector);
    (sum & 0xffff) as u16
}

/// The low sixteen bits of the CRC-32 of `bytes`.
fn crc32_low(bytes: &[u8]) -> (sum: u16)
    ensures
        sum as nat == crc32_of(bytes@) as nat % 65536,
{
    let crc = Crc32::new();
    let mut digest = start_digest(&crc);
    update_digest(&mut digest, bytes);
    assert(Seq::<u8>::empty() + bytes@ =~= bytes@);
    low_half(finalize_digest(digest))
}

impl Default for MemberHeader {
    /// A header without optional fields, of a method that is not in use.
    fn default() -> (header: Self)
        ensures
            header@ == (HeaderView {
                compression_method: CompressionMethod::Unknown(42),
                modification_time: 0,
                extra: None,
                name: None,
                comment: None,
                extra_flags: 0,
                os: 0,
                has_crc: false,
                is_text: false,
            }),
    {
        MemberHeader {
            compression_method: CompressionMethod::default(),
            modification_time: 0,
            extra: None,
            name: None,
            comment: None,
            extra_flags: 0,
            os: 0,
            has_crc: false,
            is_text: false,
        }
    }
}

impl MemberHeader {
    /// The checksum that a header with these fields carries: the low
    /// sixteen bits of the CRC-32 of the header as it is written.
    pub fn crc16(&self) -> (sum: u16)
        ensures
            sum as nat == crc32_of(header_bytes(self@)) as nat % 65536,
    {
        let mut bytes: Vec<u8> = Vec::new();
        bytes.push(ID1);
        bytes.push(ID2);
        bytes.push(u8::from(self.compression_method));
        bytes.push(self.flags().0);
        let time = self.modification_time;
        bytes.push((time % 256) as u8);
        bytes.push((time / 256 % 256) as u8);
        bytes.push((time / 65536 % 256) as u8);
        bytes.push((time / 16777216 % 256) as u8);
        bytes.push(self.extra_flags);
        bytes.push(self.os);
        if let Some(extra) = &self.extra {
            let len = extra.len() % 65536;
            bytes.push((len % 256) as u8);
            bytes.push((len / 256 % 256) as u8);
            bytes.extend_from_slice(extra.as_slice());
        }
        if let Some(name) = &self.name {
            bytes.extend_from_slice(name.as_slice());
            bytes.push(0);
        }
        if let Some(comment) = &self.comment {
            bytes.extend_from_slice(comment.as_slice());
            bytes.push(0);
        }
        assert(bytes@ =~= header_bytes(self@));
        crc32_low(bytes.as_slice())
    }

    /// The flag byte that announces what the header holds.
    pub fn flags(&self) -> (flags: MemberFlags)
        ensures
            flags@ == flags_of(self@),
    {
        let mut flags = MemberFlags(0);
        flags.set_is_text(self.is_text);
        flags.set_has_crc(self.has_crc);
        flags.set_has_extra(self.extra.is_some());
        flags.set_has_name(self.name.is_some());
        flags.set_has_comment(self.comment.is_some());
        flags
    }
}

/// What stands behind the compressed data of a member.
#[derive(Debug)]
pub struct MemberFooter {
    pub data_crc32: u32,
    pub data_size: u32,
}

impl MemberFooter {
    /// Holds the trailer against the size and the checksum of what came
    /// out. Where both differ, the size is named.
    pub fn check(&self, size: u32, sum: u32) -> (r: Result<(), Error>)
        ensures
            r == if self.data_size != size {
                Err::<(), Error>(Error::LengthMismatch)
            } else if self.data_crc32 != sum {
                Err::<(), Error>(Error::CrcMismatch)
            } else {
                Ok::<(), Error>(())
            },
    {
        if self.data_size != size {
            return Err(Error::LengthMismatch);
        }
        if self.data_crc32 != sum {
            return Err(Error::CrcMismatch);
        }
        Ok(())
    }
}

/// The number of bytes from `pos` on that come before the first zero byte
/// or the end of the input.
pub open spec fn text_len(data: Seq<u8>, pos: nat) -> nat
    decreases data.len() - pos,
{
    if pos >= data.len() || data[pos as int] == 0 {
        0
    } else {
        1 + text_len(data, pos + 1)
    }
}

/// The bytes from `pos` on hold no zero up to `pos + count`, where one
/// stands or the input ends.
proof fn lemma_text_len(data: Seq<u8>, pos: nat, count: nat)
    requires
        pos + count <= data.len(),
        forall|i: int| pos <= i < pos + count ==> data[i] != 0,
        pos + count == data.len() || data[pos as int + count] == 0,
    ensures
        text_len(data, pos) == count,
    decreases count,
{
    if count > 0 {
        lemma_text_len(data, pos + 1, (count - 1) as nat);
    }
}

/// An extra field at `pos`, if the flags announce one: its bytes and the
/// position behind it.
pub open spec fn extra_field_at(data: Seq<u8>, pos: nat, present: bool) -> Result<
    (Option<Seq<u8>>, nat),
    Error,
> {
    let len = le_u16_of(data.skip(pos as int));
    if !present {
        Ok((None, pos))
    } else if pos + 2 + len > data.len() {
        Err(Error::UnexpectedEof)
    } else {
        Ok((Some(data.subrange(pos as int + 2, pos as int + 2 + len)), pos + 2 + len))
    }
}

/// A zero-terminated field at `pos`, if the flags announce one: its bytes
/// and the position behind the zero.
pub open spec fn text_field_at(data: Seq<u8>, pos: nat, present: bool) -> Result<
    (Option<Seq<u8>>, nat),
    Error,
> {
    let len = text_len(data, pos);
    if !present {
        Ok((None, pos))
    } else if pos + len >= data.len() {
        Err(Error::UnexpectedEof)
    } else {
        Ok((Some(data.subrange(pos as int, pos as int + len)), pos + len + 1))
    }
}

/// The header checksum at `pos`, if the flags announce one, held against
/// the bytes of the header, which started at `start`: the position behind
/// it.
pub open spec fn header_crc_at(data: Seq<u8>, start: nat, pos: nat, present: bool) -> Result<
    nat,
    Error,
> {
    if !present {
        Ok(pos)
    } else if pos + 2 > data.len() {
        Err(Error::UnexpectedEof)
    } else if le_u16_of(data.skip(pos as int)) != crc32_of(
        data.subrange(start as int, pos as int),
    ) as nat % 65536 {
        Err(Error::BadHeaderCrc)
    } else {
        Ok(pos + 2)
    }
}

/// The member header that starts at `start`: its fields, its flag byte
/// and the position behind it.
pub open spec fn header_at(data: Seq<u8>, start: nat) -> Result<(HeaderView, u8, nat), Error> {
    if start >= data.len() {
        Err(Error::UnexpectedEof)
    } else if data[start as int] != ID1 {
        Err(Error::BadMagic)
    } else if start + 1 >= data.len() {
        Err(Error::UnexpectedEof)
    } else if data[start as int + 1] != ID2 {
        Err(Error::BadMagic)
    } else if start + 2 >= data.len() {
        Err(Error::UnexpectedEof)
    } else if data[start as int + 2] != CM_DEFLATE {
        Err(Error::UnsupportedMethod)
    } else if start + 10 > data.len() {
        Err(Error::UnexpectedEof)
    } else {
        let flags = data[start as int + 3];
        match extra_field_at(data, start + 10, flag_bit(flags, FEXTRA_OFFSET)) {
            Err(e) => Err(e),
            Ok((extra, name_pos)) => match text_field_at(
                data,
                name_pos,
                flag_bit(flags, FNAME_OFFSET),
            ) {
                Err(e) => Err(e),
                Ok((name, comment_pos)) => match text_field_at(
                    data,
                    comment_pos,
                    flag_bit(flags, FCOMMENT_OFFSET),
                ) {
                    Err(e) => Err(e),
                    Ok((comment, crc_pos)) => match header_crc_at(
                        data,
                        start,
                        crc_pos,
                        flag_bit(flags, FHCRC_OFFSET),
                    ) {
                        Err(e) => Err(e),
                        Ok(end) => Ok(
                            (
                                HeaderView {
                                    compression_method: CompressionMethod::Deflate,
                                    modification_time: le_u32_of(data.skip(start as int + 4)) as u32,
                                    extra,
                                    name,
                                    comment,
                                    extra_flags: data[start as int + 8],
                                    os: data[start as int + 9],
                                    has_crc: flag_bit(flags, FHCRC_OFFSET),
                                    is_text: flag_bit(flags, FTEXT_OFFSET),
                                },
                                flags,
                                end,
                            ),
                        ),
                    },
                },
            },
        }
    }
}

/// The member that starts at byte `start`: header, compressed data and
/// trailer. `out` is what the data inflates to, as far as it goes, and
/// `end` the byte position behind the trailer.
pub open spec fn member_at(data: Seq<u8>, start: nat, budget: nat) -> Inflated {
    match header_at(data, start) {
        Err(e) => Inflated { out: Seq::empty(), end: Err(e) },
        Ok((_, _, body)) => {
            let inflated = blocks_at(data, 8 * body, Seq::empty(), budget);
            match inflated.end {
                Err(_) => inflated,
                Ok(bit_end) => {
                    let trailer = (bit_end + 7) / 8;
                    Inflated { out: inflated.out, end: trailer_at(data, trailer, inflated.out) }
                },
            }
        },
    }
}

/// The trailer at byte `pos`, held against the data `out`: the position
/// behind it.
pub open spec fn trailer_at(data: Seq<u8>, pos: nat, out: Seq<u8>) -> Result<nat, Error> {
    if pos + 8 > data.len() {
        Err(Error::UnexpectedEof)
    } else if le_u32_of(data.skip(pos as int + 4)) != out.len() % 0x1_0000_0000 {
        Err(Error::LengthMismatch)
    } else if le_u32_of(data.skip(pos as int)) != crc32_of(out) {
        Err(Error::CrcMismatch)
    } else {
        Ok(pos + 8)
    }
}

/// Behind the bytes that `text_len` counts stands a zero byte, unless the
/// input ends there.
proof fn lemma_text_end(data: Seq<u8>, pos: nat)
    ensures
        pos + text_len(data, pos) < data.len() ==> data[pos as int + text_len(data, pos)] == 0,
    decreases data.len() - pos,
{
    if pos < data.len() && data[pos as int] != 0 {
        lemma_text_end(data, pos + 1);
    }
}

/// A flag byte without reserved bits is made of its five flags.
proof fn lemma_flags_byte(flags: u8)
    by (bit_vector)
    requires
        flags < 32,
    ensures
        with_bit(
            with_bit(
                with_bit(
                    with_bit(
                        with_bit(0, FTEXT_OFFSET, flag_bit(flags, FTEXT_OFFSET)),
                        FHCRC_OFFSET,
                        flag_bit(flags, FHCRC_OFFSET),
                    ),
                    FEXTRA_OFFSET,
                    flag_bit(flags, FEXTRA_OFFSET),
                ),
                FNAME_OFFSET,
                flag_bit(flags, FNAME_OFFSET),
            ),
            FCOMMENT_OFFSET,
            flag_bit(flags, FCOMMENT_OFFSET),
        ) == flags,
{
}

/// An extra field that was read consists of the bytes that it is written
/// as.
proof fn lemma_extra_bytes(data: Seq<u8>, pos: nat, present: bool)
    requires
        pos <= data.len(),
    ensures
        extra_field_at(data, pos, present) matches Ok((extra, next)) ==> {
            &&& pos <= next <= data.len()
            &&& extra is Some == present
            &&& data.subrange(pos as int, next as int) == extra_bytes(extra)
        },
{
    if let Ok((extra, next)) = extra_field_at(data, pos, present) {
        if present {
            let field = data.skip(pos as int);
            assert(field[0] == data[pos as int] && field[1] == data[pos as int + 1]);
        }
        assert(data.subrange(pos as int, next as int) =~= extra_bytes(extra));
    }
}

/// A text field that was read consists of the bytes that it is written as.
proof fn lemma_text_bytes(data: Seq<u8>, pos: nat, present: bool)
    requires
        pos <= data.len(),
    ensures
        text_field_at(data, pos, present) matches Ok((text, next)) ==> {
            &&& pos <= next <= data.len()
            &&& text is Some == present
            &&& data.subrange(pos as int, next as int) == text_bytes(text)
        },
{
    if let Ok((text, next)) = text_field_at(data, pos, present) {
        lemma_text_end(data, pos);
        assert(data.subrange(pos as int, next as int) =~= text_bytes(text));
    }
}

/// The ten bytes that every header starts with.
pub open spec fn fixed_bytes(header: HeaderView) -> Seq<u8> {
    seq![ID1, ID2, byte_of(header.compression_method), flags_of(header)] + le_bytes_u32(
        header.modification_time as nat,
    ) + seq![header.extra_flags, header.os]
}

/// The bytes of a little-endian value are the bytes that it was read from.
proof fn lemma_le_bytes_u32(b0: u8, b1: u8, b2: u8, b3: u8)
    ensures
        le_bytes_u32((b0 + 256 * b1 + 65536 * b2 + 16777216 * b3) as nat) == seq![b0, b1, b2, b3],
{
    let value = (b0 + 256 * b1 + 65536 * b2 + 16777216 * b3) as nat;
    assert(value % 256 == b0);
    assert(value / 256 == b1 + 256 * b2 + 65536 * b3);
    assert(value / 65536 == b2 + 256 * b3);
    assert(value / 16777216 == b3);
    assert(le_bytes_u32(value) =~= seq![b0, b1, b2, b3]);
}

/// The first ten bytes of a header that was read are what its fields are
/// written as.
proof fn lemma_fixed_bytes(data: Seq<u8>, start: nat, header: HeaderView)
    requires
        start + 10 <= data.len(),
        data[start as int] == ID1,
        data[start as int + 1] == ID2,
        data[start as int + 2] == byte_of(header.compression_method),
        data[start as int + 3] == flags_of(header),
        header.modification_time == le_u32_of(data.skip(start as int + 4)),
        header.extra_flags == data[start as int + 8],
        header.os == data[start as int + 9],
    ensures
        data.subrange(start as int, start as int + 10) == fixed_bytes(header),
{
    let at = start as int;
    let field = data.skip(at + 4);
    assert(field[0] == data[at + 4] && field[1] == data[at + 5] && field[2] == data[at + 6]
        && field[3] == data[at + 7]);
    lemma_le_bytes_u32(data[at + 4], data[at + 5], data[at + 6], data[at + 7]);
    let lead = seq![ID1, ID2, byte_of(header.compression_method), flags_of(header)];
    let time = seq![data[at + 4], data[at + 5], data[at + 6], data[at + 7]];
    let tail = seq![header.extra_flags, header.os];
    assert(le_bytes_u32(header.modification_time as nat) == time);
    assert(data.subrange(at, at + 4) =~= lead);
    assert(data.subrange(at + 4, at + 8) =~= time);
    assert(data.subrange(at + 8, at + 10) =~= tail);
    assert(data.subrange(at, at + 10) =~= data.subrange(at, at + 4) + data.subrange(at + 4, at + 8)
        + data.subrange(at + 8, at + 10));
}

/// A header that was read, and whose flag byte has none of the reserved
/// bits set, consists of the bytes that its fields are written as. So the
/// checksum that a header is held against when it is read is the one that
/// `MemberHeader::crc16` gives for what was read.
pub proof fn lemma_header_bytes(data: Seq<u8>, start: nat)
    requires
        header_at(data, start) matches Ok((_, flags, _)) && flags < 32,
    ensures
        header_at(data, start) matches Ok((header, flags, end)) && {
            let crc_pos = if header.has_crc {
                end - 2
            } else {
                end as int
            };
            &&& flags == flags_of(header)
            &&& start + 10 <= crc_pos <= data.len()
            &&& data.subrange(start as int, crc_pos) == header_bytes(header)
            &&& header.has_crc ==> le_u16_of(data.skip(crc_pos)) == crc32_of(
                header_bytes(header),
            ) as nat % 65536
        },
{
    let at = start as int;
    let flags = data[at + 3];
    let extra_pos = start + 10;
    lemma_extra_bytes(data, extra_pos, flag_bit(flags, FEXTRA_OFFSET));
    let (extra, name_pos) = extra_field_at(data, extra_pos, flag_bit(flags, FEXTRA_OFFSET)).unwrap();
    lemma_text_bytes(data, name_pos, flag_bit(flags, FNAME_OFFSET));
    let (name, comment_pos) = text_field_at(data, name_pos, flag_bit(flags, FNAME_OFFSET)).unwrap();
    lemma_text_bytes(data, comment_pos, flag_bit(flags, FCOMMENT_OFFSET));
    let (comment, crc_pos) = text_field_at(
        data,
        comment_pos,
        flag_bit(flags, FCOMMENT_OFFSET),
    ).unwrap();
    let (header, _, end) = header_at(data, start).unwrap();
    assert(header.extra == extra && header.name == name && header.comment == comment);
    lemma_flags_byte(flags);
    assert(flags == flags_of(header));
    lemma_fixed_bytes(data, start, header);
    lemma_joined(data, at, extra_pos as int, name_pos as int, comment_pos as int, crc_pos as int);
    assert(header_bytes(header) =~= fixed_bytes(header) + extra_bytes(extra) + text_bytes(name)
        + text_bytes(comment));
}

/// Four pieces of the input that follow each other make up one piece.
proof fn lemma_joined(data: Seq<u8>, a: int, b: int, c: int, d: int, e: int)
    requires
        0 <= a <= b <= c <= d <= e <= data.len(),
    ensures
        data.subrange(a, e) == data.subrange(a, b) + data.subrange(b, c) + data.subrange(c, d)
            + data.subrange(d, e),
{
    assert(data.subrange(a, e) =~= data.subrange(a, b) + data.subrange(b, c) + data.subrange(c, d)
        + data.subrange(d, e));
}

/// The trailer of a member that was accepted holds the checksum and the
/// length, modulo 2^32, of what the member gave.
pub proof fn lemma_member_trailer(data: Seq<u8>, start: nat, budget: nat)
    ensures
        member_at(data, start, budget).end matches Ok(end) ==> {
            let out = member_at(data, start, budget).out;
            &&& 8 <= end <= data.len()
            &&& le_u32_of(data.skip(end - 8)) == crc32_of(out)
            &&& le_u32_of(data.skip(end - 4)) == out.len() % 0x1_0000_0000
        },
{
}

/// A member ends behind where it starts, within the input.
pub proof fn lemma_member_advances(data: Seq<u8>, start: nat, budget: nat)
    ensures
        member_at(data, start, budget).end matches Ok(end) ==> start < end <= data.len(),
{
    if let Ok((_, _, body)) = header_at(data, start) {
        lemma_blocks_advance(data, 8 * body, Seq::empty(), budget);
    }
}

/// Reads the optional extra field.
fn read_extra_field(header: &mut ByteReader, present: bool) -> (r: Result<Option<Vec<u8>>, Error>)
    requires
        old(header).wf(),
    ensures
        final(header).wf(),
        final(header).data() == old(header).data(),
        match r {
            Ok(field) => extra_field_at(old(header).data(), old(header).pos(), present) == Ok::<
                (Option<Seq<u8>>, nat),
                Error,
            >((field_view(field), final(header).pos())),
            Err(e) => extra_field_at(old(header).data(), old(header).pos(), present) == Err::<
                (Option<Seq<u8>>, nat),
                Error,
            >(e),
        },
{
    if !present {
        return Ok(None);
    }
    let ghost data = header.data();
    let ghost at = header.pos() as int;
    let len = header.read_u16_le()?;
    let extra = header.read_exact(len as usize)?;
    assert(extra@ =~= data.subrange(at + 2, at + 2 + len));
    Ok(Some(extra))
}

/// Reads an optional field that a zero byte ends.
fn read_text_field(header: &mut ByteReader, present: bool) -> (r: Result<Option<Vec<u8>>, Error>)
    requires
        old(header).wf(),
    ensures
        final(header).wf(),
        final(header).data() == old(header).data(),
        match r {
            Ok(field) => text_field_at(old(header).data(), old(header).pos(), present) == Ok::<
                (Option<Seq<u8>>, nat),
                Error,
            >((field_view(field), final(header).pos())),
            Err(e) => text_field_at(old(header).data(), old(header).pos(), present) == Err::<
                (Option<Seq<u8>>, nat),
                Error,
            >(e),
        },
{
    if !present {
        return Ok(None);
    }
    let ghost data = header.data();
    let ghost at = header.pos();
    match header.read_until(0) {
        Ok(text) => {
            proof {
                let rest = data.skip(at as int);
                assert forall|i: int| at <= i < at + text@.len() implies data[i] != 0 by {
                    assert(text@[i - at] == rest[i - at]);
                    assert(text@.contains(text@[i - at]));
                }
                assert(rest[text@.len() as int] == data[at as int + text@.len()]);
                lemma_text_len(data, at, text@.len());
                assert(text@ =~= data.subrange(at as int, at as int + text@.len()));
            }
            Ok(Some(text))
        },
        Err(e) => {
            proof {
                let rest = data.skip(at as int);
                assert forall|i: int| at <= i < data.len() implies data[i] != 0 by {
                    assert(rest[i - at] == data[i]);
                    assert(rest.contains(rest[i - at]));
                }
                lemma_text_len(data, at, (data.len() - at) as nat);
            }
            Err(e)
        },
    }
}

/// Reads the optional header checksum and holds it against the bytes of
/// the header, which started at `start`.
fn check_header_crc(header: &mut ByteReader, start: usize, present: bool) -> (r: Result<(), Error>)
    requires
        old(header).wf(),
        start <= old(header).pos(),
    ensures
        final(header).wf(),
        final(header).data() == old(header).data(),
        match r {
            Ok(()) => header_crc_at(old(header).data(), start as nat, old(header).pos(), present)
                == Ok::<nat, Error>(final(header).pos()),
            Err(e) => header_crc_at(old(header).data(), start as nat, old(header).pos(), present)
                == Err::<nat, Error>(e),
        },
{
    if !present {
        return Ok(());
    }
    let expected = crc32_low(header.consumed_since(start));
    let stored = header.read_u16_le()?;
    if stored != expected {
        return Err(Error::BadHeaderCrc);
    }
    Ok(())
}

/// Reads the trailer of a member.
fn read_footer(reader: &mut ByteReader) -> (r: Result<MemberFooter, Error>)
    requires
        old(reader).wf(),
    ensures
        final(reader).wf(),
        final(reader).data() == old(reader).data(),
        match r {
            Ok(footer) => {
                &&& old(reader).pos() + 8 <= old(reader).data().len()
                &&& footer.data_crc32 as nat == le_u32_of(old(reader).rest())
                &&& footer.data_size as nat == le_u32_of(
                    old(reader).data().skip(old(reader).pos() as int + 4),
                )
                &&& final(reader).pos() == old(reader).pos() + 8
            },
            Err(e) => e == Error::UnexpectedEof && old(reader).pos() + 8 > old(reader).data().len(),
        },
{
    let data_crc32 = reader.read_u32_le()?;
    let data_size = reader.read_u32_le()?;
    Ok(MemberFooter { data_crc32, data_size })
}

/// One member of a gzip stream.
pub struct GzipReader {
    reader: ByteReader,
}

impl GzipReader {
    /// The byte reader, which stands at the start of the member.
    pub closed spec fn reader(&self) -> ByteReader {
        self.reader
    }

    /// A member that starts where `reader` stands.
    pub fn new(reader: ByteReader) -> (member: GzipReader)
        ensures
            member.reader() == reader,
    {
        GzipReader { reader }
    }

    /// Reads a member header and holds it against its checksum, where it
    /// has one.
    pub fn parse_header(header: &mut ByteReader) -> (r: Result<(MemberHeader, MemberFlags), Error>)
        requires
            old(header).wf(),
        ensures
            final(header).wf(),
            final(header).data() == old(header).data(),
            match r {
                Ok((parsed, flags)) => header_at(old(header).data(), old(header).pos()) == Ok::<
                    (HeaderView, u8, nat),
                    Error,
                >((parsed@, flags@, final(header).pos())),
                Err(e) => header_at(old(header).data(), old(header).pos()) == Err::<
                    (HeaderView, u8, nat),
                    Error,
                >(e),
            },
    {
        let ghost data = header.data();
        let start = header.position();
        let id_1 = header.read_u8()?;
        if id_1 != ID1 {
            return Err(Error::BadMagic);
        }
        let id_2 = header.read_u8()?;
        if id_2 != ID2 {
            return Err(Error::BadMagic);
        }
        let mut pheader = MemberHeader::default();
        pheader.compression_method = CompressionMethod::from(header.read_u8()?);
        if pheader.compression_method != CompressionMethod::Deflate {
            return Err(Error::UnsupportedMethod);
        }
        let pflags = MemberFlags(header.read_u8()?);
        pheader.modification_time = header.read_u32_le()?;
        pheader.extra_flags = header.read_u8()?;
        pheader.os = header.read_u8()?;
        pheader.extra = read_extra_field(header, pflags.has_extra())?;
        pheader.name = read_text_field(header, pflags.has_name())?;
        pheader.comment = read_text_field(header, pflags.has_comment())?;
        pheader.is_text = pflags.is_text();
        pheader.has_crc = pflags.has_crc();
        check_header_crc(header, start, pheader.has_crc)?;
        Ok((pheader, pflags))
    }

    /// Decompresses the member into `output` and holds the trailer against
    /// what came out. Gives the byte reader, which stands behind the
    /// trailer, and the sink. What was decoded before a failure stays in
    /// the sink.
    pub fn decompress<'a>(self, output: &'a mut ByteSink) -> (r: Result<
        (ByteReader, &'a mut ByteSink),
        Error,
    >)
        requires
            self.reader().wf(),
            old(output).wf(),
        ensures
            ({
                let member = member_at(self.reader().data(), self.reader().pos(), old(output).room());
                match r {
                    Ok((rest, sink)) => {
                        &&& member.end == Ok::<nat, Error>(rest.pos())
                        &&& rest.wf()
                        &&& rest.data() == self.reader().data()
                        &&& rest.pos() >= 8
                        &&& le_u32_of(rest.data().skip(rest.pos() - 8)) == crc32_of(member.out)
                        &&& le_u32_of(rest.data().skip(rest.pos() - 4)) == member.out.len()
                            % 0x1_0000_0000
                        &&& sink@ == old(output)@ + member.out
                        &&& sink.wf()
                        &&& sink.capacity() == old(output).capacity()
                        &&& *final(sink) == *final(output)
                    },
                    Err(e) => {
                        &&& member.end == Err::<nat, Error>(e)
                        &&& final(output)@ == old(output)@ + member.out
                        &&& final(output).wf()
                        &&& final(output).capacity() == old(output).capacity()
                    },
                }
            }),
    {
        let ghost data = self.reader.data();
        let ghost start = self.reader.pos();
        let mut reader = self.reader;
        match Self::parse_header(&mut reader) {
            Ok(_) => {},
            Err(e) => {
                assert(output@ + Seq::<u8>::empty() =~= output@);
                return Err(e);
            },
        }
        let ghost body = reader.pos();
        let mut deflate_reader = DeflateReader::new(BitReader::new(reader));
        let (actual_size, (actual_crc, sink)) = deflate_reader.deflate(output)?;
        let mut reader = deflate_reader.into_reader();
        let footer = read_footer(&mut reader)?;
        footer.check(actual_size, actual_crc)?;
        Ok((reader, sink))
    }
}

} // verus!
