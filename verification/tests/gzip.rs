use gunzip::byte_reader::ByteReader;
use gunzip::byte_sink::ByteSink;
use gunzip::decompress;
use gunzip::error::Error;
use gunzip::gzip::{
    low_half, CompressionMethod, GzipReader, MemberFlags, MemberFooter, MemberHeader,
};

fn gunzip(data: Vec<u8>) -> (Result<(), Error>, Vec<u8>) {
    let mut sink = ByteSink::new();
    let result = decompress(ByteReader::new(data), &mut sink);
    (result, sink.into_vec())
}

const HEAD: [u8; 10] = [31, 139, 8, 0, 0, 0, 0, 0, 0, 3];

fn member(deflated: &[u8], crc: u32, size: u32) -> Vec<u8> {
    let mut data = HEAD.to_vec();
    data.extend_from_slice(deflated);
    data.extend_from_slice(&crc.to_le_bytes());
    data.extend_from_slice(&size.to_le_bytes());
    data
}

fn hello() -> Vec<u8> {
    member(&[1, 5, 0, 250, 255, 104, 101, 108, 108, 111], 907060870, 5)
}

fn hello_full_header() -> Vec<u8> {
    vec![
        31, 139, 8, 31, 0, 0, 0, 0, 0, 3, 3, 0, 1, 2, 3, 102, 105, 108, 101, 46, 116, 120, 116, 0,
        110, 111, 116, 101, 0, 75, 208, 1, 5, 0, 250, 255, 104, 101, 108, 108, 111, 134, 166, 16,
        54, 5, 0, 0, 0,
    ]
}

#[test]
fn empty_payload() {
    let (result, out) = gunzip(vec![
        31, 139, 8, 0, 0, 0, 0, 0, 4, 3, 1, 0, 0, 255, 255, 0, 0, 0, 0, 0, 0, 0, 0,
    ]);
    assert_eq!(result, Ok(()));
    assert!(out.is_empty());
}

#[test]
fn hello_in_a_stored_block() {
    let (result, out) = gunzip(vec![
        31, 139, 8, 0, 0, 0, 0, 0, 4, 3, 1, 5, 0, 250, 255, 104, 101, 108, 108, 111, 134, 166, 16,
        54, 5, 0, 0, 0,
    ]);
    assert_eq!(result, Ok(()));
    assert_eq!(out, b"hello".to_vec());
}

#[test]
fn run_in_a_fixed_block() {
    let (result, out) = gunzip(vec![
        31, 139, 8, 0, 0, 0, 0, 0, 2, 3, 75, 76, 4, 2, 0, 185, 147, 172, 238, 5, 0, 0, 0,
    ]);
    assert_eq!(result, Ok(()));
    assert_eq!(out, b"aaaaa".to_vec());
}

#[test]
fn abracadabra_in_a_dynamic_block() {
    let (result, out) = gunzip(vec![
        31, 139, 8, 0, 0, 0, 0, 0, 0, 3, 21, 197, 55, 1, 0, 0, 8, 0, 160, 172, 56, 10, 216, 255,
        80, 47, 196, 72, 245, 44, 183, 249, 234, 23, 11, 0, 0, 0,
    ]);
    assert_eq!(result, Ok(()));
    assert_eq!(out, b"abracadabra".to_vec());
}

#[test]
fn abracadabra_in_a_fixed_block() {
    let (result, out) = gunzip(vec![
        31, 139, 8, 0, 0, 0, 0, 0, 2, 3, 75, 76, 42, 74, 76, 78, 76, 73, 4, 82, 0, 183, 249, 234,
        23, 11, 0, 0, 0,
    ]);
    assert_eq!(result, Ok(()));
    assert_eq!(out, b"abracadabra".to_vec());
}

#[test]
fn two_members() {
    let (result, out) = gunzip(vec![
        31, 139, 8, 0, 0, 0, 0, 0, 0, 3, 1, 3, 0, 252, 255, 102, 111, 111, 33, 101, 115, 140, 3,
        0, 0, 0, 31, 139, 8, 0, 0, 0, 0, 0, 0, 3, 1, 3, 0, 252, 255, 98, 97, 114, 170, 140, 255,
        118, 3, 0, 0, 0,
    ]);
    assert_eq!(result, Ok(()));
    assert_eq!(out, b"foobar".to_vec());
}

#[test]
fn second_member_cannot_reach_into_the_first() {
    let mut data = hello();
    // A match of three bytes at distance one, with nothing before it.
    data.extend_from_slice(&member(&[3, 2, 0, 0], 0, 0));
    let (result, out) = gunzip(data);
    assert_eq!(result, Err(Error::BadBackReference));
    assert_eq!(out, b"hello".to_vec());
}

#[test]
fn corrupt_crc_in_the_trailer() {
    let mut data = hello();
    let at = data.len() - 8;
    data[at] ^= 0x10;
    let (result, out) = gunzip(data);
    assert_eq!(result, Err(Error::CrcMismatch));
    assert_eq!(out, b"hello".to_vec());
}

#[test]
fn corrupt_length_in_the_trailer() {
    let mut data = hello();
    let at = data.len() - 4;
    data[at] = 6;
    let (result, out) = gunzip(data.clone());
    assert_eq!(result, Err(Error::LengthMismatch));
    assert_eq!(out, b"hello".to_vec());
    // With both wrong, the length is named.
    data[at - 4] ^= 1;
    assert_eq!(gunzip(data).0, Err(Error::LengthMismatch));
}

#[test]
fn no_input_is_no_member() {
    let (result, out) = gunzip(vec![]);
    assert_eq!(result, Ok(()));
    assert!(out.is_empty());
}

#[test]
fn input_that_ends_early() {
    let whole = hello();
    for len in 1..whole.len() {
        let (result, out) = gunzip(whole[..len].to_vec());
        assert_eq!(result, Err(Error::UnexpectedEof), "at {}", len);
        if len >= whole.len() - 8 {
            assert_eq!(out, b"hello".to_vec());
        } else {
            assert!(out.is_empty());
        }
    }
}

#[test]
fn bytes_behind_the_last_member() {
    let mut data = hello();
    data.push(0);
    let (result, out) = gunzip(data);
    assert_eq!(result, Err(Error::BadMagic));
    assert_eq!(out, b"hello".to_vec());
}

#[test]
fn header_errors_by_kind() {
    let mut data = hello();
    data[0] = 0x1e;
    assert_eq!(gunzip(data).0, Err(Error::BadMagic));
    let mut data = hello();
    data[1] = 0x8c;
    assert_eq!(gunzip(data).0, Err(Error::BadMagic));
    let mut data = hello();
    data[2] = 7;
    assert_eq!(gunzip(data).0, Err(Error::UnsupportedMethod));
    let mut data = hello_full_header();
    data[29] ^= 1;
    assert_eq!(gunzip(data).0, Err(Error::BadHeaderCrc));
    // A name that no zero byte ends.
    let mut data = HEAD.to_vec();
    data[3] = 8;
    data.extend_from_slice(b"name");
    assert_eq!(gunzip(data).0, Err(Error::UnexpectedEof));
    // An extra field that is longer than the input.
    let mut data = HEAD.to_vec();
    data[3] = 4;
    data.extend_from_slice(&[5, 0, 1, 2, 3, 4]);
    assert_eq!(gunzip(data).0, Err(Error::UnexpectedEof));
}

#[test]
fn deflate_errors_come_through() {
    assert_eq!(gunzip(member(&[7], 0, 0)).0, Err(Error::BadBlockType));
    assert_eq!(
        gunzip(member(&[1, 5, 0, 0, 0, 104, 101, 108, 108, 111], 907060870, 5)).0,
        Err(Error::BadStoredHeader)
    );
    assert_eq!(
        gunzip(member(&[5, 224, 147, 36, 73, 146, 36, 73, 146, 0, 0], 0, 0)).0,
        Err(Error::BadTree)
    );
    assert_eq!(gunzip(member(&[27, 3, 0], 0, 0)).0, Err(Error::BadCode));
    assert_eq!(gunzip(member(&[3, 2, 0], 0, 0)).0, Err(Error::BadBackReference));
}

#[test]
fn full_sink() {
    let mut sink = ByteSink::with_limit(4);
    let result = decompress(ByteReader::new(hello()), &mut sink);
    assert_eq!(result, Err(Error::IoError));
    assert_eq!(sink.as_slice(), b"hell");
    let mut sink = ByteSink::with_limit(5);
    assert_eq!(decompress(ByteReader::new(hello()), &mut sink), Ok(()));
    assert_eq!(sink.as_slice(), b"hello");
    assert_eq!(decompress(ByteReader::new(hello()), &mut sink), Err(Error::IoError));
    assert_eq!(sink.as_slice(), b"hello");
}

#[test]
fn parse_header_reads_every_field() {
    let mut reader = ByteReader::new(hello_full_header());
    let (header, flags) = GzipReader::parse_header(&mut reader).unwrap();
    assert_eq!(reader.position(), 31);
    assert_eq!(header.compression_method, CompressionMethod::Deflate);
    assert_eq!(header.modification_time, 0);
    assert_eq!(header.extra, Some(vec![1, 2, 3]));
    assert_eq!(header.name, Some(b"file.txt".to_vec()));
    assert_eq!(header.comment, Some(b"note".to_vec()));
    assert_eq!(header.extra_flags, 0);
    assert_eq!(header.os, 3);
    assert!(header.has_crc);
    assert!(header.is_text);
    assert!(flags.is_text());
    assert!(flags.has_crc());
    assert!(flags.has_extra());
    assert!(flags.has_name());
    assert!(flags.has_comment());
    // The checksum of the fields is the one that the header carries.
    assert_eq!(header.crc16(), 75 + 256 * 208);
}

#[test]
fn parse_header_of_ten_bytes() {
    let mut data = HEAD.to_vec();
    data[4..8].copy_from_slice(&0x12345678u32.to_le_bytes());
    data[8] = 2;
    data.push(99);
    let mut reader = ByteReader::new(data);
    let (header, flags) = GzipReader::parse_header(&mut reader).unwrap();
    assert_eq!(reader.position(), 10);
    assert_eq!(header.modification_time, 0x12345678);
    assert_eq!(header.extra_flags, 2);
    assert_eq!(header.os, 3);
    assert_eq!(header.extra, None);
    assert_eq!(header.name, None);
    assert_eq!(header.comment, None);
    assert!(!header.has_crc);
    assert!(!header.is_text);
    assert!(!flags.has_extra());
    assert!(!flags.has_name());
    assert!(!flags.has_comment());
}

#[test]
fn member_with_every_header_field() {
    let (result, out) = gunzip(hello_full_header());
    assert_eq!(result, Ok(()));
    assert_eq!(out, b"hello".to_vec());
}

#[test]
fn member_gives_the_rest_of_the_input() {
    let mut data = hello();
    data.extend_from_slice(&[1, 2, 3]);
    let mut sink = ByteSink::new();
    let (mut rest, out) = GzipReader::new(ByteReader::new(data)).decompress(&mut sink).unwrap();
    assert_eq!(out.as_slice(), b"hello");
    assert_eq!(rest.position(), 28);
    assert_eq!(rest.read_u8(), Ok(1));
}

#[test]
fn header_checksum_of_fields() {
    let header = MemberHeader {
        compression_method: CompressionMethod::Deflate,
        modification_time: 0x01020304,
        extra: Some(vec![9, 8]),
        name: Some(b"a".to_vec()),
        comment: None,
        extra_flags: 4,
        os: 255,
        has_crc: true,
        is_text: false,
    };
    let written: Vec<u8> = vec![0x1f, 0x8b, 8, 0b1110, 4, 3, 2, 1, 4, 255, 2, 0, 9, 8, b'a', 0];
    let sum = crc::Crc::<u32>::new(&crc::CRC_32_ISO_HDLC).checksum(&written);
    assert_eq!(header.crc16(), (sum & 0xffff) as u16);
    let plain = MemberHeader::default();
    assert_eq!(plain.compression_method, CompressionMethod::Unknown(42));
    let written: Vec<u8> = vec![0x1f, 0x8b, 42, 0, 0, 0, 0, 0, 0, 0];
    let sum = crc::Crc::<u32>::new(&crc::CRC_32_ISO_HDLC).checksum(&written);
    assert_eq!(plain.crc16(), (sum & 0xffff) as u16);
}

#[test]
fn flags_of_a_header() {
    let mut header = MemberHeader::default();
    let flags = header.flags();
    assert!(!flags.is_text() && !flags.has_crc() && !flags.has_extra());
    assert!(!flags.has_name() && !flags.has_comment());
    header.is_text = true;
    header.name = Some(Vec::new());
    let flags = header.flags();
    assert!(flags.is_text() && flags.has_name());
    assert!(!flags.has_crc() && !flags.has_extra() && !flags.has_comment());
    header.has_crc = true;
    header.extra = Some(vec![1]);
    header.comment = Some(vec![2]);
    let flags = header.flags();
    assert!(flags.is_text() && flags.has_crc() && flags.has_extra());
    assert!(flags.has_name() && flags.has_comment());
}

#[test]
fn flags_set_and_clear_one_bit() {
    let mut flags = MemberFlags::new(0b1110_0000);
    assert!(!flags.is_text());
    flags.set_is_text(true);
    assert!(flags.is_text());
    flags.set_has_crc(true);
    flags.set_has_extra(true);
    flags.set_has_name(true);
    flags.set_has_comment(true);
    assert!(flags.has_crc() && flags.has_extra() && flags.has_name() && flags.has_comment());
    flags.set_has_extra(false);
    assert!(flags.is_text() && flags.has_crc() && !flags.has_extra());
    assert!(flags.has_name() && flags.has_comment());
    flags.set_is_text(false);
    flags.set_has_crc(false);
    flags.set_has_name(false);
    flags.set_has_comment(false);
    assert!(!flags.is_text() && !flags.has_crc() && !flags.has_name() && !flags.has_comment());
    flags.set_has_comment(false);
    assert!(!flags.has_comment());
}

#[test]
fn compression_method_and_its_byte() {
    assert_eq!(CompressionMethod::from(8), CompressionMethod::Deflate);
    assert_eq!(CompressionMethod::from(0), CompressionMethod::Unknown(0));
    assert_eq!(u8::from(CompressionMethod::Deflate), 8);
    assert_eq!(u8::from(CompressionMethod::Unknown(77)), 77);
    assert_eq!(CompressionMethod::default(), CompressionMethod::Unknown(42));
}

#[test]
fn footer_is_held_against_size_and_checksum() {
    let footer = MemberFooter { data_crc32: 1, data_size: 2 };
    assert_eq!(footer.check(2, 1), Ok(()));
    assert_eq!(footer.check(3, 1), Err(Error::LengthMismatch));
    assert_eq!(footer.check(2, 0), Err(Error::CrcMismatch));
    assert_eq!(footer.check(1, 2), Err(Error::LengthMismatch));
    assert_eq!(low_half(0x1234_5678), 0x5678);
    assert_eq!(low_half(0xffff_0000), 0);
}
