use gunzip::bit_reader::BitReader;
use gunzip::byte_reader::ByteReader;
use gunzip::byte_sink::ByteSink;
use gunzip::deflate::{BlockHeader, CompressionType, DeflateReader};
use gunzip::error::Error;

fn stream(data: Vec<u8>) -> DeflateReader {
    DeflateReader::new(BitReader::new(ByteReader::new(data)))
}

fn inflate(data: Vec<u8>) -> (Result<(u32, u32), Error>, Vec<u8>) {
    let mut sink = ByteSink::new();
    let result = stream(data).deflate(&mut sink).map(|(count, (sum, _))| (count, sum));
    (result, sink.into_vec())
}

#[test]
fn compression_type_from_bits() {
    assert_eq!(CompressionType::from(0), CompressionType::Uncompressed);
    assert_eq!(CompressionType::from(1), CompressionType::FixedTree);
    assert_eq!(CompressionType::from(2), CompressionType::DynamicTree);
    assert_eq!(CompressionType::from(3), CompressionType::Reserved);
    assert_eq!(CompressionType::default(), CompressionType::Uncompressed);
    let header = BlockHeader::default();
    assert!(!header.is_final);
    assert_eq!(header.compression_type, CompressionType::Uncompressed);
}

#[test]
fn next_block_reads_three_bits() {
    let mut reader = stream(vec![0b0000_1100, 0b0000_0001]);
    let first = reader.next_block().unwrap().unwrap();
    assert!(!first.is_final);
    assert_eq!(first.compression_type, CompressionType::DynamicTree);
    let second = reader.next_block().unwrap().unwrap();
    assert!(second.is_final);
    assert_eq!(second.compression_type, CompressionType::Uncompressed);
    assert!(reader.next_block().is_none());
    assert!(reader.next_block().is_none());
    let mut bytes = reader.into_reader();
    assert_eq!(bytes.read_u8(), Ok(1));
}

#[test]
fn next_block_at_the_end_of_input() {
    let mut reader = stream(vec![]);
    assert_eq!(reader.next_block().unwrap().err(), Some(Error::UnexpectedEof));
    let mut reader = stream(vec![0]);
    assert!(reader.next_block().unwrap().is_ok());
    assert!(reader.next_block().unwrap().is_ok());
    assert_eq!(reader.next_block().unwrap().err(), Some(Error::UnexpectedEof));
}

#[test]
fn stored_block_of_no_bytes() {
    let (result, out) = inflate(vec![1, 0, 0, 255, 255]);
    assert_eq!(result, Ok((0, 0)));
    assert!(out.is_empty());
}

#[test]
fn stored_block_up_to_the_end_of_input() {
    let (result, out) = inflate(vec![1, 5, 0, 250, 255, b'h', b'e', b'l', b'l', b'o']);
    assert_eq!(result, Ok((5, 907060870)));
    assert_eq!(out, b"hello".to_vec());
}

#[test]
fn stored_block_errors_by_kind() {
    let (result, out) = inflate(vec![1, 5, 0, 0, 0, b'h', b'e', b'l', b'l', b'o']);
    assert_eq!(result, Err(Error::BadStoredHeader));
    assert!(out.is_empty());
    let (result, _) = inflate(vec![1, 5, 0, 250]);
    assert_eq!(result, Err(Error::UnexpectedEof));
    let (result, out) = inflate(vec![1, 5, 0, 250, 255, b'h', b'e']);
    assert_eq!(result, Err(Error::UnexpectedEof));
    assert!(out.is_empty());
}

#[test]
fn reserved_block_type() {
    let (result, _) = inflate(vec![0b111, 0, 0]);
    assert_eq!(result, Err(Error::BadBlockType));
}

#[test]
fn fixed_block_with_a_run() {
    // The literal `a` and a match of four bytes at distance one.
    let (result, out) = inflate(vec![75, 76, 4, 2, 0]);
    assert_eq!(result, Ok((5, 4004287417)));
    assert_eq!(out, b"aaaaa".to_vec());
}

#[test]
fn fixed_block_with_distance_equal_to_length() {
    let (result, out) = inflate(vec![75, 76, 74, 6, 34, 0]);
    assert_eq!(result, Ok((6, 1919850828)));
    assert_eq!(out, b"abcabc".to_vec());
}

#[test]
fn block_that_starts_with_its_end() {
    let (result, out) = inflate(vec![3, 0]);
    assert_eq!(result, Ok((0, 0)));
    assert!(out.is_empty());
}

#[test]
fn blocks_follow_each_other() {
    // Two stored blocks, the second of them empty, and a fixed block that
    // holds nothing but its end.
    let (result, out) = inflate(vec![0, 2, 0, 253, 255, b'a', b'b', 0, 0, 0, 255, 255, 3, 0]);
    assert_eq!(result.map(|(count, _)| count), Ok(2));
    assert_eq!(out, b"ab".to_vec());
}

#[test]
fn missing_last_block() {
    let (result, out) = inflate(vec![0, 2, 0, 253, 255, b'a', b'b']);
    assert_eq!(result, Err(Error::UnexpectedEof));
    assert_eq!(out, b"ab".to_vec());
}

#[test]
fn dynamic_block() {
    let (result, out) = inflate(vec![
        21, 197, 55, 1, 0, 0, 8, 0, 160, 172, 56, 10, 216, 255, 80, 47, 196, 72, 245, 44,
    ]);
    assert_eq!(result, Ok((11, 401275319)));
    assert_eq!(out, b"abracadabra".to_vec());
}

#[test]
fn dynamic_block_with_a_single_symbol() {
    // The literal/length code holds the end of block alone, at one bit, and
    // the distance code holds nothing.
    let (result, out) = inflate(vec![5, 192, 1, 5, 0, 0, 0, 0, 160, 255, 175, 3]);
    assert_eq!(result, Ok((0, 0)));
    assert!(out.is_empty());
}

#[test]
fn back_reference_before_the_start() {
    let (result, out) = inflate(vec![3, 2, 0, 0]);
    assert_eq!(result, Err(Error::BadBackReference));
    assert!(out.is_empty());
}

#[test]
fn reserved_symbol_in_a_fixed_block() {
    let (result, _) = inflate(vec![27, 3, 0, 0, 0]);
    assert_eq!(result, Err(Error::BadCode));
}

#[test]
fn longest_match_at_the_longest_distance() {
    let base: Vec<u8> = (0..32768u32).map(|i| (i * 7 + i / 256) as u8).collect();
    let mut data: Vec<u8> = vec![0, 0x00, 0x80, 0xff, 0x7f];
    data.extend_from_slice(&base);
    // A fixed block: 258 bytes and then 3 bytes, both from 32768 back.
    data.extend_from_slice(&[27, 189, 255, 31, 120, 255, 63, 0]);
    let (result, out) = inflate(data);
    let mut expected = base.clone();
    expected.extend_from_slice(&base[..261]);
    assert_eq!(out, expected);
    let sum = crc::Crc::<u32>::new(&crc::CRC_32_ISO_HDLC).checksum(&expected);
    assert_eq!(result, Ok((33029, sum)));
}

#[test]
fn distance_beyond_the_window() {
    // 32769 bytes are out, and the window holds 32768 of them: a match at
    // 32768 back is in reach, one byte more is what no distance can say.
    let base: Vec<u8> = (0..32769u32).map(|i| (i % 253) as u8).collect();
    let mut data: Vec<u8> = vec![0, 0x01, 0x80, 0xfe, 0x7f];
    data.extend_from_slice(&base);
    data.extend_from_slice(&[27, 189, 255, 31, 120, 255, 63, 0]);
    let (result, out) = inflate(data);
    assert_eq!(result.map(|(count, _)| count), Ok(32769 + 261));
    assert_eq!(&out[32769..], &base[1..262]);
}

#[test]
fn full_sink_stops_the_stream() {
    let mut sink = ByteSink::with_limit(3);
    let result = stream(vec![75, 76, 4, 2, 0]).deflate(&mut sink);
    assert_eq!(result.err(), Some(Error::IoError));
    assert_eq!(sink.as_slice(), b"aaa");
    let mut sink = ByteSink::with_limit(4);
    let result = stream(vec![1, 5, 0, 250, 255, b'h', b'e', b'l', b'l', b'o']).deflate(&mut sink);
    assert_eq!(result.err(), Some(Error::IoError));
    assert_eq!(sink.as_slice(), b"hell");
    let mut sink = ByteSink::with_limit(0);
    let result = stream(vec![75, 76, 4, 2, 0]).deflate(&mut sink);
    assert_eq!(result.err(), Some(Error::IoError));
    assert_eq!(sink.len(), 0);
}

#[test]
fn deflate_after_the_last_block() {
    let mut reader = stream(vec![1, 0, 0, 255, 255, 1, 0, 0, 255, 255]);
    let mut sink = ByteSink::new();
    assert!(reader.deflate(&mut sink).is_ok());
    // The stream is over: nothing more is read.
    let again = reader.deflate(&mut sink).map(|(count, (sum, _))| (count, sum));
    assert_eq!(again, Ok((0, 0)));
    assert_eq!(reader.into_reader().position(), 5);
}
