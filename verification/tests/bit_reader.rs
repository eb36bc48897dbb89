use gunzip::bit_reader::{BitReader, BitSequence};
use gunzip::byte_reader::ByteReader;
use gunzip::error::Error;

#[test]
fn read_bits() -> Result<(), Error> {
    let data: Vec<u8> = vec![0b01100011, 0b01011011, 0b10101111];
    let mut reader = BitReader::new(ByteReader::new(data));
    assert_eq!(reader.read_bits(1)?, BitSequence::new(0b1, 1));
    assert_eq!(reader.read_bits(2)?, BitSequence::new(0b01, 2));
    assert_eq!(reader.read_bits(3)?, BitSequence::new(0b100, 3));
    assert_eq!(reader.read_bits(4)?, BitSequence::new(0b1101, 4));
    assert_eq!(reader.read_bits(5)?, BitSequence::new(0b10110, 5));
    assert_eq!(reader.read_bits(8)?, BitSequence::new(0b01011110, 8));
    assert_eq!(reader.read_bits(2).unwrap_err(), Error::UnexpectedEof);
    Ok(())
}

#[test]
fn borrow_reader_from_boundary() -> Result<(), Error> {
    let data: Vec<u8> = vec![0b01100011, 0b11011011, 0b10101111];
    let mut reader = BitReader::new(ByteReader::new(data));
    assert_eq!(reader.read_bits(3)?, BitSequence::new(0b011, 3));
    assert_eq!(reader.borrow_reader_from_boundary().read_u8()?, 0b11011011);
    assert_eq!(reader.read_bits(8)?, BitSequence::new(0b10101111, 8));
    Ok(())
}

#[test]
fn bit_sequence_new_keeps_low_bits() {
    let seq = BitSequence::new(0xffff, 4);
    assert_eq!(seq.bits(), 0xf);
    assert_eq!(seq.len(), 4);
    let all = BitSequence::new(0xabcd, 16);
    assert_eq!(all.bits(), 0xabcd);
    assert_eq!(all.len(), 16);
    let none = BitSequence::new(0xabcd, 0);
    assert_eq!(none.bits(), 0);
    assert_eq!(none.len(), 0);
}

#[test]
fn bit_sequence_concat_puts_self_above() {
    let high = BitSequence::new(0b101, 3);
    let low = BitSequence::new(0b01, 2);
    assert_eq!(high.concat(low), BitSequence::new(0b10101, 5));
    let empty = BitSequence::new(0, 0);
    let full = BitSequence::new(0xbeef, 16);
    assert_eq!(empty.concat(full), full);
    assert_eq!(full.concat(empty), full);
}

#[test]
fn bit_sequence_consume_takes_low_bits() {
    let mut seq = BitSequence::new(0b1101_0110, 8);
    let low = seq.consume(3);
    assert_eq!(low, BitSequence::new(0b110, 3));
    assert_eq!(seq, BitSequence::new(0b11010, 5));
    let rest = seq.consume(5);
    assert_eq!(rest, BitSequence::new(0b11010, 5));
    assert_eq!(seq, BitSequence::new(0, 0));
}

#[test]
fn read_sixteen_bits_across_three_bytes() -> Result<(), Error> {
    let data: Vec<u8> = vec![0b1010_0101, 0xcd, 0xab, 0xff];
    let mut reader = BitReader::new(ByteReader::new(data));
    assert_eq!(reader.read_bits(4)?.bits(), 0b0101);
    // Four bits wait; twelve more come from the next two bytes.
    assert_eq!(reader.read_bits(16)?.bits(), 0xbcda);
    assert_eq!(reader.read_bits(4)?.bits(), 0xa);
    assert_eq!(reader.read_bits(8)?.bits(), 0xff);
    Ok(())
}

#[test]
fn failed_read_leaves_the_reader_as_it_was() -> Result<(), Error> {
    let data: Vec<u8> = vec![0b1010_0101];
    let mut reader = BitReader::new(ByteReader::new(data));
    assert_eq!(reader.read_bits(3)?.bits(), 0b101);
    assert_eq!(reader.read_bits(6).unwrap_err(), Error::UnexpectedEof);
    assert_eq!(reader.read_bits(5)?.bits(), 0b10100);
    assert_eq!(reader.read_bits(1).unwrap_err(), Error::UnexpectedEof);
    Ok(())
}

#[test]
fn into_reader_stands_behind_the_last_byte_touched() -> Result<(), Error> {
    let mut reader = BitReader::new(ByteReader::new(vec![1, 2, 3]));
    reader.read_bits(9)?;
    let mut bytes = reader.into_reader();
    assert_eq!(bytes.position(), 2);
    assert_eq!(bytes.read_u8()?, 3);
    assert!(bytes.is_empty());
    Ok(())
}

#[test]
fn byte_reader_reads_little_endian() -> Result<(), Error> {
    let mut reader = ByteReader::new(vec![0x34, 0x12, 0x78, 0x56, 0x34, 0x12, 9]);
    assert_eq!(reader.read_u16_le()?, 0x1234);
    assert_eq!(reader.read_u32_le()?, 0x1234_5678);
    assert_eq!(reader.read_u16_le().unwrap_err(), Error::UnexpectedEof);
    assert_eq!(reader.read_u32_le().unwrap_err(), Error::UnexpectedEof);
    assert_eq!(reader.read_u8()?, 9);
    assert_eq!(reader.read_u8().unwrap_err(), Error::UnexpectedEof);
    Ok(())
}

#[test]
fn byte_reader_reads_fields() -> Result<(), Error> {
    let mut reader = ByteReader::new(vec![b'a', b'b', 0, b'c', b'd', b'e']);
    assert_eq!(reader.read_until(0)?, vec![b'a', b'b']);
    assert_eq!(reader.position(), 3);
    assert_eq!(reader.read_until(0).unwrap_err(), Error::UnexpectedEof);
    assert_eq!(reader.position(), 3);
    assert_eq!(reader.read_exact(4).unwrap_err(), Error::UnexpectedEof);
    assert_eq!(reader.read_exact(2)?, vec![b'c', b'd']);
    assert_eq!(reader.consumed_since(1), &[b'b', 0, b'c', b'd']);
    assert_eq!(reader.read_exact(0)?, Vec::<u8>::new());
    Ok(())
}
