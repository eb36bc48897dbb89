use gunzip::bit_reader::{BitReader, BitSequence};
use gunzip::byte_reader::ByteReader;
use gunzip::error::Error;
use gunzip::huffman_coding::{
    decode_litlen_distance_trees, get_fixed_coding, DistanceToken, HuffmanCodeWord, HuffmanCoding,
    LitLenToken, TreeCodeToken,
};

#[derive(Clone, Copy, Debug, PartialEq)]
struct Value(u16);

impl TryFrom<HuffmanCodeWord> for Value {
    type Error = Error;

    fn try_from(x: HuffmanCodeWord) -> Result<Self, Error> {
        Ok(Self(x.0))
    }
}

#[test]
fn from_lengths() -> Result<(), Error> {
    let code = HuffmanCoding::<Value>::from_lengths(&[2, 3, 4, 3, 3, 4, 2])?;

    assert_eq!(
        code.decode_symbol(BitSequence::new(0b00, 2)),
        Some(Value(0)),
    );
    assert_eq!(
        code.decode_symbol(BitSequence::new(0b100, 3)),
        Some(Value(1)),
    );
    assert_eq!(
        code.decode_symbol(BitSequence::new(0b1110, 4)),
        Some(Value(2)),
    );
    assert_eq!(
        code.decode_symbol(BitSequence::new(0b101, 3)),
        Some(Value(3)),
    );
    assert_eq!(
        code.decode_symbol(BitSequence::new(0b110, 3)),
        Some(Value(4)),
    );
    assert_eq!(
        code.decode_symbol(BitSequence::new(0b1111, 4)),
        Some(Value(5)),
    );
    assert_eq!(
        code.decode_symbol(BitSequence::new(0b01, 2)),
        Some(Value(6)),
    );

    assert_eq!(code.decode_symbol(BitSequence::new(0b0, 1)), None);
    assert_eq!(code.decode_symbol(BitSequence::new(0b10, 2)), None);
    assert_eq!(code.decode_symbol(BitSequence::new(0b111, 3)), None,);

    Ok(())
}

#[test]
fn read_symbol() -> Result<(), Error> {
    let code = HuffmanCoding::<Value>::from_lengths(&[2, 3, 4, 3, 3, 4, 2])?;
    let data: Vec<u8> = vec![0b10111001, 0b11001010, 0b11101101];
    let mut reader = BitReader::new(ByteReader::new(data));

    assert_eq!(code.read_symbol(&mut reader)?, Value(1));
    assert_eq!(code.read_symbol(&mut reader)?, Value(2));
    assert_eq!(code.read_symbol(&mut reader)?, Value(3));
    assert_eq!(code.read_symbol(&mut reader)?, Value(6));
    assert_eq!(code.read_symbol(&mut reader)?, Value(0));
    assert_eq!(code.read_symbol(&mut reader)?, Value(2));
    assert_eq!(code.read_symbol(&mut reader)?, Value(4));
    assert!(code.read_symbol(&mut reader).is_err());

    Ok(())
}

#[test]
fn read_symbol_errors_by_kind() -> Result<(), Error> {
    let code = HuffmanCoding::<Value>::from_lengths(&[1, 0, 0])?;
    // Sixteen one bits spell out no code word.
    let mut reader = BitReader::new(ByteReader::new(vec![0xff, 0xff, 0xfe]));
    assert_eq!(code.read_symbol(&mut reader), Err(Error::BadCode));
    assert_eq!(code.read_symbol(&mut reader), Ok(Value(0)));
    // Seven one bits are left.
    assert_eq!(code.read_symbol(&mut reader), Err(Error::UnexpectedEof));
    Ok(())
}

#[test]
fn from_lengths_refuses_what_is_no_code() {
    let over = HuffmanCoding::<Value>::from_lengths(&[1, 1, 1]);
    assert_eq!(over.err(), Some(Error::BadTree));
    let deeper = HuffmanCoding::<Value>::from_lengths(&[1, 2, 3, 3, 15]);
    assert_eq!(deeper.err(), Some(Error::BadTree));
    let long = HuffmanCoding::<Value>::from_lengths(&[16]);
    assert_eq!(long.err(), Some(Error::BadTree));
    // Index 286 has a code word and stands for no symbol.
    let mut lengths = vec![9usize; 287];
    lengths[0] = 0;
    assert!(HuffmanCoding::<Value>::from_lengths(&lengths).is_ok());
    assert_eq!(
        HuffmanCoding::<LitLenToken>::from_lengths(&lengths).err(),
        Some(Error::BadTree)
    );
    lengths[286] = 0;
    assert!(HuffmanCoding::<LitLenToken>::from_lengths(&lengths).is_ok());
    // Distance index 30 likewise.
    let mut lengths = vec![5usize; 31];
    assert_eq!(
        HuffmanCoding::<DistanceToken>::from_lengths(&lengths).err(),
        Some(Error::BadTree)
    );
    lengths[30] = 0;
    assert!(HuffmanCoding::<DistanceToken>::from_lengths(&lengths).is_ok());
}

#[test]
fn from_lengths_accepts_sparse_codes() -> Result<(), Error> {
    let none = HuffmanCoding::<Value>::from_lengths(&[0, 0, 0])?;
    assert_eq!(none.decode_symbol(BitSequence::new(0, 1)), None);
    let empty = HuffmanCoding::<Value>::from_lengths(&[])?;
    assert_eq!(empty.decode_symbol(BitSequence::new(0, 0)), None);
    // A single symbol gets the code word 0 of one bit.
    let single = HuffmanCoding::<Value>::from_lengths(&[0, 0, 1])?;
    assert_eq!(single.decode_symbol(BitSequence::new(0, 1)), Some(Value(2)));
    assert_eq!(single.decode_symbol(BitSequence::new(1, 1)), None);
    let deep = HuffmanCoding::<Value>::from_lengths(&[15, 15, 1])?;
    assert_eq!(deep.decode_symbol(BitSequence::new(0, 1)), Some(Value(2)));
    assert_eq!(
        deep.decode_symbol(BitSequence::new(0b100_0000_0000_0000, 15)),
        Some(Value(0))
    );
    assert_eq!(
        deep.decode_symbol(BitSequence::new(0b100_0000_0000_0001, 15)),
        Some(Value(1))
    );
    Ok(())
}

#[test]
fn code_words_are_prefix_free() -> Result<(), Error> {
    let lengths = [3usize, 3, 3, 3, 2, 4, 4, 0, 5, 5];
    let code = HuffmanCoding::<Value>::from_lengths(&lengths)?;
    let mut words: Vec<(u16, u8, u16)> = Vec::new();
    for len in 1..=5u8 {
        for bits in 0..(1u16 << len) {
            if let Some(Value(symbol)) = code.decode_symbol(BitSequence::new(bits, len)) {
                assert_eq!(lengths[symbol as usize], len as usize);
                words.push((bits, len, symbol));
            }
        }
    }
    assert_eq!(words.len(), 9);
    for &(bits, len, symbol) in &words {
        for &(other, other_len, other_symbol) in &words {
            if symbol != other_symbol && other_len <= len {
                assert_ne!(bits >> (len - other_len), other);
            }
        }
    }
    Ok(())
}

#[test]
fn new_holds_the_entries() {
    let code = HuffmanCoding::<Value>::new(vec![
        (BitSequence::new(0b0, 1), Value(7)),
        (BitSequence::new(0b10, 2), Value(8)),
        (BitSequence::new(0b10, 2), Value(9)),
    ]);
    assert_eq!(code.decode_symbol(BitSequence::new(0, 1)), Some(Value(7)));
    assert_eq!(code.decode_symbol(BitSequence::new(0b10, 2)), Some(Value(9)));
    assert_eq!(code.decode_symbol(BitSequence::new(0, 2)), None);
    assert_eq!(code.decode_symbol(BitSequence::new(0b10, 3)), None);
}

#[test]
fn tree_code_tokens() {
    assert!(matches!(
        TreeCodeToken::try_from(HuffmanCodeWord(0)),
        Ok(TreeCodeToken::Length(0))
    ));
    assert!(matches!(
        TreeCodeToken::try_from(HuffmanCodeWord(15)),
        Ok(TreeCodeToken::Length(15))
    ));
    assert!(matches!(
        TreeCodeToken::try_from(HuffmanCodeWord(16)),
        Ok(TreeCodeToken::CopyPrev)
    ));
    assert!(matches!(
        TreeCodeToken::try_from(HuffmanCodeWord(17)),
        Ok(TreeCodeToken::RepeatZero { base: 3, extra_bits: 3 })
    ));
    assert!(matches!(
        TreeCodeToken::try_from(HuffmanCodeWord(18)),
        Ok(TreeCodeToken::RepeatZero { base: 11, extra_bits: 7 })
    ));
    assert!(matches!(
        TreeCodeToken::try_from(HuffmanCodeWord(19)),
        Err(Error::BadTree)
    ));
}

fn length_of(index: u16) -> (u16, u8) {
    match LitLenToken::try_from(HuffmanCodeWord(index)) {
        Ok(LitLenToken::Length { base, extra_bits }) => (base, extra_bits),
        other => panic!("{} gave {:?}", index, other),
    }
}

#[test]
fn litlen_tokens() {
    assert!(matches!(
        LitLenToken::try_from(HuffmanCodeWord(0)),
        Ok(LitLenToken::Literal(0))
    ));
    assert!(matches!(
        LitLenToken::try_from(HuffmanCodeWord(255)),
        Ok(LitLenToken::Literal(255))
    ));
    assert!(matches!(
        LitLenToken::try_from(HuffmanCodeWord(256)),
        Ok(LitLenToken::EndOfBlock)
    ));
    let table: [(u16, u16, u8); 29] = [
        (257, 3, 0), (258, 4, 0), (259, 5, 0), (260, 6, 0), (261, 7, 0), (262, 8, 0),
        (263, 9, 0), (264, 10, 0), (265, 11, 1), (266, 13, 1), (267, 15, 1), (268, 17, 1),
        (269, 19, 2), (270, 23, 2), (271, 27, 2), (272, 31, 2), (273, 35, 3), (274, 43, 3),
        (275, 51, 3), (276, 59, 3), (277, 67, 4), (278, 83, 4), (279, 99, 4), (280, 115, 4),
        (281, 131, 5), (282, 163, 5), (283, 195, 5), (284, 227, 5), (285, 258, 0),
    ];
    for (index, base, extra_bits) in table {
        assert_eq!(length_of(index), (base, extra_bits));
    }
    assert!(matches!(
        LitLenToken::try_from(HuffmanCodeWord(286)),
        Err(Error::BadTree)
    ));
    assert!(matches!(
        LitLenToken::try_from(HuffmanCodeWord(287)),
        Err(Error::BadTree)
    ));
}

#[test]
fn distance_tokens() {
    let table: [(u16, u16, u8); 30] = [
        (0, 1, 0), (1, 2, 0), (2, 3, 0), (3, 4, 0), (4, 5, 1), (5, 7, 1), (6, 9, 2),
        (7, 13, 2), (8, 17, 3), (9, 25, 3), (10, 33, 4), (11, 49, 4), (12, 65, 5),
        (13, 97, 5), (14, 129, 6), (15, 193, 6), (16, 257, 7), (17, 385, 7), (18, 513, 8),
        (19, 769, 8), (20, 1025, 9), (21, 1537, 9), (22, 2049, 10), (23, 3073, 10),
        (24, 4097, 11), (25, 6145, 11), (26, 8193, 12), (27, 12289, 12), (28, 16385, 13),
        (29, 24577, 13),
    ];
    for (index, base, extra_bits) in table {
        let token = DistanceToken::try_from(HuffmanCodeWord(index)).unwrap();
        assert_eq!((token.base, token.extra_bits), (base, extra_bits));
    }
    assert!(matches!(
        DistanceToken::try_from(HuffmanCodeWord(30)),
        Err(Error::BadTree)
    ));
    assert!(matches!(
        DistanceToken::try_from(HuffmanCodeWord(31)),
        Err(Error::BadTree)
    ));
}

#[test]
fn fixed_coding_has_the_code_words_of_the_format() -> Result<(), Error> {
    let (litlen, distance) = get_fixed_coding()?;
    for lit in 0..=287u16 {
        let code = match lit {
            0..=143 => BitSequence::new(0b00110000 + lit, 8),
            144..=255 => BitSequence::new(0b110010000 + lit - 144, 9),
            256..=279 => BitSequence::new(lit - 256, 7),
            _ => BitSequence::new(0b11000000 + lit - 280, 8),
        };
        let token = litlen.decode_symbol(code);
        match lit {
            0..=255 => assert!(matches!(token, Some(LitLenToken::Literal(byte)) if byte as u16 == lit)),
            256 => assert!(matches!(token, Some(LitLenToken::EndOfBlock))),
            257..=285 => {
                let (base, extra_bits) = length_of(lit);
                assert!(matches!(
                    token,
                    Some(LitLenToken::Length { base: b, extra_bits: e }) if b == base && e == extra_bits
                ));
            }
            _ => assert!(token.is_none()),
        }
    }
    assert!(litlen.decode_symbol(BitSequence::new(0, 8)).is_none());
    for index in 0..=31u16 {
        let token = distance.decode_symbol(BitSequence::new(index, 5));
        if index <= 29 {
            let expected = DistanceToken::try_from(HuffmanCodeWord(index)).unwrap();
            let token = token.unwrap();
            assert_eq!((token.base, token.extra_bits), (expected.base, expected.extra_bits));
        } else {
            assert!(token.is_none());
        }
    }
    Ok(())
}

#[test]
fn dynamic_trees_are_read_in_the_permuted_order() -> Result<(), Error> {
    // The header of a dynamic block, behind its three header bits: the
    // literal `a` has a code word of one bit; `b` to `e`, `r`, the end of
    // block and the lengths 3 and 4 have one of four bits.
    let data: Vec<u8> = vec![
        21, 197, 55, 1, 0, 0, 8, 0, 160, 172, 56, 10, 216, 255, 80, 47, 196, 72, 245, 44,
    ];
    let mut reader = BitReader::new(ByteReader::new(data));
    reader.read_bits(3)?;
    let (litlen, distance) = decode_litlen_distance_trees(&mut reader)?;
    assert!(matches!(
        litlen.decode_symbol(BitSequence::new(0, 1)),
        Some(LitLenToken::Literal(b'a'))
    ));
    assert!(matches!(
        litlen.decode_symbol(BitSequence::new(0b1000, 4)),
        Some(LitLenToken::Literal(b'b'))
    ));
    assert!(matches!(
        litlen.decode_symbol(BitSequence::new(0b1011, 4)),
        Some(LitLenToken::Literal(b'e'))
    ));
    assert!(matches!(
        litlen.decode_symbol(BitSequence::new(0b1100, 4)),
        Some(LitLenToken::Literal(b'r'))
    ));
    assert!(matches!(
        litlen.decode_symbol(BitSequence::new(0b1101, 4)),
        Some(LitLenToken::EndOfBlock)
    ));
    assert!(matches!(
        litlen.decode_symbol(BitSequence::new(0b1111, 4)),
        Some(LitLenToken::Length { base: 4, extra_bits: 0 })
    ));
    assert!(litlen.decode_symbol(BitSequence::new(0b1, 1)).is_none());
    let far = distance.decode_symbol(BitSequence::new(0, 1)).unwrap();
    assert_eq!((far.base, far.extra_bits), (7, 1));
    assert!(distance.decode_symbol(BitSequence::new(1, 1)).is_none());
    // The symbols of the block follow.
    assert!(matches!(litlen.read_symbol(&mut reader), Ok(LitLenToken::Literal(b'a'))));
    assert!(matches!(litlen.read_symbol(&mut reader), Ok(LitLenToken::Literal(b'b'))));
    Ok(())
}

#[test]
fn dynamic_trees_errors_by_kind() {
    let trees = |data: Vec<u8>| {
        let mut reader = BitReader::new(ByteReader::new(data));
        reader.read_bits(3).unwrap();
        decode_litlen_distance_trees(&mut reader).err()
    };
    // All nineteen lengths of the code-length code are 1.
    assert_eq!(
        trees(vec![5, 224, 147, 36, 73, 146, 36, 73, 146, 0, 0, 0, 0]),
        Some(Error::BadTree)
    );
    // The first symbol asks for the previous length again.
    assert_eq!(trees(vec![5, 0, 2, 36, 0, 0, 0, 0]), Some(Error::BadTree));
    // Two runs of 138 zeros where 258 lengths are due.
    assert_eq!(trees(vec![5, 0, 128, 192, 223, 31, 0, 0, 0, 0]), Some(Error::BadTree));
    // The input ends within the header.
    assert_eq!(trees(vec![5, 0]), Some(Error::UnexpectedEof));
    assert_eq!(trees(vec![5, 224, 147]), Some(Error::UnexpectedEof));
    assert_eq!(trees(vec![5, 0, 128, 192]), Some(Error::UnexpectedEof));
}

#[test]
fn dynamic_trees_with_the_fewest_lengths() -> Result<(), Error> {
    // Four lengths of the code-length code are sent, of which the run of
    // zeros alone has a code word: both codes come out empty.
    let data: Vec<u8> = vec![5, 0, 128, 192, 95, 251, 255, 31, 0];
    let mut reader = BitReader::new(ByteReader::new(data));
    reader.read_bits(3)?;
    let (litlen, distance) = decode_litlen_distance_trees(&mut reader)?;
    for len in 1..=15u8 {
        assert!(litlen.decode_symbol(BitSequence::new(0, len)).is_none());
        assert!(distance.decode_symbol(BitSequence::new(0, len)).is_none());
    }
    assert!(matches!(litlen.read_symbol(&mut reader), Err(Error::BadCode)));
    Ok(())
}
