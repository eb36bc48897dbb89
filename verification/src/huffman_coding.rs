//! Canonical Huffman codes and the three alphabets of DEFLATE.

use vstd::prelude::*;
use vstd::arithmetic::power2::{pow2, lemma2_to64};
use vstd::std_specs::convert::{TryFromSpec, TryFromSpecImpl};
use std::collections::HashMap;
use crate::bit_reader::{BitReader, BitSequence, bit_at, bits_at, power_of_two};
use crate::error::Error;

verus! {

/// The index of a symbol in its alphabet.
#[derive(Clone, Copy)]
pub struct HuffmanCodeWord(pub u16);

/// A symbol of the alphabet in which code lengths are written.
#[derive(Clone, Copy, Debug)]
pub enum TreeCodeToken {
    /// A code length.
    Length(u8),
    /// The previous length again, three to six times.
    CopyPrev,
    /// A run of `base` zero lengths, plus what `extra_bits` bits say.
    RepeatZero { base: u16, extra_bits: u8 },
}

impl TreeCodeToken {
    /// What the alphabet can hold: lengths up to 15, and the two kinds of
    /// zero run.
    pub open spec fn valid(self) -> bool {
        match self {
            TreeCodeToken::Length(n) => n <= 15,
            TreeCodeToken::CopyPrev => true,
            TreeCodeToken::RepeatZero { base, extra_bits } => (base == 3 && extra_bits == 3) || (
            base == 11 && extra_bits == 7),
        }
    }
}

impl TryFrom<HuffmanCodeWord> for TreeCodeToken {
    type Error = Error;

    /// 0 to 15 are lengths, 16 copies the previous length, 17 and 18 are
    /// runs of zeros from 3 and from 11 on.
    fn try_from(value: HuffmanCodeWord) -> (r: Result<Self, Error>) {
        let index = value.0;
        if index <= 15 {
            Ok(TreeCodeToken::Length(index as u8))
        } else if index == 16 {
            Ok(TreeCodeToken::CopyPrev)
        } else if index == 17 {
            Ok(TreeCodeToken::RepeatZero { base: 3, extra_bits: 3 })
        } else if index == 18 {
            Ok(TreeCodeToken::RepeatZero { base: 11, extra_bits: 7 })
        } else {
            Err(Error::BadTree)
        }
    }
}

impl TryFromSpecImpl<HuffmanCodeWord> for TreeCodeToken {
    open spec fn obeys_try_from_spec() -> bool {
        true
    }

    open spec fn try_from_spec(value: HuffmanCodeWord) -> Result<Self, Error> {
        let index = value.0;
        if index <= 15 {
            Ok(TreeCodeToken::Length(index as u8))
        } else if index == 16 {
            Ok(TreeCodeToken::CopyPrev)
        } else if index == 17 {
            Ok(TreeCodeToken::RepeatZero { base: 3, extra_bits: 3 })
        } else if index == 18 {
            Ok(TreeCodeToken::RepeatZero { base: 11, extra_bits: 7 })
        } else {
            Err(Error::BadTree)
        }
    }
}

/// A symbol of the literal/length alphabet.
#[derive(Clone, Copy, Debug)]
pub enum LitLenToken {
    /// One byte of output.
    Literal(u8),
    /// The end of the block.
    EndOfBlock,
    /// A match of `base` bytes, plus what `extra_bits` bits say.
    Length { base: u16, extra_bits: u8 },
}

impl LitLenToken {
    /// A match is 3 to 258 bytes long, whatever the extra bits hold.
    pub open spec fn valid(self) -> bool {
        match self {
            LitLenToken::Length { base, extra_bits } => {
                &&& extra_bits <= 5
                &&& 3 <= base
                &&& base + pow2(extra_bits as nat) <= 259
            },
            _ => true,
        }
    }
}

impl TryFrom<HuffmanCodeWord> for LitLenToken {
    type Error = Error;

    /// 0 to 255 are literals and 256 ends the block. 257 to 264 are the
    /// lengths 3 to 10. From 265 on, four indices share a number of extra
    /// bits, which goes up from 1 to 5, and the lengths 11 to 257 follow
    /// each other without a gap. 285 is the length 258. 286 and 287 are
    /// reserved.
    fn try_from(value: HuffmanCodeWord) -> (r: Result<Self, Error>) {
        let index = value.0;
        if index <= 255 {
            Ok(LitLenToken::Literal(index as u8))
        } else if index == 256 {
            Ok(LitLenToken::EndOfBlock)
        } else if index <= 264 {
            Ok(LitLenToken::Length { base: index - 254, extra_bits: 0 })
        } else if index <= 284 {
            let extra_bits: u8 = ((index - 265) / 4 + 1) as u8;
            let step = power_of_two(extra_bits);
            let first = power_of_two(extra_bits + 2) + 3;
            let place = ((index - 1) % 4) as u32;
            proof {
                lemma2_to64();
                assert(place * step <= 3 * step) by (nonlinear_arith)
                    requires
                        place <= 3,
                ;
            }
            let base = first + place * step;
            Ok(LitLenToken::Length { base: base as u16, extra_bits })
        } else if index == 285 {
            Ok(LitLenToken::Length { base: 258, extra_bits: 0 })
        } else {
            Err(Error::BadTree)
        }
    }
}

impl TryFromSpecImpl<HuffmanCodeWord> for LitLenToken {
    open spec fn obeys_try_from_spec() -> bool {
        true
    }

    open spec fn try_from_spec(value: HuffmanCodeWord) -> Result<Self, Error> {
        let index = value.0;
        if index <= 255 {
            Ok(LitLenToken::Literal(index as u8))
        } else if index == 256 {
            Ok(LitLenToken::EndOfBlock)
        } else if index <= 264 {
            Ok(LitLenToken::Length { base: (index - 254) as u16, extra_bits: 0 })
        } else if index <= 284 {
            let extra_bits = (index - 265) / 4 + 1;
            let base = pow2((extra_bits + 2) as nat) + 3 + ((index - 1) % 4) * pow2(
                extra_bits as nat,
            );
            Ok(LitLenToken::Length { base: base as u16, extra_bits: extra_bits as u8 })
        } else if index == 285 {
            Ok(LitLenToken::Length { base: 258, extra_bits: 0 })
        } else {
            Err(Error::BadTree)
        }
    }
}

/// A symbol of the distance alphabet: a match lies `base` bytes back, plus
/// what `extra_bits` bits say.
#[derive(Clone, Copy, Debug)]
pub struct DistanceToken {
    pub base: u16,
    pub extra_bits: u8,
}

impl DistanceToken {
    /// A distance is 1 to 32768, whatever the extra bits hold.
    pub open spec fn valid(self) -> bool {
        &&& self.extra_bits <= 13
        &&& 1 <= self.base
        &&& self.base + pow2(self.extra_bits as nat) <= 32769
    }
}

impl TryFrom<HuffmanCodeWord> for DistanceToken {
    type Error = Error;

    /// 0 to 3 are the distances 1 to 4. From 4 on, two indices share a
    /// number of extra bits, which goes up from 1 to 13, and the distances
    /// 5 to 32768 follow each other without a gap. 30 and 31 are reserved.
    fn try_from(value: HuffmanCodeWord) -> (r: Result<Self, Error>) {
        let index = value.0;
        if index <= 3 {
            Ok(DistanceToken { base: index + 1, extra_bits: 0 })
        } else if index <= 29 {
            let extra_bits: u8 = (index / 2 - 1) as u8;
            let step = power_of_two(extra_bits);
            let first = power_of_two(extra_bits + 1) + 1;
            let place = (index % 2) as u32;
            proof {
                lemma2_to64();
                assert(place * step <= step) by (nonlinear_arith)
                    requires
                        place <= 1,
                ;
            }
            let base = first + place * step;
            Ok(DistanceToken { base: base as u16, extra_bits })
        } else {
            Err(Error::BadTree)
        }
    }
}

impl TryFromSpecImpl<HuffmanCodeWord> for DistanceToken {
    open spec fn obeys_try_from_spec() -> bool {
        true
    }

    open spec fn try_from_spec(value: HuffmanCodeWord) -> Result<Self, Error> {
        let index = value.0;
        if index <= 3 {
            Ok(DistanceToken { base: (index + 1) as u16, extra_bits: 0 })
        } else if index <= 29 {
            let extra_bits = index / 2 - 1;
            let base = pow2((extra_bits + 1) as nat) + (index % 2) * pow2(extra_bits as nat) + 1;
            Ok(DistanceToken { base: base as u16, extra_bits: extra_bits as u8 })
        } else {
            Err(Error::BadTree)
        }
    }
}

/// The longest code word that a coding is searched for.
pub const MAX_CODE_BITS: u8 = 16;

/// Reading a symbol bit by bit, after `len` bits with the value `acc` were
/// read in vain: the symbol found and the position behind it.
pub open spec fn read_symbol_from<T>(
    codes: Map<(nat, nat), T>,
    data: Seq<u8>,
    pos: nat,
    acc: nat,
    len: nat,
) -> Result<(T, nat), Error>
    decreases 16 - len,
{
    if len >= 16 {
        Err(Error::BadCode)
    } else if pos >= 8 * data.len() {
        Err(Error::UnexpectedEof)
    } else {
        let word = 2 * acc + bit_at(data, pos);
        if codes.contains_key((word, len + 1)) {
            Ok((codes[(word, len + 1)], pos + 1))
        } else {
            read_symbol_from(codes, data, pos + 1, word, len + 1)
        }
    }
}

/// The first symbol whose code word the bits from `pos` on spell out, most
/// significant bit first, and the position behind it.
pub open spec fn read_symbol_at<T>(codes: Map<(nat, nat), T>, data: Seq<u8>, pos: nat) -> Result<
    (T, nat),
    Error,
> {
    read_symbol_from(codes, data, pos, 0, 0)
}

/// A symbol takes at least one bit and at most sixteen, all of them within
/// the input.
pub proof fn lemma_read_symbol_advances<T>(
    codes: Map<(nat, nat), T>,
    data: Seq<u8>,
    pos: nat,
    acc: nat,
    len: nat,
)
    ensures
        match read_symbol_from(codes, data, pos, acc, len) {
            Ok((symbol, end)) => {
                &&& pos < end <= pos + 16 - len
                &&& end <= 8 * data.len()
                &&& codes.contains_value(symbol)
            },
            Err(_) => true,
        },
    decreases 16 - len,
{
    if len < 16 && pos < 8 * data.len() {
        let word = 2 * acc + bit_at(data, pos);
        if codes.contains_key((word, len + 1)) {
            assert(codes.contains_value(codes[(word, len + 1)]));
        } else {
            lemma_read_symbol_advances(codes, data, pos + 1, word, len + 1);
        }
    }
}

/// A dictionary from code words to symbols.
pub struct HuffmanCoding<T> {
    map: HashMap<u32, T>,
}

/// The key under which a code word is stored: its length in the high half,
/// its bits in the low half.
pub open spec fn packed(code: (nat, nat)) -> u32 {
    (code.1 * 65536 + code.0) as u32
}

impl<T> View for HuffmanCoding<T> {
    type V = Map<(nat, nat), T>;

    /// Each code word, given as its bits and its length, with its symbol.
    closed spec fn view(&self) -> Map<(nat, nat), T> {
        Map::new(
            |code: (nat, nat)| code.0 < 65536 && code.1 < 256 && self.map@.contains_key(packed(code)),
            |code: (nat, nat)| self.map@[packed(code)],
        )
    }
}

/// The dictionary that holds `entries`, a later entry taking the place of
/// an earlier one with the same code word.
pub open spec fn entries_map<T>(entries: Seq<(BitSequence, T)>) -> Map<(nat, nat), T>
    decreases entries.len(),
{
    if entries.len() == 0 {
        Map::empty()
    } else {
        let (code, symbol) = entries.last();
        entries_map(entries.drop_last()).insert((code.bits() as nat, code.len() as nat), symbol)
    }
}

impl<T> HuffmanCoding<T> where T: Copy + TryFrom<HuffmanCodeWord, Error = Error> {
    /// A coding without code words.
    fn empty() -> (coding: Self)
        ensures
            coding@ == Map::<(nat, nat), T>::empty(),
    {
        let coding = HuffmanCoding { map: HashMap::new() };
        assert(coding@ =~= Map::<(nat, nat), T>::empty());
        coding
    }

    /// Gives `code` the meaning `symbol`.
    fn insert(&mut self, code: BitSequence, symbol: T)
        ensures
            final(self)@ == old(self)@.insert((code.bits() as nat, code.len() as nat), symbol),
    {
        let key: u32 = (code.len() as u32) * 65536 + code.bits() as u32;
        assert(key == packed((code.bits() as nat, code.len() as nat)));
        self.map.insert(key, symbol);
        assert forall|other: (nat, nat)|
            other.0 < 65536 && other.1 < 256 && other != (
                code.bits() as nat,
                code.len() as nat,
            ) implies packed(other) != key by {}
        assert(self@ =~= old(self)@.insert((code.bits() as nat, code.len() as nat), symbol));
    }

    /// The coding that holds `entries`.
    pub fn new(entries: Vec<(BitSequence, T)>) -> (coding: Self)
        ensures
            coding@ == entries_map(entries@),
    {
        let mut coding = Self::empty();
        let mut i: usize = 0;
        while i < entries.len()
            invariant
                i <= entries.len(),
                coding@ == entries_map(entries@.take(i as int)),
            decreases entries.len() - i,
        {
            let (code, symbol) = entries[i];
            coding.insert(code, symbol);
            assert(entries@.take(i + 1).drop_last() =~= entries@.take(i as int));
            i = i + 1;
        }
        assert(entries@.take(i as int) =~= entries@);
        coding
    }

    /// The symbol that `seq` stands for. A prefix of a code word stands for
    /// nothing.
    pub fn decode_symbol(&self, seq: BitSequence) -> (symbol: Option<T>)
        ensures
            symbol == if self@.contains_key((seq.bits() as nat, seq.len() as nat)) {
                Some(self@[(seq.bits() as nat, seq.len() as nat)])
            } else {
                None
            },
    {
        let key: u32 = (seq.len() as u32) * 65536 + seq.bits() as u32;
        assert(key == packed((seq.bits() as nat, seq.len() as nat)));
        match self.map.get(&key) {
            Some(symbol) => Some(*symbol),
            None => None,
        }
    }

    /// Reads bits until they spell out a code word and returns its symbol.
    pub fn read_symbol(&self, bit_reader: &mut BitReader) -> (r: Result<T, Error>)
        requires
            old(bit_reader).wf(),
        ensures
            final(bit_reader).wf(),
            final(bit_reader).data() == old(bit_reader).data(),
            match r {
                Ok(symbol) => read_symbol_at(self@, old(bit_reader).data(), old(bit_reader).bit_pos())
                    == Ok::<(T, nat), Error>((symbol, final(bit_reader).bit_pos())),
                Err(e) => {
                    &&& read_symbol_at(self@, old(bit_reader).data(), old(bit_reader).bit_pos())
                        == Err::<(T, nat), Error>(e)
                    &&& final(bit_reader).bit_pos() == if e == Error::BadCode {
                        old(bit_reader).bit_pos() + 16
                    } else {
                        8 * old(bit_reader).data().len()
                    }
                    &&& e == Error::BadCode || e == Error::UnexpectedEof
                },
            },
    {
        let ghost data = bit_reader.data();
        let ghost start = bit_reader.bit_pos();
        let mut bits = BitSequence::new(0, 0);
        proof {
            lemma2_to64();
        }
        while bits.len() < MAX_CODE_BITS
            invariant
                data == old(bit_reader).data(),
                start == old(bit_reader).bit_pos(),
                bit_reader.wf(),
                bit_reader.data() == data,
                bit_reader.bit_pos() == start + bits.len(),
                read_symbol_at(self@, data, start) == read_symbol_from(
                    self@,
                    data,
                    bit_reader.bit_pos(),
                    bits.bits() as nat,
                    bits.len() as nat,
                ),
            decreases 16 - bits.len(),
        {
            let bit = match bit_reader.read_bits(1) {
                Ok(bit) => bit,
                Err(e) => {
                    return Err(e);
                },
            };
            proof {
                lemma2_to64();
                reveal_with_fuel(crate::bit_reader::bits_at, 2);
            }
            bits = bits.concat(bit);
            if let Some(symbol) = self.decode_symbol(bits) {
                return Ok(symbol);
            }
        }
        Err(Error::BadCode)
    }
}

/// The longest code word that code lengths can ask for.
pub const MAX_BITS: usize = 15;

/// How many of the first `upto` symbols have a code word of `len` bits.
pub open spec fn count_of(lengths: Seq<usize>, len: nat, upto: nat) -> nat
    decreases upto,
{
    if upto == 0 {
        0
    } else {
        count_of(lengths, len, (upto - 1) as nat) + if lengths[upto - 1] == len {
            1nat
        } else {
            0nat
        }
    }
}

/// The smallest code word of `len` bits: behind the last one of `len - 1`
/// bits, with a zero bit appended.
pub open spec fn first_code(lengths: Seq<usize>, len: nat) -> nat
    decreases len,
{
    if len == 0 {
        0
    } else {
        2 * (first_code(lengths, (len - 1) as nat) + if len == 1 {
            0
        } else {
            count_of(lengths, (len - 1) as nat, lengths.len())
        })
    }
}

/// The code word of symbol `i`: code words of one length go up with the
/// symbols.
pub open spec fn code_of(lengths: Seq<usize>, i: int) -> nat {
    first_code(lengths, lengths[i] as nat) + count_of(lengths, lengths[i] as nat, i as nat)
}

/// Whether symbol `i` has a code word.
pub open spec fn used(lengths: Seq<usize>, i: int) -> bool {
    0 <= i < lengths.len() && lengths[i] > 0
}

/// No length is above `MAX_BITS`, and the code words of each length fit in
/// that many bits: the lengths are not over-subscribed.
pub open spec fn lengths_fit(lengths: Seq<usize>) -> bool {
    &&& forall|i: int| 0 <= i < lengths.len() ==> #[trigger] lengths[i] <= MAX_BITS
    &&& forall|len: nat|
        1 <= len <= MAX_BITS ==> #[trigger] first_code(lengths, len) + count_of(
            lengths,
            len,
            lengths.len(),
        ) <= pow2(len)
}

/// The symbol with index `i`, where the alphabet has one.
pub open spec fn token_of<T: TryFrom<HuffmanCodeWord, Error = Error>>(i: int) -> Option<T> {
    if 0 <= i <= u16::MAX {
        match T::try_from_spec(HuffmanCodeWord(i as u16)) {
            Ok(token) => Some(token),
            Err(_) => None,
        }
    } else {
        None
    }
}

/// Every symbol that has a code word is one of the alphabet.
pub open spec fn all_tokens_exist<T: TryFrom<HuffmanCodeWord, Error = Error>>(
    lengths: Seq<usize>,
) -> bool {
    forall|i: int| used(lengths, i) ==> (#[trigger] token_of::<T>(i)) is Some
}

/// The canonical code of the first `upto` symbols: each one that has a
/// code word and is of the alphabet, under its code word.
pub open spec fn canonical_codes<T: TryFrom<HuffmanCodeWord, Error = Error>>(
    lengths: Seq<usize>,
    upto: nat,
) -> Map<(nat, nat), T>
    decreases upto,
{
    if upto == 0 {
        Map::empty()
    } else {
        let i = upto - 1;
        let before = canonical_codes::<T>(lengths, i as nat);
        if lengths[i] > 0 && token_of::<T>(i) is Some {
            before.insert((code_of(lengths, i), lengths[i] as nat), token_of::<T>(i).unwrap())
        } else {
            before
        }
    }
}

/// Counting further symbols makes a count no smaller.
pub proof fn lemma_count_grows(lengths: Seq<usize>, len: nat, from: nat, upto: nat)
    requires
        from <= upto,
    ensures
        count_of(lengths, len, from) <= count_of(lengths, len, upto),
    decreases upto - from,
{
    if from < upto {
        lemma_count_grows(lengths, len, from, (upto - 1) as nat);
    }
}

/// The code words of a longer length start where those of a shorter
/// length, extended by zero bits, have ended.
pub proof fn lemma_first_code_grows(lengths: Seq<usize>, short: nat, long: nat)
    requires
        1 <= short < long,
    ensures
        first_code(lengths, long) >= pow2((long - short) as nat) * (first_code(lengths, short)
            + count_of(lengths, short, lengths.len())),
    decreases long,
{
    let top = first_code(lengths, short) + count_of(lengths, short, lengths.len());
    lemma2_to64();
    if long == short + 1 {
        assert(pow2(1) * top == 2 * top);
    } else {
        let less = (long - 1) as nat;
        lemma_first_code_grows(lengths, short, less);
        vstd::arithmetic::power2::lemma_pow2_unfold((long - short) as nat);
        let scale = pow2((less - short) as nat);
        assert(2 * (scale * top) == (2 * scale) * top) by (nonlinear_arith);
    }
}

/// Where the lengths are not over-subscribed, the code word of a symbol
/// fits in its length.
pub proof fn lemma_code_fits(lengths: Seq<usize>, i: int)
    requires
        lengths_fit(lengths),
        used(lengths, i),
    ensures
        code_of(lengths, i) < pow2(lengths[i] as nat),
{
    let len = lengths[i] as nat;
    lemma_count_grows(lengths, len, (i + 1) as nat, lengths.len());
    assert(count_of(lengths, len, (i + 1) as nat) == count_of(lengths, len, i as nat) + 1);
    assert(first_code(lengths, len) + count_of(lengths, len, lengths.len()) <= pow2(len));
}

/// No code word is another symbol's code word, nor does it begin with one:
/// cut down to the length of a code word that is no longer, it differs
/// from it.
pub proof fn lemma_prefix_free(lengths: Seq<usize>, i: int, j: int)
    requires
        used(lengths, i),
        used(lengths, j),
        i != j,
        lengths[j] <= lengths[i],
    ensures
        code_of(lengths, i) / pow2((lengths[i] - lengths[j]) as nat) != code_of(lengths, j),
{
    let long = lengths[i] as nat;
    let short = lengths[j] as nat;
    lemma2_to64();
    if long == short {
        if i < j {
            lemma_count_grows(lengths, long, (i + 1) as nat, j as nat);
            assert(count_of(lengths, long, (i + 1) as nat) == count_of(lengths, long, i as nat) + 1);
        } else {
            lemma_count_grows(lengths, long, (j + 1) as nat, i as nat);
            assert(count_of(lengths, long, (j + 1) as nat) == count_of(lengths, long, j as nat) + 1);
        }
        assert(code_of(lengths, i) / 1 == code_of(lengths, i));
    } else {
        let scale = pow2((long - short) as nat);
        let top = first_code(lengths, short) + count_of(lengths, short, lengths.len());
        lemma_first_code_grows(lengths, short, long);
        lemma_count_grows(lengths, short, (j + 1) as nat, lengths.len());
        assert(count_of(lengths, short, (j + 1) as nat) == count_of(lengths, short, j as nat) + 1);
        vstd::arithmetic::power2::lemma_pow2_pos((long - short) as nat);
        let code = code_of(lengths, i);
        assert(code / scale >= top) by (nonlinear_arith)
            requires
                code >= scale * top,
                scale > 0,
        ;
    }
}

/// What a canonical code holds under `code` is a symbol, under its own
/// code word; the lemma names it.
pub proof fn lemma_canonical_entries<T: TryFrom<HuffmanCodeWord, Error = Error>>(
    lengths: Seq<usize>,
    upto: nat,
    code: (nat, nat),
) -> (i: int)
    requires
        upto <= lengths.len(),
        canonical_codes::<T>(lengths, upto).contains_key(code),
    ensures
        used(lengths, i),
        i < upto,
        code == (code_of(lengths, i), lengths[i] as nat),
        token_of::<T>(i) == Some(canonical_codes::<T>(lengths, upto)[code]),
    decreases upto,
{
    let last = upto - 1;
    let here = (code_of(lengths, last), lengths[last] as nat);
    if lengths[last] > 0 && token_of::<T>(last) is Some && code == here {
        last
    } else {
        lemma_canonical_entries::<T>(lengths, last as nat, code)
    }
}

/// Every symbol that has a code word, in lengths that are not
/// over-subscribed, is found under it in the canonical code, and under no
/// other symbol's.
pub proof fn lemma_decodes_uniquely<T: TryFrom<HuffmanCodeWord, Error = Error>>(
    lengths: Seq<usize>,
    upto: nat,
    i: int,
)
    requires
        lengths_fit(lengths),
        used(lengths, i),
        i < upto <= lengths.len(),
        token_of::<T>(i) is Some,
    ensures
        canonical_codes::<T>(lengths, upto).contains_key((code_of(lengths, i), lengths[i] as nat)),
        canonical_codes::<T>(lengths, upto)[(code_of(lengths, i), lengths[i] as nat)] == token_of::<
            T,
        >(i).unwrap(),
        code_of(lengths, i) < pow2(lengths[i] as nat),
    decreases upto,
{
    lemma_code_fits(lengths, i);
    let last = upto - 1;
    if i < last {
        lemma_decodes_uniquely::<T>(lengths, last as nat, i);
        if lengths[last] > 0 && lengths[last] == lengths[i] {
            lemma_prefix_free(lengths, i, last);
            lemma2_to64();
            assert(code_of(lengths, i) / 1 == code_of(lengths, i));
        }
    }
}

/// The value of `len` bits from `pos` on, the first bit being the most
/// significant: the way in which code words are written.
pub open spec fn code_at(data: Seq<u8>, pos: nat, len: nat) -> nat
    decreases len,
{
    if len == 0 {
        0
    } else {
        2 * code_at(data, pos, (len - 1) as nat) + bit_at(data, (pos + len - 1) as nat)
    }
}

/// The first `short` bits of a code word are the code word without its
/// last bits.
pub proof fn lemma_code_prefix(data: Seq<u8>, pos: nat, short: nat, len: nat)
    requires
        short <= len,
    ensures
        code_at(data, pos, len) / pow2((len - short) as nat) == code_at(data, pos, short),
    decreases len - short,
{
    lemma2_to64();
    if short < len {
        let less = (len - 1) as nat;
        lemma_code_prefix(data, pos, short, less);
        let scale = pow2((less - short) as nat);
        vstd::arithmetic::power2::lemma_pow2_pos((less - short) as nat);
        vstd::arithmetic::power2::lemma_pow2_unfold((len - short) as nat);
        let whole = code_at(data, pos, len);
        assert(whole / 2 == code_at(data, pos, less));
        vstd::arithmetic::div_mod::lemma_div_denominator(whole as int, 2, scale as int);
    } else {
        assert(code_at(data, pos, len) / 1 == code_at(data, pos, len));
    }
}

/// Where the input spells out the code word of symbol `i`, bit by bit,
/// reading on after `read` bits of it finds that symbol at the end of the
/// code word, and nothing before.
proof fn lemma_reads_on<T: TryFrom<HuffmanCodeWord, Error = Error>>(
    lengths: Seq<usize>,
    data: Seq<u8>,
    pos: nat,
    i: int,
    read: nat,
)
    requires
        lengths_fit(lengths),
        used(lengths, i),
        token_of::<T>(i) is Some,
        pos + lengths[i] <= 8 * data.len(),
        code_at(data, pos, lengths[i] as nat) == code_of(lengths, i),
        read < lengths[i],
    ensures
        read_symbol_from(
            canonical_codes::<T>(lengths, lengths.len()),
            data,
            pos + read,
            code_at(data, pos, read),
            read,
        ) == Ok::<(T, nat), Error>((token_of::<T>(i).unwrap(), pos + lengths[i] as nat)),
    decreases lengths[i] - read,
{
    let codes = canonical_codes::<T>(lengths, lengths.len());
    let len = lengths[i] as nat;
    let next = read + 1;
    let word = code_at(data, pos, next);
    assert(len <= MAX_BITS);
    if next == len {
        lemma_decodes_uniquely::<T>(lengths, lengths.len(), i);
    } else {
        if codes.contains_key((word, next)) {
            let j = lemma_canonical_entries::<T>(lengths, lengths.len(), (word, next));
            lemma_prefix_free(lengths, i, j);
            lemma_code_prefix(data, pos, next, len);
        }
        lemma_reads_on::<T>(lengths, data, pos, i, next);
    }
}

/// Every symbol decodes: where the input spells out the code word of
/// symbol `i` of a canonical code, most significant bit first, reading a
/// symbol gives that symbol and ends behind the code word.
pub proof fn lemma_reads_symbol<T: TryFrom<HuffmanCodeWord, Error = Error>>(
    lengths: Seq<usize>,
    data: Seq<u8>,
    pos: nat,
    i: int,
)
    requires
        lengths_fit(lengths),
        used(lengths, i),
        token_of::<T>(i) is Some,
        pos + lengths[i] <= 8 * data.len(),
        code_at(data, pos, lengths[i] as nat) == code_of(lengths, i),
    ensures
        read_symbol_at(canonical_codes::<T>(lengths, lengths.len()), data, pos) == Ok::<
            (T, nat),
            Error,
        >((token_of::<T>(i).unwrap(), pos + lengths[i] as nat)),
{
    lemma_reads_on::<T>(lengths, data, pos, i, 0);
}

impl<T> HuffmanCoding<T> where T: Copy + TryFrom<HuffmanCodeWord, Error = Error> {
    /// The canonical code for `code_lengths`, where entry `i` is the length
    /// of the code word of symbol `i` and 0 stands for no code word.
    /// Lengths that are over-subscribed, or that give a code word to an
    /// index outside the alphabet, are refused.
    pub fn from_lengths(code_lengths: &[usize]) -> (r: Result<Self, Error>)
        ensures
            T::obeys_try_from_spec() ==> match r {
                Ok(coding) => {
                    &&& lengths_fit(code_lengths@)
                    &&& all_tokens_exist::<T>(code_lengths@)
                    &&& coding@ == canonical_codes::<T>(code_lengths@, code_lengths@.len())
                },
                Err(e) => {
                    &&& e == Error::BadTree
                    &&& !(lengths_fit(code_lengths@) && all_tokens_exist::<T>(code_lengths@))
                },
            },
    {
        Self::with_lengths(code_lengths, true)
    }

    /// The canonical code for `code_lengths`. An index outside the alphabet
    /// is refused if `strict`, and else left without an entry.
    pub(crate) fn with_lengths(code_lengths: &[usize], strict: bool) -> (r: Result<Self, Error>)
        ensures
            T::obeys_try_from_spec() ==> match r {
                Ok(coding) => {
                    &&& lengths_fit(code_lengths@)
                    &&& strict ==> all_tokens_exist::<T>(code_lengths@)
                    &&& coding@ == canonical_codes::<T>(code_lengths@, code_lengths@.len())
                },
                Err(e) => {
                    &&& e == Error::BadTree
                    &&& !(lengths_fit(code_lengths@) && (strict ==> all_tokens_exist::<T>(
                        code_lengths@,
                    )))
                },
            },
    {
        let ghost lengths = code_lengths@;
        let total = code_lengths.len();
        let mut bl_count: Vec<usize> = vec![0usize; 16];
        let mut i: usize = 0;
        while i < total
            invariant
                lengths == code_lengths@,
                total == lengths.len(),
                i <= total,
                bl_count@.len() == 16,
                forall|len: int|
                    0 <= len < 16 ==> #[trigger] bl_count@[len] == count_of(
                        lengths,
                        len as nat,
                        i as nat,
                    ),
                forall|k: int| 0 <= k < i ==> #[trigger] lengths[k] <= MAX_BITS,
            decreases total - i,
        {
            let len = code_lengths[i];
            if len > MAX_BITS {
                return Err(Error::BadTree);
            }
            proof {
                lemma_count_bound(lengths, len as nat, i as nat);
            }
            let counted = bl_count[len];
            bl_count.set(len, counted + 1);
            i = i + 1;
        }
        let mut next_code: Vec<usize> = vec![0usize; 16];
        let mut code: usize = 0;
        let mut bits: usize = 1;
        proof {
            lemma2_to64();
        }
        while bits <= MAX_BITS
            invariant
                lengths == code_lengths@,
                total == lengths.len(),
                1 <= bits <= MAX_BITS + 1,
                bl_count@.len() == 16,
                next_code@.len() == 16,
                forall|len: int|
                    0 <= len < 16 ==> #[trigger] bl_count@[len] == count_of(
                        lengths,
                        len as nat,
                        total as nat,
                    ),
                forall|k: int| 0 <= k < total ==> #[trigger] lengths[k] <= MAX_BITS,
                forall|len: int|
                    1 <= len < bits ==> #[trigger] next_code@[len] == first_code(
                        lengths,
                        len as nat,
                    ),
                forall|len: nat|
                    1 <= len < bits ==> #[trigger] first_code(lengths, len) + count_of(
                        lengths,
                        len,
                        total as nat,
                    ) <= pow2(len),
                code == if bits == 1 {
                    0
                } else {
                    first_code(lengths, (bits - 1) as nat) + count_of(
                        lengths,
                        (bits - 1) as nat,
                        total as nat,
                    )
                },
                code <= pow2((bits - 1) as nat) <= 32768,
            decreases MAX_BITS + 1 - bits,
        {
            proof {
                lemma2_to64();
                vstd::arithmetic::power2::lemma_pow2_unfold(bits as nat);
                crate::bit_reader::lemma_pow2_small(bits as nat);
            }
            let first = code * 2;
            let limit = power_of_two(bits as u8) as usize;
            assert(first == first_code(lengths, bits as nat)) by {
                assert(first_code(lengths, 0) == 0);
                if bits == 1 {
                    assert(first_code(lengths, 1) == 2 * (first_code(lengths, 0) + 0));
                } else {
                    assert(first_code(lengths, bits as nat) == 2 * (first_code(
                        lengths,
                        (bits - 1) as nat,
                    ) + count_of(lengths, (bits - 1) as nat, lengths.len())));
                }
            }
            if bl_count[bits] > limit - first {
                assert(!lengths_fit(lengths)) by {
                    let len = bits as nat;
                    assert(first_code(lengths, len) + count_of(lengths, len, lengths.len()) > pow2(
                        len,
                    ));
                }
                return Err(Error::BadTree);
            }
            next_code.set(bits, first);
            code = first + bl_count[bits];
            bits = bits + 1;
        }
        assert(lengths_fit(lengths));
        let mut coding = Self::empty();
        let mut idx: usize = 0;
        while idx < total
            invariant
                lengths == code_lengths@,
                total == lengths.len(),
                idx <= total,
                lengths_fit(lengths),
                next_code@.len() == 16,
                forall|len: int|
                    1 <= len < 16 ==> #[trigger] next_code@[len] == first_code(lengths, len as nat)
                        + count_of(lengths, len as nat, idx as nat),
                T::obeys_try_from_spec() ==> coding@ == canonical_codes::<T>(lengths, idx as nat),
                T::obeys_try_from_spec() && strict ==> forall|k: int|
                    used(lengths, k) && k < idx ==> (#[trigger] token_of::<T>(k)) is Some,
            decreases total - idx,
        {
            let len = code_lengths[idx];
            if len != 0 {
                proof {
                    lemma_code_fits(lengths, idx as int);
                    crate::bit_reader::lemma_pow2_small(len as nat);
                    vstd::arithmetic::div_mod::lemma_small_mod(
                        code_of(lengths, idx as int),
                        pow2(len as nat),
                    );
                }
                let word = next_code[len];
                let code = BitSequence::new(word as u16, len as u8);
                let token = if idx <= 0xffff {
                    match T::try_from(HuffmanCodeWord(idx as u16)) {
                        Ok(token) => Some(token),
                        Err(_) => None,
                    }
                } else {
                    None
                };
                match token {
                    Some(token) => {
                        coding.insert(code, token);
                    },
                    None => {
                        if strict {
                            assert(T::obeys_try_from_spec() ==> !all_tokens_exist::<T>(lengths)) by {
                                if T::obeys_try_from_spec() {
                                    assert(used(lengths, idx as int));
                                    assert(token_of::<T>(idx as int) is None);
                                }
                            }
                            return Err(Error::BadTree);
                        }
                    },
                }
                next_code.set(len, word + 1);
            }
            idx = idx + 1;
        }
        Ok(coding)
    }
}

/// A count is at most the number of symbols counted.
proof fn lemma_count_bound(lengths: Seq<usize>, len: nat, upto: nat)
    ensures
        count_of(lengths, len, upto) <= upto,
    decreases upto,
{
    if upto > 0 {
        lemma_count_bound(lengths, len, (upto - 1) as nat);
    }
}

/// The code lengths of the fixed literal/length code.
pub open spec fn fixed_litlen_lengths() -> Seq<usize> {
    Seq::new(
        288,
        |i: int|
            if i <= 143 {
                8usize
            } else if i <= 255 {
                9usize
            } else if i <= 279 {
                7usize
            } else {
                8usize
            },
    )
}

/// The code lengths of the fixed distance code.
pub open spec fn fixed_distance_lengths() -> Seq<usize> {
    Seq::new(32, |i: int| 5usize)
}

/// Over a run of equal lengths a count goes up by the length of the run,
/// or not at all.
proof fn lemma_count_run(lengths: Seq<usize>, len: nat, from: nat, upto: nat, value: usize)
    requires
        from <= upto <= lengths.len(),
        forall|k: int| from <= k < upto ==> lengths[k] == value,
    ensures
        count_of(lengths, len, upto) == count_of(lengths, len, from) + if value == len {
            (upto - from) as nat
        } else {
            0nat
        },
    decreases upto - from,
{
    if from < upto {
        lemma_count_run(lengths, len, from, (upto - 1) as nat, value);
    }
}

/// How many fixed literal/length code words have `len` bits.
proof fn lemma_fixed_litlen_counts(len: nat)
    ensures
        count_of(fixed_litlen_lengths(), len, 288) == if len == 7 {
            24nat
        } else if len == 8 {
            152nat
        } else if len == 9 {
            112nat
        } else {
            0nat
        },
{
    let lengths = fixed_litlen_lengths();
    lemma_count_run(lengths, len, 0, 144, 8);
    lemma_count_run(lengths, len, 144, 256, 9);
    lemma_count_run(lengths, len, 256, 280, 7);
    lemma_count_run(lengths, len, 280, 288, 8);
}

/// The fixed literal/length lengths are not over-subscribed; their code
/// words of 7, 8 and 9 bits start at 0, 48 and 400.
proof fn lemma_fixed_litlen_fit()
    ensures
        lengths_fit(fixed_litlen_lengths()),
        first_code(fixed_litlen_lengths(), 7) == 0,
        first_code(fixed_litlen_lengths(), 8) == 48,
        first_code(fixed_litlen_lengths(), 9) == 400,
{
    let lengths = fixed_litlen_lengths();
    lemma2_to64();
    assert forall|len: nat| #[trigger] count_of(lengths, len, 288) == if len == 7 {
        24nat
    } else if len == 8 {
        152nat
    } else if len == 9 {
        112nat
    } else {
        0nat
    } by {
        lemma_fixed_litlen_counts(len);
    }
    assert(first_code(lengths, 0) == 0);
    assert(first_code(lengths, 1) == 0);
    assert(first_code(lengths, 2) == 0);
    assert(first_code(lengths, 3) == 0);
    assert(first_code(lengths, 4) == 0);
    assert(first_code(lengths, 5) == 0);
    assert(first_code(lengths, 6) == 0);
    assert(first_code(lengths, 7) == 0);
    assert(first_code(lengths, 8) == 48);
    assert(first_code(lengths, 9) == 400);
    assert(first_code(lengths, 10) == 1024);
    assert(first_code(lengths, 11) == 2048);
    assert(first_code(lengths, 12) == 4096);
    assert(first_code(lengths, 13) == 8192);
    assert(first_code(lengths, 14) == 16384);
    assert(first_code(lengths, 15) == 32768);
}

/// The fixed distance lengths are not over-subscribed; their code words
/// start at 0.
proof fn lemma_fixed_distance_fit()
    ensures
        lengths_fit(fixed_distance_lengths()),
        first_code(fixed_distance_lengths(), 5) == 0,
{
    let lengths = fixed_distance_lengths();
    lemma2_to64();
    assert forall|len: nat| #[trigger] count_of(lengths, len, 32) == if len == 5 {
        32nat
    } else {
        0nat
    } by {
        lemma_count_run(lengths, len, 0, 32, 5);
    }
    assert(first_code(lengths, 0) == 0);
    assert(first_code(lengths, 1) == 0);
    assert(first_code(lengths, 2) == 0);
    assert(first_code(lengths, 3) == 0);
    assert(first_code(lengths, 4) == 0);
    assert(first_code(lengths, 5) == 0);
    assert(first_code(lengths, 6) == 64);
    assert(first_code(lengths, 7) == 128);
    assert(first_code(lengths, 8) == 256);
    assert(first_code(lengths, 9) == 512);
    assert(first_code(lengths, 10) == 1024);
    assert(first_code(lengths, 11) == 2048);
    assert(first_code(lengths, 12) == 4096);
    assert(first_code(lengths, 13) == 8192);
    assert(first_code(lengths, 14) == 16384);
    assert(first_code(lengths, 15) == 32768);
}

/// The fixed literal/length code has the code words that the format
/// lists: 00110000 and up for the literals 0 to 143, 110010000 and up for
/// 144 to 255, 0000000 and up for 256 to 279, 11000000 and up for 280 to
/// 287.
pub proof fn lemma_fixed_litlen_codes(i: int)
    requires
        0 <= i < 288,
    ensures
        code_of(fixed_litlen_lengths(), i) == if i <= 143 {
            0b00110000 + i
        } else if i <= 255 {
            0b110010000 + (i - 144)
        } else if i <= 279 {
            i - 256
        } else {
            0b11000000 + (i - 280)
        },
{
    let lengths = fixed_litlen_lengths();
    lemma_fixed_litlen_fit();
    let len = lengths[i] as nat;
    if i <= 143 {
        lemma_count_run(lengths, len, 0, i as nat, 8);
    } else if i <= 255 {
        lemma_count_run(lengths, len, 0, 144, 8);
        lemma_count_run(lengths, len, 144, i as nat, 9);
    } else if i <= 279 {
        lemma_count_run(lengths, len, 0, 144, 8);
        lemma_count_run(lengths, len, 144, 256, 9);
        lemma_count_run(lengths, len, 256, i as nat, 7);
    } else {
        lemma_count_run(lengths, len, 0, 144, 8);
        lemma_count_run(lengths, len, 144, 256, 9);
        lemma_count_run(lengths, len, 256, 280, 7);
        lemma_count_run(lengths, len, 280, i as nat, 8);
    }
}

/// The code word of a fixed distance symbol is its index, in five bits.
pub proof fn lemma_fixed_distance_codes(i: int)
    requires
        0 <= i < 32,
    ensures
        code_of(fixed_distance_lengths(), i) == i,
{
    let lengths = fixed_distance_lengths();
    lemma_fixed_distance_fit();
    lemma_count_run(lengths, 5, 0, i as nat, 5);
}

/// Appends `count` copies of `value`.
fn push_repeated(lengths: &mut Vec<usize>, value: usize, count: usize)
    ensures
        final(lengths)@ == old(lengths)@ + repeated(value, count as nat),
{
    let mut i: usize = 0;
    while i < count
        invariant
            i <= count,
            lengths@ == old(lengths)@ + repeated(value, i as nat),
        decreases count - i,
    {
        lengths.push(value);
        assert(lengths@ =~= old(lengths)@ + repeated(value, (i + 1) as nat));
        i = i + 1;
    }
}

/// The two codes that blocks of the fixed kind are written in. The
/// literal/length indices 286 and 287 and the distance indices 30 and 31
/// take part in the construction and stand for no symbol.
pub fn get_fixed_coding() -> (r: Result<
    (HuffmanCoding<LitLenToken>, HuffmanCoding<DistanceToken>),
    Error,
>)
    ensures
        r matches Ok((litlen, distance)) && litlen@ == canonical_codes::<LitLenToken>(
            fixed_litlen_lengths(),
            288,
        ) && distance@ == canonical_codes::<DistanceToken>(fixed_distance_lengths(), 32),
{
    let mut litlen_lengths: Vec<usize> = Vec::new();
    push_repeated(&mut litlen_lengths, 8, 144);
    push_repeated(&mut litlen_lengths, 9, 112);
    push_repeated(&mut litlen_lengths, 7, 24);
    push_repeated(&mut litlen_lengths, 8, 8);
    let mut distance_lengths: Vec<usize> = Vec::new();
    push_repeated(&mut distance_lengths, 5, 32);
    proof {
        assert(litlen_lengths@ =~= fixed_litlen_lengths());
        assert(distance_lengths@ =~= fixed_distance_lengths());
        lemma_fixed_litlen_fit();
        lemma_fixed_distance_fit();
    }
    let litlen = HuffmanCoding::<LitLenToken>::with_lengths(litlen_lengths.as_slice(), false)?;
    let distance = HuffmanCoding::<DistanceToken>::with_lengths(distance_lengths.as_slice(), false)?;
    Ok((litlen, distance))
}

/// `count` times `value`.
pub open spec fn repeated(value: usize, count: nat) -> Seq<usize> {
    Seq::new(count, |i: int| value)
}

/// The order in which the lengths of the code-length code are sent.
pub open spec fn tree_code_order() -> Seq<usize> {
    seq![16, 17, 18, 0, 8, 7, 9, 6, 10, 5, 11, 4, 12, 3, 13, 2, 14, 1, 15]
}

/// The order names each of the nineteen symbols.
proof fn lemma_tree_code_order()
    ensures
        tree_code_order().len() == 19,
        forall|i: int| 0 <= i < 19 ==> #[trigger] tree_code_order()[i] < 19,
{
    let order = tree_code_order();
    assert(order[0] == 16 && order[1] == 17 && order[2] == 18 && order[3] == 0);
    assert(order[4] == 8 && order[5] == 7 && order[6] == 9 && order[7] == 6);
    assert(order[8] == 10 && order[9] == 5 && order[10] == 11 && order[11] == 4);
    assert(order[12] == 12 && order[13] == 3 && order[14] == 13 && order[15] == 2);
    assert(order[16] == 14 && order[17] == 1 && order[18] == 15);
}

/// The lengths of the code-length code, of which `count` are sent from
/// `pos` on with three bits each; the others are 0.
pub open spec fn tree_code_lengths(data: Seq<u8>, pos: nat, count: nat) -> Seq<usize>
    decreases count,
{
    if count == 0 {
        Seq::new(19, |i: int| 0usize)
    } else {
        let sent = (count - 1) as nat;
        tree_code_lengths(data, pos, sent).update(
            tree_code_order()[sent as int] as int,
            bits_at(data, pos + 3 * sent, 3) as usize,
        )
    }
}

/// The code lengths that are written from `pos` on in the code `tree`,
/// behind the lengths `done`, until there are `target` of them, and the
/// position behind them. A run may not go past the target.
pub open spec fn code_lengths_at(
    tree: Map<(nat, nat), TreeCodeToken>,
    data: Seq<u8>,
    pos: nat,
    done: Seq<usize>,
    target: nat,
) -> Result<(Seq<usize>, nat), Error>
    decreases 8 * data.len() - pos,
{
    if done.len() == target {
        Ok((done, pos))
    } else if done.len() > target {
        Err(Error::BadTree)
    } else {
        match read_symbol_at(tree, data, pos) {
            Err(e) => Err(e),
            Ok((token, next)) => {
                proof {
                    lemma_read_symbol_advances(tree, data, pos, 0, 0);
                }
                match token {
                    TreeCodeToken::Length(n) => code_lengths_at(
                        tree,
                        data,
                        next,
                        done.push(n as usize),
                        target,
                    ),
                    TreeCodeToken::CopyPrev => if next + 2 > 8 * data.len() {
                        Err(Error::UnexpectedEof)
                    } else if done.len() == 0 {
                        Err(Error::BadTree)
                    } else {
                        code_lengths_at(
                            tree,
                            data,
                            next + 2,
                            done + repeated(done.last(), bits_at(data, next, 2) + 3),
                            target,
                        )
                    },
                    TreeCodeToken::RepeatZero { base, extra_bits } => if next + extra_bits > 8
                        * data.len() {
                        Err(Error::UnexpectedEof)
                    } else {
                        code_lengths_at(
                            tree,
                            data,
                            next + extra_bits as nat,
                            done + repeated(
                                0,
                                base as nat + bits_at(data, next, extra_bits as nat),
                            ),
                            target,
                        )
                    },
                }
            },
        }
    }
}

/// The literal/length code and the distance code that the header of a
/// dynamic block at `pos` describes, and the position behind the header.
pub open spec fn dynamic_codes_at(data: Seq<u8>, pos: nat) -> Result<
    (Map<(nat, nat), LitLenToken>, Map<(nat, nat), DistanceToken>, nat),
    Error,
> {
    let hlit = bits_at(data, pos, 5) + 257;
    let hdist = bits_at(data, pos + 5, 5) + 1;
    let hclen = bits_at(data, pos + 10, 4) + 4;
    let body = pos + 14 + 3 * hclen;
    let tree_lengths = tree_code_lengths(data, pos + 14, hclen);
    if body > 8 * data.len() {
        Err(Error::UnexpectedEof)
    } else if !lengths_fit(tree_lengths) {
        Err(Error::BadTree)
    } else {
        codes_of_lengths(
            code_lengths_at(
                canonical_codes::<TreeCodeToken>(tree_lengths, 19),
                data,
                body,
                Seq::empty(),
                hlit + hdist,
            ),
            hlit,
        )
    }
}

/// The two codes whose lengths were read one after the other, the first
/// `hlit` of them being those of the literal/length code.
pub open spec fn codes_of_lengths(read: Result<(Seq<usize>, nat), Error>, hlit: nat) -> Result<
    (Map<(nat, nat), LitLenToken>, Map<(nat, nat), DistanceToken>, nat),
    Error,
> {
    match read {
        Err(e) => Err(e),
        Ok((lengths, end)) => {
            let litlen = lengths.take(hlit as int);
            let distance = lengths.skip(hlit as int);
            if lengths_fit(litlen) && all_tokens_exist::<LitLenToken>(litlen) && lengths_fit(
                distance,
            ) && all_tokens_exist::<DistanceToken>(distance) {
                Ok(
                    (
                        canonical_codes::<LitLenToken>(litlen, litlen.len()),
                        canonical_codes::<DistanceToken>(distance, distance.len()),
                        end,
                    ),
                )
            } else {
                Err(Error::BadTree)
            }
        },
    }
}

/// Each symbol of the code-length alphabet is a valid one.
pub proof fn lemma_tree_token_valid(index: u16)
    ensures
        token_of::<TreeCodeToken>(index as int) matches Some(token) ==> token.valid(),
{
}

/// Each symbol of the literal/length alphabet is a valid one.
pub proof fn lemma_litlen_token_valid(index: u16)
    ensures
        token_of::<LitLenToken>(index as int) matches Some(token) ==> token.valid(),
{
    lemma2_to64();
    if 265 <= index <= 284 {
        let extra = (index - 265) / 4 + 1;
        let place = (index - 1) % 4;
        assert(1 <= extra <= 5 && 0 <= place <= 3);
        if extra == 1 {
            assert(pow2(3) + 3 + place * pow2(1) + pow2(1) <= 259);
        } else if extra == 2 {
            assert(pow2(4) + 3 + place * pow2(2) + pow2(2) <= 259);
        } else if extra == 3 {
            assert(pow2(5) + 3 + place * pow2(3) + pow2(3) <= 259);
        } else if extra == 4 {
            assert(pow2(6) + 3 + place * pow2(4) + pow2(4) <= 259);
        } else {
            assert(pow2(7) + 3 + place * pow2(5) + pow2(5) <= 259);
        }
    }
}

/// Each symbol of the distance alphabet is a valid one.
pub proof fn lemma_distance_token_valid(index: u16)
    ensures
        token_of::<DistanceToken>(index as int) matches Some(token) ==> token.valid(),
{
    lemma2_to64();
    if 4 <= index <= 29 {
        let extra = (index / 2 - 1) as nat;
        let place = index % 2;
        assert(1 <= extra <= 13 && 0 <= place <= 1);
        vstd::arithmetic::power2::lemma_pow2_unfold(extra + 1);
        crate::bit_reader::lemma_pow2_small(extra);
        assert(pow2(extra) <= 8192) by {
            if extra < 13 {
                vstd::arithmetic::power2::lemma_pow2_strictly_increases(extra, 13);
            }
        }
        assert(place * pow2(extra) <= pow2(extra)) by (nonlinear_arith)
            requires
                0 <= place <= 1,
        ;
    }
}

/// The symbols of a canonical code-length code are valid.
pub proof fn lemma_tree_tokens_valid(lengths: Seq<usize>, upto: nat)
    requires
        upto <= lengths.len(),
    ensures
        forall|code: (nat, nat)| #[trigger]
            canonical_codes::<TreeCodeToken>(lengths, upto).contains_key(code)
                ==> canonical_codes::<TreeCodeToken>(lengths, upto)[code].valid(),
{
    assert forall|code: (nat, nat)| #[trigger]
        canonical_codes::<TreeCodeToken>(lengths, upto).contains_key(
            code,
        ) implies canonical_codes::<TreeCodeToken>(lengths, upto)[code].valid() by {
        let i = lemma_canonical_entries::<TreeCodeToken>(lengths, upto, code);
        lemma_tree_token_valid(i as u16);
    }
}

/// The symbols of a canonical literal/length code are valid.
pub proof fn lemma_litlen_tokens_valid(lengths: Seq<usize>, upto: nat)
    requires
        upto <= lengths.len(),
    ensures
        forall|code: (nat, nat)| #[trigger]
            canonical_codes::<LitLenToken>(lengths, upto).contains_key(code)
                ==> canonical_codes::<LitLenToken>(lengths, upto)[code].valid(),
{
    assert forall|code: (nat, nat)| #[trigger]
        canonical_codes::<LitLenToken>(lengths, upto).contains_key(
            code,
        ) implies canonical_codes::<LitLenToken>(lengths, upto)[code].valid() by {
        let i = lemma_canonical_entries::<LitLenToken>(lengths, upto, code);
        lemma_litlen_token_valid(i as u16);
    }
}

/// The symbols of a canonical distance code are valid.
pub proof fn lemma_distance_tokens_valid(lengths: Seq<usize>, upto: nat)
    requires
        upto <= lengths.len(),
    ensures
        forall|code: (nat, nat)| #[trigger]
            canonical_codes::<DistanceToken>(lengths, upto).contains_key(code)
                ==> canonical_codes::<DistanceToken>(lengths, upto)[code].valid(),
{
    assert forall|code: (nat, nat)| #[trigger]
        canonical_codes::<DistanceToken>(lengths, upto).contains_key(
            code,
        ) implies canonical_codes::<DistanceToken>(lengths, upto)[code].valid() by {
        let i = lemma_canonical_entries::<DistanceToken>(lengths, upto, code);
        lemma_distance_token_valid(i as u16);
    }
}

/// Reads the header of a dynamic block: the code-length code, and in it
/// the lengths of the literal/length code and of the distance code.
pub fn decode_litlen_distance_trees(bit_reader: &mut BitReader) -> (r: Result<
    (HuffmanCoding<LitLenToken>, HuffmanCoding<DistanceToken>),
    Error,
>)
    requires
        old(bit_reader).wf(),
    ensures
        final(bit_reader).wf(),
        final(bit_reader).data() == old(bit_reader).data(),
        match r {
            Ok((litlen, distance)) => dynamic_codes_at(
                old(bit_reader).data(),
                old(bit_reader).bit_pos(),
            ) == Ok::<
                (Map<(nat, nat), LitLenToken>, Map<(nat, nat), DistanceToken>, nat),
                Error,
            >((litlen@, distance@, final(bit_reader).bit_pos())),
            Err(e) => dynamic_codes_at(old(bit_reader).data(), old(bit_reader).bit_pos()) == Err::<
                (Map<(nat, nat), LitLenToken>, Map<(nat, nat), DistanceToken>, nat),
                Error,
            >(e),
        },
{
    let ghost data = bit_reader.data();
    let ghost start = bit_reader.bit_pos();
    proof {
        lemma2_to64();
    }
    let hlit: usize = bit_reader.read_bits(5)?.bits() as usize + 257;
    let hdist: usize = bit_reader.read_bits(5)?.bits() as usize + 1;
    let hclen: usize = bit_reader.read_bits(4)?.bits() as usize + 4;
    let order: [usize; 19] = [16, 17, 18, 0, 8, 7, 9, 6, 10, 5, 11, 4, 12, 3, 13, 2, 14, 1, 15];
    proof {
        lemma_tree_code_order();
    }
    assert(order@ =~= tree_code_order());
    let mut tree_len: Vec<usize> = vec![0usize; 19];
    assert(tree_len@ =~= tree_code_lengths(data, start + 14, 0));
    let mut i: usize = 0;
    while i < hclen
        invariant
            data == old(bit_reader).data(),
            start == old(bit_reader).bit_pos(),
            bit_reader.wf(),
            bit_reader.data() == data,
            i <= hclen <= 19,
            hclen == bits_at(data, start + 10, 4) + 4,
            bit_reader.bit_pos() == start + 14 + 3 * i,
            order@ == tree_code_order(),
            forall|k: int| 0 <= k < 19 ==> #[trigger] tree_code_order()[k] < 19,
            tree_len@.len() == 19,
            tree_len@ == tree_code_lengths(data, start + 14, i as nat),
        decreases hclen - i,
    {
        let len = bit_reader.read_bits(3)?;
        tree_len.set(order[i], len.bits() as usize);
        i = i + 1;
    }
    let ghost body = bit_reader.bit_pos();
    let ghost tree_lengths = tree_len@;
    proof {
        assert(tree_lengths.len() == 19) by {
            lemma_tree_code_lengths_len(data, start + 14, hclen as nat);
        }
        assert(all_tokens_exist::<TreeCodeToken>(tree_lengths));
        lemma_tree_tokens_valid(tree_lengths, 19);
    }
    let tree = HuffmanCoding::<TreeCodeToken>::from_lengths(tree_len.as_slice())?;
    let target = hlit + hdist;
    let mut code_lengths: Vec<usize> = Vec::new();
    while code_lengths.len() < target
        invariant
            data == old(bit_reader).data(),
            start == old(bit_reader).bit_pos(),
            bit_reader.wf(),
            bit_reader.data() == data,
            target <= 320,
            target == hlit + hdist,
            forall|code: (nat, nat)| #[trigger] tree@.contains_key(code) ==> tree@[code].valid(),
            dynamic_codes_at(data, start) == codes_of_lengths(
                code_lengths_at(tree@, data, body, Seq::empty(), target as nat),
                hlit as nat,
            ),
            code_lengths_at(tree@, data, body, Seq::empty(), target as nat) == code_lengths_at(
                tree@,
                data,
                bit_reader.bit_pos(),
                code_lengths@,
                target as nat,
            ),
        decreases 8 * data.len() - bit_reader.bit_pos(),
    {
        let ghost pos = bit_reader.bit_pos();
        proof {
            lemma_read_symbol_advances(tree@, data, pos, 0, 0);
            lemma2_to64();
        }
        let token = tree.read_symbol(bit_reader)?;
        match token {
            TreeCodeToken::Length(n) => {
                code_lengths.push(n as usize);
            },
            TreeCodeToken::CopyPrev => {
                let extra = bit_reader.read_bits(2)?;
                if code_lengths.len() == 0 {
                    return Err(Error::BadTree);
                }
                let previous = code_lengths[code_lengths.len() - 1];
                push_repeated(&mut code_lengths, previous, extra.bits() as usize + 3);
            },
            TreeCodeToken::RepeatZero { base, extra_bits } => {
                let extra = bit_reader.read_bits(extra_bits)?;
                push_repeated(&mut code_lengths, 0, base as usize + extra.bits() as usize);
            },
        }
    }
    if code_lengths.len() > target {
        return Err(Error::BadTree);
    }
    let litlen_lengths = vstd::slice::slice_subrange(code_lengths.as_slice(), 0, hlit);
    let distance_lengths = vstd::slice::slice_subrange(code_lengths.as_slice(), hlit, target);
    assert(litlen_lengths@ =~= code_lengths@.take(hlit as int));
    assert(distance_lengths@ =~= code_lengths@.skip(hlit as int));
    let litlen = HuffmanCoding::<LitLenToken>::from_lengths(litlen_lengths)?;
    let distance = HuffmanCoding::<DistanceToken>::from_lengths(distance_lengths)?;
    Ok((litlen, distance))
}

/// The code-length code has nineteen lengths.
proof fn lemma_tree_code_lengths_len(data: Seq<u8>, pos: nat, count: nat)
    requires
        count <= 19,
    ensures
        tree_code_lengths(data, pos, count).len() == 19,
    decreases count,
{
    if count > 0 {
        lemma_tree_code_lengths_len(data, pos, (count - 1) as nat);
    }
}

/// Code lengths end no earlier than they start, within the input.
pub proof fn lemma_code_lengths_advance(
    tree: Map<(nat, nat), TreeCodeToken>,
    data: Seq<u8>,
    pos: nat,
    done: Seq<usize>,
    target: nat,
)
    requires
        pos <= 8 * data.len(),
    ensures
        code_lengths_at(tree, data, pos, done, target) matches Ok((_, end)) ==> pos <= end <= 8
            * data.len(),
    decreases 8 * data.len() - pos,
{
    if done.len() < target {
        lemma_read_symbol_advances(tree, data, pos, 0, 0);
        if let Ok((token, next)) = read_symbol_at(tree, data, pos) {
            match token {
                TreeCodeToken::Length(n) => {
                    lemma_code_lengths_advance(tree, data, next, done.push(n as usize), target);
                },
                TreeCodeToken::CopyPrev => {
                    if next + 2 <= 8 * data.len() && done.len() > 0 {
                        lemma_code_lengths_advance(
                            tree,
                            data,
                            next + 2,
                            done + repeated(done.last(), bits_at(data, next, 2) + 3),
                            target,
                        );
                    }
                },
                TreeCodeToken::RepeatZero { base, extra_bits } => {
                    if next + extra_bits <= 8 * data.len() {
                        lemma_code_lengths_advance(
                            tree,
                            data,
                            next + extra_bits as nat,
                            done + repeated(
                                0,
                                base as nat + bits_at(data, next, extra_bits as nat),
                            ),
                            target,
                        );
                    }
                },
            }
        }
    }
}

/// The header of a dynamic block ends behind where it starts, within the
/// input.
pub proof fn lemma_dynamic_codes_advance(data: Seq<u8>, pos: nat)
    ensures
        dynamic_codes_at(data, pos) matches Ok((_, _, end)) ==> pos < end <= 8 * data.len(),
{
    let hlit = bits_at(data, pos, 5) + 257;
    let hdist = bits_at(data, pos + 5, 5) + 1;
    let hclen = bits_at(data, pos + 10, 4) + 4;
    let body = pos + 14 + 3 * hclen;
    let tree_lengths = tree_code_lengths(data, pos + 14, hclen);
    if body <= 8 * data.len() {
        lemma_code_lengths_advance(
            canonical_codes::<TreeCodeToken>(tree_lengths, 19),
            data,
            body,
            Seq::empty(),
            hlit + hdist,
        );
    }
}

} // verus!
