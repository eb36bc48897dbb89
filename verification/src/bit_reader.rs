//! Bit-granular reading of a byte stream, least significant bit first.

use vstd::prelude::*;
use vstd::arithmetic::power2::{
    lemma2_to64,
    lemma_pow2_adds,
    lemma_pow2_pos,
    lemma_pow2_strictly_increases,
    lemma_pow2_unfold,
    pow2,
};
use vstd::arithmetic::div_mod::{
    lemma_div_denominator,
    lemma_mod_bound,
    lemma_mod_breakdown,
    lemma_small_mod,
};
use vstd::bits::lemma_u32_shl_is_mul;
use crate::byte_reader::ByteReader;
use crate::error::Error;

verus! {

/// Bit number `pos` of the stream: bit `pos % 8` of byte `pos / 8`.
pub open spec fn bit_at(data: Seq<u8>, pos: nat) -> nat {
    (data[(pos / 8) as int] as nat / pow2(pos % 8)) % 2
}

/// The value of `count` bits from position `pos` on, the first bit being
/// the least significant.
pub open spec fn bits_at(data: Seq<u8>, pos: nat, count: nat) -> nat
    decreases count,
{
    if count == 0 {
        0
    } else {
        bit_at(data, pos) + 2 * bits_at(data, pos + 1, (count - 1) as nat)
    }
}

/// The powers of two up to the sixteenth.
pub proof fn lemma_pow2_small(n: nat)
    requires
        n <= 16,
    ensures
        0 < pow2(n) <= 65536,
        pow2(0) == 1,
        pow2(1) == 2,
        pow2(8) == 256,
        pow2(16) == 65536,
{
    lemma2_to64();
    lemma_pow2_pos(n);
    if n < 16 {
        lemma_pow2_strictly_increases(n, 16);
    }
}

/// Two to the power `n`.
pub(crate) fn power_of_two(n: u8) -> (r: u32)
    requires
        n <= 16,
    ensures
        r == pow2(n as nat),
        0 < r <= 65536,
{
    proof {
        lemma_pow2_small(n as nat);
        lemma_u32_shl_is_mul(1, n as u32);
    }
    1u32 << n
}

/// Up to sixteen bits and their number.
#[derive(Clone, Copy, Debug, PartialEq, Eq, Hash, Structural)]
pub struct BitSequence {
    bits: u16,
    len: u8,
}

impl BitSequence {
    /// At most sixteen bits, and none set above the length.
    #[verifier::type_invariant]
    spec fn within_length(self) -> bool {
        self.len <= 16 && (self.bits as nat) < pow2(self.len as nat)
    }

    /// The bits as a number.
    pub closed spec fn spec_bits(&self) -> u16 {
        self.bits
    }

    /// The number of bits.
    pub closed spec fn spec_len(&self) -> u8 {
        self.len
    }

    /// The low `len` bits of `bits`.
    pub fn new(bits: u16, len: u8) -> (seq: BitSequence)
        requires
            len <= 16,
        ensures
            seq.len() == len,
            seq.bits() as nat == bits as nat % pow2(len as nat),
    {
        let modulus = power_of_two(len);
        let low = bits as u32 % modulus;
        proof {
            lemma_mod_bound(bits as int, modulus as int);
        }
        BitSequence { bits: low as u16, len }
    }

    /// The bits as a number below two to the power `len()`.
    #[verifier::when_used_as_spec(spec_bits)]
    pub fn bits(&self) -> (bits: u16)
        ensures
            bits == self.bits(),
            (bits as nat) < pow2(self.len() as nat),
    {
        proof {
            use_type_invariant(self);
        }
        self.bits
    }

    /// The number of bits, at most sixteen.
    #[verifier::when_used_as_spec(spec_len)]
    pub fn len(&self) -> (len: u8)
        ensures
            len == self.len(),
            len <= 16,
    {
        proof {
            use_type_invariant(self);
        }
        self.len
    }

    /// The bits of `self` above those of `other`.
    pub fn concat(self, other: BitSequence) -> (seq: BitSequence)
        requires
            self.len() + other.len() <= 16,
        ensures
            seq.len() == self.len() + other.len(),
            seq.bits() as nat == self.bits() as nat * pow2(other.len() as nat) + other.bits() as nat,
    {
        proof {
            use_type_invariant(self);
            use_type_invariant(other);
            lemma_pow2_adds(self.len as nat, other.len as nat);
            lemma_pow2_small((self.len + other.len) as nat);
            lemma_shifted_sum_bound(
                self.bits as nat,
                other.bits as nat,
                pow2(self.len as nat),
                pow2(other.len as nat),
            );
        }
        let scale = power_of_two(other.len);
        let joined = self.bits as u32 * scale + other.bits as u32;
        BitSequence { bits: joined as u16, len: self.len + other.len }
    }

    /// Takes the low `len` bits away and returns them.
    pub fn consume(&mut self, len: u8) -> (seq: BitSequence)
        requires
            len <= old(self).len(),
        ensures
            seq.len() == len,
            seq.bits() as nat == old(self).bits() as nat % pow2(len as nat),
            final(self).len() == old(self).len() - len,
            final(self).bits() as nat == old(self).bits() as nat / pow2(len as nat),
    {
        proof {
            use_type_invariant(&*self);
        }
        let modulus = power_of_two(len);
        let low = self.bits as u32 % modulus;
        let high = self.bits as u32 / modulus;
        proof {
            lemma_mod_bound(self.bits as int, modulus as int);
            lemma_pow2_adds((self.len - len) as nat, len as nat);
            lemma_quotient_bound(
                self.bits as nat,
                pow2((self.len - len) as nat),
                pow2(len as nat),
            );
        }
        *self = BitSequence { bits: high as u16, len: self.len - len };
        BitSequence { bits: low as u16, len }
    }
}

/// A bit stream over a byte reader. Bytes are fetched whole; the bits of
/// the last one that were not asked for yet wait in `remainder`.
pub struct BitReader {
    stream: ByteReader,
    remainder: BitSequence,
}

impl BitReader {
    /// The byte reader underneath, which stands behind the last byte fetched.
    pub closed spec fn stream(&self) -> ByteReader {
        self.stream
    }

    /// The number of bits fetched and not yet read.
    pub closed spec fn pending(&self) -> nat {
        self.remainder.len() as nat
    }

    /// The bits fetched and not yet read are the high bits of the byte
    /// before the cursor.
    pub closed spec fn pending_matches(&self) -> bool {
        self.remainder.len() > 0 ==> {
            &&& self.stream.pos() >= 1
            &&& self.remainder.len() < 8
            &&& self.remainder.bits() as nat == self.stream.data()[self.stream.pos() - 1] as nat
                / pow2((8 - self.remainder.len()) as nat)
        }
    }

    /// The whole input.
    pub open spec fn data(&self) -> Seq<u8> {
        self.stream().data()
    }

    /// The position of the next bit to be read.
    pub open spec fn bit_pos(&self) -> nat {
        (8 * self.stream().pos() - self.pending()) as nat
    }

    /// Less than a byte is pending, and it is the tail of the byte before
    /// the cursor.
    pub open spec fn wf(&self) -> bool {
        &&& self.stream().wf()
        &&& self.pending() <= 7
        &&& self.pending() <= 8 * self.stream().pos()
        &&& self.pending_matches()
    }

    /// A bit reader at the cursor of `stream`.
    pub fn new(stream: ByteReader) -> (reader: BitReader)
        requires
            stream.wf(),
        ensures
            reader.wf(),
            reader.stream() == stream,
            reader.pending() == 0,
    {
        BitReader { stream, remainder: BitSequence::new(0, 0) }
    }

    /// Reads `len` bits. The first bit read is the lowest of the result.
    /// Whole bytes are fetched for it, so that less than a byte is pending
    /// afterwards.
    pub fn read_bits(&mut self, len: u8) -> (r: Result<BitSequence, Error>)
        requires
            old(self).wf(),
            1 <= len <= 16,
        ensures
            final(self).wf(),
            final(self).pending() <= 7,
            final(self).data() == old(self).data(),
            match r {
                Ok(seq) => {
                    &&& old(self).bit_pos() + len <= 8 * old(self).data().len()
                    &&& seq.len() == len
                    &&& seq.bits() as nat == bits_at(old(self).data(), old(self).bit_pos(), len as nat)
                    &&& final(self).bit_pos() == old(self).bit_pos() + len
                },
                Err(e) => {
                    &&& e == Error::UnexpectedEof
                    &&& old(self).bit_pos() + len > 8 * old(self).data().len()
                    &&& *final(self) == *old(self)
                },
            },
    {
        let ghost data = self.stream.data();
        let ghost start: nat = self.bit_pos();
        let ghost cursor: int = self.stream.pos() as int;
        let pending = self.remainder.len();
        if pending >= len {
            proof {
                let byte = data[cursor - 1] as nat;
                let shift = (8 - pending) as nat;
                assert(start / 8 == cursor - 1 && start % 8 == shift);
                lemma_bits_at_in_byte(data, start, len as nat);
                lemma_pow2_pos(shift);
                lemma_pow2_pos(len as nat);
                lemma_pow2_adds(shift, len as nat);
                lemma_div_denominator(byte as int, pow2(shift) as int, pow2(len as nat) as int);
            }
            let seq = self.remainder.consume(len);
            return Ok(seq);
        }
        let missing: u8 = len - pending;
        let old_remainder = self.remainder;
        let mut fetched = if missing <= 8 {
            match self.stream.read_u8() {
                Ok(byte) => BitSequence::new(byte as u16, 8),
                Err(e) => {
                    return Err(e);
                },
            }
        } else {
            match self.stream.read_u16_le() {
                Ok(pair) => BitSequence::new(pair, 16),
                Err(e) => {
                    return Err(e);
                },
            }
        };
        let ghost word = fetched.bits() as nat;
        let low = fetched.consume(missing);
        proof {
            use_type_invariant(&old_remainder);
            let first = data[cursor] as nat;
            let base = (8 * cursor) as nat;
            lemma_pow2_small(missing as nat);
            lemma_pow2_small(8);
            lemma_pow2_small(16);
            lemma_pow2_pos(pending as nat);
            lemma_bits_at_split(data, start, pending as nat, missing as nat);
            if pending > 0 {
                let shift = (8 - pending) as nat;
                let byte = data[cursor - 1] as nat;
                assert(start / 8 == cursor - 1 && start % 8 == shift);
                lemma_bits_at_in_byte(data, start, pending as nat);
                lemma_small_mod(old_remainder.bits() as nat, pow2(pending as nat));
            }
            assert(bits_at(data, start, pending as nat) == old_remainder.bits());
            assert(start + pending == base);
            assert(base / 8 == cursor && base % 8 == 0);
            if missing <= 8 {
                assert(word == first) by {
                    lemma_small_mod(first, 256);
                }
                lemma_bits_at_in_byte(data, base, missing as nat);
                assert(first / pow2(0) == first);
            } else {
                let second = data[cursor + 1] as nat;
                let high = (missing - 8) as nat;
                assert(self.stream.data().skip(cursor)[0] == data[cursor]);
                assert(self.stream.data().skip(cursor)[1] == data[cursor + 1]);
                assert(word == first + 256 * second) by {
                    lemma_small_mod(first + 256 * second, 65536);
                }
                lemma_bits_at_split(data, base, 8, high);
                lemma_bits_at_in_byte(data, base, 8);
                assert(first / pow2(0) == first);
                lemma_small_mod(first, 256);
                assert((base + 8) / 8 == cursor + 1 && (base + 8) % 8 == 0);
                lemma_bits_at_in_byte(data, base + 8, high);
                assert(second / pow2(0) == second);
                lemma_pow2_pos(high);
                lemma_pow2_adds(8, high);
                lemma_mod_breakdown(word as int, 256, pow2(high) as int);
                lemma_div_denominator(word as int, 256, pow2(high) as int);
                assert(word / 256 == second && word % 256 == first);
            }
            assert(bits_at(data, base, missing as nat) == word % pow2(missing as nat));
            assert(low.bits() as nat * pow2(pending as nat) == pow2(pending as nat) * (word % pow2(
                missing as nat,
            ))) by (nonlinear_arith)
                requires
                    low.bits() as nat == word % pow2(missing as nat),
            ;
        }
        let seq = low.concat(old_remainder);
        self.remainder = fetched;
        Ok(seq)
    }

    /// Discards the bits that are left of the current byte and lends the
    /// byte reader out.
    pub fn borrow_reader_from_boundary(&mut self) -> (stream: &mut ByteReader)
        requires
            old(self).wf(),
        ensures
            *stream == old(self).stream(),
            final(self).stream() == *final(stream),
            final(self).pending() == 0,
            final(stream).wf() ==> final(self).wf(),
    {
        self.remainder = BitSequence::new(0, 0);
        &mut self.stream
    }

    /// Discards the bits that are left of the current byte and gives up
    /// the byte reader.
    pub fn into_reader(self) -> (stream: ByteReader)
        ensures
            stream == self.stream(),
    {
        self.stream
    }
}

/// The bits from `pos` on are `first` bits followed by `more` bits.
pub proof fn lemma_bits_at_split(data: Seq<u8>, pos: nat, first: nat, more: nat)
    ensures
        bits_at(data, pos, first + more) == bits_at(data, pos, first) + pow2(first) * bits_at(
            data,
            pos + first,
            more,
        ),
    decreases first,
{
    lemma2_to64();
    if first > 0 {
        lemma_bits_at_split(data, pos + 1, (first - 1) as nat, more);
        lemma_pow2_unfold(first);
        let rest = bits_at(data, pos + first, more);
        let half = pow2((first - 1) as nat);
        assert(2 * (half * rest) == (2 * half) * rest) by (nonlinear_arith);
    } else {
        assert(pow2(0) * bits_at(data, pos, more) == bits_at(data, pos, more)) by (nonlinear_arith)
            requires
                pow2(0) == 1,
        ;
    }
}

/// Bits that lie within one byte are a slice of that byte's value.
pub proof fn lemma_bits_at_in_byte(data: Seq<u8>, pos: nat, count: nat)
    requires
        pos % 8 + count <= 8,
    ensures
        bits_at(data, pos, count) == (data[(pos / 8) as int] as nat / pow2(pos % 8)) % pow2(count),
    decreases count,
{
    lemma2_to64();
    let byte = data[(pos / 8) as int] as nat;
    let shift = pos % 8;
    lemma_pow2_pos(shift);
    if count > 0 {
        let shifted = byte / pow2(shift);
        lemma_pow2_pos((count - 1) as nat);
        lemma_pow2_unfold(count);
        lemma_mod_breakdown(shifted as int, 2, pow2((count - 1) as nat) as int);
        if count > 1 {
            lemma_bits_at_in_byte(data, pos + 1, (count - 1) as nat);
            assert((pos + 1) / 8 == pos / 8 && (pos + 1) % 8 == shift + 1);
            lemma_pow2_unfold(shift + 1);
            lemma_div_denominator(byte as int, pow2(shift) as int, 2);
        } else {
            assert(bits_at(data, pos + 1, 0) == 0);
            assert((shifted / 2) % 1 == 0);
        }
    }
}

/// `a * n + b` stays below `m * n` for `a < m` and `b < n`.
proof fn lemma_shifted_sum_bound(a: nat, b: nat, m: nat, n: nat)
    requires
        a < m,
        b < n,
    ensures
        a * n + b < m * n,
{
    assert(a * n + b < m * n) by (nonlinear_arith)
        requires
            a < m,
            b < n,
    ;
}

/// `x / n` stays below `m` for `x < m * n`.
proof fn lemma_quotient_bound(x: nat, m: nat, n: nat)
    requires
        x < m * n,
        n > 0,
    ensures
        x / n < m,
{
    assert(x / n < m) by (nonlinear_arith)
        requires
            x < m * n,
            n > 0,
    ;
}

} // verus!
