//! An in-memory input: a byte string and a cursor into it.

use vstd::prelude::*;
use vstd::slice::slice_subrange;
use crate::error::Error;

verus! {

/// The value of the first two bytes of `bytes`, least significant first.
pub open spec fn le_u16_of(bytes: Seq<u8>) -> nat {
    bytes[0] as nat + 256 * (bytes[1] as nat)
}

/// The value of the first four bytes of `bytes`, least significant first.
pub open spec fn le_u32_of(bytes: Seq<u8>) -> nat {
    bytes[0] as nat + 256 * (bytes[1] as nat) + 65536 * (bytes[2] as nat) + 16777216 * (
    bytes[3] as nat)
}

/// `byteorder::LittleEndian::read_u16`, which panics on fewer than two
/// bytes: the first byte is the low one.
#[verifier::external_body]
fn le_u16(bytes: &[u8]) -> (value: u16)
    requires
        bytes@.len() >= 2,
    ensures
        value as nat == le_u16_of(bytes@),
{
    <byteorder::LittleEndian as byteorder::ByteOrder>::read_u16(bytes)
}

/// `byteorder::LittleEndian::read_u32`, which panics on fewer than four
/// bytes: the first byte is the lowest one.
#[verifier::external_body]
fn le_u32(bytes: &[u8]) -> (value: u32)
    requires
        bytes@.len() >= 4,
    ensures
        value as nat == le_u32_of(bytes@),
{
    <byteorder::LittleEndian as byteorder::ByteOrder>::read_u32(bytes)
}

/// A byte string that is consumed from the front.
pub struct ByteReader {
    data: Vec<u8>,
    pos: usize,
}

impl ByteReader {
    /// The whole input, read and unread.
    pub closed spec fn data(&self) -> Seq<u8> {
        self.data@
    }

    /// The number of bytes consumed.
    pub closed spec fn pos(&self) -> nat {
        self.pos as nat
    }

    /// The cursor lies within the input.
    pub open spec fn wf(&self) -> bool {
        self.pos() <= self.data().len()
    }

    /// The bytes not yet consumed.
    pub open spec fn rest(&self) -> Seq<u8> {
        self.data().skip(self.pos() as int)
    }

    /// A reader at the start of `data`.
    pub fn new(data: Vec<u8>) -> (reader: ByteReader)
        ensures
            reader.wf(),
            reader.data() == data@,
            reader.pos() == 0,
    {
        ByteReader { data, pos: 0 }
    }

    /// The number of bytes consumed so far.
    pub fn position(&self) -> (n: usize)
        ensures
            n == self.pos(),
    {
        self.pos
    }

    /// Whether every byte has been consumed.
    pub fn is_empty(&self) -> (empty: bool)
        requires
            self.wf(),
        ensures
            empty == (self.pos() == self.data().len()),
    {
        self.pos >= self.data.len()
    }

    /// The bytes from position `from` up to the cursor.
    pub fn consumed_since(&self, from: usize) -> (bytes: &[u8])
        requires
            self.wf(),
            from <= self.pos(),
        ensures
            bytes@ == self.data().subrange(from as int, self.pos() as int),
    {
        slice_subrange(self.data.as_slice(), from, self.pos)
    }

    /// Consumes one byte.
    pub fn read_u8(&mut self) -> (r: Result<u8, Error>)
        requires
            old(self).wf(),
        ensures
            final(self).wf(),
            final(self).data() == old(self).data(),
            match r {
                Ok(byte) => {
                    &&& old(self).pos() < old(self).data().len()
                    &&& byte == old(self).data()[old(self).pos() as int]
                    &&& final(self).pos() == old(self).pos() + 1
                },
                Err(e) => {
                    &&& e == Error::UnexpectedEof
                    &&& old(self).pos() == old(self).data().len()
                    &&& *final(self) == *old(self)
                },
            },
    {
        if self.pos >= self.data.len() {
            return Err(Error::UnexpectedEof);
        }
        let byte = self.data[self.pos];
        self.pos = self.pos + 1;
        Ok(byte)
    }

    /// Consumes two bytes and returns their little-endian value.
    pub fn read_u16_le(&mut self) -> (r: Result<u16, Error>)
        requires
            old(self).wf(),
        ensures
            final(self).wf(),
            final(self).data() == old(self).data(),
            match r {
                Ok(value) => {
                    &&& old(self).pos() + 2 <= old(self).data().len()
                    &&& value as nat == le_u16_of(old(self).rest())
                    &&& final(self).pos() == old(self).pos() + 2
                },
                Err(e) => {
                    &&& e == Error::UnexpectedEof
                    &&& old(self).pos() + 2 > old(self).data().len()
                    &&& *final(self) == *old(self)
                },
            },
    {
        if self.data.len() - self.pos < 2 {
            return Err(Error::UnexpectedEof);
        }
        let field = slice_subrange(self.data.as_slice(), self.pos, self.pos + 2);
        assert(field@[0] == self.rest()[0] && field@[1] == self.rest()[1]);
        let value = le_u16(field);
        self.pos = self.pos + 2;
        Ok(value)
    }

    /// Consumes four bytes and returns their little-endian value.
    pub fn read_u32_le(&mut self) -> (r: Result<u32, Error>)
        requires
            old(self).wf(),
        ensures
            final(self).wf(),
            final(self).data() == old(self).data(),
            match r {
                Ok(value) => {
                    &&& old(self).pos() + 4 <= old(self).data().len()
                    &&& value as nat == le_u32_of(old(self).rest())
                    &&& final(self).pos() == old(self).pos() + 4
                },
                Err(e) => {
                    &&& e == Error::UnexpectedEof
                    &&& old(self).pos() + 4 > old(self).data().len()
                    &&& *final(self) == *old(self)
                },
            },
    {
        if self.data.len() - self.pos < 4 {
            return Err(Error::UnexpectedEof);
        }
        let field = slice_subrange(self.data.as_slice(), self.pos, self.pos + 4);
        assert(field@[0] == self.rest()[0] && field@[1] == self.rest()[1] && field@[2]
            == self.rest()[2] && field@[3] == self.rest()[3]);
        let value = le_u32(field);
        self.pos = self.pos + 4;
        Ok(value)
    }

    /// Consumes exactly `count` bytes.
    pub fn read_exact(&mut self, count: usize) -> (r: Result<Vec<u8>, Error>)
        requires
            old(self).wf(),
        ensures
            final(self).wf(),
            final(self).data() == old(self).data(),
            match r {
                Ok(bytes) => {
                    &&& old(self).pos() + count <= old(self).data().len()
                    &&& bytes@ == old(self).rest().take(count as int)
                    &&& final(self).pos() == old(self).pos() + count
                },
                Err(e) => {
                    &&& e == Error::UnexpectedEof
                    &&& old(self).pos() + count > old(self).data().len()
                    &&& *final(self) == *old(self)
                },
            },
    {
        if self.data.len() - self.pos < count {
            return Err(Error::UnexpectedEof);
        }
        let mut bytes: Vec<u8> = Vec::new();
        bytes.extend_from_slice(slice_subrange(self.data.as_slice(), self.pos, self.pos + count));
        assert(bytes@ =~= self.rest().take(count as int));
        self.pos = self.pos + count;
        Ok(bytes)
    }

    /// Consumes bytes up to and including the first `delimiter` and returns
    /// those before it. Without a delimiter ahead, nothing is consumed.
    pub fn read_until(&mut self, delimiter: u8) -> (r: Result<Vec<u8>, Error>)
        requires
            old(self).wf(),
        ensures
            final(self).wf(),
            final(self).data() == old(self).data(),
            match r {
                Ok(bytes) => {
                    &&& !bytes@.contains(delimiter)
                    &&& old(self).pos() + bytes@.len() < old(self).data().len()
                    &&& bytes@ == old(self).rest().take(bytes@.len() as int)
                    &&& old(self).rest()[bytes@.len() as int] == delimiter
                    &&& final(self).pos() == old(self).pos() + bytes@.len() + 1
                },
                Err(e) => {
                    &&& e == Error::UnexpectedEof
                    &&& !old(self).rest().contains(delimiter)
                    &&& *final(self) == *old(self)
                },
            },
    {
        let mut end = self.pos;
        while end < self.data.len() && self.data[end] != delimiter
            invariant
                self.wf(),
                self.pos <= end <= self.data.len(),
                forall|i: int| self.pos <= i < end ==> self.data@[i] != delimiter,
            decreases self.data.len() - end,
        {
            end = end + 1;
        }
        if end >= self.data.len() {
            assert(!self.rest().contains(delimiter));
            return Err(Error::UnexpectedEof);
        }
        let mut bytes: Vec<u8> = Vec::new();
        bytes.extend_from_slice(slice_subrange(self.data.as_slice(), self.pos, end));
        assert(bytes@ =~= self.rest().take(bytes@.len() as int));
        assert(!bytes@.contains(delimiter));
        self.pos = end + 1;
        Ok(bytes)
    }
}

} // verus!
