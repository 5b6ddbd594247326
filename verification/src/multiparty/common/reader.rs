//! Bounds-checked sequential reader over a byte buffer.

use vstd::prelude::*;

use crate::codec::{copy_range, le_u32, le_u64, read_u32_le, read_u64_le};
use crate::multiparty::error::MultipartyError;

verus! {

/// Reads consecutive fields out of `input`; every read past the end fails
/// with `MalformedMessage` and consumes nothing.
pub struct ByteReader<'a> {
    input: &'a [u8],
    offset: usize,
}

impl<'a> ByteReader<'a> {
    /// The buffer being read.
    pub closed spec fn input(&self) -> Seq<u8> {
        self.input@
    }

    /// The number of bytes consumed so far.
    pub closed spec fn offset(&self) -> int {
        self.offset as int
    }

    /// The reader never runs past the end of its buffer.
    pub closed spec fn wf(&self) -> bool {
        self.offset <= self.input@.len()
    }

    /// Creates a reader at the start of `input`.
    pub fn new(input: &'a [u8]) -> (r: Self)
        ensures
            r.input() == input@,
            r.offset() == 0,
            r.wf(),
    {
        ByteReader { input, offset: 0 }
    }

    /// Consumes `len` bytes.
    pub fn take(&mut self, len: usize) -> (r: Result<&'a [u8], MultipartyError>)
        requires
            old(self).wf(),
        ensures
            final(self).wf(),
            final(self).input() == old(self).input(),
            old(self).offset() + len <= old(self).input().len() ==> {
                &&& r matches Ok(b) && b@ == old(self).input().subrange(
                    old(self).offset(),
                    old(self).offset() + len,
                )
                &&& final(self).offset() == old(self).offset() + len
            },
            old(self).offset() + len > old(self).input().len() ==> r == Err::<&'a [u8], _>(
                MultipartyError::MalformedMessage,
            ) && final(self).offset() == old(self).offset(),
    {
        let end = match self.offset.checked_add(len) {
            Some(end) => end,
            None => {
                assert(self.input@.len() == self.input.len());
                return Err(MultipartyError::MalformedMessage);
            },
        };
        if end > self.input.len() {
            return Err(MultipartyError::MalformedMessage);
        }
        let bytes = &self.input[self.offset..end];
        self.offset = end;
        Ok(bytes)
    }

    /// Consumes `expected.len()` bytes that must equal `expected`.
    pub fn expect(&mut self, expected: &[u8]) -> (r: Result<(), MultipartyError>)
        requires
            old(self).wf(),
        ensures
            final(self).wf(),
            final(self).input() == old(self).input(),
            r is Ok <==> (old(self).offset() + expected@.len() <= old(self).input().len()
                && old(self).input().subrange(
                old(self).offset(),
                old(self).offset() + expected@.len(),
            ) == expected@),
            r is Ok ==> final(self).offset() == old(self).offset() + expected@.len(),
            r is Err ==> r == Err::<(), _>(MultipartyError::MalformedMessage),
    {
        let n = expected.len();
        if n > self.input.len() || self.offset > self.input.len() - n {
            return Err(MultipartyError::MalformedMessage);
        }
        let mut i: usize = 0;
        while i < n
            invariant
                self.wf(),
                n == expected@.len(),
                self.offset + n <= self.input.len(),
                i <= n,
                forall|j: int| 0 <= j < i ==> self.input@[self.offset + j] == expected@[j],
            decreases n - i,
        {
            if self.input[self.offset + i] != expected[i] {
                assert(self.input@.subrange(self.offset as int, self.offset + n)[i as int]
                    != expected@[i as int]);
                return Err(MultipartyError::MalformedMessage);
            }
            i = i + 1;
        }
        assert(self.input@.subrange(self.offset as int, self.offset + n) =~= expected@);
        self.offset = self.offset + n;
        Ok(())
    }

    /// Consumes a little-endian `u32`.
    pub fn u32(&mut self) -> (r: Result<u32, MultipartyError>)
        requires
            old(self).wf(),
        ensures
            final(self).wf(),
            final(self).input() == old(self).input(),
            old(self).offset() + 4 <= old(self).input().len() ==> r == Ok::<u32, MultipartyError>(
                le_u32(old(self).input().subrange(old(self).offset(), old(self).offset() + 4)),
            ) && final(self).offset() == old(self).offset() + 4,
            old(self).offset() + 4 > old(self).input().len() ==> r == Err::<u32, _>(
                MultipartyError::MalformedMessage,
            ),
    {
        if self.offset > self.input.len() || self.input.len() - self.offset < 4 {
            return Err(MultipartyError::MalformedMessage);
        }
        let v = read_u32_le(self.input, self.offset);
        self.offset = self.offset + 4;
        Ok(v)
    }

    /// Consumes a little-endian `u64`.
    pub fn u64(&mut self) -> (r: Result<u64, MultipartyError>)
        requires
            old(self).wf(),
        ensures
            final(self).wf(),
            final(self).input() == old(self).input(),
            old(self).offset() + 8 <= old(self).input().len() ==> r == Ok::<u64, MultipartyError>(
                le_u64(old(self).input().subrange(old(self).offset(), old(self).offset() + 8)),
            ) && final(self).offset() == old(self).offset() + 8,
            old(self).offset() + 8 > old(self).input().len() ==> r == Err::<u64, _>(
                MultipartyError::MalformedMessage,
            ),
    {
        if self.offset > self.input.len() || self.input.len() - self.offset < 8 {
            return Err(MultipartyError::MalformedMessage);
        }
        let v = read_u64_le(self.input, self.offset);
        self.offset = self.offset + 8;
        Ok(v)
    }

    /// Consumes a `u64` length followed by that many bytes.
    pub fn bytes(&mut self) -> (r: Result<Vec<u8>, MultipartyError>)
        requires
            old(self).wf(),
        ensures
            final(self).wf(),
            final(self).input() == old(self).input(),
            ({
                let at = old(self).offset();
                let input = old(self).input();
                if at + 8 > input.len() {
                    r == Err::<Vec<u8>, _>(MultipartyError::MalformedMessage)
                } else {
                    let len = le_u64(input.subrange(at, at + 8)) as int;
                    if at + 8 + len > input.len() {
                        r == Err::<Vec<u8>, _>(MultipartyError::MalformedMessage)
                    } else {
                        &&& r matches Ok(b) && b@ == input.subrange(at + 8, at + 8 + len)
                        &&& final(self).offset() == at + 8 + len
                    }
                }
            }),
    {
        let len64 = self.u64()?;
        if len64 > (self.input.len() - self.offset) as u64 {
            return Err(MultipartyError::MalformedMessage);
        }
        let bytes = self.take(len64 as usize)?;
        Ok(copy_range(bytes, 0, bytes.len()))
    }

    /// Returns whether every byte was consumed.
    pub fn is_finished(&self) -> (r: bool)
        ensures
            r == (self.offset() == self.input().len()),
    {
        self.offset == self.input.len()
    }
}

} // verus!

verus! {

/// `bytes` preceded by its length as 8 little-endian bytes.
pub open spec fn length_prefixed(bytes: Seq<u8>) -> Seq<u8> {
    crate::codec::u64_le(bytes.len() as u64) + bytes
}

/// Appends `bytes` preceded by its length.
pub fn encode_bytes(bytes: &[u8], out: &mut Vec<u8>)
    ensures
        final(out)@ == old(out)@ + length_prefixed(bytes@),
{
    let ghost start = out@;
    crate::codec::push_u64_le(out, bytes.len() as u64);
    crate::codec::push_bytes(out, bytes);
    assert(out@ =~= start + length_prefixed(bytes@));
}

} // verus!
