//! A cursor that walks a byte buffer with bounds-checked reads.

use vstd::prelude::*;
use crate::error::DecodeError;
use crate::name::decode_name;
use crate::name::labels_view;
use crate::name::DomainName;
use crate::name::POINTER_MARK;
use crate::wire::copy_range;
use crate::wire::has_bytes;
use crate::wire::prepend;
use crate::wire::u16_at;
use crate::wire::u32_at;

verus! {

/// A sequential reader over a byte buffer that it owns.
///
/// A read that succeeds steps past what it has read. A read that fails
/// leaves the reader where it was.
pub struct PacketReader {
    data: Vec<u8>,
    pos: usize,
}

impl PacketReader {
    /// The position never passes the end of the buffer.
    #[verifier::type_invariant]
    spec fn in_bounds(&self) -> bool {
        self.pos <= self.data@.len()
    }

    /// The bytes of the buffer.
    pub closed spec fn bytes(&self) -> Seq<u8> {
        self.data@
    }

    /// The offset of the next byte to be read.
    pub closed spec fn position(&self) -> int {
        self.pos as int
    }

    /// A reader at the start of a copy of `data`.
    pub fn new(data: &[u8]) -> (r: Self)
        ensures
            r.bytes() == data@,
            r.position() == 0,
    {
        PacketReader { data: copy_range(data, 0, data.len()), pos: 0 }
    }

    /// The offset of the next byte to be read, which lies within the buffer
    /// or just behind it.
    pub fn offset(&self) -> (r: usize)
        ensures
            r == self.position(),
            0 <= self.position() <= self.bytes().len(),
    {
        proof {
            use_type_invariant(self);
        }
        self.pos
    }

    /// Moves to offset `pos`, which may be the end of the buffer. An offset
    /// behind the end is refused.
    pub fn seek(&mut self, pos: usize) -> (r: Result<(), DecodeError>)
        ensures
            final(self).bytes() == old(self).bytes(),
            pos <= old(self).bytes().len() ==> r.is_ok() && final(self).position() == pos,
            pos > old(self).bytes().len() ==> r == Err::<(), DecodeError>(DecodeError::Truncated)
                && final(self).position() == old(self).position(),
    {
        if pos <= self.data.len() {
            self.pos = pos;
            Ok(())
        } else {
            Err(DecodeError::Truncated)
        }
    }

    /// Reads one byte.
    pub fn read(&mut self) -> (r: Result<u8, DecodeError>)
        ensures
            final(self).bytes() == old(self).bytes(),
            has_bytes(old(self).bytes(), old(self).position(), 1) ==> r == Ok::<u8, DecodeError>(
                old(self).bytes()[old(self).position()],
            ) && final(self).position() == old(self).position() + 1,
            !has_bytes(old(self).bytes(), old(self).position(), 1) ==> r == Err::<
                u8,
                DecodeError,
            >(DecodeError::Truncated) && final(self).position() == old(self).position(),
    {
        if self.pos < self.data.len() {
            let byte: u8 = self.data[self.pos];
            self.pos += 1;
            Ok(byte)
        } else {
            Err(DecodeError::Truncated)
        }
    }

    /// Reads two bytes as a big-endian 16-bit value.
    pub fn read_u16(&mut self) -> (r: Result<u16, DecodeError>)
        ensures
            final(self).bytes() == old(self).bytes(),
            has_bytes(old(self).bytes(), old(self).position(), 2) ==> r == Ok::<u16, DecodeError>(
                u16_at(old(self).bytes(), old(self).position()),
            ) && final(self).position() == old(self).position() + 2,
            !has_bytes(old(self).bytes(), old(self).position(), 2) ==> r == Err::<
                u16,
                DecodeError,
            >(DecodeError::Truncated) && final(self).position() == old(self).position(),
    {
        proof {
            use_type_invariant(&*self);
        }
        if self.data.len() - self.pos < 2 {
            return Err(DecodeError::Truncated);
        }
        let head: u8 = self.data[self.pos];
        let tail: u8 = self.data[self.pos + 1];
        self.pos += 2;
        assert((head as u16) << 8 | (tail as u16) == (head as u16) * 256 + (tail as u16))
            by (bit_vector);
        Ok((head as u16) << 8 | tail as u16)
    }

    /// Reads four bytes as a big-endian 32-bit value.
    pub fn read_u32(&mut self) -> (r: Result<u32, DecodeError>)
        ensures
            final(self).bytes() == old(self).bytes(),
            has_bytes(old(self).bytes(), old(self).position(), 4) ==> r == Ok::<u32, DecodeError>(
                u32_at(old(self).bytes(), old(self).position()),
            ) && final(self).position() == old(self).position() + 4,
            !has_bytes(old(self).bytes(), old(self).position(), 4) ==> r == Err::<
                u32,
                DecodeError,
            >(DecodeError::Truncated) && final(self).position() == old(self).position(),
    {
        proof {
            use_type_invariant(&*self);
        }
        if self.data.len() - self.pos < 4 {
            return Err(DecodeError::Truncated);
        }
        let b0: u8 = self.data[self.pos];
        let b1: u8 = self.data[self.pos + 1];
        let b2: u8 = self.data[self.pos + 2];
        let b3: u8 = self.data[self.pos + 3];
        self.pos += 4;
        assert((b0 as u16) << 8 | (b1 as u16) == (b0 as u16) * 256 + (b1 as u16)) by (bit_vector);
        assert((b2 as u16) << 8 | (b3 as u16) == (b2 as u16) * 256 + (b3 as u16)) by (bit_vector);
        let head: u16 = (b0 as u16) << 8 | b1 as u16;
        let tail: u16 = (b2 as u16) << 8 | b3 as u16;
        assert((head as u32) << 16 | (tail as u32) == (head as u32) * 65536 + (tail as u32))
            by (bit_vector);
        Ok((head as u32) << 16 | tail as u32)
    }

    /// Reads `n` big-endian 16-bit values that stand one behind the other.
    pub fn read_u16s(&mut self, n: usize) -> (r: Result<Vec<u16>, DecodeError>)
        ensures
            final(self).bytes() == old(self).bytes(),
            has_bytes(old(self).bytes(), old(self).position(), 2 * n) ==> r.is_ok()
                && r.unwrap()@ == Seq::new(
                n as nat,
                |k: int| u16_at(old(self).bytes(), old(self).position() + 2 * k),
            ) && final(self).position() == old(self).position() + 2 * n,
            !has_bytes(old(self).bytes(), old(self).position(), 2 * n) ==> r == Err::<
                Vec<u16>,
                DecodeError,
            >(DecodeError::Truncated) && final(self).position() == old(self).position(),
    {
        proof {
            use_type_invariant(&*self);
        }
        let start: usize = self.pos;
        let mut values: Vec<u16> = Vec::new();
        let mut i: usize = 0;
        while i < n
            invariant
                i <= n,
                self.data@ == old(self).data@,
                start == old(self).pos,
                self.pos == start + 2 * i,
                self.pos <= self.data@.len(),
                values@ == Seq::new(i as nat, |k: int| u16_at(self.data@, start + 2 * k)),
            decreases n - i,
        {
            match self.read_u16() {
                Ok(v) => {
                    proof {
                        assert(values@.push(v) =~= Seq::new(
                            (i + 1) as nat,
                            |k: int| u16_at(self.data@, start + 2 * k),
                        ));
                    }
                    values.push(v);
                },
                Err(e) => {
                    self.pos = start;
                    return Err(e);
                },
            }
            i += 1;
        }
        Ok(values)
    }

    /// Reads `n` bytes.
    pub fn read_bytes(&mut self, n: usize) -> (r: Result<Vec<u8>, DecodeError>)
        ensures
            final(self).bytes() == old(self).bytes(),
            has_bytes(old(self).bytes(), old(self).position(), n as int) ==> r.is_ok()
                && r.unwrap()@ == old(self).bytes().subrange(
                old(self).position(),
                old(self).position() + n,
            ) && final(self).position() == old(self).position() + n,
            !has_bytes(old(self).bytes(), old(self).position(), n as int) ==> r == Err::<
                Vec<u8>,
                DecodeError,
            >(DecodeError::Truncated) && final(self).position() == old(self).position(),
    {
        proof {
            use_type_invariant(&*self);
        }
        if self.data.len() - self.pos < n {
            return Err(DecodeError::Truncated);
        }
        let bytes = copy_range(self.data.as_slice(), self.pos, self.pos + n);
        self.pos += n;
        Ok(bytes)
    }

    /// Reads a domain name: labels, each behind its length byte, up to the
    /// zero byte that ends the name.
    pub fn read_name(&mut self) -> (r: Result<DomainName, DecodeError>)
        ensures
            final(self).bytes() == old(self).bytes(),
            match decode_name(old(self).bytes(), old(self).position()) {
                Ok((labels, end)) => {
                    &&& r.is_ok()
                    &&& r.unwrap()@ == labels
                    &&& final(self).position() == end
                },
                Err(e) => {
                    &&& r == Err::<DomainName, DecodeError>(e)
                    &&& final(self).position() == old(self).position()
                },
            },
    {
        proof {
            use_type_invariant(&*self);
        }
        let start: usize = self.pos;
        let mut labels: Vec<Vec<u8>> = Vec::new();
        let ghost found: Seq<Seq<u8>> = Seq::empty();
        loop
            invariant
                self.data@ == old(self).data@,
                start == old(self).pos,
                start <= self.pos <= self.data@.len(),
                found == labels_view(labels@),
                decode_name(self.data@, start as int) == prepend(
                    found,
                    decode_name(self.data@, self.pos as int),
                ),
            decreases self.data@.len() - self.pos,
        {
            if self.pos >= self.data.len() {
                self.pos = start;
                return Err(DecodeError::Truncated);
            }
            let length: u8 = self.data[self.pos];
            if length == 0 {
                self.pos += 1;
                assert(found + Seq::<Seq<u8>>::empty() =~= found);
                return Ok(DomainName { labels });
            }
            if length >= POINTER_MARK {
                self.pos = start;
                return Err(DecodeError::UnsupportedCompression);
            }
            if self.data.len() - self.pos - 1 < length as usize {
                self.pos = start;
                return Err(DecodeError::Truncated);
            }
            let first: usize = self.pos + 1;
            let label = copy_range(self.data.as_slice(), first, first + length as usize);
            proof {
                let next = decode_name(self.data@, first + length);
                let grown = found + seq![label@];
                assert(found + (seq![label@] + next.unwrap().0) =~= grown + next.unwrap().0);
                assert(grown =~= labels_view(labels@.push(label)));
                found = grown;
            }
            labels.push(label);
            self.pos = first + length as usize;
        }
    }
}

} // verus!
