//! The write cursor: a position over an exclusively borrowed byte buffer.
use vstd::prelude::*;
use vstd::slice::slice_subrange;

use crate::bytes::{encode_be, encode_le, le_bytes, be_bytes, unsigned_of};
use crate::bytes::lemma_byte_base_widths;

verus! {

/// Writes values one after another into a borrowed byte buffer.
#[derive(Debug)]
pub struct WriteCursor<'a> {
    dest: &'a mut [u8],
    pos: usize,
}

/// Why a write or a seek was refused.
#[derive(Copy, Clone, Debug, PartialEq, Eq, Structural)]
pub enum WriteError {
    /// Numeric overflow occurred in a write or seek
    NumericOverflow,
    /// Attempted to write beyond the range of the underlying buffer
    WriteOverflow {
        /// number of bytes remaining to be written
        remaining: usize,
        /// number of bytes requested to be written
        written: usize,
    },
    /// Attempted to seek to a position larger than the length of the buffer
    BadSeek {
        /// length of the underlying buffer
        length: usize,
        /// requested seek position
        pos: usize,
    },
}

/// `d` with the bytes from `at` on replaced by `b`.
pub open spec fn overwrite(d: Seq<u8>, at: nat, b: Seq<u8>) -> Seq<u8> {
    d.take(at as int) + b + d.skip((at + b.len()) as int)
}

impl<'a> WriteCursor<'a> {
    /// The offset of the next byte to write.
    pub closed spec fn pos(self) -> nat {
        self.pos as nat
    }

    /// The current contents of the whole buffer.
    pub closed spec fn data(self) -> Seq<u8> {
        self.dest@
    }

    #[verifier::type_invariant]
    pub open spec fn wf(self) -> bool {
        self.pos() <= self.data().len() <= usize::MAX
    }

    /// The number of bytes between the position and the end of the buffer.
    pub open spec fn left(self) -> nat {
        (self.data().len() - self.pos()) as nat
    }

    /// `after` and `r` are what writing `b` at the position gives: the
    /// bytes are copied and the position moves past them, or, where the
    /// position arithmetic overflows or too few bytes remain, the cursor is
    /// left as it was and the error says why.
    pub open spec fn write_outcome(
        self,
        b: Seq<u8>,
        after: Self,
        r: Result<(), WriteError>,
    ) -> bool {
        &&& after.data().len() == self.data().len()
        &&& if self.pos() + b.len() > usize::MAX {
            &&& r == Err::<(), WriteError>(WriteError::NumericOverflow)
            &&& after.pos() == self.pos()
            &&& after.data() == self.data()
        } else if b.len() > self.left() {
            &&& r == Err::<(), WriteError>(
                WriteError::WriteOverflow { remaining: self.left() as usize, written: b.len() as usize },
            )
            &&& after.pos() == self.pos()
            &&& after.data() == self.data()
        } else {
            &&& r is Ok
            &&& after.pos() == self.pos() + b.len()
            &&& after.data() == overwrite(self.data(), self.pos(), b)
        }
    }

    /// The position that a rollback to `start` leaves, given the cursor
    /// `after` that the rolled-back work produced.
    pub open spec fn rolled_back(start: nat, after: Self) -> nat {
        if start <= after.data().len() {
            start
        } else {
            after.pos()
        }
    }

    /// Construct a cursor from a borrowed mutable slice
    pub fn new(dest: &'a mut [u8]) -> (r: WriteCursor<'a>)
        ensures
            r.pos() == 0,
            r.data() == old(dest)@,
    {
        // asking for the length records that it fits in a usize
        let _ = dest.len();
        WriteCursor { dest, pos: 0 }
    }

    /// Current position of the cursor within the underlying slice
    pub fn position(&self) -> (r: usize)
        ensures
            r == self.pos(),
    {
        self.pos
    }

    /// Get a range within the underlying slice
    pub fn get(&self, range: core::ops::Range<usize>) -> (r: Option<&[u8]>)
        ensures
            r is Some <==> range.start <= range.end <= self.data().len(),
            r matches Some(s) ==> s@ == self.data().subrange(
                range.start as int,
                range.end as int,
            ),
    {
        if range.start <= range.end && range.end <= self.dest.len() {
            Some(slice_subrange(&*self.dest, range.start, range.end))
        } else {
            None
        }
    }

    /// Advance the cursor a count of bytes
    pub fn skip(&mut self, count: usize) -> (r: Result<(), WriteError>)
        ensures
            final(self).data() == old(self).data(),
            old(self).pos() + count > usize::MAX ==> r == Err::<(), WriteError>(
                WriteError::NumericOverflow,
            ) && final(self).pos() == old(self).pos(),
            old(self).pos() + count <= usize::MAX && count > old(self).left() ==> r == Err::<
                (),
                WriteError,
            >(
                WriteError::BadSeek {
                    length: old(self).data().len() as usize,
                    pos: (old(self).pos() + count) as usize,
                },
            ) && final(self).pos() == old(self).pos(),
            count <= old(self).left() ==> r is Ok && final(self).pos() == old(self).pos() + count,
    {
        proof {
            use_type_invariant(&*self);
        }
        let new_pos = match self.pos.checked_add(count) {
            Some(p) => p,
            None => return Err(WriteError::NumericOverflow),
        };
        self.seek_to(new_pos)
    }

    /// Seek the cursor to an absolute position within the underlying slice
    pub fn seek_to(&mut self, pos: usize) -> (r: Result<(), WriteError>)
        ensures
            final(self).data() == old(self).data(),
            pos <= old(self).data().len() ==> r is Ok && final(self).pos() == pos,
            pos > old(self).data().len() ==> r == Err::<(), WriteError>(
                WriteError::BadSeek { length: old(self).data().len() as usize, pos },
            ) && final(self).pos() == old(self).pos(),
    {
        let length = self.dest.len();
        if length < pos {
            return Err(WriteError::BadSeek { length, pos });
        }
        self.pos = pos;
        Ok(())
    }

    /// Moves back to `start` where that is still within the buffer.
    fn roll_back(&mut self, start: usize)
        ensures
            final(self).data() == old(self).data(),
            final(self).pos() == Self::rolled_back(start as nat, *old(self)),
    {
        if start <= self.dest.len() {
            self.pos = start;
        }
    }

    /// Perform a write transaction which returns the cursor to the original
    /// position if an error occurs (as long as that position still lies
    /// within the buffer that `write` leaves behind)
    pub fn transaction<T, R>(&mut self, write: T) -> (r: Result<R, WriteError>)
        where
            T: FnOnce(&mut WriteCursor<'a>) -> Result<R, WriteError>,
        requires
            forall|c: &mut WriteCursor<'a>| write.requires((c,)),
        ensures
            exists|c: &mut WriteCursor<'a>|
                {
                    &&& *c == *old(self)
                    &&& #[trigger] call_ensures(write, (c,), r)
                    &&& final(self).data() == final(c).data()
                    &&& r is Ok ==> final(self).pos() == final(c).pos()
                    &&& r is Err ==> final(self).pos() == Self::rolled_back(
                        old(self).pos(),
                        *final(c),
                    )
                },
            r is Err && final(self).data().len() == old(self).data().len() ==> final(self).pos()
                == old(self).pos(),
    {
        let start = self.pos;
        proof {
            use_type_invariant(&*self);
        }
        let result = write(self);
        if result.is_err() {
            self.roll_back(start);
        }
        result
    }

    /// Perform a write transaction at particular position. The cursor is always
    /// returned to its original position regardless of the success or failure of
    /// the operation (as long as that position still lies within the buffer
    /// that `write` leaves behind)
    pub fn at_pos<T, R>(&mut self, pos: usize, write: T) -> (r: Result<R, WriteError>)
        where
            T: Fn(&mut WriteCursor<'a>) -> Result<R, WriteError>,
        requires
            forall|c: &mut WriteCursor<'a>| write.requires((c,)),
        ensures
            pos > old(self).data().len() ==> r == Err::<R, WriteError>(
                WriteError::BadSeek { length: old(self).data().len() as usize, pos },
            ) && final(self).data() == old(self).data(),
            pos <= old(self).data().len() ==> exists|c: &mut WriteCursor<'a>|
                {
                    &&& c.pos() == pos
                    &&& c.data() == old(self).data()
                    &&& #[trigger] call_ensures(write, (c,), r)
                    &&& final(self).data() == final(c).data()
                    &&& final(self).pos() == Self::rolled_back(old(self).pos(), *final(c))
                },
            final(self).data().len() == old(self).data().len() ==> final(self).pos() == old(
                self,
            ).pos(),
    {
        proof {
            use_type_invariant(&*self);
        }
        let start = self.pos;
        self.seek_to(pos)?;
        let result = write(self);
        self.roll_back(start);
        result
    }

    /// Return the data that has been written so far as a borrowed slice
    pub fn written(&self) -> (r: &[u8])
        ensures
            r@ == self.data().take(self.pos() as int),
    {
        proof {
            use_type_invariant(self);
        }
        slice_subrange(&*self.dest, 0, self.pos)
    }

    /// Return the data that has been written since a particular write position
    pub fn written_since(&self, pos: usize) -> (r: Result<&[u8], WriteError>)
        ensures
            r is Ok <==> pos <= self.pos(),
            r matches Ok(s) ==> s@ == self.data().subrange(pos as int, self.pos() as int),
            r is Err ==> r == Err::<&[u8], WriteError>(WriteError::NumericOverflow),
    {
        proof {
            use_type_invariant(self);
        }
        if pos <= self.pos {
            Ok(slice_subrange(&*self.dest, pos, self.pos))
        } else {
            Err(WriteError::NumericOverflow)
        }
    }

    /// Number of bytes remaining to be written
    pub fn remaining(&self) -> (r: usize)
        ensures
            r == self.left(),
    {
        proof {
            use_type_invariant(self);
        }
        self.dest.len().saturating_sub(self.pos)
    }

    /// Write a slice of bytes to the cursor
    pub fn write_bytes(&mut self, bytes: &[u8]) -> (r: Result<(), WriteError>)
        ensures
            old(self).write_outcome(bytes@, *final(self), r),
    {
        proof {
            use_type_invariant(&*self);
        }
        let n = bytes.len();
        let len = self.dest.len();
        let start = self.pos;
        let new_pos = match start.checked_add(n) {
            Some(p) => p,
            None => return Err(WriteError::NumericOverflow),
        };
        if new_pos > len {
            return Err(WriteError::WriteOverflow { remaining: self.remaining(), written: n });
        }
        let ghost d0 = self.dest@;
        let mut i: usize = 0;
        while i < n
            invariant
                i <= n == bytes@.len(),
                start + n <= len == self.dest@.len(),
                self.pos == start,
                self.dest@ == overwrite(d0, start as nat, bytes@.take(i as int)),
                d0.len() == len,
            decreases n - i,
        {
            self.dest[start + i] = bytes[i];
            proof {
                assert(bytes@.take(i + 1) =~= bytes@.take(i as int).push(bytes@[i as int]));
                assert(self.dest@ =~= overwrite(d0, start as nat, bytes@.take(i + 1)));
            }
            i = i + 1;
        }
        proof {
            assert(bytes@.take(n as int) =~= bytes@);
        }
        self.pos = new_pos;
        Ok(())
    }

    /// Write a single u8 to the cursor
    pub fn write_u8(&mut self, value: u8) -> (r: Result<(), WriteError>)
        ensures
            old(self).write_outcome(seq![value], *final(self), r),
    {
        proof {
            use_type_invariant(&*self);
        }
        let new_pos = match self.pos.checked_add(1) {
            Some(p) => p,
            None => return Err(WriteError::NumericOverflow),
        };
        if self.pos < self.dest.len() {
            let ghost d0 = self.dest@;
            self.dest[self.pos] = value;
            proof {
                assert(self.dest@ =~= overwrite(d0, self.pos as nat, seq![value]));
            }
            self.pos = new_pos;
            Ok(())
        } else {
            Err(WriteError::WriteOverflow { remaining: 0, written: 1 })
        }
    }
}

/// Typed writes, little-endian.
impl<'a> WriteCursor<'a> {
    /// Writes a `u16`, least significant byte first.
    pub fn write_u16_le(&mut self, value: u16) -> (r: Result<(), WriteError>)
        ensures
            old(self).write_outcome(le_bytes(value as nat, 2), *final(self), r),
    {
        let b = encode_le(value as u128, 2);
        self.write_bytes(slice_subrange(&b, 0, 2))
    }

    /// Writes a `u32`, least significant byte first.
    pub fn write_u32_le(&mut self, value: u32) -> (r: Result<(), WriteError>)
        ensures
            old(self).write_outcome(le_bytes(value as nat, 4), *final(self), r),
    {
        let b = encode_le(value as u128, 4);
        self.write_bytes(slice_subrange(&b, 0, 4))
    }

    /// Writes the low 6 bytes (a 48-bit value) of a `u64`, least significant byte first.
    pub fn write_u48_le(&mut self, value: u64) -> (r: Result<(), WriteError>)
        ensures
            old(self).write_outcome(le_bytes(value as nat, 6), *final(self), r),
    {
        let b = encode_le(value as u128, 6);
        self.write_bytes(slice_subrange(&b, 0, 6))
    }

    /// Writes a `u64`, least significant byte first.
    pub fn write_u64_le(&mut self, value: u64) -> (r: Result<(), WriteError>)
        ensures
            old(self).write_outcome(le_bytes(value as nat, 8), *final(self), r),
    {
        let b = encode_le(value as u128, 8);
        self.write_bytes(slice_subrange(&b, 0, 8))
    }

    /// Writes a `u128`, least significant byte first.
    pub fn write_u128_le(&mut self, value: u128) -> (r: Result<(), WriteError>)
        ensures
            old(self).write_outcome(le_bytes(value as nat, 16), *final(self), r),
    {
        let b = encode_le(value as u128, 16);
        self.write_bytes(slice_subrange(&b, 0, 16))
    }

    /// Writes an `i16` in two's complement, least significant byte first.
    pub fn write_i16_le(&mut self, value: i16) -> (r: Result<(), WriteError>)
        ensures
            old(self).write_outcome(le_bytes(unsigned_of(value as int, 2), 2), *final(self), r),
    {
        proof {
            lemma_byte_base_widths();
        }
        let u: u16 = if value < 0 {
            u16::MAX - (-(value + 1)) as u16
        } else {
            value as u16
        };
        self.write_u16_le(u)
    }

    /// Writes an `i32` in two's complement, least significant byte first.
    pub fn write_i32_le(&mut self, value: i32) -> (r: Result<(), WriteError>)
        ensures
            old(self).write_outcome(le_bytes(unsigned_of(value as int, 4), 4), *final(self), r),
    {
        proof {
            lemma_byte_base_widths();
        }
        let u: u32 = if value < 0 {
            u32::MAX - (-(value + 1)) as u32
        } else {
            value as u32
        };
        self.write_u32_le(u)
    }

    /// Writes an `i64` in two's complement, least significant byte first.
    pub fn write_i64_le(&mut self, value: i64) -> (r: Result<(), WriteError>)
        ensures
            old(self).write_outcome(le_bytes(unsigned_of(value as int, 8), 8), *final(self), r),
    {
        proof {
            lemma_byte_base_widths();
        }
        let u: u64 = if value < 0 {
            u64::MAX - (-(value + 1)) as u64
        } else {
            value as u64
        };
        self.write_u64_le(u)
    }

    /// Writes an `i128` in two's complement, least significant byte first.
    pub fn write_i128_le(&mut self, value: i128) -> (r: Result<(), WriteError>)
        ensures
            old(self).write_outcome(le_bytes(unsigned_of(value as int, 16), 16), *final(self), r),
    {
        proof {
            lemma_byte_base_widths();
        }
        let u: u128 = if value < 0 {
            u128::MAX - (-(value + 1)) as u128
        } else {
            value as u128
        };
        self.write_u128_le(u)
    }
}

/// Typed writes, big-endian.
impl<'a> WriteCursor<'a> {
    /// Writes a `u16`, most significant byte first.
    pub fn write_u16_be(&mut self, value: u16) -> (r: Result<(), WriteError>)
        ensures
            old(self).write_outcome(be_bytes(value as nat, 2), *final(self), r),
    {
        let b = encode_be(value as u128, 2);
        self.write_bytes(slice_subrange(&b, 0, 2))
    }

    /// Writes a `u32`, most significant byte first.
    pub fn write_u32_be(&mut self, value: u32) -> (r: Result<(), WriteError>)
        ensures
            old(self).write_outcome(be_bytes(value as nat, 4), *final(self), r),
    {
        let b = encode_be(value as u128, 4);
        self.write_bytes(slice_subrange(&b, 0, 4))
    }

    /// Writes the low 6 bytes (a 48-bit value) of a `u64`, most significant byte first.
    pub fn write_u48_be(&mut self, value: u64) -> (r: Result<(), WriteError>)
        ensures
            old(self).write_outcome(be_bytes(value as nat, 6), *final(self), r),
    {
        let b = encode_be(value as u128, 6);
        self.write_bytes(slice_subrange(&b, 0, 6))
    }

    /// Writes a `u64`, most significant byte first.
    pub fn write_u64_be(&mut self, value: u64) -> (r: Result<(), WriteError>)
        ensures
            old(self).write_outcome(be_bytes(value as nat, 8), *final(self), r),
    {
        let b = encode_be(value as u128, 8);
        self.write_bytes(slice_subrange(&b, 0, 8))
    }

    /// Writes a `u128`, most significant byte first.
    pub fn write_u128_be(&mut self, value: u128) -> (r: Result<(), WriteError>)
        ensures
            old(self).write_outcome(be_bytes(value as nat, 16), *final(self), r),
    {
        let b = encode_be(value as u128, 16);
        self.write_bytes(slice_subrange(&b, 0, 16))
    }

    /// Writes an `i16` in two's complement, most significant byte first.
    pub fn write_i16_be(&mut self, value: i16) -> (r: Result<(), WriteError>)
        ensures
            old(self).write_outcome(be_bytes(unsigned_of(value as int, 2), 2), *final(self), r),
    {
        proof {
            lemma_byte_base_widths();
        }
        let u: u16 = if value < 0 {
            u16::MAX - (-(value + 1)) as u16
        } else {
            value as u16
        };
        self.write_u16_be(u)
    }

    /// Writes an `i32` in two's complement, most significant byte first.
    pub fn write_i32_be(&mut self, value: i32) -> (r: Result<(), WriteError>)
        ensures
            old(self).write_outcome(be_bytes(unsigned_of(value as int, 4), 4), *final(self), r),
    {
        proof {
            lemma_byte_base_widths();
        }
        let u: u32 = if value < 0 {
            u32::MAX - (-(value + 1)) as u32
        } else {
            value as u32
        };
        self.write_u32_be(u)
    }

    /// Writes an `i64` in two's complement, most significant byte first.
    pub fn write_i64_be(&mut self, value: i64) -> (r: Result<(), WriteError>)
        ensures
            old(self).write_outcome(be_bytes(unsigned_of(value as int, 8), 8), *final(self), r),
    {
        proof {
            lemma_byte_base_widths();
        }
        let u: u64 = if value < 0 {
            u64::MAX - (-(value + 1)) as u64
        } else {
            value as u64
        };
        self.write_u64_be(u)
    }

    /// Writes an `i128` in two's complement, most significant byte first.
    pub fn write_i128_be(&mut self, value: i128) -> (r: Result<(), WriteError>)
        ensures
            old(self).write_outcome(be_bytes(unsigned_of(value as int, 16), 16), *final(self), r),
    {
        proof {
            lemma_byte_base_widths();
        }
        let u: u128 = if value < 0 {
            u128::MAX - (-(value + 1)) as u128
        } else {
            value as u128
        };
        self.write_u128_be(u)
    }
}

} // verus!
