//! The read cursor: a position over a shared, borrowed byte buffer.
use vstd::prelude::*;
use vstd::slice::slice_subrange;

use crate::bytes::{decode_be, decode_le, le_value, be_value, signed_of};
use crate::bytes::{lemma_value_bound, lemma_byte_base_widths};

verus! {

/// Reads values one after another from a borrowed byte buffer.
#[derive(Copy, Clone, Debug)]
pub struct ReadCursor<'a> {
    pos: usize,
    input: &'a [u8],
}

/// Fewer bytes remained than a read asked for.
#[derive(Copy, Clone, Debug, PartialEq, Eq, Structural)]
pub struct ReadError;

/// Bytes were left unread where the input was expected to be exhausted.
#[derive(Copy, Clone, Debug, PartialEq, Eq, Structural)]
pub struct TrailingBytes {
    /// How many bytes were left, never zero.
    pub count: usize,
}

impl<'a> ReadCursor<'a> {
    /// The offset of the next byte to read.
    pub closed spec fn pos(self) -> nat {
        self.pos as nat
    }

    /// The whole buffer the cursor reads from.
    pub closed spec fn data(self) -> Seq<u8> {
        self.input@
    }

    #[verifier::type_invariant]
    pub open spec fn wf(self) -> bool {
        self.pos() <= self.data().len()
    }

    /// The number of bytes between the position and the end of the buffer.
    pub open spec fn left(self) -> nat {
        (self.data().len() - self.pos()) as nat
    }

    /// The `n` bytes that follow the position.
    pub open spec fn ahead(self, n: nat) -> Seq<u8> {
        self.data().subrange(self.pos() as int, (self.pos() + n) as int)
    }

    /// `after` is this cursor once a read of `n` bytes has succeeded
    /// (`ok`), which it does exactly when `n` bytes remain, or failed.
    pub open spec fn read_outcome(self, n: nat, after: Self, ok: bool) -> bool {
        &&& after.data() == self.data()
        &&& ok <==> n <= self.left()
        &&& after.pos() == if ok {
            self.pos() + n
        } else {
            self.pos()
        }
    }

    /// A cursor at the start of `input`.
    pub fn new(input: &'a [u8]) -> (r: Self)
        ensures
            r.pos() == 0,
            r.data() == input@,
    {
        ReadCursor { pos: 0, input }
    }

    /// The offset of the next byte to read.
    pub fn position(&self) -> (r: usize)
        ensures
            r == self.pos(),
    {
        self.pos
    }

    /// The number of bytes not read yet.
    pub fn remaining(&self) -> (r: usize)
        ensures
            r == self.left(),
    {
        proof {
            use_type_invariant(self);
        }
        self.input.len().saturating_sub(self.pos)
    }

    /// Whether every byte has been read.
    pub fn is_empty(&self) -> (r: bool)
        ensures
            r == (self.left() == 0),
    {
        self.remaining() == 0
    }

    /// Succeeds exactly when every byte has been read.
    pub fn expect_empty(&self) -> (r: Result<(), TrailingBytes>)
        ensures
            r is Ok <==> self.left() == 0,
            r matches Err(t) ==> t.count == self.left() && t.count > 0,
    {
        let count = self.remaining();
        if count == 0 {
            Ok(())
        } else {
            Err(TrailingBytes { count })
        }
    }

    /// The next byte.
    pub fn read_u8(&mut self) -> (r: Result<u8, ReadError>)
        ensures
            old(self).read_outcome(1, *final(self), r is Ok),
            r matches Ok(v) ==> v == old(self).data()[old(self).pos() as int],
    {
        proof {
            use_type_invariant(&*self);
        }
        if self.pos < self.input.len() {
            let x = self.input[self.pos];
            self.pos = self.pos + 1;
            Ok(x)
        } else {
            Err(ReadError)
        }
    }

    /// The next `N` bytes as an array.
    pub fn read_array<const N: usize>(&mut self) -> (r: Result<[u8; N], ReadError>)
        ensures
            old(self).read_outcome(N as nat, *final(self), r is Ok),
            r matches Ok(a) ==> a@ == old(self).ahead(N as nat),
    {
        proof {
            use_type_invariant(&*self);
        }
        let (pos, input) = (self.pos, self.input);
        let len = input.len();
        if N > len - pos {
            return Err(ReadError);
        }
        let mut a = [0u8; N];
        let mut i: usize = 0;
        while i < N
            invariant
                i <= N,
                pos + N <= len == input@.len(),
                a@.len() == N,
                forall|j: int| 0 <= j < i ==> a@[j] == input@[pos + j],
            decreases N - i,
        {
            a[i] = input[pos + i];
            i = i + 1;
        }
        proof {
            assert(a@ =~= self.ahead(N as nat));
        }
        self.pos = pos + N;
        Ok(a)
    }

    /// The next `count` bytes, borrowed from the buffer.
    pub fn read_bytes(&mut self, count: usize) -> (r: Result<&'a [u8], ReadError>)
        ensures
            old(self).read_outcome(count as nat, *final(self), r is Ok),
            r matches Ok(s) ==> s@ == old(self).ahead(count as nat),
    {
        proof {
            use_type_invariant(&*self);
        }
        let len = self.input.len();
        let end = match self.pos.checked_add(count) {
            Some(e) => e,
            None => return Err(ReadError),
        };
        if end > len {
            return Err(ReadError);
        }
        let ret = slice_subrange(self.input, self.pos, end);
        self.pos = end;
        Ok(ret)
    }

    /// Everything that is left; the cursor is then exhausted.
    pub fn read_all(&mut self) -> (r: &'a [u8])
        ensures
            r@ == old(self).ahead(old(self).left()),
            final(self).data() == old(self).data(),
            final(self).pos() == old(self).data().len(),
    {
        proof {
            use_type_invariant(&*self);
        }
        let ret = slice_subrange(self.input, self.pos, self.input.len());
        self.pos = self.input.len();
        ret
    }

    /// Runs `read` on this cursor; where it fails, the cursor is put back as
    /// it was before the call.
    pub fn transaction<T, R, E>(&mut self, read: T) -> (r: Result<R, E>)
        where
            T: FnOnce(&mut ReadCursor<'a>) -> Result<R, E>,
        requires
            forall|c: &mut ReadCursor<'a>| read.requires((c,)),
        ensures
            exists|c: &mut ReadCursor<'a>|
                *c == *old(self) && #[trigger] call_ensures(read, (c,), r) && (r is Ok ==> *final(self)
                    == *final(c)),
            r is Err ==> *final(self) == *old(self),
    {
        let start = *self;
        let result = read(self);
        if result.is_err() {
            *self = start;
        }
        result
    }
}

/// Typed reads, little-endian.
impl<'a> ReadCursor<'a> {
    /// Reads a `u16` from the next 2 bytes, least significant first.
    pub fn read_u16_le(&mut self) -> (r: Result<u16, ReadError>)
        ensures
            old(self).read_outcome(2, *final(self), r is Ok),
            r matches Ok(v) ==> v as nat == le_value(old(self).ahead(2)),
    {
        let a = self.read_array::<2>()?;
        proof {
            lemma_value_bound(a@);
            lemma_byte_base_widths();
        }
        Ok(decode_le(&a) as u16)
    }

    /// Reads a `u32` from the next 4 bytes, least significant first.
    pub fn read_u32_le(&mut self) -> (r: Result<u32, ReadError>)
        ensures
            old(self).read_outcome(4, *final(self), r is Ok),
            r matches Ok(v) ==> v as nat == le_value(old(self).ahead(4)),
    {
        let a = self.read_array::<4>()?;
        proof {
            lemma_value_bound(a@);
            lemma_byte_base_widths();
        }
        Ok(decode_le(&a) as u32)
    }

    /// Reads a 48-bit value, zero-extended, from the next 6 bytes, least significant first.
    pub fn read_u48_le(&mut self) -> (r: Result<u64, ReadError>)
        ensures
            old(self).read_outcome(6, *final(self), r is Ok),
            r matches Ok(v) ==> v as nat == le_value(old(self).ahead(6)),
    {
        let a = self.read_array::<6>()?;
        proof {
            lemma_value_bound(a@);
            lemma_byte_base_widths();
        }
        Ok(decode_le(&a) as u64)
    }

    /// Reads a `u64` from the next 8 bytes, least significant first.
    pub fn read_u64_le(&mut self) -> (r: Result<u64, ReadError>)
        ensures
            old(self).read_outcome(8, *final(self), r is Ok),
            r matches Ok(v) ==> v as nat == le_value(old(self).ahead(8)),
    {
        let a = self.read_array::<8>()?;
        proof {
            lemma_value_bound(a@);
            lemma_byte_base_widths();
        }
        Ok(decode_le(&a) as u64)
    }

    /// Reads a `u128` from the next 16 bytes, least significant first.
    pub fn read_u128_le(&mut self) -> (r: Result<u128, ReadError>)
        ensures
            old(self).read_outcome(16, *final(self), r is Ok),
            r matches Ok(v) ==> v as nat == le_value(old(self).ahead(16)),
    {
        let a = self.read_array::<16>()?;
        proof {
            lemma_value_bound(a@);
            lemma_byte_base_widths();
        }
        Ok(decode_le(&a) as u128)
    }

    /// Reads an `i16` in two's complement from the next 2 bytes, least
    /// significant first.
    pub fn read_i16_le(&mut self) -> (r: Result<i16, ReadError>)
        ensures
            old(self).read_outcome(2, *final(self), r is Ok),
            r matches Ok(v) ==> v as int == signed_of(le_value(old(self).ahead(2)), 2),
    {
        proof {
            lemma_byte_base_widths();
        }
        let u = self.read_u16_le()?;
        if u > i16::MAX as u16 {
            Ok(-((u16::MAX - u) as i16) - 1)
        } else {
            Ok(u as i16)
        }
    }

    /// Reads an `i32` in two's complement from the next 4 bytes, least
    /// significant first.
    pub fn read_i32_le(&mut self) -> (r: Result<i32, ReadError>)
        ensures
            old(self).read_outcome(4, *final(self), r is Ok),
            r matches Ok(v) ==> v as int == signed_of(le_value(old(self).ahead(4)), 4),
    {
        proof {
            lemma_byte_base_widths();
        }
        let u = self.read_u32_le()?;
        if u > i32::MAX as u32 {
            Ok(-((u32::MAX - u) as i32) - 1)
        } else {
            Ok(u as i32)
        }
    }

    /// Reads an `i64` in two's complement from the next 8 bytes, least
    /// significant first.
    pub fn read_i64_le(&mut self) -> (r: Result<i64, ReadError>)
        ensures
            old(self).read_outcome(8, *final(self), r is Ok),
            r matches Ok(v) ==> v as int == signed_of(le_value(old(self).ahead(8)), 8),
    {
        proof {
            lemma_byte_base_widths();
        }
        let u = self.read_u64_le()?;
        if u > i64::MAX as u64 {
            Ok(-((u64::MAX - u) as i64) - 1)
        } else {
            Ok(u as i64)
        }
    }

    /// Reads an `i128` in two's complement from the next 16 bytes, least
    /// significant first.
    pub fn read_i128_le(&mut self) -> (r: Result<i128, ReadError>)
        ensures
            old(self).read_outcome(16, *final(self), r is Ok),
            r matches Ok(v) ==> v as int == signed_of(le_value(old(self).ahead(16)), 16),
    {
        proof {
            lemma_byte_base_widths();
        }
        let u = self.read_u128_le()?;
        if u > i128::MAX as u128 {
            Ok(-((u128::MAX - u) as i128) - 1)
        } else {
            Ok(u as i128)
        }
    }
}

/// Typed reads, big-endian.
impl<'a> ReadCursor<'a> {
    /// Reads a `u16` from the next 2 bytes, most significant first.
    pub fn read_u16_be(&mut self) -> (r: Result<u16, ReadError>)
        ensures
            old(self).read_outcome(2, *final(self), r is Ok),
            r matches Ok(v) ==> v as nat == be_value(old(self).ahead(2)),
    {
        let a = self.read_array::<2>()?;
        proof {
            lemma_value_bound(a@);
            lemma_byte_base_widths();
        }
        Ok(decode_be(&a) as u16)
    }

    /// Reads a `u32` from the next 4 bytes, most significant first.
    pub fn read_u32_be(&mut self) -> (r: Result<u32, ReadError>)
        ensures
            old(self).read_outcome(4, *final(self), r is Ok),
            r matches Ok(v) ==> v as nat == be_value(old(self).ahead(4)),
    {
        let a = self.read_array::<4>()?;
        proof {
            lemma_value_bound(a@);
            lemma_byte_base_widths();
        }
        Ok(decode_be(&a) as u32)
    }

    /// Reads a 48-bit value, zero-extended, from the next 6 bytes, most significant first.
    pub fn read_u48_be(&mut self) -> (r: Result<u64, ReadError>)
        ensures
            old(self).read_outcome(6, *final(self), r is Ok),
            r matches Ok(v) ==> v as nat == be_value(old(self).ahead(6)),
    {
        let a = self.read_array::<6>()?;
        proof {
            lemma_value_bound(a@);
            lemma_byte_base_widths();
        }
        Ok(decode_be(&a) as u64)
    }

    /// Reads a `u64` from the next 8 bytes, most significant first.
    pub fn read_u64_be(&mut self) -> (r: Result<u64, ReadError>)
        ensures
            old(self).read_outcome(8, *final(self), r is Ok),
            r matches Ok(v) ==> v as nat == be_value(old(self).ahead(8)),
    {
        let a = self.read_array::<8>()?;
        proof {
            lemma_value_bound(a@);
            lemma_byte_base_widths();
        }
        Ok(decode_be(&a) as u64)
    }

    /// Reads a `u128` from the next 16 bytes, most significant first.
    pub fn read_u128_be(&mut self) -> (r: Result<u128, ReadError>)
        ensures
            old(self).read_outcome(16, *final(self), r is Ok),
            r matches Ok(v) ==> v as nat == be_value(old(self).ahead(16)),
    {
        let a = self.read_array::<16>()?;
        proof {
            lemma_value_bound(a@);
            lemma_byte_base_widths();
        }
        Ok(decode_be(&a) as u128)
    }

    /// Reads an `i16` in two's complement from the next 2 bytes, most
    /// significant first.
    pub fn read_i16_be(&mut self) -> (r: Result<i16, ReadError>)
        ensures
            old(self).read_outcome(2, *final(self), r is Ok),
            r matches Ok(v) ==> v as int == signed_of(be_value(old(self).ahead(2)), 2),
    {
        proof {
            lemma_byte_base_widths();
        }
        let u = self.read_u16_be()?;
        if u > i16::MAX as u16 {
            Ok(-((u16::MAX - u) as i16) - 1)
        } else {
            Ok(u as i16)
        }
    }

    /// Reads an `i32` in two's complement from the next 4 bytes, most
    /// significant first.
    pub fn read_i32_be(&mut self) -> (r: Result<i32, ReadError>)
        ensures
            old(self).read_outcome(4, *final(self), r is Ok),
            r matches Ok(v) ==> v as int == signed_of(be_value(old(self).ahead(4)), 4),
    {
        proof {
            lemma_byte_base_widths();
        }
        let u = self.read_u32_be()?;
        if u > i32::MAX as u32 {
            Ok(-((u32::MAX - u) as i32) - 1)
        } else {
            Ok(u as i32)
        }
    }

    /// Reads an `i64` in two's complement from the next 8 bytes, most
    /// significant first.
    pub fn read_i64_be(&mut self) -> (r: Result<i64, ReadError>)
        ensures
            old(self).read_outcome(8, *final(self), r is Ok),
            r matches Ok(v) ==> v as int == signed_of(be_value(old(self).ahead(8)), 8),
    {
        proof {
            lemma_byte_base_widths();
        }
        let u = self.read_u64_be()?;
        if u > i64::MAX as u64 {
            Ok(-((u64::MAX - u) as i64) - 1)
        } else {
            Ok(u as i64)
        }
    }

    /// Reads an `i128` in two's complement from the next 16 bytes, most
    /// significant first.
    pub fn read_i128_be(&mut self) -> (r: Result<i128, ReadError>)
        ensures
            old(self).read_outcome(16, *final(self), r is Ok),
            r matches Ok(v) ==> v as int == signed_of(be_value(old(self).ahead(16)), 16),
    {
        proof {
            lemma_byte_base_widths();
        }
        let u = self.read_u128_be()?;
        if u > i128::MAX as u128 {
            Ok(-((u128::MAX - u) as i128) - 1)
        } else {
            Ok(u as i128)
        }
    }
}

} // verus!
