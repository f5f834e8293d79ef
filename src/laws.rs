//! Laws that relate the write cursor to the read cursor.
use vstd::prelude::*;

use crate::bytes::{byte_base, le_value, be_value, le_bytes, be_bytes, signed_of, unsigned_of};
use crate::bytes::{lemma_le_round_trip, lemma_be_round_trip, lemma_le_bytes_len, lemma_be_bytes_len};
use crate::read::ReadCursor;
use crate::write::{WriteCursor, WriteError};

verus! {

/// A write of `b` into a cursor with room for it succeeds and leaves exactly
/// `b` between the old and the new position.
pub proof fn write_lands(w0: WriteCursor, w1: WriteCursor, b: Seq<u8>, r: Result<(), WriteError>)
    requires
        w0.wf(),
        b.len() <= w0.left(),
        w0.write_outcome(b, w1, r),
    ensures
        r is Ok,
        w1.pos() == w0.pos() + b.len(),
        w1.data().subrange(w0.pos() as int, w1.pos() as int) == b,
{
    assert(w1.data().subrange(w0.pos() as int, w1.pos() as int) =~= b);
}

/// Round trip, little-endian: an unsigned value of `k` bytes written into a
/// buffer with room for it, and read back by a fresh cursor over exactly
/// the bytes written, is the value itself.
pub proof fn round_trip_le(
    v: nat,
    k: nat,
    w0: WriteCursor,
    w1: WriteCursor,
    r: Result<(), WriteError>,
    rc: ReadCursor,
)
    requires
        v < byte_base(k),
        w0.wf(),
        k <= w0.left(),
        w0.write_outcome(le_bytes(v, k), w1, r),
        rc.pos() == 0,
        rc.data() == w1.data().subrange(w0.pos() as int, w1.pos() as int),
    ensures
        r is Ok,
        k <= rc.left(),
        le_value(rc.ahead(k)) == v,
{
    lemma_le_bytes_len(v, k);
    write_lands(w0, w1, le_bytes(v, k), r);
    assert(rc.ahead(k) =~= le_bytes(v, k));
    lemma_le_round_trip(v, k);
}

/// Round trip, big-endian: as `round_trip_le`, most significant byte first.
pub proof fn round_trip_be(
    v: nat,
    k: nat,
    w0: WriteCursor,
    w1: WriteCursor,
    r: Result<(), WriteError>,
    rc: ReadCursor,
)
    requires
        v < byte_base(k),
        w0.wf(),
        k <= w0.left(),
        w0.write_outcome(be_bytes(v, k), w1, r),
        rc.pos() == 0,
        rc.data() == w1.data().subrange(w0.pos() as int, w1.pos() as int),
    ensures
        r is Ok,
        k <= rc.left(),
        be_value(rc.ahead(k)) == v,
{
    lemma_be_bytes_len(v, k);
    write_lands(w0, w1, be_bytes(v, k), r);
    assert(rc.ahead(k) =~= be_bytes(v, k));
    lemma_be_round_trip(v, k);
}

/// Two's complement is undone by reading it back: every value of a signed
/// `k`-byte type survives `unsigned_of` followed by `signed_of`.
pub proof fn signed_round_trip(v: int, k: nat)
    requires
        k > 0,
        -byte_base(k) <= 2 * v < byte_base(k),
    ensures
        unsigned_of(v, k) < byte_base(k),
        signed_of(unsigned_of(v, k), k) == v,
{
}

/// Round trip for signed values, little-endian: a signed value of `k` bytes
/// written into a buffer with room for it, and read back by a fresh cursor
/// over exactly the bytes written, is the value itself.
pub proof fn round_trip_signed_le(
    v: int,
    k: nat,
    w0: WriteCursor,
    w1: WriteCursor,
    r: Result<(), WriteError>,
    rc: ReadCursor,
)
    requires
        k > 0,
        -byte_base(k) <= 2 * v < byte_base(k),
        w0.wf(),
        k <= w0.left(),
        w0.write_outcome(le_bytes(unsigned_of(v, k), k), w1, r),
        rc.pos() == 0,
        rc.data() == w1.data().subrange(w0.pos() as int, w1.pos() as int),
    ensures
        r is Ok,
        k <= rc.left(),
        signed_of(le_value(rc.ahead(k)), k) == v,
{
    signed_round_trip(v, k);
    round_trip_le(unsigned_of(v, k), k, w0, w1, r, rc);
}

/// Round trip for signed values, big-endian: as `round_trip_signed_le`,
/// most significant byte first.
pub proof fn round_trip_signed_be(
    v: int,
    k: nat,
    w0: WriteCursor,
    w1: WriteCursor,
    r: Result<(), WriteError>,
    rc: ReadCursor,
)
    requires
        k > 0,
        -byte_base(k) <= 2 * v < byte_base(k),
        w0.wf(),
        k <= w0.left(),
        w0.write_outcome(be_bytes(unsigned_of(v, k), k), w1, r),
        rc.pos() == 0,
        rc.data() == w1.data().subrange(w0.pos() as int, w1.pos() as int),
    ensures
        r is Ok,
        k <= rc.left(),
        signed_of(be_value(rc.ahead(k)), k) == v,
{
    signed_round_trip(v, k);
    round_trip_be(unsigned_of(v, k), k, w0, w1, r, rc);
}

} // verus!
