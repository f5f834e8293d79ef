//! Byte-order arithmetic: the numeric value of a run of bytes in little- and
//! big-endian order, the bytes that represent a number, and the executable
//! conversions between the two.
use vstd::prelude::*;

verus! {

/// `256^k`: one more than the largest value that `k` bytes can hold.
pub open spec fn byte_base(k: nat) -> nat
    decreases k,
{
    if k == 0 {
        1
    } else {
        256 * byte_base((k - 1) as nat)
    }
}

/// The unsigned value of `s` read with the least significant byte first.
pub open spec fn le_value(s: Seq<u8>) -> nat
    decreases s.len(),
{
    if s.len() == 0 {
        0
    } else {
        s[0] as nat + 256 * le_value(s.drop_first())
    }
}

/// The unsigned value of `s` read with the most significant byte first.
pub open spec fn be_value(s: Seq<u8>) -> nat
    decreases s.len(),
{
    if s.len() == 0 {
        0
    } else {
        be_value(s.drop_last()) * 256 + s.last() as nat
    }
}

/// The `k` low-order bytes of `v`, least significant first.
pub open spec fn le_bytes(v: nat, k: nat) -> Seq<u8>
    decreases k,
{
    if k == 0 {
        Seq::empty()
    } else {
        seq![(v % 256) as u8] + le_bytes(v / 256, (k - 1) as nat)
    }
}

/// The `k` low-order bytes of `v`, most significant first.
pub open spec fn be_bytes(v: nat, k: nat) -> Seq<u8>
    decreases k,
{
    if k == 0 {
        Seq::empty()
    } else {
        be_bytes(v / 256, (k - 1) as nat).push((v % 256) as u8)
    }
}

/// The two's-complement reading of the `k`-byte unsigned value `n`.
pub open spec fn signed_of(n: nat, k: nat) -> int {
    if 2 * n >= byte_base(k) {
        n - byte_base(k)
    } else {
        n as int
    }
}

/// The `k`-byte unsigned value whose two's-complement reading is `v`.
pub open spec fn unsigned_of(v: int, k: nat) -> nat {
    if v < 0 {
        (v + byte_base(k)) as nat
    } else {
        v as nat
    }
}

/// The widths of the integer types, in bytes, and the ranges they bound.
pub proof fn lemma_byte_base_widths()
    ensures
        byte_base(1) == 0x100,
        byte_base(2) == 0x1_0000,
        byte_base(4) == 0x1_0000_0000,
        byte_base(6) == 0x1_0000_0000_0000,
        byte_base(8) == 0x1_0000_0000_0000_0000,
        byte_base(16) == u128::MAX + 1,
{
    reveal_with_fuel(byte_base, 17);
}

pub proof fn lemma_byte_base_mono(j: nat, k: nat)
    requires
        j <= k,
    ensures
        1 <= byte_base(j) <= byte_base(k),
    decreases k,
{
    if k > j {
        lemma_byte_base_mono(j, (k - 1) as nat);
    } else if k > 0 {
        lemma_byte_base_mono(0, (k - 1) as nat);
    }
}

pub proof fn lemma_le_bytes_len(v: nat, k: nat)
    ensures
        le_bytes(v, k).len() == k,
    decreases k,
{
    if k > 0 {
        lemma_le_bytes_len(v / 256, (k - 1) as nat);
    }
}

pub proof fn lemma_be_bytes_len(v: nat, k: nat)
    ensures
        be_bytes(v, k).len() == k,
    decreases k,
{
    if k > 0 {
        lemma_be_bytes_len(v / 256, (k - 1) as nat);
    }
}

/// A run of bytes holds less than `256^len` in either order.
pub proof fn lemma_value_bound(s: Seq<u8>)
    ensures
        le_value(s) < byte_base(s.len()),
        be_value(s) < byte_base(s.len()),
    decreases s.len(),
{
    if s.len() > 0 {
        lemma_value_bound(s.drop_first());
        lemma_value_bound(s.drop_last());
    }
}

/// Decoding the little-endian bytes of `v` gives back `v`.
pub proof fn lemma_le_round_trip(v: nat, k: nat)
    requires
        v < byte_base(k),
    ensures
        le_value(le_bytes(v, k)) == v,
    decreases k,
{
    if k > 0 {
        let k1 = (k - 1) as nat;
        assert(v / 256 < byte_base(k1));
        lemma_le_round_trip(v / 256, k1);
        let s = le_bytes(v, k);
        assert(s.drop_first() =~= le_bytes(v / 256, k1));
    }
}

/// Decoding the big-endian bytes of `v` gives back `v`.
pub proof fn lemma_be_round_trip(v: nat, k: nat)
    requires
        v < byte_base(k),
    ensures
        be_value(be_bytes(v, k)) == v,
    decreases k,
{
    if k > 0 {
        let k1 = (k - 1) as nat;
        assert(v / 256 < byte_base(k1));
        lemma_be_round_trip(v / 256, k1);
        let s = be_bytes(v, k);
        assert(s.drop_last() =~= be_bytes(v / 256, k1));
    }
}

/// The unsigned value of `b`, least significant byte first.
pub(crate) fn decode_le(b: &[u8]) -> (r: u128)
    requires
        b@.len() <= 16,
    ensures
        r as nat == le_value(b@),
{
    let n = b.len();
    let mut acc: u128 = 0;
    let mut i: usize = n;
    proof {
        assert(b@.skip(n as int) =~= Seq::<u8>::empty());
        lemma_byte_base_widths();
    }
    while i > 0
        invariant
            i <= n == b@.len() <= 16,
            acc as nat == le_value(b@.skip(i as int)),
            byte_base(16) == u128::MAX + 1,
        decreases i,
    {
        let ghost rest = b@.skip(i as int);
        let ghost next = b@.skip(i - 1);
        proof {
            assert(next.drop_first() =~= rest);
            lemma_value_bound(next);
            lemma_byte_base_mono(next.len(), 16);
        }
        i = i - 1;
        acc = b[i] as u128 + acc * 256;
    }
    proof {
        assert(b@.skip(0) =~= b@);
    }
    acc
}

/// The unsigned value of `b`, most significant byte first.
pub(crate) fn decode_be(b: &[u8]) -> (r: u128)
    requires
        b@.len() <= 16,
    ensures
        r as nat == be_value(b@),
{
    let n = b.len();
    let mut acc: u128 = 0;
    let mut i: usize = 0;
    proof {
        assert(b@.take(0) =~= Seq::<u8>::empty());
        lemma_byte_base_widths();
    }
    while i < n
        invariant
            i <= n == b@.len() <= 16,
            acc as nat == be_value(b@.take(i as int)),
            byte_base(16) == u128::MAX + 1,
        decreases n - i,
    {
        let ghost next = b@.take(i + 1);
        proof {
            assert(next.drop_last() =~= b@.take(i as int));
            lemma_value_bound(next);
            lemma_byte_base_mono(next.len(), 16);
        }
        acc = acc * 256 + b[i] as u128;
        i = i + 1;
    }
    proof {
        assert(b@.take(n as int) =~= b@);
    }
    acc
}

/// The `k` low-order bytes of `v`, least significant first, at the start of
/// a 16-byte array.
pub(crate) fn encode_le(v: u128, k: usize) -> (r: [u8; 16])
    requires
        k <= 16,
    ensures
        r@.take(k as int) == le_bytes(v as nat, k as nat),
{
    let mut r = [0u8; 16];
    let mut x: u128 = v;
    let mut i: usize = 0;
    proof {
        assert(r@.take(0) + le_bytes(v as nat, k as nat) =~= le_bytes(v as nat, k as nat));
    }
    while i < k
        invariant
            i <= k <= 16,
            r@.len() == 16,
            r@.take(i as int) + le_bytes(x as nat, (k - i) as nat) == le_bytes(v as nat, k as nat),
        decreases k - i,
    {
        let ghost before = r@.take(i as int);
        let ghost tail = le_bytes(x as nat / 256, (k - i - 1) as nat);
        r[i] = (x % 256) as u8;
        proof {
            assert(le_bytes(x as nat, (k - i) as nat) == seq![(x % 256) as u8] + tail);
            assert(r@.take(i + 1) =~= before.push((x % 256) as u8));
            assert(r@.take(i + 1) + tail =~= before + (seq![(x % 256) as u8] + tail));
        }
        x = x / 256;
        i = i + 1;
    }
    proof {
        assert(le_bytes(x as nat, 0) =~= Seq::<u8>::empty());
        assert(r@.take(k as int) + Seq::<u8>::empty() =~= r@.take(k as int));
    }
    r
}

/// The `k` low-order bytes of `v`, most significant first, at the start of
/// a 16-byte array.
pub(crate) fn encode_be(v: u128, k: usize) -> (r: [u8; 16])
    requires
        k <= 16,
    ensures
        r@.take(k as int) == be_bytes(v as nat, k as nat),
{
    let mut r = [0u8; 16];
    let mut x: u128 = v;
    let mut i: usize = k;
    proof {
        assert(be_bytes(v as nat, k as nat) + r@.subrange(k as int, k as int) =~= be_bytes(
            v as nat,
            k as nat,
        ));
    }
    while i > 0
        invariant
            i <= k <= 16,
            r@.len() == 16,
            be_bytes(x as nat, i as nat) + r@.subrange(i as int, k as int) == be_bytes(
                v as nat,
                k as nat,
            ),
        decreases i,
    {
        let ghost after = r@.subrange(i as int, k as int);
        let ghost head = be_bytes(x as nat / 256, (i - 1) as nat);
        r[i - 1] = (x % 256) as u8;
        proof {
            assert(be_bytes(x as nat, i as nat) == head.push((x % 256) as u8));
            assert(r@.subrange(i - 1, k as int) =~= seq![(x % 256) as u8] + after);
            assert(head + r@.subrange(i - 1, k as int) =~= head.push((x % 256) as u8) + after);
        }
        x = x / 256;
        i = i - 1;
    }
    proof {
        assert(be_bytes(x as nat, 0) =~= Seq::<u8>::empty());
        assert(Seq::<u8>::empty() + r@.subrange(0, k as int) =~= r@.take(k as int));
    }
    r
}

} // verus!
