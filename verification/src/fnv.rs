//! The 64-bit FNV-1a hash, absorbed piece by piece.
use vstd::prelude::*;
use crate::text::{hex, hex16};

verus! {

/// The hash of nothing.
pub const FNV1A_OFFSET: u64 = 0xcbf2_9ce4_8422_2325;

/// The hash's multiplier.
pub const FNV1A_PRIME: u64 = 0x0000_0100_0000_01b3;

/// One byte absorbed: exclusive-or, then multiplication modulo 2^64.
pub open spec fn fnv_step(h: u64, b: u8) -> u64 {
    ((h ^ (b as u64)) as int * FNV1A_PRIME as int % 0x1_0000_0000_0000_0000) as u64
}

/// The bytes absorbed in order, beginning from `h`.
pub open spec fn fnv(h: u64, bytes: Seq<u8>) -> u64
    decreases bytes.len(),
{
    if bytes.len() == 0 {
        h
    } else {
        fnv_step(fnv(h, bytes.drop_last()), bytes.last())
    }
}

/// Absorbing two pieces one after the other is absorbing them joined.
pub proof fn law_fnv_chunks(h: u64, a: Seq<u8>, b: Seq<u8>)
    ensures
        fnv(h, a + b) == fnv(fnv(h, a), b),
    decreases b.len(),
{
    if b.len() == 0 {
        assert(a + b =~= a);
    } else {
        law_fnv_chunks(h, a, b.drop_last());
        assert((a + b).drop_last() =~= a + b.drop_last());
    }
}

/// Absorbs one byte.
pub fn fnv1a_byte(h: u64, b: u8) -> (r: u64)
    ensures
        r == fnv_step(h, b),
{
    (h ^ (b as u64)).wrapping_mul(FNV1A_PRIME)
}

/// Absorbs `bytes` into the hash `h`.
pub fn fnv1a_absorb(h: u64, bytes: &[u8]) -> (r: u64)
    ensures
        r == fnv(h, bytes@),
{
    let mut r: u64 = h;
    let mut i: usize = 0;
    while i < bytes.len()
        invariant
            i <= bytes.len(),
            r == fnv(h, bytes@.take(i as int)),
        decreases bytes.len() - i,
    {
        r = fnv1a_byte(r, bytes[i]);
        i = i + 1;
        assert(bytes@.take(i as int).drop_last() =~= bytes@.take(i - 1));
    }
    assert(bytes@.take(bytes@.len() as int) =~= bytes@);
    r
}

/// The hash of `bytes`.
pub fn content_hash(bytes: &[u8]) -> (h: u64)
    ensures
        h == fnv(FNV1A_OFFSET, bytes@),
{
    fnv1a_absorb(FNV1A_OFFSET, bytes)
}

/// The lowest `width` bytes of `n`, least significant first.
pub open spec fn le_bytes(n: u64, width: nat) -> Seq<u8>
    decreases width,
{
    if width == 0 {
        Seq::empty()
    } else {
        seq![(n % 256) as u8] + le_bytes(n / 256, (width - 1) as nat)
    }
}

/// Absorbs the lowest `width` bytes of `n`, least significant first.
pub fn fnv1a_absorb_le(h: u64, n: u64, width: usize) -> (r: u64)
    ensures
        r == fnv(h, le_bytes(n, width as nat)),
    decreases width,
{
    if width == 0 {
        h
    } else {
        let first: u8 = (n % 256) as u8;
        let r: u64 = fnv1a_absorb_le(fnv1a_byte(h, first), n / 256, width - 1);
        proof {
            let head = seq![first];
            assert(head.drop_last() =~= Seq::<u8>::empty());
            assert(fnv(h, head) == fnv_step(h, first)) by {
                assert(fnv(h, head.drop_last()) == h);
            }
            law_fnv_chunks(h, head, le_bytes(n / 256, (width - 1) as nat));
        }
        r
    }
}

/// The sixteen hexadecimal digits of the hash of `bytes`.
pub fn content_hash_hex(bytes: &[u8]) -> (s: String)
    ensures
        s@ == hex(fnv(FNV1A_OFFSET, bytes@) as nat, 16),
{
    hex16(content_hash(bytes))
}

/// How many numbers fit in so many bytes.
pub open spec fn capacity(width: nat) -> nat
    decreases width,
{
    if width == 0 {
        1
    } else {
        256 * capacity((width - 1) as nat)
    }
}

/// A number is written low byte first, in as many bytes as asked, and numbers
/// that fit are written differently.
pub proof fn law_le_bytes(n: u64, m: u64, width: nat)
    ensures
        le_bytes(n, width).len() == width,
        width > 0 ==> le_bytes(n, width)[0] == n % 256 && le_bytes(n, width).skip(1) == le_bytes(
            n / 256,
            (width - 1) as nat,
        ),
        n < capacity(width) && m < capacity(width) && le_bytes(n, width) == le_bytes(m, width)
            ==> n == m,
    decreases width,
{
    if width > 0 {
        let w = (width - 1) as nat;
        law_le_bytes(n / 256, m / 256, w);
        law_le_bytes(m / 256, n / 256, w);
        assert(le_bytes(n, width).skip(1) =~= le_bytes(n / 256, w));
        assert(le_bytes(m, width).skip(1) =~= le_bytes(m / 256, w));
        assert(le_bytes(n, width)[0] == (n % 256) as u8);
        assert(le_bytes(m, width)[0] == (m % 256) as u8);
    }
}

/// How many numbers fit in the widths of the fields.
pub proof fn law_capacities()
    ensures
        capacity(1) == 0x100,
        capacity(2) == 0x1_0000,
        capacity(4) == 0x1_0000_0000,
        capacity(8) == 0x1_0000_0000_0000_0000,
{
    reveal_with_fuel(capacity, 9);
}

/// A byte is first mixed into the hash and then spread by the prime, without
/// overflow.
pub proof fn law_fnv_of_a_byte(h: u64, b: u8)
    ensures
        fnv(h, seq![b]) == (h ^ (b as u64)) as int * 0x100_0000_01B3 % 0x1_0000_0000_0000_0000,
        fnv(h, Seq::empty()) == h,
        FNV1A_OFFSET == 0xCBF2_9CE4_8422_2325,
{
    assert(seq![b].drop_last() =~= Seq::<u8>::empty());
    assert(fnv(h, Seq::empty()) == h);
    assert(fnv(h, seq![b]) == fnv_step(h, b));
    let x = (h ^ (b as u64)) as int * FNV1A_PRIME as int % 0x1_0000_0000_0000_0000;
    assert(0 <= x < 0x1_0000_0000_0000_0000);
}

} // verus!
