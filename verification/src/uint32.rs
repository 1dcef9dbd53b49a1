//! Little-endian 32-bit integers, the only structural field of the format.

use vstd::prelude::*;

verus! {

/// The number that the first four bytes of `s` spell, lowest byte first.
pub open spec fn le32(s: Seq<u8>) -> u32
    recommends
        s.len() >= 4,
{
    (s[0] as int + 0x100 * (s[1] as int) + 0x1_0000 * (s[2] as int) + 0x100_0000 * (s[3] as int))
        as u32
}

/// The four bytes that spell `x`, lowest byte first.
pub open spec fn le32_bytes(x: u32) -> Seq<u8> {
    seq![
        (x as int % 0x100) as u8,
        (x as int / 0x100 % 0x100) as u8,
        (x as int / 0x1_0000 % 0x100) as u8,
        (x as int / 0x100_0000) as u8,
    ]
}

/// The eight bytes that spell the pair `(x, y)`.
pub open spec fn le32_pair_bytes(x: u32, y: u32) -> Seq<u8> {
    le32_bytes(x) + le32_bytes(y)
}

/// Decoding undoes encoding.
pub proof fn lemma_le32_of_bytes(x: u32)
    ensures
        le32_bytes(x).len() == 4,
        le32(le32_bytes(x)) == x,
{
}

/// Encoding undoes decoding.
pub proof fn lemma_bytes_of_le32(s: Seq<u8>)
    requires
        s.len() >= 4,
    ensures
        le32_bytes(le32(s)) == s.take(4),
{
    let a = s[0] as int;
    let b = s[1] as int;
    let c = s[2] as int;
    let d = s[3] as int;
    let x = a + 0x100 * b + 0x1_0000 * c + 0x100_0000 * d;
    assert(le32(s) as int == x);
    assert(x % 0x100 == a);
    assert(x / 0x100 == b + 0x100 * c + 0x1_0000 * d);
    assert(x / 0x1_0000 == c + 0x100 * d);
    assert(x / 0x100_0000 == d);
    assert(le32_bytes(le32(s)) =~= s.take(4));
}

/// Both halves of an encoded pair decode to what was encoded.
pub proof fn lemma_le32_pair(x: u32, y: u32)
    ensures
        le32_pair_bytes(x, y).len() == 8,
        le32(le32_pair_bytes(x, y).subrange(0, 4)) == x,
        le32(le32_pair_bytes(x, y).subrange(4, 8)) == y,
{
    let p = le32_pair_bytes(x, y);
    assert(p.subrange(0, 4) =~= le32_bytes(x));
    assert(p.subrange(4, 8) =~= le32_bytes(y));
}

/// Reads a 32-bit integer from the first four bytes of `data`.
pub fn unpack(data: &[u8]) -> (r: u32)
    requires
        data@.len() >= 4,
    ensures
        r == le32(data@),
{
    let b0: u32 = data[0] as u32;
    let b1: u32 = data[1] as u32;
    let b2: u32 = data[2] as u32;
    let b3: u32 = data[3] as u32;
    assert(b0 | (b1 << 8) | (b2 << 16) | (b3 << 24) == b0 + 0x100 * b1 + 0x1_0000 * b2 + 0x100_0000
        * b3) by (bit_vector)
        requires
            b0 < 0x100,
            b1 < 0x100,
            b2 < 0x100,
            b3 < 0x100,
    ;
    b0 | (b1 << 8) | (b2 << 16) | (b3 << 24)
}

/// Reads two adjacent 32-bit integers from the first eight bytes of `buf`.
pub fn unpack2(buf: &[u8]) -> (r: (u32, u32))
    requires
        buf@.len() >= 8,
    ensures
        r.0 == le32(buf@.subrange(0, 4)),
        r.1 == le32(buf@.subrange(4, 8)),
{
    (unpack(&buf[0..4]), unpack(&buf[4..8]))
}

fn _pack(src: u32) -> (r: [u8; 4])
    ensures
        r@ == le32_bytes(src),
{
    let b0: u8 = #[verifier::truncate] (src as u8);
    let b1: u8 = #[verifier::truncate] ((src >> 8) as u8);
    let b2: u8 = #[verifier::truncate] ((src >> 16) as u8);
    let b3: u8 = #[verifier::truncate] ((src >> 24) as u8);
    assert(b0 == src % 0x100 && b1 == src / 0x100 % 0x100 && b2 == src / 0x1_0000 % 0x100
        && b3 == src / 0x100_0000) by (bit_vector)
        requires
            b0 == src as u8,
            b1 == (src >> 8) as u8,
            b2 == (src >> 16) as u8,
            b3 == (src >> 24) as u8,
    ;
    let r = [b0, b1, b2, b3];
    assert(r@ =~= le32_bytes(src));
    r
}

/// Writes `src` into the first four bytes of `data`; the rest stays.
pub fn pack(data: &mut [u8], src: u32)
    requires
        old(data)@.len() >= 4,
    ensures
        final(data)@ == le32_bytes(src) + old(data)@.skip(4),
{
    let b = _pack(src);
    data[0] = b[0];
    data[1] = b[1];
    data[2] = b[2];
    data[3] = b[3];
    assert(data@ =~= le32_bytes(src) + old(data)@.skip(4));
}

/// Writes `src0` and `src1` into the first eight bytes of `data`; the rest
/// stays.
pub fn pack2(data: &mut [u8], src0: u32, src1: u32)
    requires
        old(data)@.len() >= 8,
    ensures
        final(data)@ == le32_pair_bytes(src0, src1) + old(data)@.skip(8),
{
    let (lo, hi) = data.split_at_mut(4);
    pack(lo, src0);
    pack(hi, src1);
    assert(data@ =~= le32_pair_bytes(src0, src1) + old(data)@.skip(8));
}

} // verus!
