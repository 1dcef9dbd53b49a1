//! The hash function of the database format.

use vstd::prelude::*;

verus! {

/// The value every hash starts from.
pub const HASHSTART: u32 = 0x1505;

/// One step of the hash: `h` times 33, cut to 32 bits, exclusive-or `c`.
pub open spec fn hash_step(h: u32, c: u8) -> u32 {
    (((h as int * 33) % 0x1_0000_0000) as u32) ^ (c as u32)
}

/// The hash of a byte string: `hash_step` folded over its bytes from the
/// left, starting at `HASHSTART`.
pub open spec fn hash_of(buf: Seq<u8>) -> u32
    decreases buf.len(),
{
    if buf.len() == 0 {
        HASHSTART
    } else {
        hash_step(hash_of(buf.drop_last()), buf.last())
    }
}

/// Mixes one more byte into a running hash.
pub fn add(h: u32, c: u8) -> (r: u32)
    ensures
        r == hash_step(h, c),
{
    let t: u32 = h.wrapping_shl(5).wrapping_add(h);
    assert(t == ((h as int * 33) % 0x1_0000_0000) as u32) by {
        let s: u32 = h << 5u32;
        assert(h.wrapping_shl(5) == s) by {
            assert(5u32 % 32 == 5);
        }
        assert(s == ((h as int * 32) % 0x1_0000_0000) as u32) by (bit_vector)
            requires
                s == h << 5u32,
        ;
    }
    t ^ (c as u32)
}

/// Hashes a byte string.
pub fn hash(buf: &[u8]) -> (h: u32)
    ensures
        h == hash_of(buf@),
{
    let mut h: u32 = HASHSTART;
    let mut i: usize = 0;
    while i < buf.len()
        invariant
            i <= buf.len(),
            h == hash_of(buf@.take(i as int)),
        decreases buf.len() - i,
    {
        assert(buf@.take(i + 1).drop_last() == buf@.take(i as int));
        h = self::add(h, buf[i]);
        i += 1;
    }
    assert(buf@.take(i as int) == buf@);
    h
}

} // verus!
