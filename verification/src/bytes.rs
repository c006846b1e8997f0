//! Little-endian integer extraction from a byte view, and bounded window
//! copies. Every multi-byte field of a FAT volume is little-endian.

use vstd::prelude::*;

verus! {

/// The 16-bit little-endian value stored at byte offset `i` of `m`.
pub open spec fn le16(m: Seq<u8>, i: int) -> int
    recommends
        0 <= i,
        i + 2 <= m.len(),
{
    m[i] + 0x100 * m[i + 1]
}

/// The 32-bit little-endian value stored at byte offset `i` of `m`.
pub open spec fn le32(m: Seq<u8>, i: int) -> int
    recommends
        0 <= i,
        i + 4 <= m.len(),
{
    m[i] + 0x100 * m[i + 1] + 0x1_0000 * m[i + 2] + 0x100_0000 * m[i + 3]
}

/// Reads the little-endian 16-bit word at `off`.
pub fn read_u16(m: &Vec<u8>, off: usize) -> (r: u16)
    requires
        off + 2 <= m@.len(),
    ensures
        r == le16(m@, off as int),
{
    let n = m.len();
    proof {
        assert(off + 2 <= n);
    }
    let b0 = m[off];
    let b1 = m[off + 1];
    b0 as u16 + 0x100 * (b1 as u16)
}

/// Reads the little-endian 32-bit word at `off`.
pub fn read_u32(m: &Vec<u8>, off: usize) -> (r: u32)
    requires
        off + 4 <= m@.len(),
    ensures
        r == le32(m@, off as int),
{
    let n = m.len();
    proof {
        assert(off + 4 <= n);
    }
    let b0 = m[off];
    let b1 = m[off + 1];
    let b2 = m[off + 2];
    let b3 = m[off + 3];
    b0 as u32 + 0x100 * (b1 as u32) + 0x1_0000 * (b2 as u32) + 0x100_0000 * (b3 as u32)
}

/// Copies the `len` bytes of `m` that start at `off` into a fresh vector.
pub fn copy_range(m: &Vec<u8>, off: usize, len: usize) -> (r: Vec<u8>)
    requires
        off + len <= m@.len(),
    ensures
        r@ == m@.subrange(off as int, off as int + len as int),
{
    let n = m.len();
    proof {
        assert(off + len <= n);
    }
    let mut r: Vec<u8> = Vec::new();
    let mut i: usize = 0;
    while i < len
        invariant
            i <= len,
            off + len <= n,
            n == m@.len(),
            r@ == m@.subrange(off as int, off as int + i as int),
        decreases len - i,
    {
        r.push(m[off + i]);
        proof {
            assert(r@ =~= m@.subrange(off as int, off as int + (i + 1) as int));
        }
        i = i + 1;
    }
    r
}

} // verus!
