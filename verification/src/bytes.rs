//! Little-endian integer fields inside a byte buffer.
//!
//! The on-device pool table stores its magic number and its entry fields as
//! little-endian integers at fixed offsets of a single page.  These helpers
//! read and write such fields and say exactly which bytes they touch.

use vstd::pervasive::VecAdditionalExecFns;
use vstd::prelude::*;

verus! {

/// The 16-bit little-endian integer spelled by `s[pos]` and `s[pos + 1]`.
pub open spec fn spec_u16_at(s: Seq<u8>, pos: int) -> int
    recommends
        0 <= pos,
        pos + 2 <= s.len(),
{
    s[pos] + 0x100 * s[pos + 1]
}

/// The 64-bit little-endian integer spelled by the 8 bytes at `pos`.
pub open spec fn spec_u64_at(s: Seq<u8>, pos: int) -> int
    recommends
        0 <= pos,
        pos + 8 <= s.len(),
{
    s[pos] + 0x100 * s[pos + 1] + 0x1_0000 * s[pos + 2] + 0x100_0000 * s[pos + 3] + 0x1_0000_0000
        * s[pos + 4] + 0x100_0000_0000 * s[pos + 5] + 0x1_0000_0000_0000 * s[pos + 6]
        + 0x100_0000_0000_0000 * s[pos + 7]
}

/// Reads the 16-bit little-endian field at `pos`.
pub fn read_u16(s: &Vec<u8>, pos: usize) -> (r: u16)
    requires
        pos + 2 <= s.len(),
    ensures
        r as int == spec_u16_at(s@, pos as int),
{
    let b0 = s[pos];
    let b1 = s[pos + 1];
    b0 as u16 + 0x100 * (b1 as u16)
}

/// The 32-bit little-endian integer spelled by the 4 bytes at `pos`.
pub open spec fn spec_u32_at(s: Seq<u8>, pos: int) -> int
    recommends
        0 <= pos,
        pos + 4 <= s.len(),
{
    s[pos] + 0x100 * s[pos + 1] + 0x1_0000 * s[pos + 2] + 0x100_0000 * s[pos + 3]
}

/// Reads the 32-bit little-endian field at `pos`.
pub fn read_u32(s: &Vec<u8>, pos: usize) -> (r: u32)
    requires
        pos + 4 <= s.len(),
    ensures
        r as int == spec_u32_at(s@, pos as int),
{
    let b0 = s[pos] as u32;
    let b1 = s[pos + 1] as u32;
    let b2 = s[pos + 2] as u32;
    let b3 = s[pos + 3] as u32;
    b0 + 0x100 * b1 + 0x1_0000 * b2 + 0x100_0000 * b3
}

/// Reads the 64-bit little-endian field at `pos`.
pub fn read_u64(s: &Vec<u8>, pos: usize) -> (r: u64)
    requires
        pos + 8 <= s.len(),
    ensures
        r as int == spec_u64_at(s@, pos as int),
{
    let b0 = s[pos] as u64;
    let b1 = s[pos + 1] as u64;
    let b2 = s[pos + 2] as u64;
    let b3 = s[pos + 3] as u64;
    let b4 = s[pos + 4] as u64;
    let b5 = s[pos + 5] as u64;
    let b6 = s[pos + 6] as u64;
    let b7 = s[pos + 7] as u64;
    b0 + 0x100 * b1 + 0x1_0000 * b2 + 0x100_0000 * b3 + 0x1_0000_0000 * b4 + 0x100_0000_0000 * b5
        + 0x1_0000_0000_0000 * b6 + 0x100_0000_0000_0000 * b7
}

/// Writes `v` as a 16-bit little-endian field at `pos`, leaving every other
/// byte unchanged.
pub fn write_u16(s: &mut Vec<u8>, pos: usize, v: u16)
    requires
        pos + 2 <= old(s).len(),
    ensures
        final(s)@.len() == old(s)@.len(),
        spec_u16_at(final(s)@, pos as int) == v as int,
        forall|i: int|
            0 <= i < old(s)@.len() && !(pos <= i < pos + 2) ==> final(s)@[i] == old(s)@[i],
{
    let b0 = (v % 0x100) as u8;
    let b1 = (v / 0x100) as u8;
    s.set(pos, b0);
    s.set(pos + 1, b1);
}

/// Writes `v` as a 64-bit little-endian field at `pos`, leaving every other
/// byte unchanged.
pub fn write_u64(s: &mut Vec<u8>, pos: usize, v: u64)
    requires
        pos + 8 <= old(s).len(),
    ensures
        final(s)@.len() == old(s)@.len(),
        spec_u64_at(final(s)@, pos as int) == v as int,
        forall|i: int|
            0 <= i < old(s)@.len() && !(pos <= i < pos + 8) ==> final(s)@[i] == old(s)@[i],
{
    let b0 = (v % 0x100) as u8;
    let r1 = v / 0x100;
    let b1 = (r1 % 0x100) as u8;
    let r2 = r1 / 0x100;
    let b2 = (r2 % 0x100) as u8;
    let r3 = r2 / 0x100;
    let b3 = (r3 % 0x100) as u8;
    let r4 = r3 / 0x100;
    let b4 = (r4 % 0x100) as u8;
    let r5 = r4 / 0x100;
    let b5 = (r5 % 0x100) as u8;
    let r6 = r5 / 0x100;
    let b6 = (r6 % 0x100) as u8;
    let r7 = r6 / 0x100;
    let b7 = (r7 % 0x100) as u8;
    s.set(pos, b0);
    s.set(pos + 1, b1);
    s.set(pos + 2, b2);
    s.set(pos + 3, b3);
    s.set(pos + 4, b4);
    s.set(pos + 5, b5);
    s.set(pos + 6, b6);
    s.set(pos + 7, b7);
}

/// Copies `count` bytes from `src` to a disjoint position `dst` within the
/// same buffer, leaving every other byte unchanged.
pub fn copy_within(v: &mut Vec<u8>, src: usize, dst: usize, count: usize)
    requires
        src + count <= old(v).len(),
        dst + count <= old(v).len(),
        src + count <= dst || dst + count <= src,
    ensures
        final(v)@.len() == old(v)@.len(),
        forall|x: int| 0 <= x < count ==> #[trigger] final(v)@[dst + x] == old(v)@[src + x],
        forall|q: int|
            0 <= q < old(v)@.len() && !(dst <= q < dst + count) ==> final(v)@[q] == old(v)@[q],
{
    let mut x: usize = 0;
    while x < count
        invariant
            src + count <= old(v).len(),
            dst + count <= old(v).len(),
            src + count <= dst || dst + count <= src,
            v@.len() == old(v)@.len(),
            0 <= x <= count,
            forall|y: int| 0 <= y < x ==> #[trigger] v@[dst + y] == old(v)@[src + y],
            forall|q: int|
                0 <= q < old(v)@.len() && !(dst <= q < dst + x) ==> v@[q] == old(v)@[q],
        decreases count - x,
    {
        let b = v[src + x];
        v.set(dst + x, b);
        x += 1;
    }
}

/// Sets `count` bytes from `start` to zero, leaving every other byte
/// unchanged.
pub fn zero_range(v: &mut Vec<u8>, start: usize, count: usize)
    requires
        start + count <= old(v).len(),
    ensures
        final(v)@.len() == old(v)@.len(),
        forall|x: int| 0 <= x < count ==> #[trigger] final(v)@[start + x] == 0u8,
        forall|q: int|
            0 <= q < old(v)@.len() && !(start <= q < start + count) ==> final(v)@[q] == old(v)@[q],
{
    let mut x: usize = 0;
    while x < count
        invariant
            start + count <= old(v).len(),
            v@.len() == old(v)@.len(),
            0 <= x <= count,
            forall|y: int| start <= y < start + x ==> #[trigger] v@[y] == 0u8,
            forall|q: int|
                0 <= q < old(v)@.len() && !(start <= q < start + x) ==> v@[q] == old(v)@[q],
        decreases count - x,
    {
        v.set(start + x, 0);
        x += 1;
    }
}

} // verus!
