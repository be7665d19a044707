//! Core of a pedagogical operating-system kernel: an on-disk file system with
//! a block cache, bitmap allocators and multi-level inode indexing, plus the
//! task subsystem's Banker's-style deadlock detector.
//!
//! The block device is modelled as an in-memory array of 512-byte blocks; all
//! state (cache, filesystem, process bookkeeping) is passed explicitly through
//! the call tree, so every operation is an ordinary function on plain values.

use vstd::prelude::*;

pub mod bitmap;
pub mod block_cache;
pub mod layout;
pub mod block_dev;
pub mod efs;
pub mod sync_ctrl;
pub mod task_ctrl;
pub mod vfs;

verus! {

/// Size in bytes of one device block.
pub const BLOCK_SZ: usize = 512;

/// `b` with `data` written at offset `off`; bytes outside that range keep
/// their old value.
pub open spec fn splice_bytes(b: Seq<u8>, off: int, data: Seq<u8>) -> Seq<u8> {
    Seq::new(b.len(), |k: int| if off <= k < off + data.len() {
        data[k - off]
    } else {
        b[k]
    })
}

/// Little-endian value of four bytes.
pub open spec fn le32(b0: u8, b1: u8, b2: u8, b3: u8) -> int {
    b0 + 0x100 * b1 + 0x1_0000 * b2 + 0x100_0000 * b3
}

/// Little-endian `u32` stored at `off` in a byte sequence.
pub open spec fn le32_at(s: Seq<u8>, off: int) -> int {
    le32(s[off], s[off + 1], s[off + 2], s[off + 3])
}

/// Combine four bytes, little-endian first, into a `u32`.
pub fn u32_from_le(b0: u8, b1: u8, b2: u8, b3: u8) -> (r: u32)
    ensures
        r == le32(b0, b1, b2, b3),
{
    b0 as u32 + 0x100u32 * b1 as u32 + 0x1_0000u32 * b2 as u32 + 0x100_0000u32 * b3 as u32
}

/// The little-endian bytes of a `u32`, lowest first.
pub fn u32_to_le(x: u32) -> (r: (u8, u8, u8, u8))
    ensures
        le32(r.0, r.1, r.2, r.3) == x,
{
    let b0: u8 = (x % 0x100) as u8;
    let b1: u8 = ((x / 0x100) % 0x100) as u8;
    let b2: u8 = ((x / 0x1_0000) % 0x100) as u8;
    let b3: u8 = ((x / 0x100_0000) % 0x100) as u8;
    assert(le32(b0, b1, b2, b3) == x) by (bit_vector)
        requires
            b0 == (x % 0x100) as u8 && b1 == ((x / 0x100) % 0x100) as u8 && b2 == ((x
                / 0x1_0000) % 0x100) as u8 && b3 == ((x / 0x100_0000) % 0x100) as u8,
    ;
    (b0, b1, b2, b3)
}

/// Append the four little-endian bytes of `x` to `v`.
pub fn push_u32(v: &mut Vec<u8>, x: u32)
    requires
        old(v)@.len() + 4 <= usize::MAX,
    ensures
        final(v)@.len() == old(v)@.len() + 4,
        forall|j: int| 0 <= j < old(v)@.len() ==> final(v)@[j] == old(v)@[j],
        le32_at(final(v)@, old(v)@.len() as int) == x,
{
    let b = u32_to_le(x);
    v.push(b.0);
    v.push(b.1);
    v.push(b.2);
    v.push(b.3);
}

} // verus!
