//! Little-endian 32-bit fields inside disk blocks.
//!
//! Every on-disk integer of the file system (super block fields, block
//! pointers, directory inode ids) is a little-endian `u32`. These helpers
//! read and write one such field through the block cache.
use vstd::prelude::*;
use crate::block_cache::{BlockCacheManager, splice_bytes};
use crate::block_dev::{BlockDevice, BLOCK_SIZE};

verus! {

/// The little-endian 32-bit value stored at `off` in `block`.
pub open spec fn le32_at(block: Seq<u8>, off: int) -> int {
    block[off] as int + block[off + 1] as int * 0x100 + block[off + 2] as int * 0x10000 + block[off
        + 3] as int * 0x1000000
}

/// The four little-endian bytes of `v`.
pub open spec fn enc32(v: u32) -> Seq<u8> {
    seq![
        (v as int % 0x100) as u8,
        (v as int / 0x100 % 0x100) as u8,
        (v as int / 0x10000 % 0x100) as u8,
        (v as int / 0x1000000 % 0x100) as u8,
    ]
}

/// Decoding the four encoded bytes gives the value back.
pub proof fn lemma_enc32_le32(v: u32, block: Seq<u8>, off: int)
    requires
        0 <= off,
        off + 4 <= block.len(),
        block.subrange(off, off + 4) == enc32(v),
    ensures
        le32_at(block, off) == v as int,
{
    assert(block[off] == enc32(v)[0]);
    assert(block[off + 1] == enc32(v)[1]);
    assert(block[off + 2] == enc32(v)[2]);
    assert(block[off + 3] == enc32(v)[3]);
}

/// A 32-bit field not overlapping a spliced range is unchanged.
pub proof fn lemma_le32_splice_disjoint(base: Seq<u8>, soff: int, data: Seq<u8>, off: int)
    requires
        0 <= off,
        off + 4 <= base.len(),
        off + 4 <= soff || soff + data.len() <= off,
    ensures
        le32_at(splice_bytes(base, soff, data), off) == le32_at(base, off),
{
}

/// Append the four little-endian bytes of `v` to `data`.
pub fn push_u32_le(data: &mut Vec<u8>, v: u32)
    ensures
        final(data)@ == old(data)@ + enc32(v),
{
    data.push((v % 0x100) as u8);
    data.push((v / 0x100 % 0x100) as u8);
    data.push((v / 0x10000 % 0x100) as u8);
    data.push((v / 0x1000000 % 0x100) as u8);
    proof {
        assert(data@ =~= old(data)@ + enc32(v));
    }
}

/// Read the little-endian `u32` at `off` in block `block_id`.
pub fn read_u32<D: BlockDevice>(mgr: &mut BlockCacheManager<D>, block_id: usize, off: usize) -> (r:
    u32)
    requires
        old(mgr).wf(),
        block_id < old(mgr).disk().len(),
        off + 4 <= BLOCK_SIZE,
    ensures
        final(mgr).wf(),
        final(mgr).disk() == old(mgr).disk(),
        r as int == le32_at(old(mgr).disk()[block_id as int], off as int),
{
    proof {
        mgr.lemma_disk_wf();
    }
    let bytes = mgr.read_range(block_id, off, 4);
    let b0 = bytes[0] as u32;
    let b1 = bytes[1] as u32;
    let b2 = bytes[2] as u32;
    let b3 = bytes[3] as u32;
    b0 + b1 * 0x100 + b2 * 0x10000 + b3 * 0x1000000
}

/// Write `v` as a little-endian `u32` at `off` in block `block_id`.
pub fn write_u32<D: BlockDevice>(
    mgr: &mut BlockCacheManager<D>,
    block_id: usize,
    off: usize,
    v: u32,
)
    requires
        old(mgr).wf(),
        block_id < old(mgr).disk().len(),
        off + 4 <= BLOCK_SIZE,
    ensures
        final(mgr).wf(),
        final(mgr).disk().len() == old(mgr).disk().len(),
        final(mgr).disk() == old(mgr).disk().update(
            block_id as int,
            splice_bytes(old(mgr).disk()[block_id as int], off as int, enc32(v)),
        ),
        le32_at(final(mgr).disk()[block_id as int], off as int) == v as int,
{
    let mut data: Vec<u8> = Vec::new();
    data.push((v % 0x100) as u8);
    data.push((v / 0x100 % 0x100) as u8);
    data.push((v / 0x10000 % 0x100) as u8);
    data.push((v / 0x1000000 % 0x100) as u8);
    proof {
        assert(data@ =~= enc32(v));
    }
    proof {
        mgr.lemma_disk_wf();
    }
    mgr.write_range(block_id, off, &data);
    proof {
        let nb = mgr.disk()[block_id as int];
        assert(nb.subrange(off as int, off as int + 4) =~= enc32(v));
        lemma_enc32_le32(v, nb, off as int);
    }
}


/// The little-endian 16-bit value stored at `off` in `data`.
pub open spec fn le16_at(data: Seq<u8>, off: int) -> int {
    data[off] as int + data[off + 1] as int * 0x100
}

/// The little-endian 64-bit value stored at `off` in `data`.
pub open spec fn le64_at(data: Seq<u8>, off: int) -> int {
    le32_at(data, off) + le32_at(data, off + 4) * 0x1_0000_0000
}

/// Read the little-endian `u16` at `off` of a byte vector.
pub fn read_u16_vec(data: &Vec<u8>, off: usize) -> (r: u16)
    requires
        off + 2 <= data@.len(),
    ensures
        r as int == le16_at(data@, off as int),
{
    let _n = data.len();
    data[off] as u16 + (data[off + 1] as u16) * 0x100
}

/// Read the little-endian `u32` at `off` of a byte vector.
pub fn read_u32_vec(data: &Vec<u8>, off: usize) -> (r: u32)
    requires
        off + 4 <= data@.len(),
    ensures
        r as int == le32_at(data@, off as int),
{
    let _n = data.len();
    data[off] as u32 + (data[off + 1] as u32) * 0x100 + (data[off + 2] as u32) * 0x10000 + (data[off
        + 3] as u32) * 0x1000000
}

/// Read the little-endian `u64` at `off` of a byte vector.
pub fn read_u64_vec(data: &Vec<u8>, off: usize) -> (r: u64)
    requires
        off + 8 <= data@.len(),
    ensures
        r as int == le64_at(data@, off as int),
{
    let _n = data.len();
    let lo = read_u32_vec(data, off) as u64;
    let hi = read_u32_vec(data, off + 4) as u64;
    lo + hi * 0x1_0000_0000
}

} // verus!
