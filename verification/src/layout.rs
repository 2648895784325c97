//! The on-disk super block.
//!
//! Block 0 holds five little-endian `u32` fields: a magic number and the
//! sizes of the four areas that follow it; the rest of the block is
//! unused. Layout of the disk:
//! `| super | inode bitmap | inodes | data bitmap | data |`.
use vstd::prelude::*;
use crate::block_cache::BlockCacheManager;
use crate::block_dev::BlockDevice;
use crate::bytes::{enc32, le32_at, lemma_enc32_le32, push_u32_le, read_u32, write_u32};

verus! {

/// Magic number that marks a valid file system.
pub const FS_MAGIC: u32 = 0xf3fc;

/// The in-memory copy of the super block.
#[derive(Clone, Copy, PartialEq, Eq, Structural, Debug)]
pub struct SuperBlock {
    pub magic: u32,
    pub inode_bitmap_blocks: u32,
    pub inode_blocks: u32,
    pub data_bitmap_blocks: u32,
    pub data_blocks: u32,
}

impl SuperBlock {
    pub fn new(inode_bitmaps: u32, inodes: u32, data_bitmaps: u32, data_blocks: u32) -> (r: Self)
        ensures
            r.magic == FS_MAGIC,
            r.inode_bitmap_blocks == inode_bitmaps,
            r.inode_blocks == inodes,
            r.data_bitmap_blocks == data_bitmaps,
            r.data_blocks == data_blocks,
    {
        Self {
            magic: FS_MAGIC,
            inode_bitmap_blocks: inode_bitmaps,
            inode_blocks: inodes,
            data_bitmap_blocks: data_bitmaps,
            data_blocks: data_blocks,
        }
    }

    /// Reset every field, restoring the magic number.
    pub fn init(&mut self, inode_bitmaps: u32, inodes: u32, data_bitmaps: u32, data_blocks: u32)
        ensures
            final(self).magic == FS_MAGIC,
            final(self).inode_bitmap_blocks == inode_bitmaps,
            final(self).inode_blocks == inodes,
            final(self).data_bitmap_blocks == data_bitmaps,
            final(self).data_blocks == data_blocks,
    {
        self.magic = FS_MAGIC;
        self.inode_bitmap_blocks = inode_bitmaps;
        self.inode_blocks = inodes;
        self.data_bitmap_blocks = data_bitmaps;
        self.data_blocks = data_blocks;
    }

    /// Whether the magic number marks a valid file system.
    pub fn is_valid(&self) -> (r: bool)
        ensures
            r == (self.magic == FS_MAGIC),
    {
        self.magic == FS_MAGIC
    }

    /// The super block a fresh file system writes, given its two bitmap
    /// sizes.
    pub open spec fn new_spec(ibm: u32, dbm: u32) -> SuperBlock {
        SuperBlock {
            magic: FS_MAGIC,
            inode_bitmap_blocks: ibm,
            inode_blocks: (ibm * 1024) as u32,
            data_bitmap_blocks: dbm,
            data_blocks: (dbm * 4096) as u32,
        }
    }

    /// The super block stored in block 0 of the given disk.
    pub open spec fn spec_load(disk: Seq<Seq<u8>>) -> SuperBlock {
        SuperBlock {
            magic: le32_at(disk[0], 0) as u32,
            inode_bitmap_blocks: le32_at(disk[0], 4) as u32,
            inode_blocks: le32_at(disk[0], 8) as u32,
            data_bitmap_blocks: le32_at(disk[0], 12) as u32,
            data_blocks: le32_at(disk[0], 16) as u32,
        }
    }

    /// Read the super block from block 0.
    pub fn load<D: BlockDevice>(mgr: &mut BlockCacheManager<D>) -> (r: Self)
        requires
            old(mgr).wf(),
            old(mgr).disk().len() > 0,
        ensures
            final(mgr).wf(),
            final(mgr).disk() == old(mgr).disk(),
            r == Self::spec_load(old(mgr).disk()),
    {
        let magic = read_u32(mgr, 0, 0);
        let inode_bitmap_blocks = read_u32(mgr, 0, 4);
        let inode_blocks = read_u32(mgr, 0, 8);
        let data_bitmap_blocks = read_u32(mgr, 0, 12);
        let data_blocks = read_u32(mgr, 0, 16);
        SuperBlock { magic, inode_bitmap_blocks, inode_blocks, data_bitmap_blocks, data_blocks }
    }

    /// Write the super block into block 0. Only the first 20 bytes of
    /// block 0 change.
    pub fn store<D: BlockDevice>(&self, mgr: &mut BlockCacheManager<D>)
        requires
            old(mgr).wf(),
            old(mgr).disk().len() > 0,
        ensures
            final(mgr).wf(),
            final(mgr).disk().len() == old(mgr).disk().len(),
            Self::spec_load(final(mgr).disk()) == *self,
            forall|b: int|
                0 < b < old(mgr).disk().len() ==> final(mgr).disk()[b] == old(mgr).disk()[b],
            forall|i: int|
                20 <= i < final(mgr).disk()[0].len() ==> final(mgr).disk()[0][i] == old(
                    mgr,
                ).disk()[0][i],
    {
        proof {
            mgr.lemma_disk_wf();
        }
        let mut data: Vec<u8> = Vec::new();
        push_u32_le(&mut data, self.magic);
        push_u32_le(&mut data, self.inode_bitmap_blocks);
        push_u32_le(&mut data, self.inode_blocks);
        push_u32_le(&mut data, self.data_bitmap_blocks);
        push_u32_le(&mut data, self.data_blocks);
        mgr.write_range(0, 0, &data);
        proof {
            let nb = mgr.disk()[0];
            assert(nb.subrange(0, 4) =~= enc32(self.magic));
            assert(nb.subrange(4, 8) =~= enc32(self.inode_bitmap_blocks));
            assert(nb.subrange(8, 12) =~= enc32(self.inode_blocks));
            assert(nb.subrange(12, 16) =~= enc32(self.data_bitmap_blocks));
            assert(nb.subrange(16, 20) =~= enc32(self.data_blocks));
            lemma_enc32_le32(self.magic, nb, 0);
            lemma_enc32_le32(self.inode_bitmap_blocks, nb, 4);
            lemma_enc32_le32(self.inode_blocks, nb, 8);
            lemma_enc32_le32(self.data_bitmap_blocks, nb, 12);
            lemma_enc32_le32(self.data_blocks, nb, 16);
            assert(Self::spec_load(mgr.disk()) == *self);
        }
    }
}

} // verus!
