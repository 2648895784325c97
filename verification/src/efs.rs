//! The file system proper: super block, two bitmaps, inode area, data
//! area.
//!
//! Block layout: `| super | inode bitmap | inodes | data bitmap | data |`.
//! The inode bitmap governs the inode records, the data bitmap the data
//! area. Allocation failures surface as `None` (the disk is full).
use vstd::prelude::*;
use crate::bitmap::{Bitmap, BLOCK_BITS};
use crate::block_cache::BlockCacheManager;
use crate::block_dev::{BlockDevice, BLOCK_SIZE};
use crate::inode::{DiskINode, INodeType, INODES_PER_BLOCK, INODE_SIZE};
use crate::layout::{SuperBlock, FS_MAGIC};

verus! {

/// Whether a device's bytes decode to a mountable file system: a valid
/// magic and recorded sizes that fit the device. `open` succeeds on
/// exactly these devices.
pub open spec fn spec_openable(blocks: Seq<Seq<u8>>) -> bool {
    let sb = SuperBlock::spec_load(blocks);
    &&& 1 <= blocks.len() <= 0x1000_0000
    &&& sb.magic == FS_MAGIC
    &&& 1 <= sb.inode_bitmap_blocks <= 1024
    &&& 1 <= sb.data_bitmap_blocks <= 65536
    &&& 1 + sb.inode_bitmap_blocks as int + sb.inode_bitmap_blocks as int * 1024
        + sb.data_bitmap_blocks as int <= blocks.len()
    &&& blocks.len() <= 1 + sb.inode_bitmap_blocks as int + sb.inode_bitmap_blocks as int * 1024
        + sb.data_bitmap_blocks as int + sb.data_bitmap_blocks as int * 4096
}

/// A mounted file system: the cached device plus the layout bounds read
/// from (or written to) the super block.
pub struct FileSystem<D: BlockDevice> {
    pub mgr: BlockCacheManager<D>,
    pub inode_bitmap: Bitmap,
    pub data_bitmap: Bitmap,
    pub inode_area_start: u32,
    pub data_area_start: u32,
    pub total_blocks: u32,
}

impl<D: BlockDevice> FileSystem<D> {
    /// The logical disk as the file system sees it.
    pub open spec fn disk(self) -> Seq<Seq<u8>> {
        self.mgr.disk()
    }

    /// Layout consistency: the four areas sit in order inside the disk
    /// and the bitmaps govern the right ranges.
    pub open spec fn wf(self) -> bool {
        &&& self.mgr.wf()
        &&& self.disk().len() == self.total_blocks as int
        &&& self.inode_bitmap.first_block == 1
        &&& self.inode_area_start as int == 1 + self.inode_bitmap.blocks as int
        &&& self.data_bitmap.first_block as int == self.inode_area_start as int
            + self.inode_bitmap.blocks as int * (BLOCK_BITS as int / INODES_PER_BLOCK as int)
        &&& self.data_area_start as int == self.data_bitmap.first_block as int
            + self.data_bitmap.blocks as int
        &&& self.data_area_start as int <= self.total_blocks as int
        &&& self.total_blocks as int <= 0x1000_0000
        &&& self.total_blocks as int <= self.data_area_start as int + self.data_bitmap.blocks as int
            * (BLOCK_BITS as int)
        &&& self.inode_bitmap.blocks >= 1
        &&& self.data_bitmap.blocks >= 1
        &&& self.inode_bitmap.fits(self.disk())
        &&& self.data_bitmap.fits(self.disk())
    }

    /// Create a fresh file system on `device`: zero every block, write
    /// the super block, and set up the bitmap bounds.
    pub fn create(device: D, total_blocks: u32, inode_bitmap_blocks: u32) -> (r: Self)
        requires
            device.wf(),
            device.blocks().len() == total_blocks as int,
            total_blocks as int <= 0x1000_0000,
            1 <= inode_bitmap_blocks <= 1024,
            total_blocks as int > 2 + inode_bitmap_blocks as int + inode_bitmap_blocks as int * (
            BLOCK_BITS as int / INODES_PER_BLOCK as int),
        ensures
            r.wf(),
            r.inode_bitmap.blocks == inode_bitmap_blocks,
            r.data_bitmap.blocks as int == (total_blocks as int - inode_bitmap_blocks as int * 1024
                - inode_bitmap_blocks as int - 1 + 4096) / 4097,
            SuperBlock::spec_load(r.disk()) == SuperBlock::new_spec(
                inode_bitmap_blocks,
                r.data_bitmap.blocks,
            ),
            r.inode_bitmap.all_clear(r.disk()),
            r.data_bitmap.all_clear(r.disk()),
            r.total_blocks == total_blocks,
            forall|b: int, j: int|
                1 <= b < total_blocks && 0 <= j < BLOCK_SIZE ==> #[trigger] r.disk()[b][j] == 0u8,
            forall|j: int| 20 <= j < BLOCK_SIZE ==> #[trigger] r.disk()[0][j] == 0u8,
            spec_openable(r.disk()),
    {
        let inode_blocks = inode_bitmap_blocks * ((BLOCK_BITS as u32) / (INODES_PER_BLOCK as u32));
        let remaining = total_blocks - (inode_blocks + inode_bitmap_blocks + 1);
        let data_bitmap_blocks = (remaining + (BLOCK_BITS as u32)) / ((BLOCK_BITS as u32) + 1);
        let data_blocks = data_bitmap_blocks * (BLOCK_BITS as u32);
        proof {
            assert(1 <= ((remaining + 4096) / 4097)) by (nonlinear_arith)
                requires
                    remaining >= 1,
            ;
            assert((remaining + 4096) / 4097 <= remaining) by (nonlinear_arith)
                requires
                    remaining >= 1,
            ;
        }
        let mut mgr = BlockCacheManager::new(device);
        let mut i: u32 = 0;
        while i < total_blocks
            invariant
                mgr.wf(),
                mgr.disk().len() == total_blocks as int,
                i <= total_blocks,
                forall|b: int, j: int|
                    0 <= b < i && 0 <= j < BLOCK_SIZE ==> #[trigger] mgr.disk()[b][j] == 0u8,
            decreases total_blocks - i,
        {
            proof {
                mgr.lemma_disk_wf();
            }
            mgr.clear_block(i as usize);
            i = i + 1;
        }
        let sb = SuperBlock::new(inode_bitmap_blocks, inode_blocks, data_bitmap_blocks, data_blocks);
        sb.store(&mut mgr);
        let fs = FileSystem {
            mgr,
            inode_bitmap: Bitmap::new(1, inode_bitmap_blocks),
            data_bitmap: Bitmap::new(
                1 + inode_bitmap_blocks + inode_blocks,
                data_bitmap_blocks,
            ),
            inode_area_start: 1 + inode_bitmap_blocks,
            data_area_start: 1 + inode_bitmap_blocks + inode_blocks + data_bitmap_blocks,
            total_blocks,
        };
        proof {
            assert(fs.data_area_start as int <= fs.total_blocks as int) by (nonlinear_arith)
                requires
                    fs.data_area_start as int == 1 + inode_bitmap_blocks as int
                        + inode_blocks as int + data_bitmap_blocks as int,
                    fs.total_blocks == total_blocks,
                    inode_blocks as int == inode_bitmap_blocks as int * 1024,
                    remaining as int == total_blocks as int - inode_blocks as int
                        - inode_bitmap_blocks as int - 1,
                    data_bitmap_blocks as int == (remaining as int + 4096) / 4097,
                    remaining >= 1,
            ;
            assert(fs.total_blocks as int <= fs.data_area_start as int
                + data_bitmap_blocks as int * 4096) by (nonlinear_arith)
                requires
                    fs.data_area_start as int == 1 + inode_bitmap_blocks as int
                        + inode_blocks as int + data_bitmap_blocks as int,
                    fs.total_blocks == total_blocks,
                    remaining as int == total_blocks as int - inode_blocks as int
                        - inode_bitmap_blocks as int - 1,
                    data_bitmap_blocks as int == (remaining as int + 4096) / 4097,
                    remaining >= 1,
            ;
            fs.mgr.lemma_disk_wf();
            assert forall|k: int|
                0 <= k < fs.inode_bitmap.spec_total_bits() implies !fs.inode_bitmap.spec_bit(
                fs.disk(),
                k,
            ) by {
                crate::bitmap::lemma_zero_byte_bits(fs.inode_bitmap, fs.disk(), k);
            }
            assert forall|k: int|
                0 <= k < fs.data_bitmap.spec_total_bits() implies !fs.data_bitmap.spec_bit(
                fs.disk(),
                k,
            ) by {
                crate::bitmap::lemma_zero_byte_bits(fs.data_bitmap, fs.disk(), k);
            }
        }
        fs
    }

    /// Open the file system already on `device`: read the super block,
    /// verify its magic, and rebuild the layout bounds. Succeeds on
    /// exactly the devices whose super block is valid and whose
    /// recorded sizes fit; `create` leaves the device in that state.
    pub fn open(device: D) -> (r: Option<Self>)
        requires
            device.wf(),
            device.blocks().len() >= 1,
        ensures
            r is Some <==> spec_openable(device.blocks()),
            match r {
                Some(fs) => {
                    &&& fs.wf()
                    &&& fs.disk() == device.blocks()
                    &&& SuperBlock::spec_load(device.blocks()).magic == FS_MAGIC
                    &&& fs.inode_bitmap.blocks == SuperBlock::spec_load(
                        device.blocks(),
                    ).inode_bitmap_blocks
                    &&& fs.data_bitmap.blocks == SuperBlock::spec_load(
                        device.blocks(),
                    ).data_bitmap_blocks
                },
                None => true,
            },
    {
        let mut mgr = BlockCacheManager::new(device);
        let sb = SuperBlock::load(&mut mgr);
        if !sb.is_valid() {
            return None;
        }
        let num = mgr.device.num_blocks();
        if num > 0x1000_0000usize {
            return None;
        }
        let total = num as u32;
        if sb.inode_bitmap_blocks < 1 || sb.data_bitmap_blocks < 1 {
            return None;
        }
        if sb.inode_bitmap_blocks > 1024 || sb.data_bitmap_blocks > 65536 {
            return None;
        }
        proof {
            assert(sb.inode_bitmap_blocks as int * 1024 <= 1024 * 1024) by (nonlinear_arith)
                requires
                    sb.inode_bitmap_blocks <= 1024,
            ;
        }
        let inode_blocks = sb.inode_bitmap_blocks * ((BLOCK_BITS as u32) / (INODES_PER_BLOCK
            as u32));
        let inode_area_start = 1 + sb.inode_bitmap_blocks;
        let data_bitmap_first = inode_area_start + inode_blocks;
        let data_area_start = data_bitmap_first + sb.data_bitmap_blocks;
        if data_area_start > total {
            return None;
        }
        proof {
            assert(sb.data_bitmap_blocks as int * 4096 <= 65536 * 4096) by (nonlinear_arith)
                requires
                    sb.data_bitmap_blocks <= 65536,
            ;
        }
        if total > data_area_start + sb.data_bitmap_blocks * (BLOCK_BITS as u32) {
            return None;
        }
        let fs = FileSystem {
            mgr,
            inode_bitmap: Bitmap::new(1, sb.inode_bitmap_blocks),
            data_bitmap: Bitmap::new(data_bitmap_first, sb.data_bitmap_blocks),
            inode_area_start,
            data_area_start,
            total_blocks: total,
        };
        Some(fs)
    }

    /// Write everything cached back to the device and hand it back.
    pub fn into_device(self) -> (r: D)
        requires
            self.wf(),
        ensures
            r.wf(),
            r.blocks() == self.disk(),
    {
        let mut mgr = self.mgr;
        mgr.flush();
        mgr.device
    }

    /// Block id, index in that block, and byte offset of inode `inode_id`.
    pub fn get_inode_block_id(&self, inode_id: u32) -> (r: (u32, u32, u32))
        requires
            self.wf(),
            self.inode_area_start as int + inode_id as int / 4 < u32::MAX as int,
        ensures
            r.0 as int == self.inode_area_start as int + inode_id as int / 4,
            r.1 as int == inode_id as int % 4,
            r.2 as int == (inode_id as int % 4) * 128,
            r.2 as int + INODE_SIZE <= BLOCK_SIZE,
    {
        let inode_block = self.inode_area_start + inode_id / (INODES_PER_BLOCK as u32);
        let inner = inode_id % (INODES_PER_BLOCK as u32);
        (inode_block, inner, inner * INODE_SIZE)
    }

    /// Global block id of data-area block `data_id`.
    pub fn get_data_block_id(&self, data_id: u32) -> (r: u32)
        requires
            self.data_area_start as int + data_id as int <= u32::MAX as int,
        ensures
            r as int == self.data_area_start as int + data_id as int,
    {
        self.data_area_start + data_id
    }

    /// Allocate an inode: the lowest clear bit of the inode bitmap.
    /// `None` when every inode is taken.
    pub fn alloc_inode(&mut self) -> (r: Option<u32>)
        requires
            old(self).wf(),
        ensures
            final(self).wf(),
            final(self).same_layout(*old(self)),
            match r {
                None => final(self).disk() == old(self).disk() && old(
                    self,
                ).inode_bitmap.all_set_below(
                    old(self).disk(),
                    old(self).inode_bitmap.spec_total_bits(),
                ),
                Some(k) => {
                    &&& k < old(self).inode_bitmap.spec_total_bits()
                    &&& !old(self).inode_bitmap.spec_bit(old(self).disk(), k as int)
                    &&& old(self).inode_bitmap.all_set_below(old(self).disk(), k as int)
                    &&& final(self).inode_bitmap.spec_bit(final(self).disk(), k as int)
                    &&& forall|k2: int|
                        0 <= k2 < old(self).inode_bitmap.spec_total_bits() && k2 != k
                            ==> final(self).inode_bitmap.spec_bit(final(self).disk(), k2)
                            == old(self).inode_bitmap.spec_bit(old(self).disk(), k2)
                    &&& forall|b: int|
                        0 <= b < old(self).disk().len() && !(1 <= b < old(self).inode_area_start)
                            ==> final(self).disk()[b] == old(self).disk()[b]
                },
            },
    {
        self.inode_bitmap.alloc_block(&mut self.mgr)
    }

    /// The layout bounds are unchanged.
    pub open spec fn same_layout(self, other: Self) -> bool {
        &&& self.inode_bitmap == other.inode_bitmap
        &&& self.data_bitmap == other.data_bitmap
        &&& self.inode_area_start == other.inode_area_start
        &&& self.data_area_start == other.data_area_start
        &&& self.total_blocks == other.total_blocks
        &&& self.disk().len() == other.disk().len()
    }

    /// Allocate a data block and return its global block id. `None`
    /// when the data bitmap, or the disk itself, is exhausted.
    pub fn alloc_data_block(&mut self) -> (r: Option<u32>)
        requires
            old(self).wf(),
        ensures
            final(self).wf(),
            final(self).same_layout(*old(self)),
            forall|b: int|
                0 <= b < old(self).disk().len()
                    && !(old(self).data_bitmap.first_block <= b < old(self).data_area_start)
                    ==> final(self).disk()[b] == old(self).disk()[b],
            forall|k2: int|
                0 <= k2 < old(self).data_bitmap.spec_total_bits() && old(
                    self,
                ).data_bitmap.spec_bit(old(self).disk(), k2) ==> final(self).data_bitmap.spec_bit(
                    final(self).disk(),
                    k2,
                ),
            match r {
                None => final(self).data_bitmap.all_set_below(
                    final(self).disk(),
                    old(self).total_blocks as int - old(self).data_area_start as int,
                ),
                Some(gb) => {
                    &&& old(self).data_bitmap.all_set_below(
                        old(self).disk(),
                        gb as int - old(self).data_area_start as int,
                    )
                    &&& old(self).data_area_start <= gb < old(self).total_blocks
                    &&& !old(self).data_bitmap.spec_bit(
                        old(self).disk(),
                        gb as int - old(self).data_area_start as int,
                    )
                    &&& final(self).data_bitmap.spec_bit(
                        final(self).disk(),
                        gb as int - old(self).data_area_start as int,
                    )
                    &&& forall|k2: int|
                        0 <= k2 < old(self).data_bitmap.spec_total_bits() && k2 != gb as int
                            - old(self).data_area_start as int ==> final(self).data_bitmap.spec_bit(
                            final(self).disk(),
                            k2,
                        ) == old(self).data_bitmap.spec_bit(old(self).disk(), k2)
                },
            },
    {
        let ghost fs0 = *self;
        let got = self.data_bitmap.alloc_block(&mut self.mgr);
        match got {
            None => {
                proof {
                    assert(fs0.total_blocks as int - fs0.data_area_start as int
                        <= fs0.data_bitmap.spec_total_bits());
                }
                None
            },
            Some(k) => {
                if k >= self.total_blocks - self.data_area_start {
                    // the bitmap manages more bits than the disk has
                    // data blocks: past the end means the disk is full
                    proof {
                        assert forall|k2: int|
                            0 <= k2 < fs0.total_blocks as int
                                - fs0.data_area_start as int implies self.data_bitmap.spec_bit(
                            self.disk(),
                            k2,
                        ) by {
                            assert(fs0.data_bitmap.spec_bit(fs0.disk(), k2));
                        }
                    }
                    None
                } else {
                    Some(self.data_area_start + k)
                }
            },
        }
    }

    /// Free data block `block_id`: zero its cached contents and clear
    /// its bitmap bit.
    pub fn dealloc_data_block(&mut self, block_id: u32)
        requires
            old(self).wf(),
            old(self).data_area_start <= block_id < old(self).total_blocks,
        ensures
            final(self).wf(),
            final(self).same_layout(*old(self)),
            !final(self).data_bitmap.spec_bit(
                final(self).disk(),
                block_id as int - old(self).data_area_start as int,
            ),
            forall|j: int|
                0 <= j < BLOCK_SIZE ==> #[trigger] final(self).disk()[block_id as int][j] == 0u8,
            forall|b: int|
                0 <= b < old(self).disk().len() && b != block_id
                    && !(old(self).data_bitmap.first_block <= b < old(self).data_area_start)
                    ==> final(self).disk()[b] == old(self).disk()[b],
    {
        proof {
            self.mgr.lemma_disk_wf();
        }
        self.mgr.clear_block(block_id as usize);
        let seq = block_id - self.data_area_start;
        proof {
            assert((seq as int) < self.data_bitmap.spec_total_bits()) by (nonlinear_arith)
                requires
                    seq as int == block_id as int - self.data_area_start as int,
                    block_id < self.total_blocks,
                    self.total_blocks as int <= self.data_area_start as int
                        + self.data_bitmap.blocks as int * 4096,
                    self.data_bitmap.spec_total_bits() == self.data_bitmap.blocks as int * 4096,
            ;
        }
        self.data_bitmap.dealloc(seq, &mut self.mgr);
    }

    /// Allocate inode 0 and write an empty directory inode there: the
    /// root directory of a fresh file system.
    pub fn create_root_inode(&mut self) -> (r: Option<u32>)
        requires
            old(self).wf(),
        ensures
            final(self).wf(),
            final(self).same_layout(*old(self)),
            r is Some ==> {
                let loc_block = final(self).inode_area_start as int + r.unwrap() as int / 4;
                let loc_off = (r.unwrap() as int % 4) * 128;
                &&& (r.unwrap() as int) < final(self).inode_bitmap.spec_total_bits()
                &&& crate::vfs::stored_is_dir(final(self).disk(), loc_block, loc_off)
                &&& crate::vfs::stored_size(final(self).disk(), loc_block, loc_off) == 0
            },
            r == Some(0u32) ==> (crate::vfs::INode {
                block_id: final(self).inode_area_start,
                block_offset: 0,
            }).stored_dir_ok(*final(self)),
            r == Some(0u32) ==> final(self).inode_bitmap.spec_bit(final(self).disk(), 0),
            old(self).inode_bitmap.all_clear(old(self).disk()) && old(self).wf() ==> r == Some(
                0u32,
            ),
    {
        let ghost fs0 = *self;
        let got = self.alloc_inode();
        match got {
            None => {
                proof {
                    if fs0.inode_bitmap.all_clear(fs0.disk()) {
                        assert(fs0.inode_bitmap.spec_total_bits() >= 4096);
                        assert(fs0.inode_bitmap.spec_bit(fs0.disk(), 0));
                        assert(!fs0.inode_bitmap.spec_bit(fs0.disk(), 0));
                    }
                }
                None
            },
            Some(seq) => {
                proof {
                    if fs0.inode_bitmap.all_clear(fs0.disk()) && seq != 0 {
                        assert(fs0.inode_bitmap.spec_bit(fs0.disk(), 0));
                        assert(!fs0.inode_bitmap.spec_bit(fs0.disk(), 0));
                    }
                    lemma_inode_location(seq as int, self.inode_bitmap.blocks as int);
                }
                let (block_id, _inner, block_off) = self.get_inode_block_id(seq);
                let root = DiskINode::empty(INodeType::Directory);
                root.store(&mut self.mgr, block_id as usize, block_off as usize);
                proof {
                    assert(self.disk()[0] == old(self).disk()[0]);
                    assert(SuperBlock::spec_load(self.disk()) == SuperBlock::spec_load(
                        old(self).disk(),
                    ));
                    if seq == 0 {
                        let b = self.inode_area_start as int;
                        let dbf = self.data_bitmap.first_block as int;
                        let nb = self.inode_bitmap.blocks as int;
                        assert(self.wf());
                        assert(dbf == b + nb * 1024);
                        assert(b < dbf) by (nonlinear_arith)
                            requires
                                dbf == b + nb * 1024,
                                nb >= 1,
                        ;
                        assert(root.matches_disk(self.disk()[b], 0));
                        assert(crate::vfs::inode_ok(*self, root));
                        assert(crate::vfs::stored_inode_ok(*self, b, 0, root));
                        crate::vfs::lemma_loaded_ok(root, *self, b, 0);
                        assert(crate::vfs::stored_size(self.disk(), b, 0) == 0);
                        assert((crate::vfs::INode { block_id: self.inode_area_start, block_offset: 0 }).stored_dir_ok(
                            *self,
                        ));
                    }
                }
                Some(seq)
            },
        }
    }
}

impl<D: BlockDevice> FileSystem<D> {
    /// Handle on the root directory: inode 0, the first record of the
    /// inode area.
    pub fn root_inode(&self) -> (r: crate::vfs::INode)
        ensures
            r.block_id == self.inode_area_start,
            r.block_offset == 0,
    {
        crate::vfs::INode::new(self.inode_area_start, 0)
    }
}

/// An allocated inode index fits inside the inode area.
pub proof fn lemma_inode_location(seq: int, bitmap_blocks: int)
    requires
        0 <= seq < bitmap_blocks * 4096,
    ensures
        0 <= seq / 4 < bitmap_blocks * 1024,
        0 <= seq % 4 < 4,
        (seq % 4) * 128 + 128 <= 512,
{
    assert(0 <= seq / 4 && seq / 4 < bitmap_blocks * 1024 && 0 <= seq % 4 < 4) by (nonlinear_arith)
        requires
            0 <= seq < bitmap_blocks * 4096,
    ;
}

} // verus!
