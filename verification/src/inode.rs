//! The on-disk inode: direct, indirect1 and indirect2 block indexing.
//!
//! An inode is 128 bytes, four to a block: the file size, 28 direct
//! block pointers, one pointer to an index block of 128 further pointers
//! (indirect1), one pointer to an index block of pointers to such index
//! blocks (indirect2), and the inode type. File-local block `seq` lives
//! at `direct[seq]` for `seq < 28`, in the indirect1 block for
//! `28 <= seq < 156`, and under indirect2 beyond that.
use vstd::prelude::*;
use crate::block_cache::BlockCacheManager;
use crate::block_dev::{BlockDevice, BLOCK_SIZE};
use crate::bytes::{enc32, le32_at, lemma_enc32_le32, push_u32_le, read_u32, write_u32};

verus! {

/// Bytes of one inode record.
pub const INODE_SIZE: u32 = 128;

/// Inode records per block.
pub const INODES_PER_BLOCK: u32 = 4;

/// Number of direct block pointers.
pub const INODE_DIRECT_COUNT: u32 = 28;

/// Block pointers held by one index block.
pub const INODE_INDIRECT_COUNT: u32 = 128;

/// Highest file-local block reachable through indirect1, exclusive.
pub const INODE_INDIRECT1_LIMIT: u32 = 156;

/// Largest number of data blocks one inode can index.
pub const INODE_MAX_DATA_BLOCKS: u32 = 16540;

/// Largest file size in bytes.
pub const INODE_MAX_SIZE: u32 = 8468480;

#[derive(Clone, Copy, PartialEq, Eq, Structural, Debug)]
pub enum INodeType {
    File,
    Directory,
}

/// In-memory copy of one on-disk inode record.
#[derive(Clone, Debug)]
pub struct DiskINode {
    pub size: u32,
    pub direct: Vec<u32>,
    pub indirect1: u32,
    pub indirect2: u32,
    pub _type: INodeType,
}

/// Data blocks needed for a file of `size` bytes.
pub open spec fn spec_data_blocks_for(size: int) -> int {
    (size + 511) / 512
}

/// Index blocks needed for `d` data blocks: none while the direct
/// pointers suffice, the indirect1 block after that, and beyond 156 the
/// indirect2 block plus one first-level index block per 128 data blocks.
pub open spec fn spec_index_blocks_for_blocks(d: int) -> int {
    if d <= 28 {
        0
    } else if d <= 156 {
        1
    } else {
        2 + (d - 156 + 127) / 128
    }
}

impl DiskINode {
    /// The direct pointer array has its fixed width.
    pub open spec fn basic_wf(self) -> bool {
        self.direct@.len() == INODE_DIRECT_COUNT as int
    }

    /// Number of data blocks the file occupies.
    pub open spec fn spec_data_blocks(self) -> int {
        spec_data_blocks_for(self.size as int)
    }

    /// Id of the `t`-th first-level index block under indirect2.
    pub open spec fn spec_sub_index_id(self, disk: Seq<Seq<u8>>, t: int) -> int {
        sub_entry(disk, self.indirect2 as int, t)
    }

    /// Disk block id of file-local block `seq`.
    pub open spec fn spec_block_id(self, disk: Seq<Seq<u8>>, seq: int) -> int {
        if seq < 28 {
            self.direct@[seq] as int
        } else if seq < 156 {
            le32_at(disk[self.indirect1 as int], 4 * (seq - 28))
        } else {
            le32_at(
                disk[self.spec_sub_index_id(disk, (seq - 156) / 128)],
                4 * ((seq - 156) % 128),
            )
        }
    }

    /// Byte `i` of the file's content.
    pub open spec fn spec_byte(self, disk: Seq<Seq<u8>>, i: int) -> u8 {
        disk[self.spec_block_id(disk, i / 512)][i % 512]
    }

    /// The index structure is in range for every block of the file.
    pub open spec fn index_wf(self, disk: Seq<Seq<u8>>) -> bool {
        let d = self.spec_data_blocks();
        &&& self.basic_wf()
        &&& self.size <= INODE_MAX_SIZE
        &&& d > 28 ==> 0 < self.indirect1 < disk.len()
        &&& d > 156 ==> 0 < self.indirect2 < disk.len()
        &&& d > 156 ==> forall|t: int|
            0 <= t <= (d - 157) / 128 ==> 0 < #[trigger] self.spec_sub_index_id(disk, t)
                < disk.len()
    }

    /// Every data block id of the file is in range.
    pub open spec fn data_wf(self, disk: Seq<Seq<u8>>) -> bool {
        forall|s: int|
            0 <= s < self.spec_data_blocks() ==> 0 < #[trigger] self.spec_block_id(disk, s)
                < disk.len()
    }

    /// Whether `b` is one of the file's index blocks.
    pub open spec fn is_index_block(self, disk: Seq<Seq<u8>>, b: int) -> bool {
        let d = self.spec_data_blocks();
        ||| (d > 28 && b == self.indirect1 as int)
        ||| (d > 156 && b == self.indirect2 as int)
        ||| (d > 156 && exists|t: int|
            0 <= t <= (d - 157) / 128 && #[trigger] self.spec_sub_index_id(disk, t) == b)
    }

    /// Whether `b` is one of the file's data blocks.
    pub open spec fn is_data_block(self, disk: Seq<Seq<u8>>, b: int) -> bool {
        exists|s: int|
            0 <= s < self.spec_data_blocks() && #[trigger] self.spec_block_id(disk, s) == b
    }

    /// Data blocks are pairwise distinct and disjoint from the index
    /// blocks, and the index blocks are pairwise distinct, so a write to
    /// one file byte touches no other block.
    pub open spec fn disjoint_wf(self, disk: Seq<Seq<u8>>) -> bool {
        let d = self.spec_data_blocks();
        &&& forall|s1: int, s2: int|
            0 <= s1 < s2 < d ==> #[trigger] self.spec_block_id(disk, s1) != #[trigger] self.spec_block_id(disk, s2)
        &&& forall|s: int|
            0 <= s < d ==> !self.is_index_block(disk, #[trigger] self.spec_block_id(disk, s))
        &&& d > 156 ==> forall|t1: int, t2: int|
            0 <= t1 < t2 <= (d - 157) / 128 ==> #[trigger] self.spec_sub_index_id(disk, t1)
                != #[trigger] self.spec_sub_index_id(disk, t2)
        &&& d > 156 ==> forall|t: int|
            0 <= t <= (d - 157) / 128 ==> #[trigger] self.spec_sub_index_id(disk, t)
                != self.indirect1 as int && self.spec_sub_index_id(disk, t)
                != self.indirect2 as int
        &&& d > 156 ==> self.indirect1 != self.indirect2
    }

    /// Full well-formedness against a disk.
    pub open spec fn wf(self, disk: Seq<Seq<u8>>) -> bool {
        &&& self.index_wf(disk)
        &&& self.data_wf(disk)
        &&& self.disjoint_wf(disk)
    }

    /// A fresh empty inode of the given type.
    pub fn empty(_type: INodeType) -> (r: Self)
        ensures
            r.basic_wf(),
            r.size == 0,
            r.indirect1 == 0,
            r.indirect2 == 0,
            r._type == _type,
            forall|i: int| 0 <= i < 28 ==> #[trigger] r.direct@[i] == 0u32,
    {
        let mut direct: Vec<u32> = Vec::new();
        let mut i: usize = 0;
        while i < 28
            invariant
                i <= 28,
                direct@.len() == i,
                forall|j: int| 0 <= j < i ==> #[trigger] direct@[j] == 0u32,
            decreases 28 - i,
        {
            direct.push(0u32);
            i = i + 1;
        }
        DiskINode { size: 0, direct, indirect1: 0, indirect2: 0, _type }
    }

    /// Reset to an empty inode of the given type.
    pub fn init(&mut self, _type: INodeType)
        ensures
            final(self).basic_wf(),
            final(self).size == 0,
            final(self).indirect1 == 0,
            final(self).indirect2 == 0,
            final(self)._type == _type,
            forall|i: int| 0 <= i < 28 ==> #[trigger] final(self).direct@[i] == 0u32,
    {
        let fresh = Self::empty(_type);
        *self = fresh;
    }

    /// Whether this inode is a directory.
    pub fn is_dir(&self) -> (r: bool)
        ensures
            r == (self._type is Directory),
    {
        match self._type {
            INodeType::Directory => true,
            INodeType::File => false,
        }
    }

    /// Data blocks the file occupies now.
    pub fn data_blocks(&self) -> (r: u32)
        requires
            self.size as int + 511 <= u32::MAX as int,
        ensures
            r as int == self.spec_data_blocks(),
    {
        Self::data_blocks_for_size(self.size)
    }

    /// Data blocks needed for a file of `size` bytes.
    pub fn data_blocks_for_size(size: u32) -> (r: u32)
        requires
            size as int + 511 <= u32::MAX as int,
        ensures
            r as int == spec_data_blocks_for(size as int),
    {
        (size + 511) / 512
    }

    /// Index blocks needed for a file of `size` bytes.
    pub fn index_blocks_for_size(size: u32) -> (r: u32)
        requires
            size as int + 511 <= u32::MAX as int,
        ensures
            r as int == spec_index_blocks_for_blocks(spec_data_blocks_for(size as int)),
    {
        let data_blocks = Self::data_blocks_for_size(size);
        if data_blocks <= 28 {
            0
        } else if data_blocks <= 156 {
            1
        } else {
            2 + (data_blocks - 156 + 127) / 128
        }
    }

    /// Disk blocks the file occupies in all: data, index, and the inode
    /// record itself.
    pub fn total_blocks(&self) -> (r: u32)
        requires
            self.size <= INODE_MAX_SIZE,
        ensures
            r as int == self.spec_data_blocks() + spec_index_blocks_for_blocks(
                self.spec_data_blocks(),
            ) + 1,
    {
        self.data_blocks() + Self::index_blocks_for_size(self.size) + 1
    }

    /// Disk block id of file-local block `seq`, resolved through the
    /// direct pointers or the index blocks.
    pub fn get_block_id<D: BlockDevice>(&self, seq: u32, mgr: &mut BlockCacheManager<D>) -> (r:
        u32)
        requires
            old(mgr).wf(),
            self.index_wf(old(mgr).disk()),
            seq < self.spec_data_blocks(),
        ensures
            final(mgr).wf(),
            final(mgr).disk() == old(mgr).disk(),
            r as int == self.spec_block_id(old(mgr).disk(), seq as int),
    {
        proof {
            lemma_data_blocks_le_max(self.size as int);
        }
        if seq < 28 {
            self.direct[seq as usize]
        } else if seq < 156 {
            read_u32(mgr, self.indirect1 as usize, (4 * (seq - 28)) as usize)
        } else {
            let j = seq - 156;
            proof {
                lemma_div_mod_128(j as int, self.spec_data_blocks() - 157);
            }
            let sub = read_u32(mgr, self.indirect2 as usize, (4 * (j / 128)) as usize);
            proof {
                assert(sub as int == self.spec_sub_index_id(old(mgr).disk(), j as int / 128));
                assert(0 < self.spec_sub_index_id(old(mgr).disk(), j as int / 128) < old(
                    mgr,
                ).disk().len());
            }
            read_u32(mgr, sub as usize, (4 * (j % 128)) as usize)
        }
    }

    /// Disk block id holding byte `offset` of the file.
    pub fn get_block_from_offset<D: BlockDevice>(
        &self,
        offset: u32,
        mgr: &mut BlockCacheManager<D>,
    ) -> (r: u32)
        requires
            old(mgr).wf(),
            self.index_wf(old(mgr).disk()),
            offset as int / 512 < self.spec_data_blocks(),
        ensures
            final(mgr).wf(),
            final(mgr).disk() == old(mgr).disk(),
            r as int == self.spec_block_id(old(mgr).disk(), offset as int / 512),
    {
        self.get_block_id(offset / 512, mgr)
    }

    /// Read `len` bytes of the file starting at byte `offset`, splitting
    /// at block boundaries.
    pub fn read<D: BlockDevice>(&self, offset: u32, len: u32, mgr: &mut BlockCacheManager<D>) -> (r:
        Vec<u8>)
        requires
            old(mgr).wf(),
            self.index_wf(old(mgr).disk()),
            self.data_wf(old(mgr).disk()),
            offset + len <= self.size,
        ensures
            final(mgr).wf(),
            final(mgr).disk() == old(mgr).disk(),
            r@.len() == len,
            forall|j: int|
                0 <= j < len ==> r@[j] == self.spec_byte(old(mgr).disk(), offset + j),
    {
        let ghost disk0 = mgr.disk();
        proof {
            mgr.lemma_disk_wf();
            lemma_data_blocks_le_max(self.size as int);
        }
        let mut buf: Vec<u8> = Vec::new();
        let end = offset + len;
        let mut cur = offset;
        while cur < end
            invariant
                self.index_wf(disk0),
                self.data_wf(disk0),
                self.size <= INODE_MAX_SIZE,
                mgr.wf(),
                mgr.disk() == disk0,
                disk0 == old(mgr).disk(),
                forall|b: int|
                    0 <= b < disk0.len() ==> (#[trigger] disk0[b]).len() == BLOCK_SIZE as int,
                offset <= cur <= end,
                end == offset + len,
                end <= self.size,
                buf@.len() == cur - offset,
                forall|j: int| 0 <= j < cur - offset ==> buf@[j] == self.spec_byte(disk0, offset + j),
            decreases end - cur,
        {
            let seq = cur / 512;
            let inner = cur % 512;
            proof {
                lemma_div_lt_data_blocks(cur as int, self.size as int);
            }
            let bound = (seq + 1) * 512;
            let chunk_end = if end < bound {
                end
            } else {
                bound
            };
            let n = chunk_end - cur;
            proof {
                assert(cur as int == seq as int * 512 + inner as int);
                assert(inner as int + n as int <= 512);
            }
            let bid = self.get_block_id(seq, mgr);
            let chunk = mgr.read_range(bid as usize, inner as usize, n as usize);
            let mut t: usize = 0;
            while t < n as usize
                invariant
                    t <= n,
                    chunk@.len() == n,
                    buf@.len() == cur - offset + t,
                    offset <= cur,
                    cur as int + n as int <= offset as int + len as int,
                    forall|j: int|
                        0 <= j < cur - offset ==> buf@[j] == self.spec_byte(disk0, offset + j),
                    forall|j: int|
                        cur - offset <= j < cur - offset + t ==> buf@[j] == chunk@[j - (cur
                            - offset)],
                decreases n as int - t,
            {
                buf.push(chunk[t]);
                t = t + 1;
            }
            proof {
                assert forall|j: int| cur - offset <= j < cur - offset + n implies buf@[j]
                    == self.spec_byte(disk0, offset + j) by {
                    let i = offset + j;
                    let off_in = i - seq as int * 512;
                    lemma_block_byte(seq as int, off_in);
                    assert(chunk@[j - (cur - offset)] == disk0[bid as int][inner as int + (j - (cur
                        - offset))]);
                }
            }
            cur = chunk_end;
        }
        buf
    }
}

impl DiskINode {
    /// If the index blocks keep their contents, every block id of the
    /// file stays the same.
    pub proof fn lemma_index_blocks_stable(self, disk0: Seq<Seq<u8>>, disk1: Seq<Seq<u8>>)
        requires
            self.index_wf(disk0),
            disk1.len() == disk0.len(),
            self.spec_data_blocks() > 28 ==> disk1[self.indirect1 as int] == disk0[self.indirect1 as int],
            self.spec_data_blocks() > 156 ==> disk1[self.indirect2 as int] == disk0[self.indirect2 as int],
            self.spec_data_blocks() > 156 ==> forall|t: int|
                0 <= t <= (self.spec_data_blocks() - 157) / 128
                    ==> disk1[#[trigger] self.spec_sub_index_id(disk0, t)]
                    == disk0[self.spec_sub_index_id(disk0, t)],
        ensures
            forall|s: int|
                0 <= s < self.spec_data_blocks() ==> #[trigger] self.spec_block_id(disk1, s)
                    == self.spec_block_id(disk0, s),
            forall|t: int|
                self.spec_data_blocks() > 156 && 0 <= t <= (self.spec_data_blocks() - 157)
                    / 128 ==> #[trigger] self.spec_sub_index_id(disk1, t)
                    == self.spec_sub_index_id(disk0, t),
            self.index_wf(disk1),
    {
        let d = self.spec_data_blocks();
        if d > 156 {
            assert forall|t: int| 0 <= t <= (d - 157) / 128 implies #[trigger] self.spec_sub_index_id(
                disk1,
                t,
            ) == self.spec_sub_index_id(disk0, t) by {
            }
        }
        assert forall|s: int| 0 <= s < d implies #[trigger] self.spec_block_id(disk1, s)
            == self.spec_block_id(disk0, s) by {
            if s >= 156 {
                let t = (s - 156) / 128;
                lemma_div_mod_128(s - 156, d - 157);
                assert(self.spec_sub_index_id(disk1, t) == self.spec_sub_index_id(disk0, t));
                assert(disk1[self.spec_sub_index_id(disk0, t)] == disk0[self.spec_sub_index_id(
                    disk0,
                    t,
                )]);
            }
        }
    }

    /// Replacing the contents of data blocks leaves the index structure,
    /// and with it every block id of the file, unchanged.
    pub proof fn lemma_index_stable(self, disk0: Seq<Seq<u8>>, disk1: Seq<Seq<u8>>)
        requires
            self.wf(disk0),
            disk1.len() == disk0.len(),
            forall|b: int|
                0 <= b < disk0.len() && !self.is_data_block(disk0, b) ==> disk1[b] == disk0[b],
        ensures
            forall|s: int|
                0 <= s < self.spec_data_blocks() ==> #[trigger] self.spec_block_id(disk1, s)
                    == self.spec_block_id(disk0, s),
            forall|t: int|
                self.spec_data_blocks() > 156 && 0 <= t <= (self.spec_data_blocks() - 157)
                    / 128 ==> #[trigger] self.spec_sub_index_id(disk1, t)
                    == self.spec_sub_index_id(disk0, t),
            self.index_wf(disk1),
    {
        let d = self.spec_data_blocks();
        if d > 28 {
            assert(!self.is_data_block(disk0, self.indirect1 as int)) by {
                if self.is_data_block(disk0, self.indirect1 as int) {
                    let s = choose|s: int|
                        0 <= s < d && #[trigger] self.spec_block_id(disk0, s)
                            == self.indirect1 as int;
                    assert(self.is_index_block(disk0, self.spec_block_id(disk0, s)));
                }
            }
            assert(disk1[self.indirect1 as int] == disk0[self.indirect1 as int]);
        }
        if d > 156 {
            assert(!self.is_data_block(disk0, self.indirect2 as int)) by {
                if self.is_data_block(disk0, self.indirect2 as int) {
                    let s = choose|s: int|
                        0 <= s < d && #[trigger] self.spec_block_id(disk0, s)
                            == self.indirect2 as int;
                    assert(self.is_index_block(disk0, self.spec_block_id(disk0, s)));
                }
            }
            assert(disk1[self.indirect2 as int] == disk0[self.indirect2 as int]);
            assert forall|t: int| 0 <= t <= (d - 157) / 128 implies #[trigger] self.spec_sub_index_id(
                disk1,
                t,
            ) == self.spec_sub_index_id(disk0, t) by {
            }
            assert forall|t: int| 0 <= t <= (d - 157) / 128 implies disk1[self.spec_sub_index_id(
                disk0,
                t,
            )] == disk0[self.spec_sub_index_id(disk0, t)] by {
                let b = self.spec_sub_index_id(disk0, t);
                if self.is_data_block(disk0, b) {
                    let s = choose|s: int|
                        0 <= s < d && #[trigger] self.spec_block_id(disk0, s) == b;
                    assert(self.is_index_block(disk0, self.spec_block_id(disk0, s)));
                }
            }
        }
        assert forall|s: int| 0 <= s < d implies #[trigger] self.spec_block_id(disk1, s)
            == self.spec_block_id(disk0, s) by {
            if s >= 156 {
                let t = (s - 156) / 128;
                lemma_div_mod_128(s - 156, d - 157);
                assert(self.spec_sub_index_id(disk1, t) == self.spec_sub_index_id(disk0, t));
                assert(disk1[self.spec_sub_index_id(disk0, t)] == disk0[self.spec_sub_index_id(
                    disk0,
                    t,
                )]);
            }
        }
    }

    /// Write `data` into the file starting at byte `offset`, splitting
    /// at block boundaries. Only the file's own data blocks change, and
    /// of the file's bytes only the written range.
    pub fn write<D: BlockDevice>(&self, offset: u32, data: &Vec<u8>, mgr: &mut BlockCacheManager<
        D,
    >)
        requires
            old(mgr).wf(),
            self.wf(old(mgr).disk()),
            offset as int + data@.len() <= self.size,
        ensures
            final(mgr).wf(),
            final(mgr).disk().len() == old(mgr).disk().len(),
            self.wf(final(mgr).disk()),
            forall|s: int|
                0 <= s < self.spec_data_blocks() ==> #[trigger] self.spec_block_id(
                    final(mgr).disk(),
                    s,
                ) == self.spec_block_id(old(mgr).disk(), s),
            forall|i: int|
                offset <= i < offset + data@.len() ==> self.spec_byte(final(mgr).disk(), i)
                    == data@[i - offset],
            forall|i: int|
                0 <= i < self.size && !(offset <= i < offset + data@.len()) ==> self.spec_byte(
                    final(mgr).disk(),
                    i,
                ) == self.spec_byte(old(mgr).disk(), i),
            forall|b: int|
                0 <= b < old(mgr).disk().len() && !self.is_data_block(old(mgr).disk(), b)
                    ==> final(mgr).disk()[b] == old(mgr).disk()[b],
    {
        let ghost disk0 = mgr.disk();
        let ghost d = self.spec_data_blocks();
        proof {
            mgr.lemma_disk_wf();
            lemma_data_blocks_le_max(self.size as int);
        }
        let len = data.len() as u32;
        let end = offset + len;
        let mut cur = offset;
        while cur < end
            invariant
                self.wf(disk0),
                self.size <= INODE_MAX_SIZE,
                d == self.spec_data_blocks(),
                mgr.wf(),
                mgr.disk().len() == disk0.len(),
                disk0 == old(mgr).disk(),
                data@.len() == len,
                forall|b: int|
                    0 <= b < disk0.len() ==> (#[trigger] disk0[b]).len() == BLOCK_SIZE as int,
                offset <= cur <= end,
                end == offset + len,
                end <= self.size,
                cur == offset || cur % 512 == 0 || cur == end,
                forall|b: int|
                    0 <= b < disk0.len() && !self.is_data_block(disk0, b) ==> mgr.disk()[b]
                        == disk0[b],
                forall|s: int|
                    0 <= s < d ==> #[trigger] self.spec_block_id(mgr.disk(), s)
                        == self.spec_block_id(disk0, s),
                self.index_wf(mgr.disk()),
                forall|i: int|
                    offset <= i < cur ==> self.spec_byte(mgr.disk(), i) == data@[i - offset],
                forall|i: int|
                    0 <= i < self.size && !(offset <= i < cur) ==> self.spec_byte(mgr.disk(), i)
                        == self.spec_byte(disk0, i),
            decreases end - cur,
        {
            let ghost diskc = mgr.disk();
            let seq = cur / 512;
            let inner = cur % 512;
            proof {
                lemma_div_lt_data_blocks(cur as int, self.size as int);
            }
            let bound = (seq + 1) * 512;
            let chunk_end = if end < bound {
                end
            } else {
                bound
            };
            let n = chunk_end - cur;
            proof {
                assert(cur as int == seq as int * 512 + inner as int);
                assert(inner as int + n as int <= 512);
            }
            let bid = self.get_block_id(seq, mgr);
            proof {
                mgr.lemma_disk_wf();
                assert(self.spec_block_id(disk0, seq as int) == bid as int);
                assert(0 < bid as int && (bid as int) < disk0.len());
            }
            let chunk = crate::block_dev::clone_range(data, (cur - offset) as usize, n as usize);
            mgr.write_range(bid as usize, inner as usize, &chunk);
            proof {
                let bi = bid as int;
                assert(diskc[bi].len() == BLOCK_SIZE as int);
                assert(mgr.disk()[bi] == crate::block_cache::splice_bytes(
                    diskc[bi],
                    inner as int,
                    chunk@,
                ));
                assert(self.is_data_block(disk0, bi)) by {
                    assert(self.spec_block_id(disk0, seq as int) == bi);
                }
                // frame over non-data blocks
                assert forall|b: int|
                    0 <= b < disk0.len() && !self.is_data_block(disk0, b) implies mgr.disk()[b]
                    == disk0[b] by {
                    assert(b != bi);
                    assert(mgr.disk()[b] == diskc[b]);
                }
                // the index structure is untouched
                self.lemma_index_stable(disk0, mgr.disk());
                // bytes of the block just written
                assert forall|i: int| cur <= i < cur + n implies self.spec_byte(mgr.disk(), i)
                    == data@[i - offset] by {
                    let r2 = i - seq as int * 512;
                    lemma_block_byte(seq as int, r2);
                    assert(i / 512 == seq as int && i % 512 == r2);
                    assert(inner as int <= r2 < inner as int + n as int);
                    assert(self.spec_block_id(mgr.disk(), i / 512) == bi);
                    assert(mgr.disk()[bi][r2] == chunk@[r2 - inner as int]);
                    assert(chunk@[r2 - inner as int] == data@[cur as int - offset as int + (r2
                        - inner as int)]);
                }
                // bytes written in earlier iterations
                assert forall|i: int| offset <= i < cur implies self.spec_byte(mgr.disk(), i)
                    == data@[i - offset] by {
                    lemma_div_lt_data_blocks(i as int, self.size as int);
                    let s2 = i / 512;
                    assert(s2 < seq) by {
                        if cur == offset {
                        } else {
                            assert(cur % 512 == 0);
                            assert(i < cur);
                            lemma_div_below_boundary(i, seq as int);
                        }
                    }
                    assert(self.spec_block_id(disk0, s2) != bi);
                    assert(self.spec_byte(mgr.disk(), i) == self.spec_byte(diskc, i));
                }
                // bytes outside the window written so far
                assert forall|i: int|
                    0 <= i < self.size && !(offset <= i < cur + n) implies self.spec_byte(
                    mgr.disk(),
                    i,
                ) == self.spec_byte(disk0, i) by {
                    lemma_div_lt_data_blocks(i as int, self.size as int);
                    let s2 = i / 512;
                    if s2 == seq {
                        assert(self.spec_block_id(mgr.disk(), s2) == bi);
                        let r2 = i % 512;
                        assert(i == s2 * 512 + r2);
                        assert(r2 < inner as int || r2 >= inner as int + n) by {
                            if cur == offset {
                                assert(i < offset || i >= cur + n);
                            } else {
                                assert(inner == 0);
                                assert(i >= cur + n || i < cur);
                                if i < cur {
                                    lemma_div_below_boundary(i, seq as int);
                                }
                            }
                        }
                        assert(mgr.disk()[bi][r2] == diskc[bi][r2]);
                        assert(self.spec_byte(diskc, i) == self.spec_byte(disk0, i));
                    } else {
                        assert(self.spec_block_id(disk0, s2) != bi);
                        assert(self.spec_byte(mgr.disk(), i) == self.spec_byte(diskc, i));
                    }
                }
            }
            proof {
                if chunk_end == bound {
                    assert(bound as int % 512 == 0) by (nonlinear_arith)
                        requires
                            bound as int == (seq as int + 1) * 512,
                    ;
                }
            }
            cur = chunk_end;
        }
        proof {
            assert(self.data_wf(mgr.disk()));
            assert forall|s1: int, s2: int| 0 <= s1 < s2 < d implies #[trigger] self.spec_block_id(
                mgr.disk(),
                s1,
            ) != #[trigger] self.spec_block_id(mgr.disk(), s2) by {
            }
            assert forall|s: int| 0 <= s < d implies !self.is_index_block(
                mgr.disk(),
                #[trigger] self.spec_block_id(mgr.disk(), s),
            ) by {
                let b = self.spec_block_id(mgr.disk(), s);
                assert(b == self.spec_block_id(disk0, s));
                assert(!self.is_index_block(disk0, b));
                if self.is_index_block(mgr.disk(), b) {
                    if d > 156 {
                        let t = choose|t: int|
                            0 <= t <= (d - 157) / 128 && #[trigger] self.spec_sub_index_id(
                                mgr.disk(),
                                t,
                            ) == b;
                        if self.spec_sub_index_id(mgr.disk(), t) == b {
                            assert(self.spec_sub_index_id(disk0, t) == b);
                        }
                    }
                }
            }
            if d > 156 {
                assert forall|t1: int, t2: int| 0 <= t1 < t2 <= (d - 157)
                    / 128 implies #[trigger] self.spec_sub_index_id(mgr.disk(), t1)
                    != #[trigger] self.spec_sub_index_id(mgr.disk(), t2) by {
                    assert(self.spec_sub_index_id(mgr.disk(), t1) == self.spec_sub_index_id(
                        disk0,
                        t1,
                    ));
                    assert(self.spec_sub_index_id(mgr.disk(), t2) == self.spec_sub_index_id(
                        disk0,
                        t2,
                    ));
                }
                assert forall|t: int| 0 <= t <= (d - 157) / 128 implies #[trigger] self.spec_sub_index_id(
                    mgr.disk(),
                    t,
                ) != self.indirect1 as int && self.spec_sub_index_id(mgr.disk(), t)
                    != self.indirect2 as int by {
                    assert(self.spec_sub_index_id(mgr.disk(), t) == self.spec_sub_index_id(
                        disk0,
                        t,
                    ));
                }
            }
        }
    }
}

/// The `t`-th pointer held by index block `ind2`.
pub open spec fn sub_entry(disk: Seq<Seq<u8>>, ind2: int, t: int) -> int {
    le32_at(disk[ind2], 4 * t)
}

/// Whether `b` occurs in the list `l` of block ids.
pub open spec fn in_u32_list(l: Seq<u32>, b: int) -> bool {
    exists|j: int| 0 <= j < l.len() && l[j] as int == b
}

impl DiskINode {
    /// The blocks handed to `increse_size` are usable: in range,
    /// pairwise distinct, and not yet used by this inode.
    pub open spec fn fresh_blocks(
        self,
        disk: Seq<Seq<u8>>,
        new_blocks: Seq<u32>,
        index_blocks: Seq<u32>,
    ) -> bool {
        let all = new_blocks + index_blocks;
        &&& forall|j: int|
            0 <= j < all.len() ==> 0 < (#[trigger] all[j]) as int && (all[j] as int) < disk.len()
        &&& forall|j1: int, j2: int|
            0 <= j1 < j2 < all.len() ==> (#[trigger] all[j1]) as int != (#[trigger] all[j2]) as int
        &&& forall|j: int|
            0 <= j < all.len() ==> !self.is_data_block(disk, (#[trigger] all[j]) as int)
                && !self.is_index_block(disk, all[j] as int)
    }

    /// Grow the file to `new_size`, wiring the preallocated data blocks
    /// into the next free index slots: direct pointers first, then the
    /// indirect1 block, then first-level blocks under indirect2. The
    /// index blocks needed along the way are taken from `index_blocks`.
    #[verifier::rlimit(100)]
    pub fn increse_size<D: BlockDevice>(
        &mut self,
        new_size: u32,
        new_blocks: Vec<u32>,
        index_blocks: Vec<u32>,
        mgr: &mut BlockCacheManager<D>,
    )
        requires
            old(mgr).wf(),
            old(self).wf(old(mgr).disk()),
            old(self).size <= new_size <= INODE_MAX_SIZE,
            new_blocks@.len() == spec_data_blocks_for(new_size as int) - old(
                self,
            ).spec_data_blocks(),
            index_blocks@.len() == spec_index_blocks_for_blocks(
                spec_data_blocks_for(new_size as int),
            ) - spec_index_blocks_for_blocks(old(self).spec_data_blocks()),
            old(self).fresh_blocks(old(mgr).disk(), new_blocks@, index_blocks@),
        ensures
            final(mgr).wf(),
            final(mgr).disk().len() == old(mgr).disk().len(),
            final(self).size == new_size,
            final(self)._type == old(self)._type,
            final(self).wf(final(mgr).disk()),
            forall|s: int|
                0 <= s < old(self).spec_data_blocks() ==> #[trigger] final(self).spec_block_id(
                    final(mgr).disk(),
                    s,
                ) == old(self).spec_block_id(old(mgr).disk(), s),
            forall|s: int|
                old(self).spec_data_blocks() <= s < spec_data_blocks_for(new_size as int)
                    ==> #[trigger] final(self).spec_block_id(final(mgr).disk(), s)
                    == new_blocks@[s - old(self).spec_data_blocks()] as int,
            forall|i: int|
                0 <= i < old(self).size ==> #[trigger] final(self).spec_byte(final(mgr).disk(), i)
                    == old(self).spec_byte(old(mgr).disk(), i),
            forall|b: int|
                0 <= b < old(mgr).disk().len() && !old(self).is_index_block(old(mgr).disk(), b)
                    && !in_u32_list(index_blocks@, b) ==> final(mgr).disk()[b] == old(
                    mgr,
                ).disk()[b],
            spec_data_blocks_for(new_size as int) > 28 ==> (old(self).spec_data_blocks() > 28
                && final(self).indirect1 == old(self).indirect1) || in_u32_list(
                index_blocks@,
                final(self).indirect1 as int,
            ),
            spec_data_blocks_for(new_size as int) <= 28 ==> final(self).indirect1 == old(
                self,
            ).indirect1,
            spec_data_blocks_for(new_size as int) <= 156 ==> final(self).indirect2 == old(
                self,
            ).indirect2,
            spec_data_blocks_for(new_size as int) > 156 ==> (old(self).spec_data_blocks() > 156
                && final(self).indirect2 == old(self).indirect2) || in_u32_list(
                index_blocks@,
                final(self).indirect2 as int,
            ),
            spec_data_blocks_for(new_size as int) > 156 ==> forall|t: int|
                0 <= t <= (spec_data_blocks_for(new_size as int) - 157) / 128 ==> old(
                    self,
                ).is_index_block(
                    old(mgr).disk(),
                    #[trigger] final(self).spec_sub_index_id(final(mgr).disk(), t),
                ) || in_u32_list(
                    index_blocks@,
                    final(self).spec_sub_index_id(final(mgr).disk(), t),
                ),
    {
        let ghost ino0 = *old(self);
        let ghost disk0 = mgr.disk();
        let ghost nbl = new_blocks@;
        let ghost ibl = index_blocks@;
        proof {
            mgr.lemma_disk_wf();
            lemma_data_blocks_le_max(new_size as int);
            lemma_data_blocks_le_max(self.size as int);
            let all = nbl + ibl;
            assert forall|j: int| 0 <= j < ibl.len() implies 0 < (#[trigger] ibl[j]) as int && (
            ibl[j] as int) < disk0.len() && !ino0.is_data_block(disk0, ibl[j] as int)
                && !ino0.is_index_block(disk0, ibl[j] as int) by {
                assert(all[nbl.len() + j] == ibl[j]);
            }
            assert forall|j: int| 0 <= j < nbl.len() implies 0 < (#[trigger] nbl[j]) as int && (
            nbl[j] as int) < disk0.len() && !ino0.is_data_block(disk0, nbl[j] as int)
                && !ino0.is_index_block(disk0, nbl[j] as int) by {
                assert(all[j] == nbl[j]);
            }
            assert forall|j1: int, j2: int| 0 <= j1 < ibl.len() && 0 <= j2 < ibl.len() && j1
                != j2 implies (#[trigger] ibl[j1]) as int != (#[trigger] ibl[j2]) as int by {
                assert(all[nbl.len() + j1] == ibl[j1]);
                assert(all[nbl.len() + j2] == ibl[j2]);
            }
            assert forall|j1: int, j2: int| 0 <= j1 < nbl.len() && 0 <= j2 < nbl.len() && j1
                != j2 implies (#[trigger] nbl[j1]) as int != (#[trigger] nbl[j2]) as int by {
                assert(all[j1] == nbl[j1]);
                assert(all[j2] == nbl[j2]);
            }
            assert forall|j1: int, j2: int| 0 <= j1 < nbl.len() && 0 <= j2 < ibl.len() implies (
            #[trigger] nbl[j1]) as int != (#[trigger] ibl[j2]) as int by {
                assert(all[j1] == nbl[j1]);
                assert(all[nbl.len() + j2] == ibl[j2]);
            }
        }
        let d_old = Self::data_blocks_for_size(self.size);
        let d_new = Self::data_blocks_for_size(new_size);
        let ghost tmax: int = if d_new > 156 {
            (d_new as int - 157) / 128
        } else {
            -1
        };
        proof {
            if d_new > 156 {
                lemma_div_mod_128(d_new as int - 157, INODE_MAX_DATA_BLOCKS as int - 157);
                lemma_sub_count(d_old as int, d_new as int);
            }
        }
        self.size = new_size;
        let il = index_blocks.len();
        let mut idx_used: usize = 0;
        if d_old <= 28 && d_new > 28 {
            self.indirect1 = index_blocks[idx_used];
            idx_used = idx_used + 1;
        }
        if d_old <= 156 && d_new > 156 {
            self.indirect2 = index_blocks[idx_used];
            idx_used = idx_used + 1;
        }
        let ghost ind1n = self.indirect1 as int;
        let ghost ind2n = self.indirect2 as int;
        let ghost base = idx_used as int;
        if d_new > 156 {
            let t_lo: u32 = if d_old > 156 {
                (d_old - 157) / 128 + 1
            } else {
                0
            };
            let t_hi: u32 = (d_new - 157) / 128;
            proof {
                if d_old > 156 {
                    lemma_div_mod_128(d_old as int - 157, d_new as int - 157);
                }
                assert(base + (t_hi + 1 - t_lo) == ibl.len());
            }
            let mut t = t_lo;
            while t <= t_hi
                invariant
                    mgr.wf(),
                    mgr.disk().len() == disk0.len(),
                    disk0 == old(mgr).disk(),
                    forall|b: int|
                        0 <= b < disk0.len() ==> (#[trigger] disk0[b]).len() == BLOCK_SIZE as int,
                    0 < ind2n && ind2n < disk0.len(),
                    self.indirect2 as int == ind2n,
                    t_lo <= t && t <= t_hi + 1,
                    t_hi <= 127,
                    idx_used == base + (t - t_lo),
                    base + (t_hi + 1 - t_lo) == ibl.len(),
                    il == ibl.len(),
                    ibl == index_blocks@,
                    forall|b: int|
                        0 <= b < disk0.len() && b != ind2n ==> mgr.disk()[b] == disk0[b],
                    forall|t2: int|
                        0 <= t2 < t_lo ==> #[trigger] sub_entry(mgr.disk(), ind2n, t2)
                            == sub_entry(disk0, ind2n, t2),
                    forall|t2: int|
                        t_lo <= t2 < t ==> #[trigger] sub_entry(mgr.disk(), ind2n, t2) == ibl[base
                            + (t2 - t_lo)] as int,
                decreases t_hi + 1 - t,
            {
                proof {
                    mgr.lemma_disk_wf();
                }
                let ghost diskp = mgr.disk();
                let v = index_blocks[idx_used];
                write_u32(mgr, self.indirect2 as usize, (4 * t) as usize, v);
                proof {
                    assert forall|t2: int| 0 <= t2 < t implies #[trigger] sub_entry(
                        mgr.disk(),
                        ind2n,
                        t2,
                    ) == sub_entry(diskp, ind2n, t2) by {
                        crate::bytes::lemma_le32_splice_disjoint(
                            diskp[ind2n],
                            4 * t as int,
                            enc32(v),
                            4 * t2,
                        );
                    }
                    assert(sub_entry(mgr.disk(), ind2n, t as int) == v as int);
                    assert(idx_used < il);
                }
                idx_used = idx_used + 1;
                t = t + 1;
            }
        }
        // Between the phases: the whole index skeleton is in place.
        let ghost diska = mgr.disk();
        proof {
            if d_new > 156 {
                assert forall|t2: int| 0 <= t2 <= tmax implies 0 < #[trigger] sub_entry(
                    diska,
                    ind2n,
                    t2,
                ) && sub_entry(diska, ind2n, t2) < disk0.len() && !ino0.is_data_block(
                    disk0,
                    sub_entry(diska, ind2n, t2),
                ) && !in_u32_list(nbl, sub_entry(diska, ind2n, t2)) && sub_entry(diska, ind2n, t2)
                    != ind1n && sub_entry(diska, ind2n, t2) != ind2n && (ino0.is_index_block(
                    disk0,
                    sub_entry(diska, ind2n, t2),
                ) || in_u32_list(ibl, sub_entry(diska, ind2n, t2))) by {
                    let t_lo: int = if d_old > 156 {
                        (d_old as int - 157) / 128 + 1
                    } else {
                        0
                    };
                    if t2 < t_lo {
                        assert(d_old > 156);
                        assert(sub_entry(diska, ind2n, t2) == ino0.spec_sub_index_id(disk0, t2));
                        assert(ino0.is_index_block(disk0, ino0.spec_sub_index_id(disk0, t2)));
                        assert(!in_u32_list(nbl, sub_entry(diska, ind2n, t2))) by {
                            if in_u32_list(nbl, sub_entry(diska, ind2n, t2)) {
                                let j = choose|j: int|
                                    0 <= j < nbl.len() && nbl[j] as int == sub_entry(
                                        diska,
                                        ind2n,
                                        t2,
                                    );
                                assert(!ino0.is_index_block(disk0, nbl[j] as int));
                            }
                        }
                    } else {
                        let v = ibl[base + (t2 - t_lo)];
                        assert(sub_entry(diska, ind2n, t2) == v as int);
                        assert(in_u32_list(ibl, v as int));
                        assert(!in_u32_list(nbl, v as int)) by {
                            if in_u32_list(nbl, v as int) {
                                let j = choose|j: int| 0 <= j < nbl.len() && nbl[j] as int
                                    == v as int;
                            }
                        }
                        if d_old > 28 && d_old <= 156 {
                            assert(ino0.is_index_block(disk0, ino0.indirect1 as int));
                        }
                        if d_old > 156 {
                            assert(ino0.is_index_block(disk0, ino0.indirect1 as int));
                            assert(ino0.is_index_block(disk0, ino0.indirect2 as int));
                        }
                    }
                }
                assert forall|t1: int, t2: int| 0 <= t1 < t2 <= tmax implies #[trigger] sub_entry(
                    diska,
                    ind2n,
                    t1,
                ) != #[trigger] sub_entry(diska, ind2n, t2) by {
                    let t_lo: int = if d_old > 156 {
                        (d_old as int - 157) / 128 + 1
                    } else {
                        0
                    };
                    if t1 < t_lo && t2 < t_lo {
                        assert(sub_entry(diska, ind2n, t1) == ino0.spec_sub_index_id(disk0, t1));
                        assert(sub_entry(diska, ind2n, t2) == ino0.spec_sub_index_id(disk0, t2));
                    } else if t1 < t_lo {
                        assert(sub_entry(diska, ind2n, t1) == ino0.spec_sub_index_id(disk0, t1));
                        assert(ino0.is_index_block(disk0, ino0.spec_sub_index_id(disk0, t1)));
                        assert(sub_entry(diska, ind2n, t2) == ibl[base + (t2 - t_lo)] as int);
                        assert(!ino0.is_index_block(disk0, ibl[base + (t2 - t_lo)] as int));
                    } else {
                        assert(sub_entry(diska, ind2n, t1) == ibl[base + (t1 - t_lo)] as int);
                        assert(sub_entry(diska, ind2n, t2) == ibl[base + (t2 - t_lo)] as int);
                    }
                }
            }
            // entries below the old block count still resolve as before
            assert forall|s2: int| 0 <= s2 < d_old implies #[trigger] self.spec_block_id(
                diska,
                s2,
            ) == ino0.spec_block_id(disk0, s2) by {
                if s2 < 28 {
                } else if s2 < 156 {
                    assert(d_old > 28);
                    assert(ind1n == ino0.indirect1 as int);
                    assert(diska[ind1n] == disk0[ind1n]) by {
                        if d_new > 156 {
                            assert(ind1n != ind2n) by {
                                if d_old > 156 {
                                } else {
                                    assert(!ino0.is_index_block(disk0, ind2n));
                                    assert(ino0.is_index_block(disk0, ino0.indirect1 as int));
                                }
                            }
                        }
                    }
                } else {
                    assert(d_old > 156);
                    assert(ind2n == ino0.indirect2 as int);
                    let t2 = (s2 - 156) / 128;
                    lemma_div_mod_128(s2 - 156, d_old as int - 157);
                    assert(sub_entry(diska, ind2n, t2) == sub_entry(disk0, ind2n, t2));
                    let b = ino0.spec_sub_index_id(disk0, t2);
                    assert(diska[b] == disk0[b]) by {
                        assert(b != ind2n);
                    }
                }
            }
        }
        let mut s = d_old;
        while s < d_new
            invariant
                mgr.wf(),
                mgr.disk().len() == disk0.len(),
                disk0 == old(mgr).disk(),
                forall|b: int|
                    0 <= b < disk0.len() ==> (#[trigger] disk0[b]).len() == BLOCK_SIZE as int,
                ino0 == *old(self),
                ino0.wf(disk0),
                nbl == new_blocks@,
                ibl == index_blocks@,
                d_old as int == ino0.spec_data_blocks(),
                d_new as int == spec_data_blocks_for(new_size as int),
                d_old <= s && s <= d_new,
                d_new <= INODE_MAX_DATA_BLOCKS,
                nbl.len() == d_new - d_old,
                tmax == if d_new > 156 {
                    (d_new as int - 157) / 128
                } else {
                    -1
                },
                tmax <= 127,
                self.size == new_size,
                self._type == ino0._type,
                self.direct@.len() == 28,
                self.indirect1 as int == ind1n,
                self.indirect2 as int == ind2n,
                d_new > 28 ==> 0 < ind1n && ind1n < disk0.len(),
                d_new > 156 ==> 0 < ind2n && ind2n < disk0.len(),
                d_new > 28 ==> !ino0.is_data_block(disk0, ind1n) && !in_u32_list(nbl, ind1n),
                d_new > 156 ==> !ino0.is_data_block(disk0, ind2n) && !in_u32_list(nbl, ind2n)
                    && ind1n != ind2n,
                d_new > 28 && d_old > 28 ==> ind1n == ino0.indirect1 as int,
                d_new > 156 && d_old > 156 ==> ind2n == ino0.indirect2 as int,
                d_new > 28 && d_old <= 28 ==> in_u32_list(ibl, ind1n),
                d_new > 156 && d_old <= 156 ==> in_u32_list(ibl, ind2n),
                forall|t2: int|
                    0 <= t2 <= tmax ==> #[trigger] sub_entry(mgr.disk(), ind2n, t2) == sub_entry(
                        diska,
                        ind2n,
                        t2,
                    ),
                d_new > 156 ==> forall|t2: int|
                    0 <= t2 <= tmax ==> 0 < #[trigger] sub_entry(diska, ind2n, t2) && sub_entry(
                        diska,
                        ind2n,
                        t2,
                    ) < disk0.len() && !ino0.is_data_block(disk0, sub_entry(diska, ind2n, t2))
                        && !in_u32_list(nbl, sub_entry(diska, ind2n, t2)) && sub_entry(
                        diska,
                        ind2n,
                        t2,
                    ) != ind1n && sub_entry(diska, ind2n, t2) != ind2n && (
                    ino0.is_index_block(disk0, sub_entry(diska, ind2n, t2)) || in_u32_list(
                        ibl,
                        sub_entry(diska, ind2n, t2),
                    )),
                d_new > 156 ==> forall|t1: int, t2: int|
                    0 <= t1 < t2 <= tmax ==> #[trigger] sub_entry(diska, ind2n, t1)
                        != #[trigger] sub_entry(diska, ind2n, t2),
                forall|b: int|
                    0 <= b < disk0.len() && !(d_new > 28 && b == ind1n) && !(d_new > 156 && b
                        == ind2n) && !(d_new > 156 && exists|t2: int|
                        0 <= t2 <= tmax && #[trigger] sub_entry(diska, ind2n, t2) == b)
                        ==> mgr.disk()[b] == disk0[b],
                forall|s2: int|
                    0 <= s2 < d_old ==> #[trigger] self.spec_block_id(mgr.disk(), s2)
                        == ino0.spec_block_id(disk0, s2),
                forall|s2: int|
                    d_old <= s2 < s ==> #[trigger] self.spec_block_id(mgr.disk(), s2) == nbl[s2
                        - d_old] as int,
            decreases d_new - s,
        {
            let ghost diskc = mgr.disk();
            let ghost selfc = *self;
            let nb = new_blocks[(s - d_old) as usize];
            if s < 28 {
                self.direct.set(s as usize, nb);
                proof {
                    assert forall|s2: int|
                        0 <= s2 < s + 1 && s2 != s implies #[trigger] self.spec_block_id(
                        mgr.disk(),
                        s2,
                    ) == selfc.spec_block_id(diskc, s2) by {
                        if s2 < 28 {
                            assert(self.direct@[s2] == selfc.direct@[s2]);
                        }
                    }
                    assert(self.spec_block_id(mgr.disk(), s as int) == nb as int);
                }
            } else if s < 156 {
                proof {
                    mgr.lemma_disk_wf();
                }
                write_u32(mgr, self.indirect1 as usize, (4 * (s - 28)) as usize, nb);
                proof {
                    assert forall|t2: int| 0 <= t2 <= tmax implies #[trigger] sub_entry(
                        mgr.disk(),
                        ind2n,
                        t2,
                    ) == sub_entry(diska, ind2n, t2) by {
                        assert(ind1n != ind2n);
                        assert(mgr.disk()[ind2n] == diskc[ind2n]);
                        assert(sub_entry(diskc, ind2n, t2) == sub_entry(diska, ind2n, t2));
                    }
                    assert forall|s2: int| 0 <= s2 < s + 1 && s2 != s implies #[trigger] self.spec_block_id(
                        mgr.disk(),
                        s2,
                    ) == selfc.spec_block_id(diskc, s2) by {
                        if 28 <= s2 && s2 < 156 {
                            crate::bytes::lemma_le32_splice_disjoint(
                                diskc[ind1n],
                                4 * (s as int - 28),
                                enc32(nb),
                                4 * (s2 - 28),
                            );
                        } else if s2 >= 156 {
                            let t2 = (s2 - 156) / 128;
                            lemma_div_mod_128(s2 - 156, d_new as int - 157);
                            assert(sub_entry(mgr.disk(), ind2n, t2) == sub_entry(
                                diskc,
                                ind2n,
                                t2,
                            ));
                            let b = sub_entry(diska, ind2n, t2);
                            assert(mgr.disk()[b] == diskc[b]) by {
                                assert(b != ind1n);
                            }
                        }
                    }
                    assert(self.spec_block_id(mgr.disk(), s as int) == nb as int);
                }
            } else {
                proof {
                    mgr.lemma_disk_wf();
                    lemma_div_mod_128(s as int - 156, d_new as int - 157);
                }
                let j = s - 156;
                let sub = read_u32(mgr, self.indirect2 as usize, (4 * (j / 128)) as usize);
                proof {
                    assert(sub as int == sub_entry(diskc, ind2n, j as int / 128));
                    assert(sub_entry(diskc, ind2n, j as int / 128) == sub_entry(
                        diska,
                        ind2n,
                        j as int / 128,
                    ));
                }
                write_u32(mgr, sub as usize, (4 * (j % 128)) as usize, nb);
                proof {
                    let tcur = j as int / 128;
                    let bcur = sub_entry(diska, ind2n, tcur);
                    assert forall|t2: int| 0 <= t2 <= tmax implies #[trigger] sub_entry(
                        mgr.disk(),
                        ind2n,
                        t2,
                    ) == sub_entry(diska, ind2n, t2) by {
                        assert(bcur != ind2n);
                        assert(mgr.disk()[ind2n] == diskc[ind2n]);
                        assert(sub_entry(diskc, ind2n, t2) == sub_entry(diska, ind2n, t2));
                    }
                    assert forall|s2: int| 0 <= s2 < s + 1 && s2 != s implies #[trigger] self.spec_block_id(
                        mgr.disk(),
                        s2,
                    ) == selfc.spec_block_id(diskc, s2) by {
                        if 28 <= s2 && s2 < 156 {
                            assert(mgr.disk()[ind1n] == diskc[ind1n]) by {
                                assert(bcur != ind1n);
                            }
                        } else if s2 >= 156 {
                            let t2 = (s2 - 156) / 128;
                            lemma_div_mod_128(s2 - 156, d_new as int - 157);
                            assert(sub_entry(mgr.disk(), ind2n, t2) == sub_entry(
                                diskc,
                                ind2n,
                                t2,
                            ));
                            let b = sub_entry(diska, ind2n, t2);
                            if t2 == tcur {
                                assert((s2 - 156) % 128 != (s as int - 156) % 128) by {
                                    lemma_same_t_distinct_mod(s2 - 156, s as int - 156);
                                }
                                crate::bytes::lemma_le32_splice_disjoint(
                                    diskc[bcur],
                                    4 * ((s as int - 156) % 128),
                                    enc32(nb),
                                    4 * ((s2 - 156) % 128),
                                );
                            } else {
                                assert(mgr.disk()[b] == diskc[b]) by {
                                    if t2 < tcur {
                                        assert(sub_entry(diska, ind2n, t2) != sub_entry(
                                            diska,
                                            ind2n,
                                            tcur,
                                        ));
                                    } else {
                                        assert(sub_entry(diska, ind2n, tcur) != sub_entry(
                                            diska,
                                            ind2n,
                                            t2,
                                        ));
                                    }
                                }
                            }
                        }
                    }
                    assert(self.spec_block_id(mgr.disk(), s as int) == nb as int) by {
                        assert(self.spec_sub_index_id(mgr.disk(), tcur) == bcur);
                        assert(mgr.disk()[bcur][4 * ((s as int - 156) % 128)] == enc32(nb)[0]);
                    }
                }
            }
            s = s + 1;
        }
        proof {
            let diskn = mgr.disk();
            let inon = *self;
            // the final index skeleton is still the one phase A built
            assert forall|t2: int| 0 <= t2 <= tmax implies #[trigger] inon.spec_sub_index_id(
                diskn,
                t2,
            ) == sub_entry(diska, ind2n, t2) by {
            }
            // identify the final id of every file block
            assert forall|s2: int| 0 <= s2 < d_old implies #[trigger] inon.spec_block_id(diskn, s2)
                == ino0.spec_block_id(disk0, s2) by {
            }
            assert forall|s2: int| d_old <= s2 < d_new implies #[trigger] inon.spec_block_id(
                diskn,
                s2,
            ) == nbl[s2 - d_old] as int by {
            }
            // data ids in range
            assert forall|s2: int| 0 <= s2 < d_new implies 0 < #[trigger] inon.spec_block_id(
                diskn,
                s2,
            ) && inon.spec_block_id(diskn, s2) < diskn.len() by {
                if s2 < d_old {
                    assert(ino0.spec_block_id(disk0, s2) == inon.spec_block_id(diskn, s2));
                    assert(0 < ino0.spec_block_id(disk0, s2) && ino0.spec_block_id(disk0, s2)
                        < disk0.len());
                }
            }
            // pairwise distinct data ids
            assert forall|s1: int, s2: int| 0 <= s1 < s2 < d_new implies #[trigger] inon.spec_block_id(
                diskn,
                s1,
            ) != #[trigger] inon.spec_block_id(diskn, s2) by {
                if s2 < d_old {
                } else if s1 < d_old {
                    assert(inon.spec_block_id(diskn, s1) == ino0.spec_block_id(disk0, s1));
                    assert(inon.spec_block_id(diskn, s2) == nbl[s2 - d_old] as int);
                    assert(!ino0.is_data_block(disk0, nbl[s2 - d_old] as int));
                    assert(ino0.spec_block_id(disk0, s1) != nbl[s2 - d_old] as int) by {
                        if ino0.spec_block_id(disk0, s1) == nbl[s2 - d_old] as int {
                            assert(ino0.is_data_block(disk0, nbl[s2 - d_old] as int));
                        }
                    }
                } else {
                    assert(nbl[s1 - d_old] as int != nbl[s2 - d_old] as int);
                }
            }
            // data ids avoid the index blocks
            assert forall|s2: int| 0 <= s2 < d_new implies !inon.is_index_block(
                diskn,
                #[trigger] inon.spec_block_id(diskn, s2),
            ) by {
                let b = inon.spec_block_id(diskn, s2);
                if s2 < d_old {
                    assert(b == ino0.spec_block_id(disk0, s2));
                    assert(!ino0.is_index_block(disk0, b));
                    assert(ino0.is_data_block(disk0, b));
                } else {
                    assert(b == nbl[s2 - d_old] as int);
                    assert(in_u32_list(nbl, b));
                }
                if inon.is_index_block(diskn, b) {
                    if d_new > 28 && b == ind1n {
                        if s2 < d_old {
                            assert(!ino0.is_data_block(disk0, ind1n));
                        } else {
                            assert(!in_u32_list(nbl, ind1n));
                        }
                    } else if d_new > 156 && b == ind2n {
                        if s2 < d_old {
                            assert(!ino0.is_data_block(disk0, ind2n));
                        } else {
                            assert(!in_u32_list(nbl, ind2n));
                        }
                    } else {
                        let t2 = choose|t2: int|
                            0 <= t2 <= tmax && #[trigger] inon.spec_sub_index_id(diskn, t2) == b;
                        assert(sub_entry(diska, ind2n, t2) == b);
                        if s2 < d_old {
                            assert(!ino0.is_data_block(disk0, sub_entry(diska, ind2n, t2)));
                        } else {
                            assert(!in_u32_list(nbl, sub_entry(diska, ind2n, t2)));
                        }
                    }
                }
            }
            // bytes of the old file are untouched
            assert forall|i: int| 0 <= i < ino0.size implies #[trigger] inon.spec_byte(diskn, i)
                == ino0.spec_byte(disk0, i) by {
                lemma_div_lt_data_blocks(i, ino0.size as int);
                let s2 = i / 512;
                let b = ino0.spec_block_id(disk0, s2);
                assert(inon.spec_block_id(diskn, s2) == b);
                assert(ino0.is_data_block(disk0, b));
                assert(diskn[b] == disk0[b]) by {
                    if d_new > 28 && b == ind1n {
                        assert(!ino0.is_data_block(disk0, ind1n));
                    }
                    if d_new > 156 && b == ind2n {
                        assert(!ino0.is_data_block(disk0, ind2n));
                    }
                    if d_new > 156 {
                        if exists|t2: int|
                            0 <= t2 <= tmax && #[trigger] sub_entry(diska, ind2n, t2) == b {
                            let t2 = choose|t2: int|
                                0 <= t2 <= tmax && #[trigger] sub_entry(diska, ind2n, t2) == b;
                            assert(!ino0.is_data_block(disk0, sub_entry(diska, ind2n, t2)));
                        }
                    }
                }
            }
            // frame for the caller
            assert forall|b: int|
                0 <= b < disk0.len() && !ino0.is_index_block(disk0, b) && !in_u32_list(
                    ibl,
                    b,
                ) implies diskn[b] == disk0[b] by {
                if d_new > 28 && b == ind1n {
                    if d_old > 28 {
                        assert(ino0.is_index_block(disk0, ino0.indirect1 as int));
                    } else {
                        assert(in_u32_list(ibl, ind1n));
                    }
                }
                if d_new > 156 && b == ind2n {
                    if d_old > 156 {
                        assert(ino0.is_index_block(disk0, ino0.indirect2 as int));
                    } else {
                        assert(in_u32_list(ibl, ind2n));
                    }
                }
                if d_new > 156 {
                    if exists|t2: int| 0 <= t2 <= tmax && #[trigger] sub_entry(diska, ind2n, t2)
                        == b {
                        let t2 = choose|t2: int|
                            0 <= t2 <= tmax && #[trigger] sub_entry(diska, ind2n, t2) == b;
                        assert(ino0.is_index_block(disk0, b) || in_u32_list(ibl, b));
                    }
                }
            }
            assert(inon.wf(diskn));
        }
    }
}

/// File-local blocks under the same first-level index block have
/// distinct slots in it.
proof fn lemma_same_t_distinct_mod(j1: int, j2: int)
    requires
        0 <= j1,
        0 <= j2,
        j1 != j2,
        j1 / 128 == j2 / 128,
    ensures
        j1 % 128 != j2 % 128,
{
    assert(j1 % 128 != j2 % 128) by (nonlinear_arith)
        requires
            0 <= j1 && 0 <= j2 && j1 != j2 && j1 / 128 == j2 / 128,
    ;
}

/// Growing past 156 data blocks adds exactly the first-level index
/// blocks that the count formula demands.
pub proof fn lemma_sub_count(d_old: int, d_new: int)
    requires
        0 <= d_old <= d_new,
        d_new > 156,
    ensures
        d_old > 156 ==> spec_index_blocks_for_blocks(d_new) - spec_index_blocks_for_blocks(d_old)
            == (d_new - 157) / 128 - (d_old - 157) / 128,
        d_old <= 156 ==> (d_new - 157) / 128 + 1 == spec_index_blocks_for_blocks(d_new) - 2,
{
    assert((d_new - 156 + 127) / 128 == (d_new - 157) / 128 + 1) by (nonlinear_arith)
        requires
            d_new > 156,
    ;
    if d_old > 156 {
        assert((d_old - 156 + 127) / 128 == (d_old - 157) / 128 + 1) by (nonlinear_arith)
            requires
                d_old > 156,
        ;
    }
}


impl DiskINode {
    /// Whether this in-memory inode equals the record stored at byte
    /// `off` of `block`: every field decodes to the same value.
    pub open spec fn matches_disk(self, block: Seq<u8>, off: int) -> bool {
        &&& self.size as int == le32_at(block, off)
        &&& forall|i: int|
            0 <= i < 28 ==> ((#[trigger] self.direct@[i]) as int == le32_at(block, off + 4 + 4 * i))
        &&& self.indirect1 as int == le32_at(block, off + 116)
        &&& self.indirect2 as int == le32_at(block, off + 120)
        &&& ((self._type is Directory) <==> le32_at(block, off + 124) == 1)
    }

    /// Read the inode record at byte `off` of block `block_id`.
    pub fn load<D: BlockDevice>(mgr: &mut BlockCacheManager<D>, block_id: usize, off: usize) -> (r:
        Self)
        requires
            old(mgr).wf(),
            block_id < old(mgr).disk().len(),
            off + INODE_SIZE <= BLOCK_SIZE,
        ensures
            final(mgr).wf(),
            final(mgr).disk() == old(mgr).disk(),
            r.basic_wf(),
            r.matches_disk(old(mgr).disk()[block_id as int], off as int),
    {
        let size = read_u32(mgr, block_id, off);
        let mut direct: Vec<u32> = Vec::new();
        let mut i: usize = 0;
        while i < 28
            invariant
                mgr.wf(),
                mgr.disk() == old(mgr).disk(),
                block_id < mgr.disk().len(),
                off + INODE_SIZE <= BLOCK_SIZE,
                i <= 28,
                direct@.len() == i,
                forall|k: int|
                    0 <= k < i ==> ((#[trigger] direct@[k]) as int == le32_at(
                        mgr.disk()[block_id as int],
                        off + 4 + 4 * k,
                    )),
            decreases 28 - i,
        {
            let v = read_u32(mgr, block_id, off + 4 + 4 * i);
            direct.push(v);
            i = i + 1;
        }
        let indirect1 = read_u32(mgr, block_id, off + 116);
        let indirect2 = read_u32(mgr, block_id, off + 120);
        let tyw = read_u32(mgr, block_id, off + 124);
        let _type = if tyw == 1 {
            INodeType::Directory
        } else {
            INodeType::File
        };
        DiskINode { size, direct, indirect1, indirect2, _type }
    }

    /// Write this inode record at byte `off` of block `block_id`. Only
    /// those 128 bytes of that block change.
    pub fn store<D: BlockDevice>(&self, mgr: &mut BlockCacheManager<D>, block_id: usize, off:
        usize)
        requires
            old(mgr).wf(),
            block_id < old(mgr).disk().len(),
            off + INODE_SIZE <= BLOCK_SIZE,
            self.basic_wf(),
        ensures
            final(mgr).wf(),
            final(mgr).disk().len() == old(mgr).disk().len(),
            self.matches_disk(final(mgr).disk()[block_id as int], off as int),
            forall|b: int|
                0 <= b < old(mgr).disk().len() && b != block_id ==> final(mgr).disk()[b]
                    == old(mgr).disk()[b],
            forall|j: int|
                0 <= j < BLOCK_SIZE && !(off <= j < off + INODE_SIZE)
                    ==> final(mgr).disk()[block_id as int][j]
                    == old(mgr).disk()[block_id as int][j],
    {
        proof {
            mgr.lemma_disk_wf();
        }
        let mut data: Vec<u8> = Vec::new();
        push_u32_le(&mut data, self.size);
        let mut i: usize = 0;
        while i < 28
            invariant
                self.basic_wf(),
                i <= 28,
                data@.len() == 4 + 4 * i,
                data@.subrange(0, 4) == enc32(self.size),
                forall|k: int|
                    0 <= k < i ==> data@.subrange(4 + 4 * k, 8 + 4 * k) == enc32(
                        #[trigger] self.direct@[k],
                    ),
            decreases 28 - i,
        {
            let ghost pre = data@;
            push_u32_le(&mut data, self.direct[i]);
            proof {
                assert(data@.subrange(0, 4) =~= pre.subrange(0, 4));
                assert forall|k: int| 0 <= k < i + 1 implies data@.subrange(4 + 4 * k, 8 + 4 * k)
                    == enc32(#[trigger] self.direct@[k]) by {
                    if k < i {
                        assert(data@.subrange(4 + 4 * k, 8 + 4 * k) =~= pre.subrange(
                            4 + 4 * k,
                            8 + 4 * k,
                        ));
                    } else {
                        assert(data@.subrange(4 + 4 * k, 8 + 4 * k) =~= enc32(self.direct@[k]));
                    }
                }
            }
            i = i + 1;
        }
        push_u32_le(&mut data, self.indirect1);
        push_u32_le(&mut data, self.indirect2);
        let tyw: u32 = match self._type {
            INodeType::Directory => 1,
            INodeType::File => 0,
        };
        push_u32_le(&mut data, tyw);
        let ghost full = data@;
        mgr.write_range(block_id, off, &data);
        proof {
            let nb = mgr.disk()[block_id as int];
            assert(nb.subrange(off as int, off + 4) =~= enc32(self.size));
            lemma_enc32_le32(self.size, nb, off as int);
            assert forall|k: int| 0 <= k < 28 implies ((#[trigger] self.direct@[k]) as int
                == le32_at(nb, off + 4 + 4 * k)) by {
                assert(full.subrange(4 + 4 * k, 8 + 4 * k) == enc32(self.direct@[k]));
                assert(nb.subrange(off + 4 + 4 * k, off + 8 + 4 * k) =~= full.subrange(
                    4 + 4 * k,
                    8 + 4 * k,
                ));
                lemma_enc32_le32(self.direct@[k], nb, off + 4 + 4 * k);
            }
            assert(nb.subrange(off + 116, off + 120) =~= enc32(self.indirect1));
            lemma_enc32_le32(self.indirect1, nb, off + 116);
            assert(nb.subrange(off + 120, off + 124) =~= enc32(self.indirect2));
            lemma_enc32_le32(self.indirect2, nb, off + 120);
            assert(nb.subrange(off + 124, off + 128) =~= enc32(tyw));
            lemma_enc32_le32(tyw, nb, off + 124);
        }
    }
}

/// A file no larger than the maximum occupies at most the maximum number
/// of data blocks.
pub proof fn lemma_data_blocks_le_max(size: int)
    requires
        0 <= size <= INODE_MAX_SIZE,
    ensures
        spec_data_blocks_for(size) <= INODE_MAX_DATA_BLOCKS,
{
}

/// Byte positions inside a file block recombine: position
/// `seq * 512 + off` lies in block `seq` at offset `off`.
pub proof fn lemma_block_byte(seq: int, off: int)
    requires
        0 <= off < 512,
        0 <= seq,
    ensures
        (seq * 512 + off) / 512 == seq,
        (seq * 512 + off) % 512 == off,
{
    assert((seq * 512 + off) / 512 == seq && (seq * 512 + off) % 512 == off) by (nonlinear_arith)
        requires
            0 <= off < 512 && 0 <= seq,
    ;
}

/// A byte position below the file size lies in a block below the file's
/// block count.
pub proof fn lemma_div_lt_data_blocks(i: int, size: int)
    requires
        0 <= i < size,
    ensures
        0 <= i / 512 < spec_data_blocks_for(size),
        i / 512 * 512 <= i,
        i % 512 == i - i / 512 * 512,
{
    assert(0 <= i / 512 && i / 512 < (size + 511) / 512 && i / 512 * 512 <= i && i % 512 == i - i
        / 512 * 512) by (nonlinear_arith)
        requires
            0 <= i < size,
    ;
}

/// A byte position below a block boundary lies in an earlier block.
pub proof fn lemma_div_below_boundary(i: int, seq: int)
    requires
        0 <= i < seq * 512,
    ensures
        i / 512 < seq,
{
    assert(i / 512 < seq) by (nonlinear_arith)
        requires
            0 <= i < seq * 512,
    ;
}

/// Division and remainder by 128 stay in range for index lookups.
pub proof fn lemma_div_mod_128(j: int, hi: int)
    requires
        0 <= j <= hi,
    ensures
        0 <= j / 128 <= hi / 128,
        0 <= j % 128 < 128,
        4 * (j % 128) + 4 <= 512,
{
    assert(0 <= j / 128 && j / 128 <= hi / 128 && 0 <= j % 128 < 128) by (nonlinear_arith)
        requires
            0 <= j <= hi,
    ;
}

} // verus!
