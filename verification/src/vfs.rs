//! The VFS layer: inode handles and directory operations.
//!
//! An `INode` names an on-disk inode record by the block that holds it
//! and the record's byte offset in that block. Every operation takes the
//! file system explicitly and speaks, in its contract, of the record and
//! file bytes stored on the logical disk.
use vstd::prelude::*;
use crate::block_dev::{BlockDevice, BLOCK_SIZE};
use crate::bytes::le32_at;
use crate::dirent::{DirEntry, spec_name_len, NAME_LIMIT};
use crate::efs::FileSystem;
use crate::inode::{
    in_u32_list, sub_entry, spec_data_blocks_for, spec_index_blocks_for_blocks, DiskINode,
    INodeType, INODE_MAX_SIZE, INODE_SIZE,
};

verus! {

/// The size field of the inode record at (`b`, `off`).
pub open spec fn stored_size(disk: Seq<Seq<u8>>, b: int, off: int) -> int {
    le32_at(disk[b], off)
}

/// Direct pointer `i` of the record.
pub open spec fn stored_direct(disk: Seq<Seq<u8>>, b: int, off: int, i: int) -> int {
    le32_at(disk[b], off + 4 + 4 * i)
}

/// The indirect1 pointer of the record.
pub open spec fn stored_ind1(disk: Seq<Seq<u8>>, b: int, off: int) -> int {
    le32_at(disk[b], off + 116)
}

/// The indirect2 pointer of the record.
pub open spec fn stored_ind2(disk: Seq<Seq<u8>>, b: int, off: int) -> int {
    le32_at(disk[b], off + 120)
}

/// Whether the record marks a directory.
pub open spec fn stored_is_dir(disk: Seq<Seq<u8>>, b: int, off: int) -> bool {
    le32_at(disk[b], off + 124) == 1
}

/// Disk block id of file-local block `seq` of the record's file.
pub open spec fn stored_block_id(disk: Seq<Seq<u8>>, b: int, off: int, seq: int) -> int {
    if seq < 28 {
        stored_direct(disk, b, off, seq)
    } else if seq < 156 {
        le32_at(disk[stored_ind1(disk, b, off)], 4 * (seq - 28))
    } else {
        le32_at(
            disk[sub_entry(disk, stored_ind2(disk, b, off), (seq - 156) / 128)],
            4 * ((seq - 156) % 128),
        )
    }
}

/// Byte `i` of the record's file.
pub open spec fn stored_byte(disk: Seq<Seq<u8>>, b: int, off: int, i: int) -> u8 {
    disk[stored_block_id(disk, b, off, i / 512)][i % 512]
}

/// The whole file of the record, as a byte sequence.
pub open spec fn stored_file(disk: Seq<Seq<u8>>, b: int, off: int) -> Seq<u8> {
    Seq::new(stored_size(disk, b, off) as nat, |i: int| stored_byte(disk, b, off, i))
}

/// A loaded copy agrees with the stored record on every derived value.
pub proof fn lemma_loaded_matches(ino: DiskINode, disk: Seq<Seq<u8>>, b: int, off: int)
    requires
        ino.basic_wf(),
        ino.matches_disk(disk[b], off),
    ensures
        ino.size as int == stored_size(disk, b, off),
        ino.indirect1 as int == stored_ind1(disk, b, off),
        ino.indirect2 as int == stored_ind2(disk, b, off),
        (ino._type is Directory) == stored_is_dir(disk, b, off),
        forall|seq: int|
            0 <= seq ==> #[trigger] ino.spec_block_id(disk, seq) == stored_block_id(
                disk,
                b,
                off,
                seq,
            ),
        forall|i: int| 0 <= i ==> #[trigger] ino.spec_byte(disk, i) == stored_byte(disk, b, off, i),
{
    assert forall|seq: int| 0 <= seq implies #[trigger] ino.spec_block_id(disk, seq)
        == stored_block_id(disk, b, off, seq) by {
        if seq < 28 {
            assert(ino.direct@[seq] as int == le32_at(disk[b], off + 4 + 4 * seq));
        }
    }
    assert forall|i: int| 0 <= i implies #[trigger] ino.spec_byte(disk, i) == stored_byte(
        disk,
        b,
        off,
        i,
    ) by {
        assert(0 <= i / 512) by (nonlinear_arith)
            requires
                0 <= i,
        ;
    }
}

/// The inode's blocks are all inside the data area and marked in the
/// data bitmap, and the inode is well-formed against the disk.
pub open spec fn inode_ok<D: BlockDevice>(fs: FileSystem<D>, ino: DiskINode) -> bool {
    &&& ino.basic_wf()
    &&& ino.wf(fs.disk())
    &&& forall|s: int|
        0 <= s < ino.spec_data_blocks() ==> fs.data_area_start as int
            <= #[trigger] ino.spec_block_id(fs.disk(), s) && ino.spec_block_id(fs.disk(), s)
            < fs.total_blocks as int && fs.data_bitmap.spec_bit(
            fs.disk(),
            ino.spec_block_id(fs.disk(), s) - fs.data_area_start as int,
        )
    &&& ino.spec_data_blocks() > 28 ==> fs.data_area_start as int <= ino.indirect1 as int
        && (ino.indirect1 as int) < fs.total_blocks as int && fs.data_bitmap.spec_bit(
        fs.disk(),
        ino.indirect1 as int - fs.data_area_start as int,
    )
    &&& ino.spec_data_blocks() > 156 ==> fs.data_area_start as int <= ino.indirect2 as int
        && (ino.indirect2 as int) < fs.total_blocks as int && fs.data_bitmap.spec_bit(
        fs.disk(),
        ino.indirect2 as int - fs.data_area_start as int,
    )
    &&& ino.spec_data_blocks() > 156 ==> forall|t: int|
        0 <= t <= (ino.spec_data_blocks() - 157) / 128 ==> fs.data_area_start as int
            <= #[trigger] ino.spec_sub_index_id(fs.disk(), t) && ino.spec_sub_index_id(
            fs.disk(),
            t,
        ) < fs.total_blocks as int && fs.data_bitmap.spec_bit(
            fs.disk(),
            ino.spec_sub_index_id(fs.disk(), t) - fs.data_area_start as int,
        )
}

/// The loaded inode equals the stored record and is usable.
pub open spec fn stored_inode_ok<D: BlockDevice>(
    fs: FileSystem<D>,
    b: int,
    off: int,
    ino: DiskINode,
) -> bool {
    &&& ino.matches_disk(fs.disk()[b], off)
    &&& inode_ok(fs, ino)
}

/// A handle on one on-disk inode record.
#[derive(Clone, Copy, PartialEq, Eq, Structural, Debug)]
pub struct INode {
    pub block_id: u32,
    pub block_offset: u32,
}

impl INode {
    pub fn new(block_id: u32, block_offset: u32) -> (r: Self)
        ensures
            r.block_id == block_id,
            r.block_offset == block_offset,
    {
        Self { block_id, block_offset }
    }

    /// The handle names the record of an allocated inode: some inode
    /// id maps to this location and its bit is set in the inode bitmap.
    pub open spec fn backed_by_inode<D: BlockDevice>(self, fs: FileSystem<D>) -> bool {
        exists|did: int|
            0 <= did < fs.inode_bitmap.spec_total_bits() && self.block_id as int
                == fs.inode_area_start as int + did / 4 && self.block_offset as int == (did % 4)
                * 128 && #[trigger] fs.inode_bitmap.spec_bit(fs.disk(), did)
    }

    /// The record's location fits its block.
    pub open spec fn loc_wf<D: BlockDevice>(self, fs: FileSystem<D>) -> bool {
        &&& self.block_id < fs.disk().len()
        &&& self.block_offset as int + INODE_SIZE <= BLOCK_SIZE
    }

    /// Number of directory entries the record's file holds.
    pub open spec fn spec_entry_count(disk: Seq<Seq<u8>>, b: int, off: int) -> int {
        stored_size(disk, b, off) / 32
    }

    /// The raw 28-byte name field of directory entry `e`.
    pub open spec fn spec_entry_raw(disk: Seq<Seq<u8>>, b: int, off: int, e: int) -> Seq<u8> {
        Seq::new(28, |i: int| stored_byte(disk, b, off, 32 * e + i))
    }

    /// The name of directory entry `e`: its field up to the first NUL.
    pub open spec fn spec_entry_name(disk: Seq<Seq<u8>>, b: int, off: int, e: int) -> Seq<u8> {
        let raw = Self::spec_entry_raw(disk, b, off, e);
        raw.subrange(0, spec_name_len(raw, 0))
    }

    /// The inode id of directory entry `e`.
    pub open spec fn spec_entry_id(disk: Seq<Seq<u8>>, b: int, off: int, e: int) -> int {
        stored_byte(disk, b, off, 32 * e + 28) as int + stored_byte(disk, b, off, 32 * e + 29) as int
            * 0x100 + stored_byte(disk, b, off, 32 * e + 30) as int * 0x10000 + stored_byte(
            disk,
            b,
            off,
            32 * e + 31,
        ) as int * 0x1000000
    }

    /// Load the record this handle names.
    pub fn read_disk_inode<D: BlockDevice>(&self, fs: &mut FileSystem<D>) -> (r: DiskINode)
        requires
            old(fs).wf(),
            self.loc_wf(*old(fs)),
        ensures
            final(fs).wf(),
            final(fs).disk() == old(fs).disk(),
            final(fs).same_layout(*old(fs)),
            r.basic_wf(),
            r.matches_disk(old(fs).disk()[self.block_id as int], self.block_offset as int),
    {
        DiskINode::load(&mut fs.mgr, self.block_id as usize, self.block_offset as usize)
    }
}


/// Data blocks of the stored record's file.
pub open spec fn stored_d(disk: Seq<Seq<u8>>, b: int, off: int) -> int {
    spec_data_blocks_for(stored_size(disk, b, off))
}

/// The `t`-th first-level index block of the stored record.
pub open spec fn stored_sub_id(disk: Seq<Seq<u8>>, b: int, off: int, t: int) -> int {
    sub_entry(disk, stored_ind2(disk, b, off), t)
}

/// Mirror of `DiskINode::index_wf` over the stored record.
pub open spec fn stored_index_wf(disk: Seq<Seq<u8>>, b: int, off: int) -> bool {
    let d = stored_d(disk, b, off);
    &&& stored_size(disk, b, off) <= INODE_MAX_SIZE
    &&& d > 28 ==> 0 < stored_ind1(disk, b, off) < disk.len()
    &&& d > 156 ==> 0 < stored_ind2(disk, b, off) < disk.len()
    &&& d > 156 ==> forall|t: int|
        0 <= t <= (d - 157) / 128 ==> 0 < #[trigger] stored_sub_id(disk, b, off, t) < disk.len()
}

/// Mirror of `DiskINode::data_wf` over the stored record.
pub open spec fn stored_data_wf(disk: Seq<Seq<u8>>, b: int, off: int) -> bool {
    forall|s: int|
        0 <= s < stored_d(disk, b, off) ==> 0 < #[trigger] stored_block_id(disk, b, off, s)
            < disk.len()
}

/// Mirror of `DiskINode::is_index_block` over the stored record.
pub open spec fn stored_is_index_block(disk: Seq<Seq<u8>>, b: int, off: int, x: int) -> bool {
    let d = stored_d(disk, b, off);
    ||| (d > 28 && x == stored_ind1(disk, b, off))
    ||| (d > 156 && x == stored_ind2(disk, b, off))
    ||| (d > 156 && exists|t: int|
        0 <= t <= (d - 157) / 128 && #[trigger] stored_sub_id(disk, b, off, t) == x)
}

/// Mirror of `DiskINode::is_data_block` over the stored record.
pub open spec fn stored_is_data_block(disk: Seq<Seq<u8>>, b: int, off: int, x: int) -> bool {
    exists|s: int|
        0 <= s < stored_d(disk, b, off) && #[trigger] stored_block_id(disk, b, off, s) == x
}

/// Mirror of `DiskINode::disjoint_wf` over the stored record.
pub open spec fn stored_disjoint_wf(disk: Seq<Seq<u8>>, b: int, off: int) -> bool {
    let d = stored_d(disk, b, off);
    &&& forall|s1: int, s2: int|
        0 <= s1 < s2 < d ==> #[trigger] stored_block_id(disk, b, off, s1)
            != #[trigger] stored_block_id(disk, b, off, s2)
    &&& forall|s: int|
        0 <= s < d ==> !stored_is_index_block(disk, b, off, #[trigger] stored_block_id(disk, b, off, s))
    &&& d > 156 ==> forall|t1: int, t2: int|
        0 <= t1 < t2 <= (d - 157) / 128 ==> #[trigger] stored_sub_id(disk, b, off, t1)
            != #[trigger] stored_sub_id(disk, b, off, t2)
    &&& d > 156 ==> forall|t: int|
        0 <= t <= (d - 157) / 128 ==> #[trigger] stored_sub_id(disk, b, off, t) != stored_ind1(
            disk,
            b,
            off,
        ) && stored_sub_id(disk, b, off, t) != stored_ind2(disk, b, off)
    &&& d > 156 ==> stored_ind1(disk, b, off) != stored_ind2(disk, b, off)
}

/// The stored record's blocks all sit in the data area with their
/// bitmap bits set.
pub open spec fn stored_marked<D: BlockDevice>(fs: FileSystem<D>, b: int, off: int) -> bool {
    let disk = fs.disk();
    let d = stored_d(disk, b, off);
    &&& forall|s: int|
        0 <= s < d ==> fs.data_area_start as int <= #[trigger] stored_block_id(disk, b, off, s)
            && stored_block_id(disk, b, off, s) < fs.total_blocks as int && fs.data_bitmap.spec_bit(
            disk,
            stored_block_id(disk, b, off, s) - fs.data_area_start as int,
        )
    &&& d > 28 ==> fs.data_area_start as int <= stored_ind1(disk, b, off) && stored_ind1(
        disk,
        b,
        off,
    ) < fs.total_blocks as int && fs.data_bitmap.spec_bit(
        disk,
        stored_ind1(disk, b, off) - fs.data_area_start as int,
    )
    &&& d > 156 ==> fs.data_area_start as int <= stored_ind2(disk, b, off) && stored_ind2(
        disk,
        b,
        off,
    ) < fs.total_blocks as int && fs.data_bitmap.spec_bit(
        disk,
        stored_ind2(disk, b, off) - fs.data_area_start as int,
    )
    &&& d > 156 ==> forall|t: int|
        0 <= t <= (d - 157) / 128 ==> fs.data_area_start as int <= #[trigger] stored_sub_id(
            disk,
            b,
            off,
            t,
        ) && stored_sub_id(disk, b, off, t) < fs.total_blocks as int && fs.data_bitmap.spec_bit(
            disk,
            stored_sub_id(disk, b, off, t) - fs.data_area_start as int,
        )
}

/// A usable inode record: well-formed and fully inside the marked data
/// area.
pub open spec fn stored_ok<D: BlockDevice>(fs: FileSystem<D>, b: int, off: int) -> bool {
    &&& 0 <= b < fs.disk().len()
    &&& fs.inode_area_start as int <= b < fs.data_bitmap.first_block as int
    &&& 0 <= off
    &&& off + INODE_SIZE <= BLOCK_SIZE
    &&& stored_index_wf(fs.disk(), b, off)
    &&& stored_data_wf(fs.disk(), b, off)
    &&& stored_disjoint_wf(fs.disk(), b, off)
    &&& stored_marked(fs, b, off)
}

/// A loaded copy of a usable record is itself well-formed and marked.
pub proof fn lemma_ok_loaded<D: BlockDevice>(
    ino: DiskINode,
    fs: FileSystem<D>,
    b: int,
    off: int,
)
    requires
        ino.basic_wf(),
        ino.matches_disk(fs.disk()[b], off),
        stored_ok(fs, b, off),
    ensures
        stored_inode_ok(fs, b, off, ino),
        ino.size as int == stored_size(fs.disk(), b, off),
        (ino._type is Directory) == stored_is_dir(fs.disk(), b, off),
        forall|i: int|
            0 <= i ==> #[trigger] ino.spec_byte(fs.disk(), i) == stored_byte(fs.disk(), b, off, i),
        forall|seq: int|
            0 <= seq ==> #[trigger] ino.spec_block_id(fs.disk(), seq) == stored_block_id(
                fs.disk(),
                b,
                off,
                seq,
            ),
{
    let disk = fs.disk();
    lemma_loaded_matches(ino, disk, b, off);
    let d = ino.spec_data_blocks();
    assert(d == stored_d(disk, b, off));
    assert forall|t: int| 0 <= t implies #[trigger] ino.spec_sub_index_id(disk, t) == stored_sub_id(
        disk,
        b,
        off,
        t,
    ) by {
    }
    assert(ino.index_wf(disk));
    assert(ino.data_wf(disk));
    assert forall|s: int| 0 <= s < d implies !ino.is_index_block(
        disk,
        #[trigger] ino.spec_block_id(disk, s),
    ) by {
        let x = ino.spec_block_id(disk, s);
        assert(!stored_is_index_block(disk, b, off, x));
        if ino.is_index_block(disk, x) {
            if d > 156 && (exists|t: int|
                0 <= t <= (d - 157) / 128 && #[trigger] ino.spec_sub_index_id(disk, t) == x) {
                let t = choose|t: int|
                    0 <= t <= (d - 157) / 128 && #[trigger] ino.spec_sub_index_id(disk, t) == x;
                assert(stored_sub_id(disk, b, off, t) == x);
            }
        }
    }
    assert(ino.disjoint_wf(disk));
    assert(ino.wf(disk));
}

/// A record that is well-formed and marked in loaded form is a usable
/// stored record.
pub proof fn lemma_loaded_ok<D: BlockDevice>(ino: DiskINode, fs: FileSystem<D>, b: int, off: int)
    requires
        0 <= b < fs.disk().len(),
        fs.inode_area_start as int <= b < fs.data_bitmap.first_block as int,
        0 <= off,
        off + INODE_SIZE <= BLOCK_SIZE,
        stored_inode_ok(fs, b, off, ino),
    ensures
        stored_ok(fs, b, off),
{
    let disk = fs.disk();
    lemma_loaded_matches(ino, disk, b, off);
    let d = ino.spec_data_blocks();
    assert(d == stored_d(disk, b, off));
    assert forall|t: int| 0 <= t implies #[trigger] ino.spec_sub_index_id(disk, t) == stored_sub_id(
        disk,
        b,
        off,
        t,
    ) by {
    }
    if d > 156 {
        assert forall|t: int| 0 <= t <= (d - 157) / 128 implies 0 < #[trigger] stored_sub_id(
            disk,
            b,
            off,
            t,
        ) < disk.len() by {
            assert(ino.spec_sub_index_id(disk, t) == stored_sub_id(disk, b, off, t));
        }
    }
    assert(stored_index_wf(disk, b, off));
    assert forall|s: int| 0 <= s < stored_d(disk, b, off) implies 0 < #[trigger] stored_block_id(
        disk,
        b,
        off,
        s,
    ) < disk.len() by {
        assert(ino.spec_block_id(disk, s) == stored_block_id(disk, b, off, s));
    }
    assert(stored_data_wf(disk, b, off));
    assert forall|s1: int, s2: int| 0 <= s1 < s2 < stored_d(disk, b, off) implies #[trigger] stored_block_id(
        disk,
        b,
        off,
        s1,
    ) != #[trigger] stored_block_id(disk, b, off, s2) by {
        assert(ino.spec_block_id(disk, s1) == stored_block_id(disk, b, off, s1));
        assert(ino.spec_block_id(disk, s2) == stored_block_id(disk, b, off, s2));
    }
    if d > 156 {
        assert forall|t1: int, t2: int| 0 <= t1 < t2 <= (d - 157) / 128 implies #[trigger] stored_sub_id(
            disk,
            b,
            off,
            t1,
        ) != #[trigger] stored_sub_id(disk, b, off, t2) by {
            assert(ino.spec_sub_index_id(disk, t1) == stored_sub_id(disk, b, off, t1));
            assert(ino.spec_sub_index_id(disk, t2) == stored_sub_id(disk, b, off, t2));
        }
        assert forall|t: int| 0 <= t <= (d - 157) / 128 implies #[trigger] stored_sub_id(
            disk,
            b,
            off,
            t,
        ) != stored_ind1(disk, b, off) && stored_sub_id(disk, b, off, t) != stored_ind2(
            disk,
            b,
            off,
        ) by {
            assert(ino.spec_sub_index_id(disk, t) == stored_sub_id(disk, b, off, t));
        }
    }
    assert forall|s: int| 0 <= s < stored_d(disk, b, off) implies fs.data_area_start as int
        <= #[trigger] stored_block_id(disk, b, off, s) && stored_block_id(disk, b, off, s)
        < fs.total_blocks as int && fs.data_bitmap.spec_bit(
        disk,
        stored_block_id(disk, b, off, s) - fs.data_area_start as int,
    ) by {
        assert(ino.spec_block_id(disk, s) == stored_block_id(disk, b, off, s));
    }
    if d > 156 {
        assert forall|t: int| 0 <= t <= (d - 157) / 128 implies fs.data_area_start as int
            <= #[trigger] stored_sub_id(disk, b, off, t) && stored_sub_id(disk, b, off, t)
            < fs.total_blocks as int && fs.data_bitmap.spec_bit(
            disk,
            stored_sub_id(disk, b, off, t) - fs.data_area_start as int,
        ) by {
            assert(ino.spec_sub_index_id(disk, t) == stored_sub_id(disk, b, off, t));
        }
    }
    assert forall|s: int| 0 <= s < stored_d(disk, b, off) implies !stored_is_index_block(
        disk,
        b,
        off,
        #[trigger] stored_block_id(disk, b, off, s),
    ) by {
        let x = stored_block_id(disk, b, off, s);
        assert(x == ino.spec_block_id(disk, s));
        assert(!ino.is_index_block(disk, x));
        if stored_is_index_block(disk, b, off, x) {
            if d > 156 && (exists|t: int|
                0 <= t <= (d - 157) / 128 && #[trigger] stored_sub_id(disk, b, off, t) == x) {
                let t = choose|t: int|
                    0 <= t <= (d - 157) / 128 && #[trigger] stored_sub_id(disk, b, off, t) == x;
                assert(ino.spec_sub_index_id(disk, t) == x);
            }
        }
    }
    assert(stored_disjoint_wf(disk, b, off));
    assert(stored_marked(fs, b, off));
}

/// A directory whose size and bytes are unchanged keeps its entries.
#[verifier::rlimit(100)]
#[verifier::spinoff_prover]
proof fn lemma_dir_preserved(diskn: Seq<Seq<u8>>, diskw: Seq<Seq<u8>>, bi: int, bo: int)
    requires
        stored_size(diskw, bi, bo) == stored_size(diskn, bi, bo),
        stored_size(diskn, bi, bo) % 32 == 0,
        forall|i: int|
            0 <= i < stored_size(diskn, bi, bo) ==> stored_byte(diskw, bi, bo, i) == stored_byte(
                diskn,
                bi,
                bo,
                i,
            ),
    ensures
        forall|e: int|
            0 <= e < INode::spec_entry_count(diskn, bi, bo)
                ==> #[trigger] INode::spec_entry_raw(diskw, bi, bo, e) == INode::spec_entry_raw(
                diskn,
                bi,
                bo,
                e,
            ),
        forall|e: int|
            0 <= e < INode::spec_entry_count(diskn, bi, bo)
                ==> #[trigger] INode::spec_entry_name(diskw, bi, bo, e) == INode::spec_entry_name(
                diskn,
                bi,
                bo,
                e,
            ),
        forall|e: int|
            0 <= e < INode::spec_entry_count(diskn, bi, bo)
                ==> #[trigger] INode::spec_entry_id(diskw, bi, bo, e) == INode::spec_entry_id(
                diskn,
                bi,
                bo,
                e,
            ),
{
    let count = INode::spec_entry_count(diskn, bi, bo);
    assert(count * 32 == stored_size(diskn, bi, bo)) by (nonlinear_arith)
        requires
            count == stored_size(diskn, bi, bo) / 32 && stored_size(diskn, bi, bo) % 32 == 0
                && stored_size(diskn, bi, bo) >= 0,
    ;
    assert forall|e: int| 0 <= e < count implies #[trigger] INode::spec_entry_raw(
        diskw,
        bi,
        bo,
        e,
    ) == INode::spec_entry_raw(diskn, bi, bo, e) && INode::spec_entry_id(diskw, bi, bo, e)
        == INode::spec_entry_id(diskn, bi, bo, e) by {
        lemma_entry_window(e, count);
        assert(INode::spec_entry_raw(diskw, bi, bo, e) =~= INode::spec_entry_raw(
            diskn,
            bi,
            bo,
            e,
        ));
        assert(stored_byte(diskw, bi, bo, 32 * e + 28) == stored_byte(diskn, bi, bo, 32 * e + 28));
        assert(stored_byte(diskw, bi, bo, 32 * e + 29) == stored_byte(diskn, bi, bo, 32 * e + 29));
        assert(stored_byte(diskw, bi, bo, 32 * e + 30) == stored_byte(diskn, bi, bo, 32 * e + 30));
        assert(stored_byte(diskw, bi, bo, 32 * e + 31) == stored_byte(diskn, bi, bo, 32 * e + 31));
    }
    assert forall|e: int| 0 <= e < count implies #[trigger] INode::spec_entry_name(
        diskw,
        bi,
        bo,
        e,
    ) == INode::spec_entry_name(diskn, bi, bo, e) by {
        assert(INode::spec_entry_raw(diskw, bi, bo, e) == INode::spec_entry_raw(diskn, bi, bo, e));
    }
}

/// Blocks below the data area are neither data nor index blocks of a
/// usable record: all of a record's blocks are marked in the data area.
proof fn lemma_low_blocks_not_file<D: BlockDevice>(fs: FileSystem<D>, bi: int, bo: int, b: int)
    requires
        stored_ok(fs, bi, bo),
        b < fs.data_area_start as int,
    ensures
        !stored_is_index_block(fs.disk(), bi, bo, b),
        !stored_is_data_block(fs.disk(), bi, bo, b),
{
    let disk = fs.disk();
    if stored_is_data_block(disk, bi, bo, b) {
        let s2 = choose|s2: int|
            0 <= s2 < stored_d(disk, bi, bo) && #[trigger] stored_block_id(disk, bi, bo, s2) == b;
    }
    if stored_is_index_block(disk, bi, bo, b) {
        if stored_d(disk, bi, bo) > 156 && !(b == stored_ind1(disk, bi, bo)) && !(b == stored_ind2(
            disk,
            bi,
            bo,
        )) {
            let t = choose|t: int|
                0 <= t <= (stored_d(disk, bi, bo) - 157) / 128 && #[trigger] stored_sub_id(
                    disk,
                    bi,
                    bo,
                    t,
                ) == b;
        }
    }
}

/// Inode-bitmap bits are unchanged whenever the inode-bitmap blocks
/// are.
proof fn lemma_inode_bits_same<D: BlockDevice>(fs0: FileSystem<D>, fs1: FileSystem<D>)
    requires
        fs0.wf(),
        fs1.wf(),
        fs1.same_layout(fs0),
        forall|b: int|
            1 <= b < fs0.inode_area_start as int ==> fs1.disk()[b] == fs0.disk()[b],
    ensures
        forall|k: int|
            0 <= k < fs0.inode_bitmap.spec_total_bits()
                ==> #[trigger] fs1.inode_bitmap.spec_bit(fs1.disk(), k)
                == fs0.inode_bitmap.spec_bit(fs0.disk(), k),
{
    assert forall|k: int| 0 <= k < fs0.inode_bitmap.spec_total_bits() implies
        #[trigger] fs1.inode_bitmap.spec_bit(fs1.disk(), k) == fs0.inode_bitmap.spec_bit(
        fs0.disk(),
        k,
    ) by {
        crate::bitmap::lemma_bit_range(k, fs0.inode_bitmap.blocks as int);
        assert(fs1.disk()[fs0.inode_bitmap.first_block as int + k / 4096] == fs0.disk()[
            fs0.inode_bitmap.first_block as int + k / 4096]);
    }
}

/// A handle backed by an allocated inode stays backed when every set
/// inode-bitmap bit stays set.
proof fn lemma_backed_preserved<D: BlockDevice>(h: INode, fs0: FileSystem<D>, fs1: FileSystem<D>)
    requires
        fs1.inode_bitmap == fs0.inode_bitmap,
        fs1.inode_area_start == fs0.inode_area_start,
        h.backed_by_inode(fs0),
        forall|k: int|
            0 <= k < fs0.inode_bitmap.spec_total_bits() && fs0.inode_bitmap.spec_bit(
                fs0.disk(),
                k,
            ) ==> #[trigger] fs1.inode_bitmap.spec_bit(fs1.disk(), k),
    ensures
        h.backed_by_inode(fs1),
{
    let did = choose|did: int|
        0 <= did < fs0.inode_bitmap.spec_total_bits() && h.block_id as int
            == fs0.inode_area_start as int + did / 4 && h.block_offset as int == (did % 4) * 128
            && #[trigger] fs0.inode_bitmap.spec_bit(fs0.disk(), did);
    assert(fs1.inode_bitmap.spec_bit(fs1.disk(), did));
}

/// Whether two byte vectors hold the same bytes.
pub fn bytes_equal(a: &Vec<u8>, b: &Vec<u8>) -> (r: bool)
    ensures
        r == (a@ == b@),
{
    if a.len() != b.len() {
        proof {
            assert(a@ != b@);
        }
        return false;
    }
    let mut i: usize = 0;
    while i < a.len()
        invariant
            a@.len() == b@.len(),
            i <= a@.len(),
            forall|j: int| 0 <= j < i ==> a@[j] == b@[j],
        decreases a@.len() - i,
    {
        if a[i] != b[i] {
            proof {
                assert(a@ != b@);
            }
            return false;
        }
        i = i + 1;
    }
    proof {
        assert(a@ =~= b@);
    }
    true
}


impl INode {
    /// A usable directory record: usable inode, directory type, size a
    /// multiple of the entry size, and every entry name NUL-terminated.
    pub open spec fn stored_dir_ok<D: BlockDevice>(self, fs: FileSystem<D>) -> bool {
        let b = self.block_id as int;
        let off = self.block_offset as int;
        &&& stored_ok(fs, b, off)
        &&& stored_is_dir(fs.disk(), b, off)
        &&& stored_size(fs.disk(), b, off) % 32 == 0
        &&& forall|e: int|
            0 <= e < Self::spec_entry_count(fs.disk(), b, off) ==> spec_name_len(
                #[trigger] Self::spec_entry_raw(fs.disk(), b, off, e),
                0,
            ) <= NAME_LIMIT as int
    }

    /// Read `len` bytes of this inode's file from byte `offset`.
    pub fn read_at<D: BlockDevice>(&self, offset: u32, len: u32, fs: &mut FileSystem<D>) -> (r:
        Vec<u8>)
        requires
            old(fs).wf(),
            stored_ok(*old(fs), self.block_id as int, self.block_offset as int),
            offset as int + len as int <= stored_size(
                old(fs).disk(),
                self.block_id as int,
                self.block_offset as int,
            ),
        ensures
            final(fs).wf(),
            final(fs).disk() == old(fs).disk(),
            final(fs).same_layout(*old(fs)),
            r@.len() == len,
            forall|j: int|
                0 <= j < len ==> r@[j] == stored_byte(
                    old(fs).disk(),
                    self.block_id as int,
                    self.block_offset as int,
                    offset + j,
                ),
    {
        let ino = self.read_disk_inode(fs);
        proof {
            lemma_ok_loaded(ino, *fs, self.block_id as int, self.block_offset as int);
        }
        ino.read(offset, len, &mut fs.mgr)
    }

    /// The names of every entry of this directory, in entry order.
    #[verifier::rlimit(80)]
    pub fn ls<D: BlockDevice>(&self, fs: &mut FileSystem<D>) -> (r: Vec<Vec<u8>>)
        requires
            old(fs).wf(),
            self.stored_dir_ok(*old(fs)),
        ensures
            final(fs).wf(),
            final(fs).disk() == old(fs).disk(),
            final(fs).same_layout(*old(fs)),
            r@.len() == Self::spec_entry_count(
                old(fs).disk(),
                self.block_id as int,
                self.block_offset as int,
            ),
            forall|e: int|
                0 <= e < r@.len() ==> (#[trigger] r@[e])@ == Self::spec_entry_name(
                    old(fs).disk(),
                    self.block_id as int,
                    self.block_offset as int,
                    e,
                ),
    {
        let ghost bi = self.block_id as int;
        let ghost bo = self.block_offset as int;
        let ghost disk0 = fs.disk();
        let ino = self.read_disk_inode(fs);
        proof {
            lemma_ok_loaded(ino, *fs, bi, bo);
        }
        let count = ino.size / 32;
        let mut names: Vec<Vec<u8>> = Vec::new();
        let mut e: u32 = 0;
        while e < count
            invariant
                fs.wf(),
                fs.disk() == disk0,
                fs.same_layout(*old(fs)),
                disk0 == old(fs).disk(),
                self.stored_dir_ok(*old(fs)),
                stored_ok(*old(fs), bi, bo),
                bi == self.block_id as int,
                bo == self.block_offset as int,
                count as int == Self::spec_entry_count(disk0, bi, bo),
                count as int * 32 == stored_size(disk0, bi, bo),
                stored_size(disk0, bi, bo) <= INODE_MAX_SIZE,
                e <= count,
                names@.len() == e,
                forall|e2: int|
                    0 <= e2 < e ==> (#[trigger] names@[e2])@ == Self::spec_entry_name(
                        disk0,
                        bi,
                        bo,
                        e2,
                    ),
            decreases count - e,
        {
            proof {
                lemma_entry_window(e as int, count as int);
            }
            let bytes = self.read_at(e * 32, 32, fs);
            let raw = crate::block_dev::clone_range(&bytes, 0, 28);
            let entry = DirEntry { name: raw, inode_id: 0 };
            proof {
                assert(entry.name@ =~= Self::spec_entry_raw(disk0, bi, bo, e as int));
                assert(entry.wf());
            }
            let name = entry.name_bytes();
            names.push(name);
            e = e + 1;
        }
        names
    }

    /// Find the entry called `name` in this directory and return a
    /// handle on its inode, or `None` when no entry has that name.
    #[verifier::rlimit(80)]
    pub fn find<D: BlockDevice>(&self, name: &Vec<u8>, fs: &mut FileSystem<D>) -> (r: Option<
        INode>)
        requires
            old(fs).wf(),
            self.stored_dir_ok(*old(fs)),
        ensures
            final(fs).wf(),
            final(fs).disk() == old(fs).disk(),
            final(fs).same_layout(*old(fs)),
            match r {
                None => forall|e: int|
                    0 <= e < Self::spec_entry_count(
                        old(fs).disk(),
                        self.block_id as int,
                        self.block_offset as int,
                    ) ==> Self::spec_entry_name(
                        old(fs).disk(),
                        self.block_id as int,
                        self.block_offset as int,
                        e,
                    ) != name@,
                Some(h) => exists|e: int|
                    {
                        &&& 0 <= e < Self::spec_entry_count(
                            old(fs).disk(),
                            self.block_id as int,
                            self.block_offset as int,
                        )
                        &&& #[trigger] Self::spec_entry_name(
                            old(fs).disk(),
                            self.block_id as int,
                            self.block_offset as int,
                            e,
                        ) == name@
                        &&& forall|e2: int|
                            0 <= e2 < e ==> Self::spec_entry_name(
                                old(fs).disk(),
                                self.block_id as int,
                                self.block_offset as int,
                                e2,
                            ) != name@
                        &&& h.block_id as int == old(fs).inode_area_start as int
                            + Self::spec_entry_id(
                            old(fs).disk(),
                            self.block_id as int,
                            self.block_offset as int,
                            e,
                        ) / 4
                        &&& h.block_offset as int == (Self::spec_entry_id(
                            old(fs).disk(),
                            self.block_id as int,
                            self.block_offset as int,
                            e,
                        ) % 4) * 128
                    },
            },
    {
        let ghost bi = self.block_id as int;
        let ghost bo = self.block_offset as int;
        let ghost disk0 = fs.disk();
        let ino = self.read_disk_inode(fs);
        proof {
            lemma_ok_loaded(ino, *fs, bi, bo);
        }
        let count = ino.size / 32;
        let mut e: u32 = 0;
        while e < count
            invariant
                fs.wf(),
                fs.disk() == disk0,
                fs.same_layout(*old(fs)),
                disk0 == old(fs).disk(),
                self.stored_dir_ok(*old(fs)),
                stored_ok(*old(fs), bi, bo),
                bi == self.block_id as int,
                bo == self.block_offset as int,
                count as int == Self::spec_entry_count(disk0, bi, bo),
                count as int * 32 == stored_size(disk0, bi, bo),
                stored_size(disk0, bi, bo) <= INODE_MAX_SIZE,
                e <= count,
                forall|e2: int|
                    0 <= e2 < e ==> Self::spec_entry_name(disk0, bi, bo, e2) != name@,
            decreases count - e,
        {
            proof {
                lemma_entry_window(e as int, count as int);
            }
            let bytes = self.read_at(e * 32, 32, fs);
            let raw = crate::block_dev::clone_range(&bytes, 0, 28);
            let entry = DirEntry { name: raw, inode_id: 0 };
            proof {
                assert(entry.name@ =~= Self::spec_entry_raw(disk0, bi, bo, e as int));
                assert(entry.wf());
            }
            let ename = entry.name_bytes();
            if bytes_equal(&ename, name) {
                let id = {
                    let b0 = bytes[28] as u32;
                    let b1 = bytes[29] as u32;
                    let b2 = bytes[30] as u32;
                    let b3 = bytes[31] as u32;
                    b0 + b1 * 0x100 + b2 * 0x10000 + b3 * 0x1000000
                };
                proof {
                    assert(id as int == Self::spec_entry_id(disk0, bi, bo, e as int));
                    lemma_entry_handle_bounds(
                        id as int,
                        fs.inode_area_start as int,
                    );
                }
                let (hb, _inner, hoff) = fs.get_inode_block_id(id);
                let h = INode::new(hb, hoff);
                proof {
                    let ei = e as int;
                    assert(Self::spec_entry_name(disk0, bi, bo, ei) == name@);
                    assert(h.block_id as int == old(fs).inode_area_start as int
                        + Self::spec_entry_id(disk0, bi, bo, ei) / 4);
                    assert(h.block_offset as int == (Self::spec_entry_id(disk0, bi, bo, ei) % 4)
                        * 128);
                }
                return Some(h);
            }
            e = e + 1;
        }
        None
    }
}

/// Entry `e` of a directory of `count` entries sits inside the file.
pub proof fn lemma_entry_window(e: int, count: int)
    requires
        0 <= e < count,
    ensures
        0 <= e * 32,
        e * 32 + 32 <= count * 32,
{
    assert(0 <= e * 32 && e * 32 + 32 <= count * 32) by (nonlinear_arith)
        requires
            0 <= e < count,
    ;
}

/// An entry's inode id yields an in-range record location expression.
pub proof fn lemma_entry_handle_bounds(id: int, area_start: int)
    requires
        0 <= id < 0x1_0000_0000,
        0 <= area_start <= 0x1000_0000,
    ensures
        area_start + id / 4 < u32::MAX as int,
        0 <= id % 4 < 4,
        (id % 4) * 128 + 128 <= 512,
{
}


/// Block counts grow with the file size.
pub proof fn lemma_counts_monotone(a: int, b: int)
    requires
        0 <= a <= b,
    ensures
        spec_data_blocks_for(a) <= spec_data_blocks_for(b),
        spec_index_blocks_for_blocks(spec_data_blocks_for(a)) <= spec_index_blocks_for_blocks(
            spec_data_blocks_for(b),
        ),
{
    assert((a + 511) / 512 <= (b + 511) / 512) by (nonlinear_arith)
        requires
            0 <= a <= b,
    ;
    let da = spec_data_blocks_for(a);
    let db = spec_data_blocks_for(b);
    if da > 156 {
        assert((da - 156 + 127) / 128 <= (db - 156 + 127) / 128) by (nonlinear_arith)
            requires
                156 < da <= db,
        ;
    }
}

impl INode {
    /// Grow `ino`'s file to `new_size`: allocate the data and index
    /// blocks it needs from the data bitmap and wire them in. Returns
    /// `false`, leaving the file as it was, when the disk is full. Only
    /// the bitmap area, blocks that were free, and the file's own index
    /// blocks change.
    #[verifier::rlimit(100)]
    pub fn increase_size<D: BlockDevice>(
        &self,
        new_size: u32,
        ino: &mut DiskINode,
        fs: &mut FileSystem<D>,
    ) -> (r: bool)
        requires
            old(fs).wf(),
            inode_ok(*old(fs), *old(ino)),
            old(ino).size <= new_size <= INODE_MAX_SIZE,
        ensures
            final(fs).wf(),
            final(fs).same_layout(*old(fs)),
            forall|k: int|
                0 <= k < old(fs).data_bitmap.spec_total_bits() && old(fs).data_bitmap.spec_bit(
                    old(fs).disk(),
                    k,
                ) ==> final(fs).data_bitmap.spec_bit(final(fs).disk(), k),
            forall|x: int|
                0 <= x < old(fs).disk().len() && !(old(fs).data_bitmap.first_block <= x < old(
                    fs,
                ).data_area_start) && !(old(fs).data_area_start <= x < old(fs).total_blocks && !old(
                    fs,
                ).data_bitmap.spec_bit(old(fs).disk(), x - old(fs).data_area_start as int)) && !old(
                    ino,
                ).is_index_block(old(fs).disk(), x) ==> final(fs).disk()[x] == old(fs).disk()[x],
            !r ==> *final(ino) == *old(ino),
            !r ==> grow_frame(*old(fs), *final(fs)),
            !r ==> final(fs).data_bitmap.all_set_below(
                final(fs).disk(),
                old(fs).total_blocks as int - old(fs).data_area_start as int,
            ),
            r ==> final(ino).size == new_size,
            r ==> final(ino)._type == old(ino)._type,
            r ==> inode_ok(*final(fs), *final(ino)),
            !r ==> inode_ok(*final(fs), *final(ino)),
            forall|s: int|
                0 <= s < old(ino).spec_data_blocks() ==> #[trigger] final(ino).spec_block_id(
                    final(fs).disk(),
                    s,
                ) == old(ino).spec_block_id(old(fs).disk(), s),
            forall|i: int|
                0 <= i < old(ino).size ==> #[trigger] final(ino).spec_byte(final(fs).disk(), i)
                    == old(ino).spec_byte(old(fs).disk(), i),
            r ==> forall|s: int|
                old(ino).spec_data_blocks() <= s < final(ino).spec_data_blocks() ==> old(
                    fs,
                ).data_area_start as int <= #[trigger] final(ino).spec_block_id(
                    final(fs).disk(),
                    s,
                ) && final(ino).spec_block_id(final(fs).disk(), s) < old(fs).total_blocks as int
                    && !old(fs).data_bitmap.spec_bit(
                    old(fs).disk(),
                    final(ino).spec_block_id(final(fs).disk(), s) - old(fs).data_area_start as int,
                ),
            spec_data_blocks_for(new_size as int) <= 156 ==> final(ino).indirect2 == old(
                ino,
            ).indirect2,
            spec_data_blocks_for(new_size as int) <= 28 ==> final(ino).indirect1 == old(
                ino,
            ).indirect1,
    {
        let ghost fs0 = *fs;
        let ghost ino0 = *ino;
        let d_old = ino.data_blocks();
        let d_new = DiskINode::data_blocks_for_size(new_size);
        let ib_old = DiskINode::index_blocks_for_size(ino.size);
        let ib_new = DiskINode::index_blocks_for_size(new_size);
        proof {
            lemma_counts_monotone(ino.size as int, new_size as int);
        }
        let nb_needed = d_new - d_old;
        let ib_needed = ib_new - ib_old;
        let mut new_blocks: Vec<u32> = Vec::new();
        let mut i: u32 = 0;
        while i < nb_needed
            invariant
                fs.wf(),
                fs0.wf(),
                fs.same_layout(fs0),
                fs0 == *old(fs),
                ino0 == *old(ino),
                *ino == ino0,
                inode_ok(fs0, ino0),
                i <= nb_needed,
                new_blocks@.len() == i,
                forall|k: int|
                    0 <= k < fs0.data_bitmap.spec_total_bits() && fs0.data_bitmap.spec_bit(
                        fs0.disk(),
                        k,
                    ) ==> fs.data_bitmap.spec_bit(fs.disk(), k),
                forall|x: int|
                    0 <= x < fs0.disk().len() && !(fs0.data_bitmap.first_block <= x
                        < fs0.data_area_start) && !(fs0.data_area_start <= x < fs0.total_blocks
                        && !fs0.data_bitmap.spec_bit(fs0.disk(), x - fs0.data_area_start as int))
                        ==> fs.disk()[x] == fs0.disk()[x],
                forall|j: int|
                    0 <= j < new_blocks@.len() ==> fs0.data_area_start as int <= (
                    #[trigger] new_blocks@[j]) as int && (new_blocks@[j] as int)
                        < fs0.total_blocks as int && fs.data_bitmap.spec_bit(
                        fs.disk(),
                        new_blocks@[j] as int - fs0.data_area_start as int,
                    ) && !fs0.data_bitmap.spec_bit(
                        fs0.disk(),
                        new_blocks@[j] as int - fs0.data_area_start as int,
                    ),
                forall|j1: int, j2: int|
                    0 <= j1 < j2 < new_blocks@.len() ==> (#[trigger] new_blocks@[j1]) as int != (
                    #[trigger] new_blocks@[j2]) as int,
            decreases nb_needed - i,
        {
            let got = fs.alloc_data_block();
            match got {
                None => {
                    proof {
                        lemma_grow_frame_only_bitmap(fs0, *fs, ino0);
                    }
                    return false;
                },
                Some(gb) => {
                    proof {
                        assert forall|j: int| 0 <= j < new_blocks@.len() implies (
                        #[trigger] new_blocks@[j]) as int != gb as int by {
                        }
                    }
                    new_blocks.push(gb);
                    i = i + 1;
                },
            }
        }
        let mut index_blocks: Vec<u32> = Vec::new();
        let mut i2: u32 = 0;
        while i2 < ib_needed
            invariant
                fs.wf(),
                fs0.wf(),
                fs.same_layout(fs0),
                fs0 == *old(fs),
                ino0 == *old(ino),
                *ino == ino0,
                inode_ok(fs0, ino0),
                i2 <= ib_needed,
                index_blocks@.len() == i2,
                new_blocks@.len() == nb_needed,
                forall|k: int|
                    0 <= k < fs0.data_bitmap.spec_total_bits() && fs0.data_bitmap.spec_bit(
                        fs0.disk(),
                        k,
                    ) ==> fs.data_bitmap.spec_bit(fs.disk(), k),
                forall|x: int|
                    0 <= x < fs0.disk().len() && !(fs0.data_bitmap.first_block <= x
                        < fs0.data_area_start) && !(fs0.data_area_start <= x < fs0.total_blocks
                        && !fs0.data_bitmap.spec_bit(fs0.disk(), x - fs0.data_area_start as int))
                        ==> fs.disk()[x] == fs0.disk()[x],
                forall|j: int|
                    0 <= j < new_blocks@.len() ==> fs0.data_area_start as int <= (
                    #[trigger] new_blocks@[j]) as int && (new_blocks@[j] as int)
                        < fs0.total_blocks as int && fs.data_bitmap.spec_bit(
                        fs.disk(),
                        new_blocks@[j] as int - fs0.data_area_start as int,
                    ) && !fs0.data_bitmap.spec_bit(
                        fs0.disk(),
                        new_blocks@[j] as int - fs0.data_area_start as int,
                    ),
                forall|j1: int, j2: int|
                    0 <= j1 < j2 < new_blocks@.len() ==> (#[trigger] new_blocks@[j1]) as int != (
                    #[trigger] new_blocks@[j2]) as int,
                forall|j: int|
                    0 <= j < index_blocks@.len() ==> fs0.data_area_start as int <= (
                    #[trigger] index_blocks@[j]) as int && (index_blocks@[j] as int)
                        < fs0.total_blocks as int && fs.data_bitmap.spec_bit(
                        fs.disk(),
                        index_blocks@[j] as int - fs0.data_area_start as int,
                    ) && !fs0.data_bitmap.spec_bit(
                        fs0.disk(),
                        index_blocks@[j] as int - fs0.data_area_start as int,
                    ),
                forall|j1: int, j2: int|
                    0 <= j1 < j2 < index_blocks@.len() ==> (#[trigger] index_blocks@[j1]) as int
                        != (#[trigger] index_blocks@[j2]) as int,
                forall|j1: int, j2: int|
                    0 <= j1 < new_blocks@.len() && 0 <= j2 < index_blocks@.len() ==> (
                    #[trigger] new_blocks@[j1]) as int != (#[trigger] index_blocks@[j2]) as int,
            decreases ib_needed - i2,
        {
            let got = fs.alloc_data_block();
            match got {
                None => {
                    proof {
                        lemma_grow_frame_only_bitmap(fs0, *fs, ino0);
                    }
                    return false;
                },
                Some(gb) => {
                    index_blocks.push(gb);
                    i2 = i2 + 1;
                },
            }
        }
        let ghost fsa = *fs;
        proof {
            lemma_grow_frame_only_bitmap(fs0, fsa, ino0);
            lemma_fresh_for_grow(fs0, fsa, ino0, new_blocks@, index_blocks@);
        }
        let ghost nbl = new_blocks@;
        let ghost ibl = index_blocks@;
        ino.increse_size(new_size, new_blocks, index_blocks, &mut fs.mgr);
        proof {
            let d_o = ino0.spec_data_blocks();
            let d_n = ino.spec_data_blocks();
            assert(fs.wf());
            // index blocks of the old structure, and the provided ones,
            // all sit in the data area, so the bitmap blocks kept their
            // contents and every set bit stays set
            assert forall|x: int|
                0 <= x < fsa.disk().len() && !ino0.is_index_block(fsa.disk(), x) && !in_u32_list(
                    ibl,
                    x,
                ) implies fs.disk()[x] == fsa.disk()[x] by {
            }
            assert forall|x: int|
                fs0.data_bitmap.first_block <= x < fs0.data_area_start implies fs.disk()[x]
                == fsa.disk()[x] by {
                assert(!ino0.is_index_block(fsa.disk(), x)) by {
                    if ino0.is_index_block(fsa.disk(), x) {
                        if d_o > 28 && x == ino0.indirect1 as int {
                        } else if d_o > 156 && x == ino0.indirect2 as int {
                        } else {
                            let t = choose|t: int|
                                0 <= t <= (d_o - 157) / 128 && #[trigger] ino0.spec_sub_index_id(
                                    fsa.disk(),
                                    t,
                                ) == x;
                            assert(ino0.spec_sub_index_id(fsa.disk(), t)
                                == ino0.spec_sub_index_id(fs0.disk(), t));
                        }
                    }
                }
                assert(!in_u32_list(ibl, x)) by {
                    if in_u32_list(ibl, x) {
                        let j = choose|j: int| 0 <= j < ibl.len() && ibl[j] as int == x;
                    }
                }
            }
            assert forall|k: int|
                0 <= k < fs0.data_bitmap.spec_total_bits() && fs0.data_bitmap.spec_bit(
                    fs0.disk(),
                    k,
                ) implies fs.data_bitmap.spec_bit(fs.disk(), k) by {
                crate::bitmap::lemma_bit_range(k, fs0.data_bitmap.blocks as int);
                assert(fs.disk()[fs0.data_bitmap.first_block + k / 4096] == fsa.disk()[
                    fs0.data_bitmap.first_block + k / 4096]);
            }
            // the combined frame
            assert forall|x: int|
                0 <= x < fs0.disk().len() && !(fs0.data_bitmap.first_block <= x
                    < fs0.data_area_start) && !(fs0.data_area_start <= x < fs0.total_blocks
                    && !fs0.data_bitmap.spec_bit(fs0.disk(), x - fs0.data_area_start as int))
                    && !ino0.is_index_block(fs0.disk(), x) implies fs.disk()[x]
                == fs0.disk()[x] by {
                assert(!ino0.is_index_block(fsa.disk(), x)) by {
                    if ino0.is_index_block(fsa.disk(), x) {
                        if d_o > 156 && !(x == ino0.indirect1 as int) && !(x
                            == ino0.indirect2 as int) {
                            let t = choose|t: int|
                                0 <= t <= (d_o - 157) / 128 && #[trigger] ino0.spec_sub_index_id(
                                    fsa.disk(),
                                    t,
                                ) == x;
                            assert(ino0.spec_sub_index_id(fsa.disk(), t)
                                == ino0.spec_sub_index_id(fs0.disk(), t));
                        }
                    }
                }
                assert(!in_u32_list(ibl, x)) by {
                    if in_u32_list(ibl, x) {
                        let j = choose|j: int| 0 <= j < ibl.len() && ibl[j] as int == x;
                    }
                }
            }
            // the grown inode is marked
            assert forall|s: int| 0 <= s < d_n implies fs.data_area_start as int
                <= #[trigger] ino.spec_block_id(fs.disk(), s) && ino.spec_block_id(fs.disk(), s)
                < fs.total_blocks as int && fs.data_bitmap.spec_bit(
                fs.disk(),
                ino.spec_block_id(fs.disk(), s) - fs.data_area_start as int,
            ) by {
                if s < d_o {
                    assert(ino.spec_block_id(fs.disk(), s) == ino0.spec_block_id(fsa.disk(), s));
                    assert(ino0.spec_block_id(fsa.disk(), s) == ino0.spec_block_id(
                        fs0.disk(),
                        s,
                    ));
                } else {
                    assert(ino.spec_block_id(fs.disk(), s) == nbl[s - d_o] as int);
                }
            }
            assert forall|s: int| d_o <= s < d_n implies fs0.data_area_start as int
                <= #[trigger] ino.spec_block_id(fs.disk(), s) && ino.spec_block_id(fs.disk(), s)
                < fs0.total_blocks as int && !fs0.data_bitmap.spec_bit(
                fs0.disk(),
                ino.spec_block_id(fs.disk(), s) - fs0.data_area_start as int,
            ) by {
                assert(ino.spec_block_id(fs.disk(), s) == nbl[s - d_o] as int);
            }
            if d_n > 28 {
                assert(fs.data_area_start as int <= ino.indirect1 as int && (
                ino.indirect1 as int) < fs.total_blocks as int && fs.data_bitmap.spec_bit(
                    fs.disk(),
                    ino.indirect1 as int - fs.data_area_start as int,
                )) by {
                    if d_o > 28 && ino.indirect1 == ino0.indirect1 {
                    } else {
                        let j = choose|j: int|
                            0 <= j < ibl.len() && ibl[j] as int == ino.indirect1 as int;
                    }
                }
            }
            if d_n > 156 {
                assert(fs.data_area_start as int <= ino.indirect2 as int && (
                ino.indirect2 as int) < fs.total_blocks as int && fs.data_bitmap.spec_bit(
                    fs.disk(),
                    ino.indirect2 as int - fs.data_area_start as int,
                )) by {
                    if d_o > 156 && ino.indirect2 == ino0.indirect2 {
                    } else {
                        let j = choose|j: int|
                            0 <= j < ibl.len() && ibl[j] as int == ino.indirect2 as int;
                    }
                }
                assert forall|t: int| 0 <= t <= (d_n - 157) / 128 implies fs.data_area_start as int
                    <= #[trigger] ino.spec_sub_index_id(fs.disk(), t) && ino.spec_sub_index_id(
                    fs.disk(),
                    t,
                ) < fs.total_blocks as int && fs.data_bitmap.spec_bit(
                    fs.disk(),
                    ino.spec_sub_index_id(fs.disk(), t) - fs.data_area_start as int,
                ) by {
                    let x = ino.spec_sub_index_id(fs.disk(), t);
                    if ino0.is_index_block(fsa.disk(), x) {
                        if d_o > 28 && x == ino0.indirect1 as int {
                        } else if d_o > 156 && x == ino0.indirect2 as int {
                        } else {
                            let t2 = choose|t2: int|
                                0 <= t2 <= (d_o - 157) / 128 && #[trigger] ino0.spec_sub_index_id(
                                    fsa.disk(),
                                    t2,
                                ) == x;
                            assert(ino0.spec_sub_index_id(fsa.disk(), t2)
                                == ino0.spec_sub_index_id(fs0.disk(), t2));
                        }
                    } else {
                        let j = choose|j: int| 0 <= j < ibl.len() && ibl[j] as int == x;
                    }
                }
            }
            assert(inode_ok(*fs, *ino));
        }
        true
    }
}


/// Shape of the disk during block collection: only the data bitmap and
/// free data blocks may have changed, and bitmap bits only grew.
pub open spec fn grow_frame<D: BlockDevice>(fs0: FileSystem<D>, fs1: FileSystem<D>) -> bool {
    &&& fs1.wf()
    &&& fs1.same_layout(fs0)
    &&& forall|k: int|
        0 <= k < fs0.data_bitmap.spec_total_bits() && fs0.data_bitmap.spec_bit(fs0.disk(), k)
            ==> fs1.data_bitmap.spec_bit(fs1.disk(), k)
    &&& forall|x: int|
        0 <= x < fs0.disk().len() && !(fs0.data_bitmap.first_block <= x < fs0.data_area_start)
            && !(fs0.data_area_start <= x < fs0.total_blocks && !fs0.data_bitmap.spec_bit(
            fs0.disk(),
            x - fs0.data_area_start as int,
        )) ==> fs1.disk()[x] == fs0.disk()[x]
}

/// Under `grow_frame`, a marked inode keeps its whole structure and
/// content: its blocks were marked, so none of them changed.
proof fn lemma_grow_frame_only_bitmap<D: BlockDevice>(
    fs0: FileSystem<D>,
    fs1: FileSystem<D>,
    ino0: DiskINode,
)
    requires
        fs0.wf(),
        inode_ok(fs0, ino0),
        grow_frame(fs0, fs1),
    ensures
        inode_ok(fs1, ino0),
        forall|s: int|
            0 <= s < ino0.spec_data_blocks() ==> #[trigger] ino0.spec_block_id(fs1.disk(), s)
                == ino0.spec_block_id(fs0.disk(), s),
        forall|t: int|
            ino0.spec_data_blocks() > 156 && 0 <= t <= (ino0.spec_data_blocks() - 157) / 128
                ==> #[trigger] ino0.spec_sub_index_id(fs1.disk(), t) == ino0.spec_sub_index_id(
                fs0.disk(),
                t,
            ),
        forall|i: int|
            0 <= i < ino0.size ==> #[trigger] ino0.spec_byte(fs1.disk(), i) == ino0.spec_byte(
                fs0.disk(),
                i,
            ),
        forall|x: int|
            0 <= x < fs0.disk().len() && (ino0.is_data_block(fs0.disk(), x) || ino0.is_index_block(
                fs0.disk(),
                x,
            )) ==> fs1.disk()[x] == fs0.disk()[x],
{
    let disk0 = fs0.disk();
    let disk1 = fs1.disk();
    let d = ino0.spec_data_blocks();
    assert forall|x: int|
        0 <= x < disk0.len() && (ino0.is_data_block(disk0, x) || ino0.is_index_block(
            disk0,
            x,
        )) implies disk1[x] == disk0[x] by {
        if ino0.is_data_block(disk0, x) {
            let s = choose|s: int| 0 <= s < d && #[trigger] ino0.spec_block_id(disk0, s) == x;
            assert(fs0.data_bitmap.spec_bit(disk0, x - fs0.data_area_start as int));
        } else {
            if d > 156 && (exists|t: int|
                0 <= t <= (d - 157) / 128 && #[trigger] ino0.spec_sub_index_id(disk0, t) == x) {
                let t = choose|t: int|
                    0 <= t <= (d - 157) / 128 && #[trigger] ino0.spec_sub_index_id(disk0, t) == x;
                assert(fs0.data_bitmap.spec_bit(disk0, x - fs0.data_area_start as int));
            }
        }
    }
    if d > 28 {
        assert(ino0.is_index_block(disk0, ino0.indirect1 as int));
    }
    if d > 156 {
        assert(ino0.is_index_block(disk0, ino0.indirect2 as int));
        assert forall|t: int| 0 <= t <= (d - 157) / 128 implies disk1[#[trigger] ino0.spec_sub_index_id(
            disk0,
            t,
        )] == disk0[ino0.spec_sub_index_id(disk0, t)] by {
            assert(ino0.is_index_block(disk0, ino0.spec_sub_index_id(disk0, t)));
        }
    }
    ino0.lemma_index_blocks_stable(disk0, disk1);
    assert forall|i: int| 0 <= i < ino0.size implies #[trigger] ino0.spec_byte(disk1, i)
        == ino0.spec_byte(disk0, i) by {
        crate::inode::lemma_div_lt_data_blocks(i, ino0.size as int);
        let s = i / 512;
        assert(ino0.spec_block_id(disk1, s) == ino0.spec_block_id(disk0, s));
        assert(ino0.is_data_block(disk0, ino0.spec_block_id(disk0, s)));
    }
    assert(ino0.data_wf(disk1));
    assert forall|s: int| 0 <= s < d implies !ino0.is_index_block(
        disk1,
        #[trigger] ino0.spec_block_id(disk1, s),
    ) by {
        let x = ino0.spec_block_id(disk1, s);
        assert(x == ino0.spec_block_id(disk0, s));
        assert(!ino0.is_index_block(disk0, x));
        if ino0.is_index_block(disk1, x) {
            if d > 156 && (exists|t: int|
                0 <= t <= (d - 157) / 128 && #[trigger] ino0.spec_sub_index_id(disk1, t) == x) {
                let t = choose|t: int|
                    0 <= t <= (d - 157) / 128 && #[trigger] ino0.spec_sub_index_id(disk1, t) == x;
                assert(ino0.spec_sub_index_id(disk0, t) == x);
            }
        }
    }
    assert(ino0.disjoint_wf(disk1)) by {
        if d > 156 {
            assert forall|t1: int, t2: int| 0 <= t1 < t2 <= (d - 157)
                / 128 implies #[trigger] ino0.spec_sub_index_id(disk1, t1)
                != #[trigger] ino0.spec_sub_index_id(disk1, t2) by {
                assert(ino0.spec_sub_index_id(disk1, t1) == ino0.spec_sub_index_id(disk0, t1));
                assert(ino0.spec_sub_index_id(disk1, t2) == ino0.spec_sub_index_id(disk0, t2));
            }
            assert forall|t: int| 0 <= t <= (d - 157) / 128 implies #[trigger] ino0.spec_sub_index_id(
                disk1,
                t,
            ) != ino0.indirect1 as int && ino0.spec_sub_index_id(disk1, t)
                != ino0.indirect2 as int by {
                assert(ino0.spec_sub_index_id(disk1, t) == ino0.spec_sub_index_id(disk0, t));
            }
        }
    }
    assert(inode_ok(fs1, ino0)) by {
        assert forall|s: int| 0 <= s < d implies fs1.data_area_start as int
            <= #[trigger] ino0.spec_block_id(fs1.disk(), s) && ino0.spec_block_id(fs1.disk(), s)
            < fs1.total_blocks as int && fs1.data_bitmap.spec_bit(
            fs1.disk(),
            ino0.spec_block_id(fs1.disk(), s) - fs1.data_area_start as int,
        ) by {
            assert(ino0.spec_block_id(fs1.disk(), s) == ino0.spec_block_id(disk0, s));
        }
        if d > 156 {
            assert forall|t: int| 0 <= t <= (d - 157) / 128 implies fs1.data_area_start as int
                <= #[trigger] ino0.spec_sub_index_id(fs1.disk(), t) && ino0.spec_sub_index_id(
                fs1.disk(),
                t,
            ) < fs1.total_blocks as int && fs1.data_bitmap.spec_bit(
                fs1.disk(),
                ino0.spec_sub_index_id(fs1.disk(), t) - fs1.data_area_start as int,
            ) by {
                assert(ino0.spec_sub_index_id(fs1.disk(), t) == ino0.spec_sub_index_id(disk0, t));
            }
        }
    }
}

/// Blocks allocated under `grow_frame`, with their old bits clear, are
/// fresh for the inode: it never used them.
proof fn lemma_fresh_for_grow<D: BlockDevice>(
    fs0: FileSystem<D>,
    fsa: FileSystem<D>,
    ino0: DiskINode,
    nbl: Seq<u32>,
    ibl: Seq<u32>,
)
    requires
        fs0.wf(),
        inode_ok(fs0, ino0),
        grow_frame(fs0, fsa),
        forall|j: int|
            0 <= j < nbl.len() ==> fs0.data_area_start as int <= (#[trigger] nbl[j]) as int && (
            nbl[j] as int) < fs0.total_blocks as int && !fs0.data_bitmap.spec_bit(
                fs0.disk(),
                nbl[j] as int - fs0.data_area_start as int,
            ),
        forall|j: int|
            0 <= j < ibl.len() ==> fs0.data_area_start as int <= (#[trigger] ibl[j]) as int && (
            ibl[j] as int) < fs0.total_blocks as int && !fs0.data_bitmap.spec_bit(
                fs0.disk(),
                ibl[j] as int - fs0.data_area_start as int,
            ),
        forall|j1: int, j2: int|
            0 <= j1 < j2 < nbl.len() ==> (#[trigger] nbl[j1]) as int != (#[trigger] nbl[j2]) as int,
        forall|j1: int, j2: int|
            0 <= j1 < j2 < ibl.len() ==> (#[trigger] ibl[j1]) as int != (#[trigger] ibl[j2]) as int,
        forall|j1: int, j2: int|
            0 <= j1 < nbl.len() && 0 <= j2 < ibl.len() ==> (#[trigger] nbl[j1]) as int != (
            #[trigger] ibl[j2]) as int,
    ensures
        ino0.fresh_blocks(fsa.disk(), nbl, ibl),
{
    lemma_grow_frame_only_bitmap(fs0, fsa, ino0);
    let all = nbl + ibl;
    let d = ino0.spec_data_blocks();
    assert forall|j: int| 0 <= j < all.len() implies 0 < (#[trigger] all[j]) as int && (
    all[j] as int) < fsa.disk().len() && !fs0.data_bitmap.spec_bit(
        fs0.disk(),
        all[j] as int - fs0.data_area_start as int,
    ) && fs0.data_area_start as int <= all[j] as int by {
        if j < nbl.len() {
            assert(all[j] == nbl[j]);
        } else {
            assert(all[j] == ibl[j - nbl.len()]);
        }
    }
    assert forall|j1: int, j2: int| 0 <= j1 < j2 < all.len() implies (#[trigger] all[j1]) as int
        != (#[trigger] all[j2]) as int by {
        if j1 < nbl.len() {
            assert(all[j1] == nbl[j1]);
        } else {
            assert(all[j1] == ibl[j1 - nbl.len()]);
        }
        if j2 < nbl.len() {
            assert(all[j2] == nbl[j2]);
        } else {
            assert(all[j2] == ibl[j2 - nbl.len()]);
        }
    }
    assert forall|j: int| 0 <= j < all.len() implies !ino0.is_data_block(
        fsa.disk(),
        (#[trigger] all[j]) as int,
    ) && !ino0.is_index_block(fsa.disk(), all[j] as int) by {
        let x = all[j] as int;
        if ino0.is_data_block(fsa.disk(), x) {
            let s = choose|s: int| 0 <= s < d && #[trigger] ino0.spec_block_id(fsa.disk(), s) == x;
            assert(ino0.spec_block_id(fsa.disk(), s) == ino0.spec_block_id(fs0.disk(), s));
            assert(fs0.data_bitmap.spec_bit(fs0.disk(), x - fs0.data_area_start as int));
        }
        if ino0.is_index_block(fsa.disk(), x) {
            if d > 28 && x == ino0.indirect1 as int {
                assert(fs0.data_bitmap.spec_bit(fs0.disk(), x - fs0.data_area_start as int));
            } else if d > 156 && x == ino0.indirect2 as int {
                assert(fs0.data_bitmap.spec_bit(fs0.disk(), x - fs0.data_area_start as int));
            } else {
                let t = choose|t: int|
                    0 <= t <= (d - 157) / 128 && #[trigger] ino0.spec_sub_index_id(fsa.disk(), t)
                        == x;
                assert(ino0.spec_sub_index_id(fsa.disk(), t) == ino0.spec_sub_index_id(
                    fs0.disk(),
                    t,
                ));
                assert(fs0.data_bitmap.spec_bit(fs0.disk(), x - fs0.data_area_start as int));
            }
        }
    }
}


impl INode {
    /// Write the already-grown inode's content and record: `data` goes
    /// into the file at `offset`, then the record itself is stored.
    #[verifier::rlimit(100)]
    fn commit_write<D: BlockDevice>(
        &self,
        offset: u32,
        data: &Vec<u8>,
        ino: DiskINode,
        fs: &mut FileSystem<D>,
    )
        requires
            old(fs).wf(),
            inode_ok(*old(fs), ino),
            old(fs).inode_area_start as int <= self.block_id as int,
            (self.block_id as int) < old(fs).data_bitmap.first_block as int,
            self.block_offset as int + INODE_SIZE <= BLOCK_SIZE,
            offset as int + data@.len() <= ino.size,
        ensures
            final(fs).wf(),
            final(fs).same_layout(*old(fs)),
            stored_ok(*final(fs), self.block_id as int, self.block_offset as int),
            stored_size(final(fs).disk(), self.block_id as int, self.block_offset as int)
                == ino.size,
            stored_is_dir(final(fs).disk(), self.block_id as int, self.block_offset as int) == (
            ino._type is Directory),
            stored_ind1(final(fs).disk(), self.block_id as int, self.block_offset as int)
                == ino.indirect1 as int,
            stored_ind2(final(fs).disk(), self.block_id as int, self.block_offset as int)
                == ino.indirect2 as int,
            forall|j: int|
                0 <= j < data@.len() ==> stored_byte(
                    final(fs).disk(),
                    self.block_id as int,
                    self.block_offset as int,
                    offset + j,
                ) == data@[j],
            forall|i: int|
                0 <= i < ino.size && !(offset <= i < offset + data@.len()) ==> stored_byte(
                    final(fs).disk(),
                    self.block_id as int,
                    self.block_offset as int,
                    i,
                ) == ino.spec_byte(old(fs).disk(), i),
            forall|x: int|
                0 <= x < old(fs).disk().len() && x != self.block_id as int && !ino.is_data_block(
                    old(fs).disk(),
                    x,
                ) ==> final(fs).disk()[x] == old(fs).disk()[x],
            forall|j: int|
                0 <= j < BLOCK_SIZE && !(self.block_offset <= j < self.block_offset + INODE_SIZE)
                    ==> final(fs).disk()[self.block_id as int][j]
                    == old(fs).disk()[self.block_id as int][j],
    {
        let ghost bi = self.block_id as int;
        let ghost bo = self.block_offset as int;
        let ghost fsg = *fs;
        ino.write(offset, data, &mut fs.mgr);
        let ghost fsw = *fs;
        proof {
            lemma_write_keeps_ok(fsg, fsw, ino);
        }
        ino.store(&mut fs.mgr, self.block_id as usize, self.block_offset as usize);
        proof {
            assert forall|x: int|
                0 <= x < fsw.disk().len() && (ino.is_data_block(fsw.disk(), x)
                    || ino.is_index_block(fsw.disk(), x) || fsw.data_bitmap.first_block <= x
                    < fsw.data_area_start) implies fs.disk()[x] == fsw.disk()[x] by {
                assert(x != bi) by {
                    if ino.is_data_block(fsw.disk(), x) {
                        let s = choose|s: int|
                            0 <= s < ino.spec_data_blocks() && #[trigger] ino.spec_block_id(
                                fsw.disk(),
                                s,
                            ) == x;
                        assert(fsw.data_area_start as int <= ino.spec_block_id(fsw.disk(), s));
                    }
                    if ino.is_index_block(fsw.disk(), x) {
                        if ino.spec_data_blocks() > 156 && !(x == ino.indirect1 as int) && !(x
                            == ino.indirect2 as int) {
                            let t = choose|t: int|
                                0 <= t <= (ino.spec_data_blocks() - 157) / 128
                                    && #[trigger] ino.spec_sub_index_id(fsw.disk(), t) == x;
                            assert(fsw.data_area_start as int <= ino.spec_sub_index_id(
                                fsw.disk(),
                                t,
                            ));
                        }
                    }
                }
            }
            lemma_untouched_keeps_ok(fsw, *fs, ino);
            assert(ino.matches_disk(fs.disk()[bi], bo));
            assert(stored_inode_ok(*fs, bi, bo, ino));
            lemma_loaded_ok(ino, *fs, bi, bo);
            lemma_ok_loaded(ino, *fs, bi, bo);
            assert forall|i: int| 0 <= i < ino.size implies #[trigger] ino.spec_byte(fs.disk(), i)
                == ino.spec_byte(fsw.disk(), i) by {
                crate::inode::lemma_div_lt_data_blocks(i, ino.size as int);
            }
            assert forall|j: int| 0 <= j < data@.len() implies stored_byte(
                fs.disk(),
                bi,
                bo,
                offset + j,
            ) == data@[j] by {
                let i = offset + j;
                assert(ino.spec_byte(fsw.disk(), i) == data@[j]);
                assert(ino.spec_byte(fs.disk(), i) == ino.spec_byte(fsw.disk(), i));
                assert(stored_byte(fs.disk(), bi, bo, i) == ino.spec_byte(fs.disk(), i));
            }
        }
    }

    /// Write `data` into this inode's file at byte `offset`, growing the
    /// file first when `offset + data.len()` exceeds its size. Returns
    /// `false`, leaving the file unchanged, when the disk is full.
    #[verifier::rlimit(100)]
    pub fn write_at<D: BlockDevice>(&self, offset: u32, data: &Vec<u8>, fs: &mut FileSystem<D>)
        -> (r: bool)
        requires
            old(fs).wf(),
            stored_ok(*old(fs), self.block_id as int, self.block_offset as int),
            offset as int + data@.len() <= INODE_MAX_SIZE,
        ensures
            final(fs).wf(),
            final(fs).same_layout(*old(fs)),
            offset as int + data@.len() <= stored_size(
                old(fs).disk(),
                self.block_id as int,
                self.block_offset as int,
            ) ==> r,
            !r ==> final(fs).data_bitmap.all_set_below(
                final(fs).disk(),
                old(fs).total_blocks as int - old(fs).data_area_start as int,
            ),
            !r ==> stored_size(final(fs).disk(), self.block_id as int, self.block_offset as int)
                == stored_size(old(fs).disk(), self.block_id as int, self.block_offset as int),
            !r ==> forall|i: int|
                0 <= i < stored_size(old(fs).disk(), self.block_id as int, self.block_offset as int)
                    ==> stored_byte(final(fs).disk(), self.block_id as int, self.block_offset as int, i)
                    == stored_byte(old(fs).disk(), self.block_id as int, self.block_offset as int, i),
            stored_ok(*final(fs), self.block_id as int, self.block_offset as int),
            r ==> stored_size(final(fs).disk(), self.block_id as int, self.block_offset as int)
                == if offset as int + data@.len() > stored_size(
                old(fs).disk(),
                self.block_id as int,
                self.block_offset as int,
            ) {
                offset as int + data@.len()
            } else {
                stored_size(old(fs).disk(), self.block_id as int, self.block_offset as int)
            },
            r ==> forall|j: int|
                0 <= j < data@.len() ==> stored_byte(
                    final(fs).disk(),
                    self.block_id as int,
                    self.block_offset as int,
                    offset + j,
                ) == data@[j],
            r ==> forall|i: int|
                0 <= i < stored_size(old(fs).disk(), self.block_id as int, self.block_offset as int)
                    && !(offset <= i < offset + data@.len()) ==> stored_byte(
                    final(fs).disk(),
                    self.block_id as int,
                    self.block_offset as int,
                    i,
                ) == stored_byte(old(fs).disk(), self.block_id as int, self.block_offset as int, i),
            stored_is_dir(final(fs).disk(), self.block_id as int, self.block_offset as int)
                == stored_is_dir(old(fs).disk(), self.block_id as int, self.block_offset as int),
            r && spec_data_blocks_for(
                stored_size(final(fs).disk(), self.block_id as int, self.block_offset as int),
            ) <= 156 ==> stored_ind2(final(fs).disk(), self.block_id as int, self.block_offset as int)
                == stored_ind2(old(fs).disk(), self.block_id as int, self.block_offset as int),
            forall|x: int|
                0 <= x < old(fs).disk().len() && x != self.block_id as int && !(old(
                    fs,
                ).data_bitmap.first_block <= x < old(fs).data_area_start) && !(old(
                    fs,
                ).data_area_start <= x < old(fs).total_blocks && !old(fs).data_bitmap.spec_bit(
                    old(fs).disk(),
                    x - old(fs).data_area_start as int,
                )) && !stored_is_index_block(
                    old(fs).disk(),
                    self.block_id as int,
                    self.block_offset as int,
                    x,
                ) && !stored_is_data_block(
                    old(fs).disk(),
                    self.block_id as int,
                    self.block_offset as int,
                    x,
                ) ==> final(fs).disk()[x] == old(fs).disk()[x],
            forall|j: int|
                0 <= j < BLOCK_SIZE && !(self.block_offset <= j < self.block_offset + INODE_SIZE)
                    ==> final(fs).disk()[self.block_id as int][j]
                    == old(fs).disk()[self.block_id as int][j],
    {
        let ghost bi = self.block_id as int;
        let ghost bo = self.block_offset as int;
        let ghost fs0 = *fs;
        let mut ino = self.read_disk_inode(fs);
        proof {
            lemma_ok_loaded(ino, *fs, bi, bo);
        }
        let ghost ino0 = ino;
        let len = data.len() as u32;
        let end = offset + len;
        if end > ino.size {
            let grown = self.increase_size(end, &mut ino, fs);
            if !grown {
                proof {
                    lemma_grow_frame_only_bitmap(fs0, *fs, ino0);
                    lemma_loaded_ok(ino0, *fs, bi, bo);
                    assert(ino0.matches_disk(fs.disk()[bi], bo)) by {
                        assert(fs.disk()[bi] == fs0.disk()[bi]);
                    }
                    assert forall|i: int| 0 <= i < stored_size(fs0.disk(), bi, bo) implies
                        stored_byte(fs.disk(), bi, bo, i) == stored_byte(fs0.disk(), bi, bo, i) by {
                        assert(ino0.spec_byte(fs.disk(), i) == ino0.spec_byte(fs0.disk(), i));
                        lemma_loaded_matches(ino0, fs.disk(), bi, bo);
                        lemma_loaded_matches(ino0, fs0.disk(), bi, bo);
                    }
                }
                return false;
            }
        }
        let ghost fsg = *fs;
        let ghost inog = ino;
        self.commit_write(offset, data, ino, fs);
        proof {
            lemma_loaded_matches(ino0, fs0.disk(), bi, bo);
            if spec_data_blocks_for(inog.size as int) <= 156 {
                if end > ino0.size {
                    assert(inog.size == end);
                    assert(inog.indirect2 == ino0.indirect2);
                } else {
                    assert(inog == ino0);
                }
                assert(stored_ind2(fs.disk(), bi, bo) == inog.indirect2 as int);
                assert(ino0.indirect2 as int == stored_ind2(fs0.disk(), bi, bo));
            }
            assert forall|i: int|
                0 <= i < stored_size(fs0.disk(), bi, bo) && !(offset <= i < offset
                    + data@.len()) implies stored_byte(fs.disk(), bi, bo, i) == stored_byte(
                fs0.disk(),
                bi,
                bo,
                i,
            ) by {
                assert(inog.spec_byte(fsg.disk(), i) == ino0.spec_byte(fs0.disk(), i));
            }
            assert forall|x: int|
                0 <= x < fs0.disk().len() && x != bi && !(fs0.data_bitmap.first_block <= x
                    < fs0.data_area_start) && !(fs0.data_area_start <= x < fs0.total_blocks
                    && !fs0.data_bitmap.spec_bit(fs0.disk(), x - fs0.data_area_start as int))
                    && !stored_is_index_block(fs0.disk(), bi, bo, x) && !stored_is_data_block(
                    fs0.disk(),
                    bi,
                    bo,
                    x,
                ) implies fs.disk()[x] == fs0.disk()[x] by {
                assert(!ino0.is_index_block(fs0.disk(), x)) by {
                    if ino0.is_index_block(fs0.disk(), x) {
                        if ino0.spec_data_blocks() > 156 && !(x == ino0.indirect1 as int) && !(x
                            == ino0.indirect2 as int) {
                            let t = choose|t: int|
                                0 <= t <= (ino0.spec_data_blocks() - 157) / 128
                                    && #[trigger] ino0.spec_sub_index_id(fs0.disk(), t) == x;
                            assert(stored_sub_id(fs0.disk(), bi, bo, t) == x);
                        }
                    }
                }
                assert(!inog.is_data_block(fsg.disk(), x)) by {
                    if inog.is_data_block(fsg.disk(), x) {
                        let s = choose|s: int|
                            0 <= s < inog.spec_data_blocks() && #[trigger] inog.spec_block_id(
                                fsg.disk(),
                                s,
                            ) == x;
                        if s < ino0.spec_data_blocks() {
                            assert(inog.spec_block_id(fsg.disk(), s) == ino0.spec_block_id(
                                fs0.disk(),
                                s,
                            ));
                            assert(stored_is_data_block(fs0.disk(), bi, bo, x)) by {
                                assert(stored_block_id(fs0.disk(), bi, bo, s) == x);
                            }
                        } else {
                            assert(fsg.data_bitmap.spec_bit(
                                fsg.disk(),
                                x - fsg.data_area_start as int,
                            ));
                        }
                    }
                }
            }
        }
        true
    }
}

/// An inode whose content write touched only its own data blocks keeps
/// its structure and marking.
#[verifier::rlimit(100)]
proof fn lemma_write_keeps_ok<D: BlockDevice>(
    fs0: FileSystem<D>,
    fs1: FileSystem<D>,
    ino: DiskINode,
)
    requires
        fs0.wf(),
        fs1.wf(),
        fs1.same_layout(fs0),
        inode_ok(fs0, ino),
        ino.wf(fs1.disk()),
        forall|x: int|
            0 <= x < fs0.disk().len() && !ino.is_data_block(fs0.disk(), x) ==> fs1.disk()[x]
                == fs0.disk()[x],
        forall|s: int|
            0 <= s < ino.spec_data_blocks() ==> #[trigger] ino.spec_block_id(fs1.disk(), s)
                == ino.spec_block_id(fs0.disk(), s),
    ensures
        inode_ok(fs1, ino),
        forall|k: int|
            0 <= k < fs0.data_bitmap.spec_total_bits() ==> #[trigger] fs1.data_bitmap.spec_bit(
                fs1.disk(),
                k,
            ) == fs0.data_bitmap.spec_bit(fs0.disk(), k),
        forall|t: int|
            ino.spec_data_blocks() > 156 && 0 <= t <= (ino.spec_data_blocks() - 157) / 128
                ==> #[trigger] ino.spec_sub_index_id(fs1.disk(), t) == ino.spec_sub_index_id(
                fs0.disk(),
                t,
            ),
{
    let disk0 = fs0.disk();
    let disk1 = fs1.disk();
    let d = ino.spec_data_blocks();
    assert forall|k: int| 0 <= k < fs0.data_bitmap.spec_total_bits() implies
        #[trigger] fs1.data_bitmap.spec_bit(disk1, k) == fs0.data_bitmap.spec_bit(disk0, k) by {
        crate::bitmap::lemma_bit_range(k, fs0.data_bitmap.blocks as int);
        let blk = fs0.data_bitmap.first_block as int + k / 4096;
        assert(!ino.is_data_block(disk0, blk)) by {
            if ino.is_data_block(disk0, blk) {
                let s = choose|s: int|
                    0 <= s < d && #[trigger] ino.spec_block_id(disk0, s) == blk;
            }
        }
        assert(disk1[blk] == disk0[blk]);
    }
    if d > 156 {
        assert(!ino.is_data_block(disk0, ino.indirect2 as int)) by {
            if ino.is_data_block(disk0, ino.indirect2 as int) {
                let s = choose|s: int|
                    0 <= s < d && #[trigger] ino.spec_block_id(disk0, s)
                        == ino.indirect2 as int;
                assert(ino.is_index_block(disk0, ino.spec_block_id(disk0, s)));
            }
        }
        assert(disk1[ino.indirect2 as int] == disk0[ino.indirect2 as int]);
        assert forall|t: int| 0 <= t <= (d - 157) / 128 implies #[trigger] ino.spec_sub_index_id(
            disk1,
            t,
        ) == ino.spec_sub_index_id(disk0, t) by {
        }
    }
    assert(inode_ok(fs1, ino)) by {
        assert forall|s: int| 0 <= s < d implies fs1.data_area_start as int
            <= #[trigger] ino.spec_block_id(fs1.disk(), s) && ino.spec_block_id(fs1.disk(), s)
            < fs1.total_blocks as int && fs1.data_bitmap.spec_bit(
            fs1.disk(),
            ino.spec_block_id(fs1.disk(), s) - fs1.data_area_start as int,
        ) by {
            assert(ino.spec_block_id(fs1.disk(), s) == ino.spec_block_id(disk0, s));
        }
        if d > 156 {
            assert forall|t: int| 0 <= t <= (d - 157) / 128 implies fs1.data_area_start as int
                <= #[trigger] ino.spec_sub_index_id(fs1.disk(), t) && ino.spec_sub_index_id(
                fs1.disk(),
                t,
            ) < fs1.total_blocks as int && fs1.data_bitmap.spec_bit(
                fs1.disk(),
                ino.spec_sub_index_id(fs1.disk(), t) - fs1.data_area_start as int,
            ) by {
                assert(ino.spec_sub_index_id(fs1.disk(), t) == ino.spec_sub_index_id(disk0, t));
            }
        }
    }
}

/// An inode whose blocks did not change keeps its structure, content
/// and marking: used when only the record block or the bitmap moved.
#[verifier::rlimit(100)]
proof fn lemma_untouched_keeps_ok<D: BlockDevice>(
    fs0: FileSystem<D>,
    fs1: FileSystem<D>,
    ino: DiskINode,
)
    requires
        fs0.wf(),
        fs1.wf(),
        fs1.same_layout(fs0),
        inode_ok(fs0, ino),
        forall|x: int|
            0 <= x < fs0.disk().len() && (ino.is_data_block(fs0.disk(), x) || ino.is_index_block(
                fs0.disk(),
                x,
            ) || fs0.data_bitmap.first_block <= x < fs0.data_area_start) ==> fs1.disk()[x]
                == fs0.disk()[x],
    ensures
        inode_ok(fs1, ino),
        forall|s: int|
            0 <= s < ino.spec_data_blocks() ==> #[trigger] ino.spec_block_id(fs1.disk(), s)
                == ino.spec_block_id(fs0.disk(), s),
        forall|i: int|
            0 <= i < ino.size ==> #[trigger] ino.spec_byte(fs1.disk(), i) == ino.spec_byte(
                fs0.disk(),
                i,
            ),
        forall|t: int|
            ino.spec_data_blocks() > 156 && 0 <= t <= (ino.spec_data_blocks() - 157) / 128
                ==> #[trigger] ino.spec_sub_index_id(fs1.disk(), t) == ino.spec_sub_index_id(
                fs0.disk(),
                t,
            ),
        forall|k: int|
            0 <= k < fs0.data_bitmap.spec_total_bits() ==> #[trigger] fs1.data_bitmap.spec_bit(
                fs1.disk(),
                k,
            ) == fs0.data_bitmap.spec_bit(fs0.disk(), k),
{
    let disk0 = fs0.disk();
    let disk1 = fs1.disk();
    let d = ino.spec_data_blocks();
    if d > 28 {
        assert(ino.is_index_block(disk0, ino.indirect1 as int));
    }
    if d > 156 {
        assert(ino.is_index_block(disk0, ino.indirect2 as int));
        assert forall|t: int| 0 <= t <= (d - 157) / 128 implies disk1[#[trigger] ino.spec_sub_index_id(
            disk0,
            t,
        )] == disk0[ino.spec_sub_index_id(disk0, t)] by {
            assert(ino.is_index_block(disk0, ino.spec_sub_index_id(disk0, t)));
        }
    }
    ino.lemma_index_blocks_stable(disk0, disk1);
    assert forall|i: int| 0 <= i < ino.size implies #[trigger] ino.spec_byte(disk1, i)
        == ino.spec_byte(disk0, i) by {
        crate::inode::lemma_div_lt_data_blocks(i, ino.size as int);
        let s = i / 512;
        assert(ino.spec_block_id(disk1, s) == ino.spec_block_id(disk0, s));
        assert(ino.is_data_block(disk0, ino.spec_block_id(disk0, s)));
    }
    assert forall|k: int| 0 <= k < fs0.data_bitmap.spec_total_bits() implies
        #[trigger] fs1.data_bitmap.spec_bit(disk1, k) == fs0.data_bitmap.spec_bit(disk0, k) by {
        crate::bitmap::lemma_bit_range(k, fs0.data_bitmap.blocks as int);
        assert(disk1[fs0.data_bitmap.first_block + k / 4096] == disk0[fs0.data_bitmap.first_block
            + k / 4096]);
    }
    assert(ino.data_wf(disk1));
    assert forall|s: int| 0 <= s < d implies !ino.is_index_block(
        disk1,
        #[trigger] ino.spec_block_id(disk1, s),
    ) by {
        let x = ino.spec_block_id(disk1, s);
        assert(x == ino.spec_block_id(disk0, s));
        assert(!ino.is_index_block(disk0, x));
        if ino.is_index_block(disk1, x) {
            if d > 156 && (exists|t: int|
                0 <= t <= (d - 157) / 128 && #[trigger] ino.spec_sub_index_id(disk1, t) == x) {
                let t = choose|t: int|
                    0 <= t <= (d - 157) / 128 && #[trigger] ino.spec_sub_index_id(disk1, t) == x;
                assert(ino.spec_sub_index_id(disk0, t) == x);
            }
        }
    }
    assert(ino.disjoint_wf(disk1)) by {
        if d > 156 {
            assert forall|t1: int, t2: int| 0 <= t1 < t2 <= (d - 157)
                / 128 implies #[trigger] ino.spec_sub_index_id(disk1, t1)
                != #[trigger] ino.spec_sub_index_id(disk1, t2) by {
                assert(ino.spec_sub_index_id(disk1, t1) == ino.spec_sub_index_id(disk0, t1));
                assert(ino.spec_sub_index_id(disk1, t2) == ino.spec_sub_index_id(disk0, t2));
            }
            assert forall|t: int| 0 <= t <= (d - 157) / 128 implies #[trigger] ino.spec_sub_index_id(
                disk1,
                t,
            ) != ino.indirect1 as int && ino.spec_sub_index_id(disk1, t)
                != ino.indirect2 as int by {
                assert(ino.spec_sub_index_id(disk1, t) == ino.spec_sub_index_id(disk0, t));
            }
        }
    }
    assert(inode_ok(fs1, ino)) by {
        assert forall|s: int| 0 <= s < d implies fs1.data_area_start as int
            <= #[trigger] ino.spec_block_id(fs1.disk(), s) && ino.spec_block_id(fs1.disk(), s)
            < fs1.total_blocks as int && fs1.data_bitmap.spec_bit(
            fs1.disk(),
            ino.spec_block_id(fs1.disk(), s) - fs1.data_area_start as int,
        ) by {
            assert(ino.spec_block_id(fs1.disk(), s) == ino.spec_block_id(disk0, s));
        }
        if d > 156 {
            assert forall|t: int| 0 <= t <= (d - 157) / 128 implies fs1.data_area_start as int
                <= #[trigger] ino.spec_sub_index_id(fs1.disk(), t) && ino.spec_sub_index_id(
                fs1.disk(),
                t,
            ) < fs1.total_blocks as int && fs1.data_bitmap.spec_bit(
                fs1.disk(),
                ino.spec_sub_index_id(fs1.disk(), t) - fs1.data_area_start as int,
            ) by {
                assert(ino.spec_sub_index_id(fs1.disk(), t) == ino.spec_sub_index_id(disk0, t));
            }
        }
    }
}


impl INode {
    /// First half of `create`: refuse duplicates, allocate an inode,
    /// and write its empty record. Returns the new inode id and the
    /// location of its record.
    #[verifier::rlimit(100)]
    fn create_prepare<D: BlockDevice>(&self, name: &Vec<u8>, fs: &mut FileSystem<D>) -> (r:
        Option<(u32, u32, u32)>)
        requires
            old(fs).wf(),
            self.stored_dir_ok(*old(fs)),
            name@.len() <= NAME_LIMIT,
            forall|j: int| 0 <= j < name@.len() ==> #[trigger] name@[j] != 0u8,
            self.backed_by_inode(*old(fs)),
        ensures
            final(fs).wf(),
            final(fs).same_layout(*old(fs)),
            (exists|e: int|
                0 <= e < Self::spec_entry_count(
                    old(fs).disk(),
                    self.block_id as int,
                    self.block_offset as int,
                ) && #[trigger] Self::spec_entry_name(
                    old(fs).disk(),
                    self.block_id as int,
                    self.block_offset as int,
                    e,
                ) == name@) ==> r is None,
            r is None ==> final(fs).disk() == old(fs).disk(),
            r is None ==> (exists|e: int|
                0 <= e < Self::spec_entry_count(
                    old(fs).disk(),
                    self.block_id as int,
                    self.block_offset as int,
                ) && #[trigger] Self::spec_entry_name(
                    old(fs).disk(),
                    self.block_id as int,
                    self.block_offset as int,
                    e,
                ) == name@) || old(fs).inode_bitmap.all_set_below(
                old(fs).disk(),
                old(fs).inode_bitmap.spec_total_bits(),
            ),
            forall|k: int|
                0 <= k < old(fs).inode_bitmap.spec_total_bits() && old(fs).inode_bitmap.spec_bit(
                    old(fs).disk(),
                    k,
                ) ==> #[trigger] final(fs).inode_bitmap.spec_bit(final(fs).disk(), k),
            r is Some ==> {
                let bi = self.block_id as int;
                let bo = self.block_offset as int;
                let count0 = Self::spec_entry_count(old(fs).disk(), bi, bo);
                let k = r.unwrap().0;
                let nb = r.unwrap().1;
                let noff = r.unwrap().2;
                &&& forall|e: int|
                    0 <= e < count0 ==> #[trigger] Self::spec_entry_name(old(fs).disk(), bi, bo, e)
                        != name@
                &&& self.stored_dir_ok(*final(fs))
                &&& stored_size(final(fs).disk(), bi, bo) == stored_size(old(fs).disk(), bi, bo)
                &&& Self::spec_entry_count(final(fs).disk(), bi, bo) == count0
                &&& forall|e: int|
                    0 <= e < count0 ==> #[trigger] Self::spec_entry_raw(final(fs).disk(), bi, bo, e)
                        == Self::spec_entry_raw(old(fs).disk(), bi, bo, e)
                &&& forall|e: int|
                    0 <= e < count0 ==> #[trigger] Self::spec_entry_id(final(fs).disk(), bi, bo, e)
                        == Self::spec_entry_id(old(fs).disk(), bi, bo, e)
                &&& nb as int == final(fs).inode_area_start as int + k as int / 4
                &&& noff as int == (k as int % 4) * 128
                &&& noff as int + INODE_SIZE <= BLOCK_SIZE
                &&& final(fs).inode_area_start as int <= nb as int
                &&& (nb as int) < final(fs).data_bitmap.first_block as int
                &&& (nb as int != bi || noff as int + 128 <= bo || bo + 128 <= noff as int)
                &&& stored_ok(*final(fs), nb as int, noff as int)
                &&& stored_size(final(fs).disk(), nb as int, noff as int) == 0
                &&& !stored_is_dir(final(fs).disk(), nb as int, noff as int)
                &&& stored_d(final(fs).disk(), nb as int, noff as int) == 0
                &&& stored_ind1(final(fs).disk(), nb as int, noff as int) == 0
                &&& stored_ind2(final(fs).disk(), nb as int, noff as int) == 0
            },
    {
        let ghost bi = self.block_id as int;
        let ghost bo = self.block_offset as int;
        let ghost fs0 = *fs;
        let dup = self.find(name, fs);
        if dup.is_some() {
            return None;
        }
        let dir_ino = self.read_disk_inode(fs);
        proof {
            lemma_ok_loaded(dir_ino, *fs, bi, bo);
        }
        let old_size = dir_ino.size;
        let ghost count0 = INode::spec_entry_count(fs0.disk(), bi, bo);
        let got = fs.alloc_inode();
        let k = match got {
            None => {
                return None;
            },
            Some(k) => k,
        };
        let ghost fsk = *fs;
        proof {
            crate::efs::lemma_inode_location(k as int, fs.inode_bitmap.blocks as int);
        }
        let (nb, _inner, noff) = fs.get_inode_block_id(k);
        let newino = DiskINode::empty(INodeType::File);
        newino.store(&mut fs.mgr, nb as usize, noff as usize);
        let ghost fsn = *fs;
        proof {
            // every set inode bit survives: the allocation set one more,
            // the record store never touched a bitmap block
            assert forall|b: int| 1 <= b < fsk.inode_area_start as int implies fsn.disk()[b]
                == fsk.disk()[b] by {
            }
            lemma_inode_bits_same(fsk, fsn);
            assert forall|k2: int|
                0 <= k2 < fs0.inode_bitmap.spec_total_bits() && fs0.inode_bitmap.spec_bit(
                    fs0.disk(),
                    k2,
                ) implies #[trigger] fsn.inode_bitmap.spec_bit(fsn.disk(), k2) by {
                assert(fsk.inode_bitmap.spec_bit(fsk.disk(), k2));
            }
            let did = choose|did: int|
                0 <= did < fs0.inode_bitmap.spec_total_bits() && bi == fs0.inode_area_start as int
                    + did / 4 && bo == (did % 4) * 128 && #[trigger] fs0.inode_bitmap.spec_bit(
                    fs0.disk(),
                    did,
                );
            assert(did != k as int);
            assert(nb as int != bi || noff as int + 128 <= bo || bo + 128 <= noff as int) by {
                if nb as int == bi {
                    assert(did / 4 == k as int / 4);
                    assert(did % 4 != k as int % 4) by {
                        assert(did == 4 * (did / 4) + did % 4);
                        assert(k as int == 4 * (k as int / 4) + k as int % 4);
                    }
                    assert(noff as int == (k as int % 4) * 128 && bo == (did % 4) * 128);
                    assert(0 <= k as int % 4 < 4 && 0 <= did % 4 < 4);
                }
            }
            assert forall|x: int|
                0 <= x < fs0.disk().len() && (dir_ino.is_data_block(fs0.disk(), x)
                    || dir_ino.is_index_block(fs0.disk(), x) || fs0.data_bitmap.first_block <= x
                    < fs0.data_area_start) implies fsn.disk()[x] == fs0.disk()[x] by {
                assert(x != nb as int) by {
                    if dir_ino.is_data_block(fs0.disk(), x) {
                        let s = choose|s: int|
                            0 <= s < dir_ino.spec_data_blocks() && #[trigger] dir_ino.spec_block_id(
                                fs0.disk(),
                                s,
                            ) == x;
                    }
                    if dir_ino.is_index_block(fs0.disk(), x) {
                        if dir_ino.spec_data_blocks() > 156 && !(x == dir_ino.indirect1 as int)
                            && !(x == dir_ino.indirect2 as int) {
                            let t = choose|t: int|
                                0 <= t <= (dir_ino.spec_data_blocks() - 157) / 128
                                    && #[trigger] dir_ino.spec_sub_index_id(fs0.disk(), t) == x;
                        }
                    }
                }
                assert(fsk.disk()[x] == fs0.disk()[x]);
            }
            lemma_untouched_keeps_ok(fs0, fsn, dir_ino);
            assert(dir_ino.matches_disk(fsn.disk()[bi], bo)) by {
                if nb as int == bi {
                    assert(forall|j: int|
                        bo <= j < bo + 128 ==> #[trigger] fsn.disk()[bi][j] == fs0.disk()[bi][j]);
                } else {
                    assert(fsn.disk()[bi] == fsk.disk()[bi]);
                    assert(fsk.disk()[bi] == fs0.disk()[bi]);
                }
            }
            assert(stored_inode_ok(fsn, bi, bo, dir_ino));
            lemma_loaded_ok(dir_ino, fsn, bi, bo);
            lemma_ok_loaded(dir_ino, fsn, bi, bo);
            assert(stored_size(fsn.disk(), bi, bo) == old_size as int);
            assert forall|i: int| 0 <= i < old_size implies #[trigger] stored_byte(
                fsn.disk(),
                bi,
                bo,
                i,
            ) == stored_byte(fs0.disk(), bi, bo, i) by {
                assert(dir_ino.spec_byte(fsn.disk(), i) == dir_ino.spec_byte(fs0.disk(), i));
                lemma_loaded_matches(dir_ino, fs0.disk(), bi, bo);
            }
            assert forall|e: int| 0 <= e < count0 implies #[trigger] Self::spec_entry_raw(
                fsn.disk(),
                bi,
                bo,
                e,
            ) == Self::spec_entry_raw(fs0.disk(), bi, bo, e) && Self::spec_entry_id(
                fsn.disk(),
                bi,
                bo,
                e,
            ) == Self::spec_entry_id(fs0.disk(), bi, bo, e) by {
                lemma_entry_window(e, count0);
                assert(Self::spec_entry_raw(fsn.disk(), bi, bo, e) =~= Self::spec_entry_raw(
                    fs0.disk(),
                    bi,
                    bo,
                    e,
                ));
            }
            assert(self.stored_dir_ok(fsn)) by {
                assert forall|e: int| 0 <= e < count0 implies spec_name_len(
                    #[trigger] Self::spec_entry_raw(fsn.disk(), bi, bo, e),
                    0,
                ) <= NAME_LIMIT as int by {
                    assert(Self::spec_entry_raw(fsn.disk(), bi, bo, e) == Self::spec_entry_raw(
                        fs0.disk(),
                        bi,
                        bo,
                        e,
                    ));
                }
            }
            assert(stored_size(fsn.disk(), nb as int, noff as int) == 0 && !stored_is_dir(
                fsn.disk(),
                nb as int,
                noff as int,
            ) && stored_ok(fsn, nb as int, noff as int)) by {
                assert(newino.matches_disk(fsn.disk()[nb as int], noff as int));
                assert(inode_ok(fsn, newino));
                assert(stored_inode_ok(fsn, nb as int, noff as int, newino));
                lemma_loaded_ok(newino, fsn, nb as int, noff as int);
                lemma_ok_loaded(newino, fsn, nb as int, noff as int);
            }
        }
        Some((k, nb, noff))
    }

    /// Create file `name` in this directory: allocate an inode, write
    /// its empty record, and append a directory entry. Returns `None`
    /// when the name is taken or the disk is full.
    #[verifier::rlimit(100)]
    #[verifier::spinoff_prover]
    pub fn create<D: BlockDevice>(&self, name: &Vec<u8>, fs: &mut FileSystem<D>) -> (r: Option<
        INode>)
        requires
            old(fs).wf(),
            self.stored_dir_ok(*old(fs)),
            name@.len() <= NAME_LIMIT,
            forall|j: int| 0 <= j < name@.len() ==> #[trigger] name@[j] != 0u8,
            stored_size(old(fs).disk(), self.block_id as int, self.block_offset as int) + 32
                <= INODE_MAX_SIZE,
            self.backed_by_inode(*old(fs)),
        ensures
            final(fs).wf(),
            final(fs).same_layout(*old(fs)),
            self.backed_by_inode(*final(fs)),
            (exists|e: int|
                0 <= e < Self::spec_entry_count(
                    old(fs).disk(),
                    self.block_id as int,
                    self.block_offset as int,
                ) && #[trigger] Self::spec_entry_name(
                    old(fs).disk(),
                    self.block_id as int,
                    self.block_offset as int,
                    e,
                ) == name@) ==> r is None,
            r is None ==> {
                let bi = self.block_id as int;
                let bo = self.block_offset as int;
                let count0 = Self::spec_entry_count(old(fs).disk(), bi, bo);
                &&& self.stored_dir_ok(*final(fs))
                &&& stored_size(final(fs).disk(), bi, bo) == stored_size(old(fs).disk(), bi, bo)
                &&& forall|e: int|
                    0 <= e < count0 ==> #[trigger] Self::spec_entry_name(final(fs).disk(), bi, bo, e)
                        == Self::spec_entry_name(old(fs).disk(), bi, bo, e)
                &&& forall|e: int|
                    0 <= e < count0 ==> #[trigger] Self::spec_entry_id(final(fs).disk(), bi, bo, e)
                        == Self::spec_entry_id(old(fs).disk(), bi, bo, e)
            },
            r is None ==> (exists|e: int|
                0 <= e < Self::spec_entry_count(
                    old(fs).disk(),
                    self.block_id as int,
                    self.block_offset as int,
                ) && #[trigger] Self::spec_entry_name(
                    old(fs).disk(),
                    self.block_id as int,
                    self.block_offset as int,
                    e,
                ) == name@) || old(fs).inode_bitmap.all_set_below(
                old(fs).disk(),
                old(fs).inode_bitmap.spec_total_bits(),
            ) || final(fs).data_bitmap.all_set_below(
                final(fs).disk(),
                old(fs).total_blocks as int - old(fs).data_area_start as int,
            ),
            r is Some ==> {
                let bi = self.block_id as int;
                let bo = self.block_offset as int;
                let count0 = Self::spec_entry_count(old(fs).disk(), bi, bo);
                let h = r.unwrap();
                &&& forall|e: int|
                    0 <= e < count0 ==> #[trigger] Self::spec_entry_name(old(fs).disk(), bi, bo, e)
                        != name@
                &&& self.stored_dir_ok(*final(fs))
                &&& stored_size(final(fs).disk(), bi, bo) == stored_size(old(fs).disk(), bi, bo)
                    + 32
                &&& Self::spec_entry_count(final(fs).disk(), bi, bo) == count0 + 1
                &&& forall|e: int|
                    0 <= e < count0 ==> #[trigger] Self::spec_entry_name(final(fs).disk(), bi, bo, e)
                        == Self::spec_entry_name(old(fs).disk(), bi, bo, e)
                &&& forall|e: int|
                    0 <= e < count0 ==> #[trigger] Self::spec_entry_id(final(fs).disk(), bi, bo, e)
                        == Self::spec_entry_id(old(fs).disk(), bi, bo, e)
                &&& Self::spec_entry_name(final(fs).disk(), bi, bo, count0) == name@
                &&& h.block_id as int == final(fs).inode_area_start as int + Self::spec_entry_id(
                    final(fs).disk(),
                    bi,
                    bo,
                    count0,
                ) / 4
                &&& h.block_offset as int == (Self::spec_entry_id(final(fs).disk(), bi, bo, count0)
                    % 4) * 128
                &&& stored_ok(*final(fs), h.block_id as int, h.block_offset as int)
                &&& stored_size(final(fs).disk(), h.block_id as int, h.block_offset as int) == 0
                &&& !stored_is_dir(final(fs).disk(), h.block_id as int, h.block_offset as int)
                &&& stored_ind1(final(fs).disk(), h.block_id as int, h.block_offset as int) == 0
                &&& stored_ind2(final(fs).disk(), h.block_id as int, h.block_offset as int) == 0
            },
    {
        let ghost bi = self.block_id as int;
        let ghost bo = self.block_offset as int;
        let ghost fs0 = *fs;
        let prepared = self.create_prepare(name, fs);
        let (k, nb, noff) = match prepared {
            None => {
                proof {
                    lemma_backed_preserved(*self, fs0, *fs);
                    assert(self.stored_dir_ok(*fs)) by {
                        assert(fs.disk() == fs0.disk());
                    }
                }
                return None;
            },
            Some(t) => t,
        };
        let ghost fsn = *fs;
        let ghost count0 = INode::spec_entry_count(fs0.disk(), bi, bo);
        let r2 = self.create_commit(name, k, nb, noff, fs);
        proof {
            lemma_inode_bits_same(fsn, *fs);
            assert forall|k2: int|
                0 <= k2 < fs0.inode_bitmap.spec_total_bits() && fs0.inode_bitmap.spec_bit(
                    fs0.disk(),
                    k2,
                ) implies #[trigger] fs.inode_bitmap.spec_bit(fs.disk(), k2) by {
                assert(fsn.inode_bitmap.spec_bit(fsn.disk(), k2));
            }
            lemma_backed_preserved(*self, fs0, *fs);
            assert(count0 == INode::spec_entry_count(fsn.disk(), bi, bo));
            assert forall|e: int| 0 <= e < count0 implies #[trigger] Self::spec_entry_name(
                fsn.disk(),
                bi,
                bo,
                e,
            ) == Self::spec_entry_name(fs0.disk(), bi, bo, e) by {
                assert(Self::spec_entry_raw(fsn.disk(), bi, bo, e) == Self::spec_entry_raw(
                    fs0.disk(),
                    bi,
                    bo,
                    e,
                ));
            }
            if r2 is Some {
                assert forall|e: int| 0 <= e < count0 implies #[trigger] Self::spec_entry_name(
                    fs.disk(),
                    bi,
                    bo,
                    e,
                ) == Self::spec_entry_name(fs0.disk(), bi, bo, e) && Self::spec_entry_id(
                    fs.disk(),
                    bi,
                    bo,
                    e,
                ) == Self::spec_entry_id(fs0.disk(), bi, bo, e) by {
                }
            } else {
                assert forall|e: int| 0 <= e < count0 implies #[trigger] Self::spec_entry_name(
                    fs.disk(),
                    bi,
                    bo,
                    e,
                ) == Self::spec_entry_name(fs0.disk(), bi, bo, e) && Self::spec_entry_id(
                    fs.disk(),
                    bi,
                    bo,
                    e,
                ) == Self::spec_entry_id(fs0.disk(), bi, bo, e) by {
                }
            }
        }
        r2
    }

    /// Second half of `create`: write the directory entry for the
    /// already-prepared record and hand out its handle. `None`, with
    /// the directory unchanged, when the data area is exhausted.
    #[verifier::rlimit(100)]
    #[verifier::spinoff_prover]
    fn create_commit<D: BlockDevice>(
        &self,
        name: &Vec<u8>,
        k: u32,
        nb: u32,
        noff: u32,
        fs: &mut FileSystem<D>,
    ) -> (r: Option<INode>)
        requires
            old(fs).wf(),
            self.stored_dir_ok(*old(fs)),
            name@.len() <= NAME_LIMIT,
            forall|j: int| 0 <= j < name@.len() ==> #[trigger] name@[j] != 0u8,
            stored_size(old(fs).disk(), self.block_id as int, self.block_offset as int) + 32
                <= INODE_MAX_SIZE,
            noff as int + INODE_SIZE <= BLOCK_SIZE,
            old(fs).inode_area_start as int <= nb as int,
            (nb as int) < old(fs).data_bitmap.first_block as int,
            nb as int != self.block_id as int || noff as int + 128 <= self.block_offset as int
                || self.block_offset as int + 128 <= noff as int,
            stored_ok(*old(fs), nb as int, noff as int),
            stored_size(old(fs).disk(), nb as int, noff as int) == 0,
            !stored_is_dir(old(fs).disk(), nb as int, noff as int),
            stored_d(old(fs).disk(), nb as int, noff as int) == 0,
            stored_ind1(old(fs).disk(), nb as int, noff as int) == 0,
            stored_ind2(old(fs).disk(), nb as int, noff as int) == 0,
        ensures
            final(fs).wf(),
            final(fs).same_layout(*old(fs)),
            forall|b: int|
                1 <= b < old(fs).inode_area_start as int ==> final(fs).disk()[b] == old(
                    fs,
                ).disk()[b],
            r is None ==> {
                let bi = self.block_id as int;
                let bo = self.block_offset as int;
                &&& stored_size(final(fs).disk(), bi, bo) == stored_size(old(fs).disk(), bi, bo)
                &&& forall|e: int|
                    0 <= e < INode::spec_entry_count(old(fs).disk(), bi, bo)
                        ==> #[trigger] Self::spec_entry_name(final(fs).disk(), bi, bo, e)
                        == Self::spec_entry_name(old(fs).disk(), bi, bo, e)
                &&& forall|e: int|
                    0 <= e < INode::spec_entry_count(old(fs).disk(), bi, bo)
                        ==> #[trigger] Self::spec_entry_id(final(fs).disk(), bi, bo, e)
                        == Self::spec_entry_id(old(fs).disk(), bi, bo, e)
                &&& self.stored_dir_ok(*final(fs))
                &&& final(fs).data_bitmap.all_set_below(
                    final(fs).disk(),
                    old(fs).total_blocks as int - old(fs).data_area_start as int,
                )
            },
            r is Some ==> {
                let bi = self.block_id as int;
                let bo = self.block_offset as int;
                let count0 = Self::spec_entry_count(old(fs).disk(), bi, bo);
                let h = r.unwrap();
                &&& self.stored_dir_ok(*final(fs))
                &&& stored_size(final(fs).disk(), bi, bo) == stored_size(old(fs).disk(), bi, bo)
                    + 32
                &&& Self::spec_entry_count(final(fs).disk(), bi, bo) == count0 + 1
                &&& forall|e: int|
                    0 <= e < count0 ==> #[trigger] Self::spec_entry_name(final(fs).disk(), bi, bo, e)
                        == Self::spec_entry_name(old(fs).disk(), bi, bo, e)
                &&& forall|e: int|
                    0 <= e < count0 ==> #[trigger] Self::spec_entry_id(final(fs).disk(), bi, bo, e)
                        == Self::spec_entry_id(old(fs).disk(), bi, bo, e)
                &&& Self::spec_entry_name(final(fs).disk(), bi, bo, count0) == name@
                &&& Self::spec_entry_id(final(fs).disk(), bi, bo, count0) == k as int
                &&& h.block_id == nb
                &&& h.block_offset == noff
                &&& stored_ok(*final(fs), nb as int, noff as int)
                &&& stored_size(final(fs).disk(), nb as int, noff as int) == 0
                &&& !stored_is_dir(final(fs).disk(), nb as int, noff as int)
                &&& stored_ind1(final(fs).disk(), nb as int, noff as int) == 0
                &&& stored_ind2(final(fs).disk(), nb as int, noff as int) == 0
            },
    {
        let ghost bi = self.block_id as int;
        let ghost bo = self.block_offset as int;
        let ghost fsn = *fs;
        let dir_ino = self.read_disk_inode(fs);
        proof {
            lemma_ok_loaded(dir_ino, *fs, bi, bo);
        }
        let old_size = dir_ino.size;
        let entry = DirEntry::new(name, k);
        let mut ebytes = crate::block_dev::clone_bytes(&entry.name);
        crate::bytes::push_u32_le(&mut ebytes, k);
        let ok = self.write_at(old_size, &ebytes, fs);
        proof {
            // blocks of the inode area, the new record among them, are
            // untouched by the directory write
            assert forall|b: int| 1 <= b < fsn.inode_area_start as int implies fs.disk()[b]
                == fsn.disk()[b] by {
                lemma_low_blocks_not_file(fsn, bi, bo, b);
                assert(b != bi);
            }
        }
        if !ok {
            proof {
                assert(fs.data_bitmap.all_set_below(
                    fs.disk(),
                    fsn.total_blocks as int - fsn.data_area_start as int,
                ));
                lemma_dir_preserved(fsn.disk(), fs.disk(), bi, bo);
                assert(self.stored_dir_ok(*fs)) by {
                    assert forall|e: int|
                        0 <= e < Self::spec_entry_count(fs.disk(), bi, bo) implies spec_name_len(
                        #[trigger] Self::spec_entry_raw(fs.disk(), bi, bo, e),
                        0,
                    ) <= NAME_LIMIT as int by {
                        assert(Self::spec_entry_raw(fs.disk(), bi, bo, e) == Self::spec_entry_raw(
                            fsn.disk(),
                            bi,
                            bo,
                            e,
                        ));
                    }
                }
            }
            return None;
        }
        proof {
            lemma_create_append(
                fsn.disk(),
                fsn.disk(),
                fs.disk(),
                bi,
                bo,
                k,
                entry,
                ebytes@,
                name@,
                old_size as int,
            );
            lemma_record_survives_dir_write(fsn, *fs, bi, bo, nb as int, noff as int);
        }
        Some(INode::new(nb, noff))
    }
}


/// After appending one 32-byte entry to the directory's file, the old
/// entries, the new entry, and the fresh record all decode as expected.
#[verifier::rlimit(100)]
#[verifier::spinoff_prover]
proof fn lemma_create_append(
    disk0: Seq<Seq<u8>>,
    diskn: Seq<Seq<u8>>,
    diskw: Seq<Seq<u8>>,
    bi: int,
    bo: int,
    k: u32,
    entry: DirEntry,
    ebytes: Seq<u8>,
    name: Seq<u8>,
    old_size: int,
)
    requires
        old_size == stored_size(diskn, bi, bo),
        old_size % 32 == 0,
        old_size == INode::spec_entry_count(disk0, bi, bo) * 32,
        stored_size(diskn, bi, bo) == stored_size(disk0, bi, bo),
        forall|e: int|
            0 <= e < INode::spec_entry_count(disk0, bi, bo)
                ==> #[trigger] INode::spec_entry_raw(diskn, bi, bo, e)
                == INode::spec_entry_raw(disk0, bi, bo, e),
        forall|e: int|
            0 <= e < INode::spec_entry_count(disk0, bi, bo)
                ==> #[trigger] INode::spec_entry_id(diskn, bi, bo, e) == INode::spec_entry_id(
                disk0,
                bi,
                bo,
                e,
            ),
        forall|e: int|
            0 <= e < INode::spec_entry_count(disk0, bi, bo) ==> spec_name_len(
                #[trigger] INode::spec_entry_raw(disk0, bi, bo, e),
                0,
            ) <= NAME_LIMIT as int,
        entry.wf(),
        entry.spec_name() == name,
        ebytes == entry.name@ + crate::bytes::enc32(k),
        stored_size(diskw, bi, bo) == old_size + 32,
        forall|j: int|
            0 <= j < ebytes.len() ==> stored_byte(diskw, bi, bo, old_size + j) == ebytes[j],
        forall|i: int|
            0 <= i < old_size ==> stored_byte(diskw, bi, bo, i) == stored_byte(
                diskn,
                bi,
                bo,
                i,
            ),
    ensures
        INode::spec_entry_count(diskw, bi, bo) == INode::spec_entry_count(disk0, bi, bo)
            + 1,
        forall|e: int|
            0 <= e < INode::spec_entry_count(disk0, bi, bo)
                ==> #[trigger] INode::spec_entry_name(diskw, bi, bo, e)
                == INode::spec_entry_name(disk0, bi, bo, e),
        forall|e: int|
            0 <= e < INode::spec_entry_count(disk0, bi, bo)
                ==> #[trigger] INode::spec_entry_id(diskw, bi, bo, e) == INode::spec_entry_id(
                disk0,
                bi,
                bo,
                e,
            ),
        INode::spec_entry_name(diskw, bi, bo, INode::spec_entry_count(disk0, bi, bo))
            == name,
        INode::spec_entry_id(diskw, bi, bo, INode::spec_entry_count(disk0, bi, bo))
            == k as int,
        forall|e: int|
            0 <= e < INode::spec_entry_count(diskw, bi, bo) ==> spec_name_len(
                #[trigger] INode::spec_entry_raw(diskw, bi, bo, e),
                0,
            ) <= NAME_LIMIT as int,
{
    let count0 = INode::spec_entry_count(disk0, bi, bo);
    assert(INode::spec_entry_count(diskw, bi, bo) == count0 + 1) by {
        assert((count0 * 32 + 32) / 32 == count0 + 1) by (nonlinear_arith)
            requires
                count0 >= 0,
        ;
    }
    assert forall|e: int| 0 <= e < count0 implies #[trigger] INode::spec_entry_raw(
        diskw,
        bi,
        bo,
        e,
    ) =~= INode::spec_entry_raw(diskn, bi, bo, e) && INode::spec_entry_id(diskw, bi, bo, e)
        == INode::spec_entry_id(diskn, bi, bo, e) by {
        lemma_entry_window(e, count0);
    }
    assert forall|e: int| 0 <= e < count0 implies #[trigger] INode::spec_entry_id(
        diskw,
        bi,
        bo,
        e,
    ) == INode::spec_entry_id(disk0, bi, bo, e) by {
        assert(INode::spec_entry_id(diskw, bi, bo, e) == INode::spec_entry_id(diskn, bi, bo, e));
        assert(INode::spec_entry_id(diskn, bi, bo, e) == INode::spec_entry_id(disk0, bi, bo, e));
    }
    assert forall|e: int| 0 <= e < count0 implies #[trigger] INode::spec_entry_name(
        diskw,
        bi,
        bo,
        e,
    ) == INode::spec_entry_name(disk0, bi, bo, e) by {
        assert(INode::spec_entry_raw(diskw, bi, bo, e) == INode::spec_entry_raw(
            diskn,
            bi,
            bo,
            e,
        ));
        assert(INode::spec_entry_raw(diskn, bi, bo, e) == INode::spec_entry_raw(
            disk0,
            bi,
            bo,
            e,
        ));
    }
    assert(INode::spec_entry_raw(diskw, bi, bo, count0) =~= entry.name@) by {
        assert forall|i: int| 0 <= i < 28 implies #[trigger] stored_byte(
            diskw,
            bi,
            bo,
            32 * count0 + i,
        ) == entry.name@[i] by {
            assert(stored_byte(diskw, bi, bo, old_size + i) == ebytes[i]);
        }
    }
    assert(INode::spec_entry_name(diskw, bi, bo, count0) == name) by {
        assert(entry.spec_name() == name);
    }
    assert(INode::spec_entry_id(diskw, bi, bo, count0) == k as int) by {
        assert(stored_byte(diskw, bi, bo, 32 * count0 + 28) == ebytes[28]);
        assert(stored_byte(diskw, bi, bo, 32 * count0 + 29) == ebytes[29]);
        assert(stored_byte(diskw, bi, bo, 32 * count0 + 30) == ebytes[30]);
        assert(stored_byte(diskw, bi, bo, 32 * count0 + 31) == ebytes[31]);
        assert(ebytes.subrange(28, 32) =~= crate::bytes::enc32(k));
    }
    assert forall|e: int| 0 <= e < INode::spec_entry_count(diskw, bi, bo) implies spec_name_len(
        #[trigger] INode::spec_entry_raw(diskw, bi, bo, e),
        0,
    ) <= NAME_LIMIT as int by {
        if e < count0 {
            assert(INode::spec_entry_raw(diskw, bi, bo, e) == INode::spec_entry_raw(
                disk0,
                bi,
                bo,
                e,
            ));
        } else {
            assert(e == count0);
            assert(INode::spec_entry_raw(diskw, bi, bo, e) == entry.name@);
        }
    }
}

/// A freshly written empty record elsewhere in the inode area survives
/// a write into the directory's file.
#[verifier::rlimit(100)]
proof fn lemma_record_survives_dir_write<D: BlockDevice>(
    fsn: FileSystem<D>,
    fsw: FileSystem<D>,
    bi: int,
    bo: int,
    nb: int,
    noff: int,
)
    requires
        fsn.wf(),
        fsw.wf(),
        fsw.same_layout(fsn),
        stored_ok(fsn, bi, bo),
        stored_ok(fsn, nb, noff),
        stored_d(fsn.disk(), nb, noff) == 0,
        stored_size(fsn.disk(), nb, noff) == 0,
        !stored_is_dir(fsn.disk(), nb, noff),
        (nb != bi || noff + 128 <= bo || bo + 128 <= noff),
        0 <= noff,
        noff + INODE_SIZE <= BLOCK_SIZE,
        forall|x: int|
            0 <= x < fsn.disk().len() && x != bi && !(fsn.data_bitmap.first_block <= x
                < fsn.data_area_start) && !(fsn.data_area_start <= x < fsn.total_blocks
                && !fsn.data_bitmap.spec_bit(fsn.disk(), x - fsn.data_area_start as int))
                && !stored_is_index_block(fsn.disk(), bi, bo, x) && !stored_is_data_block(
                fsn.disk(),
                bi,
                bo,
                x,
            ) ==> fsw.disk()[x] == fsn.disk()[x],
        forall|j: int|
            0 <= j < BLOCK_SIZE && !(bo <= j < bo + INODE_SIZE) ==> fsw.disk()[bi][j]
                == fsn.disk()[bi][j],
    ensures
        stored_size(fsw.disk(), nb, noff) == 0,
        !stored_is_dir(fsw.disk(), nb, noff),
        stored_ok(fsw, nb, noff),
        stored_ind1(fsw.disk(), nb, noff) == stored_ind1(fsn.disk(), nb, noff),
        stored_ind2(fsw.disk(), nb, noff) == stored_ind2(fsn.disk(), nb, noff),
{
    let disk0 = fsn.disk();
    let disk1 = fsw.disk();
    assert(forall|j: int|
        noff <= j < noff + INODE_SIZE ==> #[trigger] disk1[nb][j] == disk0[nb][j]) by {
        if nb == bi {
        } else {
            assert(disk1[nb] == disk0[nb]) by {
                assert(!stored_is_data_block(disk0, bi, bo, nb)) by {
                    if stored_is_data_block(disk0, bi, bo, nb) {
                        let s = choose|s: int|
                            0 <= s < stored_d(disk0, bi, bo) && #[trigger] stored_block_id(
                                disk0,
                                bi,
                                bo,
                                s,
                            ) == nb;
                    }
                }
                assert(!stored_is_index_block(disk0, bi, bo, nb)) by {
                    if stored_is_index_block(disk0, bi, bo, nb) {
                        if stored_d(disk0, bi, bo) > 156 && !(nb == stored_ind1(disk0, bi, bo))
                            && !(nb == stored_ind2(disk0, bi, bo)) {
                            let t = choose|t: int|
                                0 <= t <= (stored_d(disk0, bi, bo) - 157) / 128
                                    && #[trigger] stored_sub_id(disk0, bi, bo, t) == nb;
                        }
                    }
                }
            }
        }
    }
    assert(stored_size(disk1, nb, noff) == stored_size(disk0, nb, noff));
    assert(le32_at(disk1[nb], noff + 124) == le32_at(disk0[nb], noff + 124));
    assert(stored_index_wf(disk1, nb, noff));
    assert(stored_data_wf(disk1, nb, noff));
    assert(stored_disjoint_wf(disk1, nb, noff));
    assert(stored_marked(fsw, nb, noff));
}


/// Writing then reading round-trips: once a write has placed `data` at
/// `offset` of a stored file (as `write_at` ensures), the bytes read
/// back from that range (as `read_at` returns them) are exactly `data`,
/// and the file is large enough to cover them.
pub proof fn lemma_write_read_roundtrip(
    disk: Seq<Seq<u8>>,
    b: int,
    off: int,
    offset: int,
    data: Seq<u8>,
)
    requires
        0 <= offset,
        offset + data.len() <= stored_size(disk, b, off),
        forall|j: int| 0 <= j < data.len() ==> stored_byte(disk, b, off, offset + j) == data[j],
    ensures
        stored_file(disk, b, off).subrange(offset, offset + data.len() as int) == data,
{
    assert(stored_file(disk, b, off).subrange(offset, offset + data.len() as int) =~= data);
}

} // verus!
