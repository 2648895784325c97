//! Bit-granular allocation over a contiguous range of bitmap blocks.
//!
//! Bit `k` of the range lives in block `first_block + k / BLOCK_BITS`, at
//! byte `(k % BLOCK_BITS) / 8`, bit `k % 8` (least significant first, as
//! little-endian words lay bits out). Bit `k` is 1 exactly when the
//! `k`-th managed object is allocated. Allocation always returns the
//! lowest clear bit.
use vstd::prelude::*;
use crate::block_cache::BlockCacheManager;
use crate::block_dev::{BlockDevice, BLOCK_SIZE};

verus! {

/// Number of bits managed by one bitmap block.
pub const BLOCK_BITS: usize = 4096;

/// Whether bit `b` of `byte` is set.
pub open spec fn bit_set(byte: u8, b: u8) -> bool {
    (byte >> b) & 1 == 1
}

/// A run of bitmap blocks, identified by the first block id and the
/// number of blocks.
#[derive(Clone, Copy, PartialEq, Eq, Structural, Debug)]
pub struct Bitmap {
    pub first_block: u32,
    pub blocks: u32,
}

impl Bitmap {
    /// Total number of bits managed.
    pub open spec fn spec_total_bits(self) -> int {
        self.blocks as int * BLOCK_BITS as int
    }

    /// The bitmap blocks fit on the disk and the bit count fits in `u32`.
    pub open spec fn fits(self, disk: Seq<Seq<u8>>) -> bool {
        &&& self.first_block as int + self.blocks as int <= disk.len()
        &&& disk.len() <= u32::MAX as int
        &&& self.spec_total_bits() <= u32::MAX as int
    }

    /// The value of managed bit `k` on the given disk.
    pub open spec fn spec_bit(self, disk: Seq<Seq<u8>>, k: int) -> bool {
        bit_set(
            disk[self.first_block as int + k / BLOCK_BITS as int][(k % BLOCK_BITS as int) / 8],
            (k % 8) as u8,
        )
    }

    /// All managed bits below `n` are set.
    pub open spec fn all_set_below(self, disk: Seq<Seq<u8>>, n: int) -> bool {
        forall|k: int| 0 <= k < n ==> self.spec_bit(disk, k)
    }

    /// No managed bit is set.
    pub open spec fn all_clear(self, disk: Seq<Seq<u8>>) -> bool {
        forall|k: int| 0 <= k < self.spec_total_bits() ==> !self.spec_bit(disk, k)
    }

    pub fn new(first_block: u32, blocks: u32) -> (r: Self)
        ensures
            r.first_block == first_block,
            r.blocks == blocks,
    {
        Self { first_block, blocks }
    }

    /// Allocate the lowest clear bit: scan the blocks in order, each
    /// block byte by byte, and set the first zero bit found. Returns the
    /// bit's index, or `None` when every bit is set.
    pub fn alloc_block<D: BlockDevice>(&self, mgr: &mut BlockCacheManager<D>) -> (r: Option<u32>)
        requires
            old(mgr).wf(),
            self.fits(old(mgr).disk()),
        ensures
            final(mgr).wf(),
            final(mgr).disk().len() == old(mgr).disk().len(),
            match r {
                None => {
                    &&& final(mgr).disk() == old(mgr).disk()
                    &&& self.all_set_below(old(mgr).disk(), self.spec_total_bits())
                },
                Some(k) => {
                    &&& k < self.spec_total_bits()
                    &&& !self.spec_bit(old(mgr).disk(), k as int)
                    &&& self.all_set_below(old(mgr).disk(), k as int)
                    &&& self.spec_bit(final(mgr).disk(), k as int)
                    &&& forall|k2: int|
                        0 <= k2 < self.spec_total_bits() && k2 != k ==> self.spec_bit(
                            final(mgr).disk(),
                            k2,
                        ) == self.spec_bit(old(mgr).disk(), k2)
                    &&& forall|b: int|
                        0 <= b < old(mgr).disk().len() && !(self.first_block <= b
                            < self.first_block + self.blocks) ==> final(mgr).disk()[b] == old(
                            mgr,
                        ).disk()[b]
                },
            },
    {
        let ghost disk0 = mgr.disk();
        proof {
            mgr.lemma_disk_wf();
        }
        let mut block: u32 = 0;
        while block < self.blocks
            invariant
                self.fits(disk0),
                disk0 == old(mgr).disk(),
                forall|b: int| 0 <= b < disk0.len() ==> (#[trigger] disk0[b]).len() == BLOCK_SIZE as int,
                mgr.wf(),
                mgr.disk() == disk0,
                block <= self.blocks,
                self.all_set_below(disk0, block as int * BLOCK_BITS as int),
            decreases self.blocks - block,
        {
            let bid = (self.first_block + block) as usize;
            let mut byte_idx: usize = 0;
            while byte_idx < BLOCK_SIZE
                invariant
                    self.fits(disk0),
                    disk0 == old(mgr).disk(),
                    forall|b: int| 0 <= b < disk0.len() ==> (#[trigger] disk0[b]).len() == BLOCK_SIZE as int,
                    mgr.wf(),
                    mgr.disk() == disk0,
                    block < self.blocks,
                    bid == self.first_block + block,
                    byte_idx <= BLOCK_SIZE,
                    self.all_set_below(
                        disk0,
                        block as int * BLOCK_BITS as int + byte_idx as int * 8,
                    ),
                decreases BLOCK_SIZE - byte_idx,
            {
                let bytes = mgr.read_range(bid, byte_idx, 1);
                let byte = bytes[0];
                if byte != 0xff {
                    let mut bit: u8 = 0;
                    while bit < 8 && (byte >> bit) & 1 == 1
                        invariant
                            bit <= 8,
                            forall|b2: u8| b2 < bit ==> bit_set(byte, b2),
                        decreases 8 - bit,
                    {
                        bit = bit + 1;
                    }
                    proof {
                        if bit == 8 {
                            assert(bit_set(byte, 0) && bit_set(byte, 1) && bit_set(byte, 2)
                                && bit_set(byte, 3) && bit_set(byte, 4) && bit_set(byte, 5)
                                && bit_set(byte, 6) && bit_set(byte, 7));
                            assert(((byte >> 0u8) & 1 == 1 && (byte >> 1u8) & 1 == 1
                                && (byte >> 2u8) & 1 == 1 && (byte >> 3u8) & 1 == 1
                                && (byte >> 4u8) & 1 == 1 && (byte >> 5u8) & 1 == 1
                                && (byte >> 6u8) & 1 == 1 && (byte >> 7u8) & 1 == 1) ==> byte
                                == 0xff) by (bit_vector);
                        }
                        assert(bit < 8);
                    }
                    let k: u32 = block * (BLOCK_BITS as u32) + (byte_idx as u32) * 8 + (bit as u32);
                    let newbyte = byte | (1u8 << bit);
                    proof {
                        let b = bit;
                        let by = byte;
                        assert((by >> b) & 1 != 1 && b < 8 ==> ((by | (1u8 << b)) >> b) & 1 == 1
                            && (forall|b2: u8|
                            b2 < 8 && b2 != b ==> ((by | (1u8 << b)) >> b2) & 1 == (by >> b2)
                                & 1)) by (bit_vector);
                    }
                    let mut data: Vec<u8> = Vec::new();
                    data.push(newbyte);
                    mgr.write_range(bid, byte_idx, &data);
                    proof {
                        self.lemma_one_byte_write(
                            disk0,
                            mgr.disk(),
                            block as int,
                            byte_idx as int,
                            byte,
                            newbyte,
                        );
                        assert(k as int == block as int * BLOCK_BITS as int + byte_idx as int * 8
                            + bit as int);
                        assert(k as int % 8 == bit as int && (k as int % BLOCK_BITS as int) / 8
                            == byte_idx as int && k as int / BLOCK_BITS as int == block as int) by {
                            lemma_bit_decompose(block as int, byte_idx as int, bit as int);
                        }
                        assert forall|k2: int|
                            0 <= k2 < self.spec_total_bits() && k2 != k implies self.spec_bit(
                            mgr.disk(),
                            k2,
                        ) == self.spec_bit(disk0, k2) by {
                            lemma_bit_range(k2, self.blocks as int);
                        }
                        assert(self.all_set_below(disk0, k as int)) by {
                            assert forall|k2: int| 0 <= k2 < k implies self.spec_bit(disk0, k2) by {
                                lemma_bit_range(k2, self.blocks as int);
                                if k2 / BLOCK_BITS as int == block as int && (k2
                                    % BLOCK_BITS as int) / 8 == byte_idx as int {
                                    assert(bit_set(byte, (k2 % 8) as u8));
                                }
                            }
                        }
                    }
                    return Some(k);
                }
                proof {
                    assert(forall|b2: u8| b2 < 8 ==> bit_set(0xffu8, b2)) by (bit_vector);
                    assert forall|k2: int|
                        0 <= k2 < block as int * BLOCK_BITS as int + byte_idx as int * 8
                            + 8 implies self.spec_bit(disk0, k2) by {
                        lemma_bit_range(k2, self.blocks as int);
                        if k2 >= block as int * BLOCK_BITS as int + byte_idx as int * 8 {
                            assert(k2 / BLOCK_BITS as int == block as int && (k2
                                % BLOCK_BITS as int) / 8 == byte_idx as int && 0 <= k2 % 8 < 8) by {
                                lemma_bit_in_byte(k2, block as int, byte_idx as int);
                            }
                            assert(bit_set(0xffu8, (k2 % 8) as u8));
                        }
                    }
                }
                byte_idx = byte_idx + 1;
            }
            block = block + 1;
        }
        None
    }

    /// Free managed bit `seq`: clear exactly that bit.
    #[verifier::rlimit(50)]
    pub fn dealloc<D: BlockDevice>(&self, seq: u32, mgr: &mut BlockCacheManager<D>)
        requires
            old(mgr).wf(),
            self.fits(old(mgr).disk()),
            seq < self.spec_total_bits(),
        ensures
            final(mgr).wf(),
            final(mgr).disk().len() == old(mgr).disk().len(),
            !self.spec_bit(final(mgr).disk(), seq as int),
            forall|k2: int|
                0 <= k2 < self.spec_total_bits() && k2 != seq ==> self.spec_bit(
                    final(mgr).disk(),
                    k2,
                ) == self.spec_bit(old(mgr).disk(), k2),
            forall|b: int|
                0 <= b < old(mgr).disk().len() && !(self.first_block <= b < self.first_block
                    + self.blocks) ==> final(mgr).disk()[b] == old(mgr).disk()[b],
    {
        let ghost disk0 = mgr.disk();
        proof {
            mgr.lemma_disk_wf();
        }
        let (block, byte_idx, bit) = decompose_bits(seq);
        let bid = (self.first_block + block) as usize;
        proof {
            lemma_bit_range(seq as int, self.blocks as int);
        }
        let bytes = mgr.read_range(bid, byte_idx as usize, 1);
        let byte = bytes[0];
        let newbyte = byte & !(1u8 << (bit as u8));
        proof {
            let b = bit as u8;
            let by = byte;
            assert(b < 8 ==> (((by & !(1u8 << b)) >> b) & 1 != 1 && (forall|b2: u8|
                b2 < 8 && b2 != b ==> ((by & !(1u8 << b)) >> b2) & 1 == (by >> b2) & 1)))
                by (bit_vector);
        }
        let mut data: Vec<u8> = Vec::new();
        data.push(newbyte);
        mgr.write_range(bid, byte_idx as usize, &data);
        proof {
            self.lemma_one_byte_write(
                disk0,
                mgr.disk(),
                block as int,
                byte_idx as int,
                byte,
                newbyte,
            );
            assert forall|k2: int|
                0 <= k2 < self.spec_total_bits() && k2 != seq implies self.spec_bit(mgr.disk(), k2)
                == self.spec_bit(disk0, k2) by {
                lemma_bit_range(k2, self.blocks as int);
            }
        }
    }

    /// After a one-byte write inside the bitmap range, every managed bit
    /// outside that byte is unchanged, and bits of that byte follow the
    /// old and new byte values.
    proof fn lemma_one_byte_write(
        self,
        disk0: Seq<Seq<u8>>,
        disk1: Seq<Seq<u8>>,
        block: int,
        byte_idx: int,
        oldbyte: u8,
        newbyte: u8,
    )
        requires
            self.fits(disk0),
            0 <= block < self.blocks,
            0 <= byte_idx < BLOCK_SIZE,
            disk0[self.first_block + block].len() == BLOCK_SIZE as int,
            disk1.len() == disk0.len(),
            disk0[self.first_block + block][byte_idx] == oldbyte,
            disk1 == disk0.update(
                self.first_block + block,
                crate::block_cache::splice_bytes(
                    disk0[self.first_block + block],
                    byte_idx,
                    seq![newbyte],
                ),
            ),
        ensures
            forall|k2: int|
                0 <= k2 < self.spec_total_bits() && !(k2 / BLOCK_BITS as int == block && (k2
                    % BLOCK_BITS as int) / 8 == byte_idx) ==> self.spec_bit(disk1, k2)
                    == self.spec_bit(disk0, k2),
            forall|k2: int|
                0 <= k2 < self.spec_total_bits() && k2 / BLOCK_BITS as int == block && (k2
                    % BLOCK_BITS as int) / 8 == byte_idx ==> self.spec_bit(disk1, k2) == bit_set(
                    newbyte,
                    (k2 % 8) as u8,
                ) && self.spec_bit(disk0, k2) == bit_set(oldbyte, (k2 % 8) as u8),
            forall|b: int|
                0 <= b < disk0.len() && b != self.first_block + block ==> disk1[b] == disk0[b],
    {
        assert forall|k2: int|
            0 <= k2 < self.spec_total_bits() && !(k2 / BLOCK_BITS as int == block && (k2
                % BLOCK_BITS as int) / 8 == byte_idx) implies self.spec_bit(disk1, k2)
            == self.spec_bit(disk0, k2) by {
            lemma_bit_range(k2, self.blocks as int);
        }
    }
}

/// Split a bit index into its block, byte and bit coordinates.
pub fn decompose_bits(bits: u32) -> (r: (u32, u32, u32))
    ensures
        r.0 as int == bits as int / BLOCK_BITS as int,
        r.1 as int == (bits as int % BLOCK_BITS as int) / 8,
        r.2 as int == bits as int % 8,
        r.1 < BLOCK_SIZE,
        r.2 < 8,
{
    let block = bits / (BLOCK_BITS as u32);
    let rem = bits % (BLOCK_BITS as u32);
    (block, rem / 8, bits % 8)
}

/// Coordinates of a bit index: the index recombines from block, byte and
/// bit parts.
proof fn lemma_bit_decompose(block: int, byte_idx: int, bit: int)
    requires
        0 <= byte_idx < BLOCK_SIZE,
        0 <= bit < 8,
        0 <= block,
    ensures
        (block * BLOCK_BITS as int + byte_idx * 8 + bit) % 8 == bit,
        ((block * BLOCK_BITS as int + byte_idx * 8 + bit) % BLOCK_BITS as int) / 8 == byte_idx,
        (block * BLOCK_BITS as int + byte_idx * 8 + bit) / BLOCK_BITS as int == block,
{
    let k = block * 4096 + byte_idx * 8 + bit;
    assert(k % 4096 == byte_idx * 8 + bit) by (nonlinear_arith)
        requires
            0 <= byte_idx < 512 && 0 <= bit < 8 && 0 <= block && k == block * 4096 + byte_idx * 8
                + bit,
    ;
    assert(k / 4096 == block) by (nonlinear_arith)
        requires
            0 <= byte_idx < 512 && 0 <= bit < 8 && 0 <= block && k == block * 4096 + byte_idx * 8
                + bit,
    ;
    assert((byte_idx * 8 + bit) / 8 == byte_idx && (byte_idx * 8 + bit) % 8 == bit)
        by (nonlinear_arith)
        requires
            0 <= byte_idx && 0 <= bit < 8,
    ;
    assert(k % 8 == bit) by (nonlinear_arith)
        requires
            0 <= bit < 8 && 0 <= block && 0 <= byte_idx && k == block * 4096 + byte_idx * 8 + bit,
    ;
}

/// A bit index below the total lies in block `k / BLOCK_BITS`, with its
/// byte and bit coordinates in range.
pub proof fn lemma_bit_range(k: int, blocks: int)
    requires
        0 <= k < blocks * BLOCK_BITS as int,
    ensures
        (0 <= k / (BLOCK_BITS as int)) && (k / (BLOCK_BITS as int) < blocks),
        (0 <= (k % (BLOCK_BITS as int)) / 8) && ((k % (BLOCK_BITS as int)) / 8 < BLOCK_SIZE),
        0 <= k % 8 < 8,
        (k % BLOCK_BITS as int) / 8 * 8 <= k % BLOCK_BITS as int,
    decreases blocks,
{
    assert(0 <= k / 4096 < blocks && 0 <= (k % 4096) / 8 < 512 && 0 <= k % 8 < 8 && (k % 4096) / 8
        * 8 <= k % 4096) by (nonlinear_arith)
        requires
            0 <= k < blocks * 4096,
    ;
}

/// A bit index at or past the current byte position but below the next
/// byte boundary lies exactly in that byte.
proof fn lemma_bit_in_byte(k: int, block: int, byte_idx: int)
    requires
        0 <= block,
        0 <= byte_idx < BLOCK_SIZE,
        block * BLOCK_BITS as int + byte_idx * 8 <= k < block * BLOCK_BITS as int + byte_idx * 8
            + 8,
    ensures
        k / BLOCK_BITS as int == block,
        (k % BLOCK_BITS as int) / 8 == byte_idx,
        0 <= k % 8 < 8,
{
    let bit = k - block * 4096 - byte_idx * 8;
    lemma_bit_decompose(block, byte_idx, bit);
}

/// A bit stored in an all-zero block is clear.
pub proof fn lemma_zero_byte_bits(bm: Bitmap, disk: Seq<Seq<u8>>, k: int)
    requires
        bm.fits(disk),
        0 <= k < bm.spec_total_bits(),
        forall|j: int|
            0 <= j < BLOCK_SIZE ==> #[trigger] disk[bm.first_block + k / BLOCK_BITS as int][j]
                == 0u8,
    ensures
        !bm.spec_bit(disk, k),
{
    lemma_bit_range(k, bm.blocks as int);
    let b = (k % 8) as u8;
    assert(disk[bm.first_block + k / BLOCK_BITS as int][(k % BLOCK_BITS as int) / 8] == 0u8);
    assert(forall|b2: u8| b2 < 8 ==> ((0u8 >> b2) & 1) != 1) by (bit_vector);
}

/// Among clear bits whose predecessors are all set, there is only one:
/// freeing the bit just allocated makes the next allocation return it
/// again.
pub proof fn lemma_realloc_returns_freed(bm: Bitmap, disk: Seq<Seq<u8>>, k: int, k2: int)
    requires
        !bm.spec_bit(disk, k),
        bm.all_set_below(disk, k),
        !bm.spec_bit(disk, k2),
        bm.all_set_below(disk, k2),
        0 <= k,
        0 <= k2,
    ensures
        k == k2,
{
    if k < k2 {
        assert(bm.spec_bit(disk, k));
    }
    if k2 < k {
        assert(bm.spec_bit(disk, k2));
    }
}

} // verus!
