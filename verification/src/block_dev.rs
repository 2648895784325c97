//! The block device abstraction: 512-byte blocks addressed by id.
//!
//! The file system reads and writes whole blocks through this trait. An
//! in-memory device backs the tests; a real driver would sit behind the
//! same contract.
use vstd::prelude::*;

verus! {

/// Size of one disk block in bytes.
pub const BLOCK_SIZE: usize = 512;

/// A device holding an array of 512-byte blocks.
pub trait BlockDevice: Sized {
    /// The current contents of every block.
    spec fn blocks(&self) -> Seq<Seq<u8>>;

    /// The device's own well-formedness.
    spec fn wf(&self) -> bool;

    /// Every block of a well-formed device is exactly `BLOCK_SIZE` bytes.
    proof fn blocks_are_block_sized(&self)
        requires
            self.wf(),
        ensures
            forall|i: int|
                0 <= i < self.blocks().len() ==> (#[trigger] self.blocks()[i]).len()
                    == BLOCK_SIZE as int,
    ;

    /// Number of blocks on the device.
    fn num_blocks(&self) -> (r: usize)
        requires
            self.wf(),
        ensures
            r == self.blocks().len(),
    ;

    /// Copy block `block_id` into `buf`.
    fn read_block(&self, block_id: usize, buf: &mut Vec<u8>)
        requires
            self.wf(),
            block_id < self.blocks().len(),
        ensures
            final(buf)@ == self.blocks()[block_id as int],
    ;

    /// Overwrite block `block_id` with `buf`.
    fn write_block(&mut self, block_id: usize, buf: &Vec<u8>)
        requires
            old(self).wf(),
            block_id < old(self).blocks().len(),
            buf@.len() == BLOCK_SIZE as int,
        ensures
            final(self).wf(),
            final(self).blocks() == old(self).blocks().update(block_id as int, buf@),
    ;
}

/// A RAM-backed block device: the whole disk held as one vector of
/// blocks. Backs the tests and the host-side image builder.
pub struct MemoryDisk {
    pub data: Vec<Vec<u8>>,
}

impl MemoryDisk {
    /// A fresh disk of `num_blocks` zeroed blocks.
    pub fn new(num_blocks: usize) -> (r: Self)
        ensures
            r.wf(),
            r.blocks().len() == num_blocks,
            forall|i: int, j: int|
                0 <= i < num_blocks && 0 <= j < BLOCK_SIZE ==> #[trigger] r.blocks()[i][j] == 0u8,
    {
        let mut data: Vec<Vec<u8>> = Vec::new();
        let mut i: usize = 0;
        while i < num_blocks
            invariant
                i <= num_blocks,
                data@.len() == i,
                forall|k: int|
                    0 <= k < i ==> (#[trigger] data@[k])@.len() == BLOCK_SIZE as int,
                forall|k: int, j: int|
                    0 <= k < i && 0 <= j < BLOCK_SIZE ==> #[trigger] data@[k]@[j] == 0u8,
            decreases num_blocks - i,
        {
            let mut block: Vec<u8> = Vec::new();
            let mut j: usize = 0;
            while j < BLOCK_SIZE
                invariant
                    j <= BLOCK_SIZE,
                    block@.len() == j,
                    forall|t: int| 0 <= t < j ==> #[trigger] block@[t] == 0u8,
                decreases BLOCK_SIZE - j,
            {
                block.push(0u8);
                j = j + 1;
            }
            data.push(block);
            i = i + 1;
        }
        Self { data }
    }
}

impl BlockDevice for MemoryDisk {
    open spec fn blocks(&self) -> Seq<Seq<u8>> {
        Seq::new(self.data@.len(), |i: int| self.data@[i]@)
    }

    open spec fn wf(&self) -> bool {
        forall|i: int| 0 <= i < self.data@.len() ==> (#[trigger] self.data@[i])@.len() == BLOCK_SIZE as int
    }

    proof fn blocks_are_block_sized(&self) {
    }

    fn num_blocks(&self) -> (r: usize) {
        self.data.len()
    }

    fn read_block(&self, block_id: usize, buf: &mut Vec<u8>) {
        buf.clear();
        let src = &self.data[block_id];
        let mut j: usize = 0;
        while j < src.len()
            invariant
                j <= src@.len(),
                buf@ == src@.subrange(0, j as int),
            decreases src@.len() - j,
        {
            buf.push(src[j]);
            j = j + 1;
        }
        proof {
            assert(buf@ =~= src@);
            assert(src@ == self.blocks()[block_id as int]);
        }
    }

    fn write_block(&mut self, block_id: usize, buf: &Vec<u8>) {
        let copy = clone_bytes(buf);
        self.data.set(block_id, copy);
        proof {
            assert(self.blocks() =~= old(self).blocks().update(block_id as int, buf@));
        }
    }
}

/// Byte-for-byte copy of a byte vector.
pub fn clone_bytes(src: &Vec<u8>) -> (r: Vec<u8>)
    ensures
        r@ == src@,
{
    let mut r: Vec<u8> = Vec::new();
    let mut j: usize = 0;
    while j < src.len()
        invariant
            j <= src@.len(),
            r@ == src@.subrange(0, j as int),
        decreases src@.len() - j,
    {
        r.push(src[j]);
        j = j + 1;
    }
    proof {
        assert(r@ =~= src@);
    }
    r
}

/// Copy of `src[start .. start + n]`.
pub fn clone_range(src: &Vec<u8>, start: usize, n: usize) -> (r: Vec<u8>)
    requires
        start + n <= src@.len(),
    ensures
        r@ == src@.subrange(start as int, start as int + n as int),
{
    let mut r: Vec<u8> = Vec::new();
    let mut j: usize = 0;
    let m = src.len();
    while j < n
        invariant
            j <= n,
            start + n <= m,
            m == src@.len(),
            r@ == src@.subrange(start as int, start as int + j as int),
        decreases n - j,
    {
        r.push(src[start + j]);
        proof {
            assert(r@ =~= src@.subrange(start as int, start as int + j as int + 1));
        }
        j = j + 1;
    }
    r
}

} // verus!
