//! Write-back cache of disk blocks.
//!
//! The manager holds at most `BLOCK_CACHE_SIZE` resident blocks in
//! insertion order. A miss at capacity evicts the oldest resident block,
//! writing it back first if it was modified. The logical disk seen by the
//! layers above is the device overlaid with the resident blocks; every
//! operation's contract speaks of that logical disk.
use vstd::prelude::*;
use crate::block_dev::{BlockDevice, BLOCK_SIZE, clone_bytes};

verus! {

/// Largest number of blocks resident at once.
pub const BLOCK_CACHE_SIZE: usize = 16;

/// One resident disk block.
pub struct BlockCache {
    /// The cached bytes of the block.
    pub cache: Vec<u8>,
    /// Which block these bytes mirror.
    pub block_id: usize,
    /// Whether the bytes differ from the device and must be written back.
    pub modified: bool,
}

impl BlockCache {
    /// Load block `block_id` from the device.
    pub fn new<D: BlockDevice>(block_id: usize, device: &D) -> (r: Self)
        requires
            device.wf(),
            block_id < device.blocks().len(),
        ensures
            r.cache@ == device.blocks()[block_id as int],
            r.block_id == block_id,
            r.modified == false,
    {
        let mut buf: Vec<u8> = Vec::new();
        device.read_block(block_id, &mut buf);
        BlockCache { cache: buf, block_id, modified: false }
    }

    /// Write the block back to the device if it was modified.
    pub fn sync<D: BlockDevice>(&mut self, device: &mut D)
        requires
            old(device).wf(),
            old(self).block_id < old(device).blocks().len(),
            old(self).cache@.len() == BLOCK_SIZE as int,
            !old(self).modified ==> old(self).cache@ == old(device).blocks()[old(
                self,
            ).block_id as int],
        ensures
            final(self).cache == old(self).cache,
            final(self).block_id == old(self).block_id,
            final(self).modified == false,
            final(device).wf(),
            final(device).blocks() == old(device).blocks().update(
                old(self).block_id as int,
                old(self).cache@,
            ),
    {
        if self.modified {
            self.modified = false;
            device.write_block(self.block_id, &self.cache);
        } else {
            proof {
                assert(old(device).blocks().update(
                    old(self).block_id as int,
                    old(self).cache@,
                ) =~= old(device).blocks());
            }
        }
    }

    /// The cached bytes from `offset`, `len` of them.
    pub fn read(&self, offset: usize, len: usize) -> (r: Vec<u8>)
        requires
            offset + len <= self.cache@.len(),
        ensures
            r@ == self.cache@.subrange(offset as int, offset as int + len as int),
    {
        let mut r: Vec<u8> = Vec::new();
        let mut j: usize = 0;
        let n = self.cache.len();
        while j < len
            invariant
                j <= len,
                offset + len <= n,
                n == self.cache@.len(),
                r@ == self.cache@.subrange(offset as int, offset as int + j as int),
            decreases len - j,
        {
            r.push(self.cache[offset + j]);
            proof {
                assert(r@ =~= self.cache@.subrange(offset as int, offset as int + j as int + 1));
            }
            j = j + 1;
        }
        r
    }

    /// Overwrite the cached bytes from `offset` with `data` and mark the
    /// block modified.
    pub fn modify(&mut self, offset: usize, data: &Vec<u8>)
        requires
            offset + data@.len() <= old(self).cache@.len(),
        ensures
            final(self).block_id == old(self).block_id,
            final(self).modified == true,
            final(self).cache@.len() == old(self).cache@.len(),
            forall|i: int|
                offset <= i < offset + data@.len() ==> final(self).cache@[i] == data@[i - offset],
            forall|i: int|
                0 <= i < old(self).cache@.len() && !(offset <= i < offset + data@.len())
                    ==> final(self).cache@[i] == old(self).cache@[i],
    {
        let mut j: usize = 0;
        let n = self.cache.len();
        while j < data.len()
            invariant
                j <= data@.len(),
                offset + data@.len() <= n,
                n == self.cache@.len(),
                self.cache@.len() == old(self).cache@.len(),
                self.block_id == old(self).block_id,
                forall|i: int| offset <= i < offset + j ==> self.cache@[i] == data@[i - offset],
                forall|i: int|
                    0 <= i < old(self).cache@.len() && !(offset <= i < offset + j) ==> self.cache@[i]
                        == old(self).cache@[i],
            decreases data@.len() - j,
        {
            self.cache.set(offset + j, data[j]);
            j = j + 1;
        }
        self.modified = true;
    }
}

/// The block cache manager: the device plus the resident blocks.
pub struct BlockCacheManager<D: BlockDevice> {
    pub device: D,
    pub caches: Vec<BlockCache>,
}

impl<D: BlockDevice> BlockCacheManager<D> {
    /// Structural invariant: distinct resident ids in range, block-sized
    /// buffers, at most `BLOCK_CACHE_SIZE` resident.
    pub open spec fn wf(self) -> bool {
        &&& self.device.wf()
        &&& self.caches@.len() <= BLOCK_CACHE_SIZE as int
        &&& forall|j: int|
            0 <= j < self.caches@.len() ==> (#[trigger] self.caches@[j]).block_id
                < self.device.blocks().len()
        &&& forall|j: int|
            0 <= j < self.caches@.len() ==> (#[trigger] self.caches@[j]).cache@.len()
                == BLOCK_SIZE as int
        &&& forall|j: int, k: int|
            0 <= j < k < self.caches@.len() ==> (#[trigger] self.caches@[j]).block_id != (
            #[trigger] self.caches@[k]).block_id
        &&& forall|j: int|
            0 <= j < self.caches@.len() && !(#[trigger] self.caches@[j]).modified
                ==> self.caches@[j].cache@ == self.device.blocks()[self.caches@[j].block_id as int]
    }

    /// Whether block `i` is resident.
    pub open spec fn resident(self, i: int) -> bool {
        exists|j: int| 0 <= j < self.caches@.len() && (#[trigger] self.caches@[j]).block_id == i
    }

    /// The logical content of block `i`: the resident copy if there is
    /// one, else the device's.
    pub open spec fn block_view(self, i: int) -> Seq<u8> {
        if self.resident(i) {
            let j = choose|j: int|
                0 <= j < self.caches@.len() && (#[trigger] self.caches@[j]).block_id == i;
            self.caches@[j].cache@
        } else {
            self.device.blocks()[i]
        }
    }

    /// The logical disk: the device overlaid with the resident blocks.
    pub open spec fn disk(self) -> Seq<Seq<u8>> {
        Seq::new(self.device.blocks().len(), |i: int| self.block_view(i))
    }

    /// A resident entry gives the logical content of its block.
    pub proof fn lemma_resident_view(self, j: int)
        requires
            self.wf(),
            0 <= j < self.caches@.len(),
        ensures
            self.block_view(self.caches@[j].block_id as int) == self.caches@[j].cache@,
    {
        let i = self.caches@[j].block_id as int;
        assert(self.resident(i));
        let j2 = choose|j2: int|
            0 <= j2 < self.caches@.len() && (#[trigger] self.caches@[j2]).block_id == i;
        if j2 != j {
            if j2 < j {
                assert(self.caches@[j2].block_id != self.caches@[j].block_id);
            } else {
                assert(self.caches@[j].block_id != self.caches@[j2].block_id);
            }
        }
    }

    /// Every logical block of a well-formed manager is block-sized.
    pub proof fn lemma_disk_wf(self)
        requires
            self.wf(),
        ensures
            self.disk().len() == self.device.blocks().len(),
            forall|i: int|
                0 <= i < self.disk().len() ==> (#[trigger] self.disk()[i]).len()
                    == BLOCK_SIZE as int,
    {
        self.device.blocks_are_block_sized();
        assert forall|i: int| 0 <= i < self.disk().len() implies (#[trigger] self.disk()[i]).len()
            == BLOCK_SIZE as int by {
            if self.resident(i) {
                let j = choose|j: int|
                    0 <= j < self.caches@.len() && (#[trigger] self.caches@[j]).block_id == i;
                assert(self.caches@[j].cache@.len() == BLOCK_SIZE as int);
            }
        }
    }

    /// At most `BLOCK_CACHE_SIZE` distinct blocks are ever resident.
    pub proof fn lemma_bounded_residency(self)
        requires
            self.wf(),
        ensures
            self.caches@.len() <= BLOCK_CACHE_SIZE as int,
    {
    }

    /// A fresh manager over `device`: nothing resident.
    pub fn new(device: D) -> (r: Self)
        requires
            device.wf(),
        ensures
            r.wf(),
            r.disk() == device.blocks(),
            r.caches@.len() == 0,
    {
        let r = BlockCacheManager { device, caches: Vec::new() };
        proof {
            assert(r.disk() =~= r.device.blocks());
        }
        r
    }

    /// Index of the resident entry for `block_id`, if any.
    fn find_slot(&self, block_id: usize) -> (r: Option<usize>)
        ensures
            match r {
                Some(j) => j < self.caches@.len() && self.caches@[j as int].block_id == block_id,
                None => forall|j: int|
                    0 <= j < self.caches@.len() ==> (#[trigger] self.caches@[j]).block_id
                        != block_id,
            },
    {
        let mut j: usize = 0;
        while j < self.caches.len()
            invariant
                j <= self.caches@.len(),
                forall|k: int|
                    0 <= k < j ==> (#[trigger] self.caches@[k]).block_id != block_id,
            decreases self.caches@.len() - j,
        {
            if self.caches[j].block_id == block_id {
                return Some(j);
            }
            j = j + 1;
        }
        None
    }

    /// Make block `block_id` resident and return its slot. At capacity
    /// the oldest resident block is evicted, written back if modified.
    fn get_slot(&mut self, block_id: usize) -> (r: usize)
        requires
            old(self).wf(),
            block_id < old(self).device.blocks().len(),
        ensures
            final(self).wf(),
            final(self).disk() == old(self).disk(),
            final(self).device.blocks().len() == old(self).device.blocks().len(),
            r < final(self).caches@.len(),
            final(self).caches@[r as int].block_id == block_id,
            final(self).caches@[r as int].cache@ == old(self).disk()[block_id as int],
    {
        proof {
            self.lemma_disk_wf();
        }
        let found = self.find_slot(block_id);
        match found {
            Some(j) => {
                proof {
                    self.lemma_resident_view(j as int);
                }
                j
            },
            None => {
                let ghost pre0 = *self;
                if self.caches.len() == BLOCK_CACHE_SIZE {
                    self.evict_front();
                    proof {
                        assert forall|j: int| 0 <= j < self.caches@.len() implies (
                        #[trigger] self.caches@[j]).block_id != block_id by {
                            assert(self.caches@[j] == pre0.caches@[j + 1]);
                        }
                    }
                }
                let ghost pre = *self;
                proof {
                    self.device.blocks_are_block_sized();
                }
                let entry = BlockCache::new(block_id, &self.device);
                proof {
                    assert(!pre.resident(block_id as int));
                    assert(pre.block_view(block_id as int) == pre.device.blocks()[block_id as int]);
                }
                self.caches.push(entry);
                let r = self.caches.len() - 1;
                proof {
                    assert(self.wf());
                    assert forall|i: int| 0 <= i < self.disk().len() implies self.block_view(i)
                        == pre.block_view(i) by {
                        if i == block_id as int {
                            self.lemma_resident_view(r as int);
                        } else {
                            if pre.resident(i) {
                                let j = choose|j: int|
                                    0 <= j < pre.caches@.len() && (#[trigger] pre.caches@[j]).block_id
                                        == i;
                                assert(self.caches@[j].block_id == i);
                                assert(self.resident(i));
                                self.lemma_resident_view(j);
                                pre.lemma_resident_view(j);
                            } else {
                                assert(!self.resident(i)) by {
                                    if self.resident(i) {
                                        let j = choose|j: int|
                                            0 <= j < self.caches@.len() && (
                                            #[trigger] self.caches@[j]).block_id == i;
                                        assert(j < pre.caches@.len());
                                        assert(pre.resident(i));
                                    }
                                }
                            }
                        }
                    }
                    assert(self.disk() =~= pre.disk());
                }
                r
            },
        }
    }

    /// Write back and drop the oldest resident block.
    fn evict_front(&mut self)
        requires
            old(self).wf(),
            old(self).caches@.len() > 0,
        ensures
            final(self).wf(),
            final(self).disk() == old(self).disk(),
            final(self).device.blocks().len() == old(self).device.blocks().len(),
            final(self).caches@.len() == old(self).caches@.len() - 1,
            forall|j: int|
                0 <= j < final(self).caches@.len() ==> final(self).caches@[j] == old(
                    self,
                ).caches@[j + 1],
    {
        let ghost pre = *self;
        let mut front = self.caches.remove(0);
        front.sync(&mut self.device);
        proof {
            let fid = pre.caches@[0].block_id as int;
            pre.lemma_resident_view(0);
            assert forall|i: int| 0 <= i < self.disk().len() implies self.block_view(i)
                == pre.block_view(i) by {
                if i == fid {
                    assert(!self.resident(i)) by {
                        if self.resident(i) {
                            let j = choose|j: int|
                                0 <= j < self.caches@.len() && (#[trigger] self.caches@[j]).block_id
                                    == i;
                            assert(pre.caches@[j + 1].block_id == i);
                            assert(pre.caches@[0].block_id == i);
                        }
                    }
                    assert(self.block_view(i) == pre.caches@[0].cache@);
                } else {
                    if pre.resident(i) {
                        let j = choose|j: int|
                            0 <= j < pre.caches@.len() && (#[trigger] pre.caches@[j]).block_id == i;
                        assert(j != 0);
                        assert(self.caches@[j - 1].block_id == i);
                        assert(self.resident(i));
                        self.lemma_resident_view(j - 1);
                        pre.lemma_resident_view(j);
                    } else {
                        assert(!self.resident(i)) by {
                            if self.resident(i) {
                                let j = choose|j: int|
                                    0 <= j < self.caches@.len() && (#[trigger] self.caches@[j]).block_id
                                        == i;
                                assert(pre.caches@[j + 1].block_id == i);
                                assert(pre.resident(i));
                            }
                        }
                        assert(self.block_view(i) == self.device.blocks()[i]);
                    }
                }
            }
            assert(self.disk() =~= pre.disk());
        }
    }

    /// Read `len` bytes of block `block_id` starting at `offset`.
    pub fn read_range(&mut self, block_id: usize, offset: usize, len: usize) -> (r: Vec<u8>)
        requires
            old(self).wf(),
            block_id < old(self).disk().len(),
            offset + len <= BLOCK_SIZE,
        ensures
            final(self).wf(),
            final(self).disk() == old(self).disk(),
            r@ == old(self).disk()[block_id as int].subrange(
                offset as int,
                offset as int + len as int,
            ),
    {
        proof {
            self.lemma_disk_wf();
        }
        let j = self.get_slot(block_id);
        self.caches[j].read(offset, len)
    }

    /// Overwrite bytes of block `block_id` from `offset` with `data`.
    pub fn write_range(&mut self, block_id: usize, offset: usize, data: &Vec<u8>)
        requires
            old(self).wf(),
            block_id < old(self).disk().len(),
            offset + data@.len() <= BLOCK_SIZE,
        ensures
            final(self).wf(),
            final(self).disk().len() == old(self).disk().len(),
            final(self).disk() == old(self).disk().update(
                block_id as int,
                splice_bytes(old(self).disk()[block_id as int], offset as int, data@),
            ),
    {
        proof {
            self.lemma_disk_wf();
        }
        let j = self.get_slot(block_id);
        let ghost mid = *self;
        self.caches[j].modify(offset, data);
        proof {
            let bid = block_id as int;
            let target = splice_bytes(mid.disk()[bid], offset as int, data@);
            assert forall|i: int| 0 <= i < self.disk().len() implies self.block_view(i) == (
            if i == bid {
                target
            } else {
                mid.block_view(i)
            }) by {
                if i == bid {
                    self.lemma_resident_view(j as int);
                    mid.lemma_resident_view(j as int);
                    assert(self.caches@[j as int].cache@ =~= target);
                } else {
                    if mid.resident(i) {
                        let k = choose|k: int|
                            0 <= k < mid.caches@.len() && (#[trigger] mid.caches@[k]).block_id == i;
                        assert(self.caches@[k].block_id == i);
                        assert(self.resident(i));
                        self.lemma_resident_view(k);
                        mid.lemma_resident_view(k);
                        assert(k != j);
                        assert(self.caches@[k] == mid.caches@[k]);
                    } else {
                        assert(!self.resident(i)) by {
                            if self.resident(i) {
                                let k = choose|k: int|
                                    0 <= k < self.caches@.len() && (#[trigger] self.caches@[k]).block_id
                                        == i;
                                assert(mid.caches@[k].block_id == i || k == j);
                                assert(mid.resident(i));
                            }
                        }
                    }
                }
            }
            assert(self.disk() =~= mid.disk().update(bid, target));
        }
    }

    /// Zero every byte of block `block_id`.
    pub fn clear_block(&mut self, block_id: usize)
        requires
            old(self).wf(),
            block_id < old(self).disk().len(),
        ensures
            final(self).wf(),
            final(self).disk().len() == old(self).disk().len(),
            final(self).disk() == old(self).disk().update(
                block_id as int,
                Seq::new(BLOCK_SIZE as nat, |i: int| 0u8),
            ),
    {
        proof {
            self.lemma_disk_wf();
        }
        let mut zeros: Vec<u8> = Vec::new();
        let mut j: usize = 0;
        while j < BLOCK_SIZE
            invariant
                j <= BLOCK_SIZE,
                zeros@.len() == j,
                forall|t: int| 0 <= t < j ==> #[trigger] zeros@[t] == 0u8,
            decreases BLOCK_SIZE - j,
        {
            zeros.push(0u8);
            j = j + 1;
        }
        self.write_range(block_id, 0, &zeros);
        proof {
            assert(splice_bytes(old(self).disk()[block_id as int], 0, zeros@) =~= Seq::new(
                BLOCK_SIZE as nat,
                |i: int| 0u8,
            ));
        }
    }

    /// Write every modified resident block back to the device.
    pub fn flush(&mut self)
        requires
            old(self).wf(),
        ensures
            final(self).wf(),
            final(self).disk() == old(self).disk(),
            final(self).device.blocks() == old(self).disk(),
            final(self).caches@.len() == 0,
    {
        while self.caches.len() > 0
            invariant
                self.wf(),
                self.disk() == old(self).disk(),
                self.device.blocks().len() == old(self).device.blocks().len(),
            decreases self.caches@.len(),
        {
            self.evict_front();
        }
        proof {
            assert forall|i: int| 0 <= i < self.disk().len() implies self.device.blocks()[i]
                == self.disk()[i] by {
                assert(!self.resident(i));
            }
            assert(self.device.blocks() =~= self.disk());
        }
    }
}

/// `base` with the bytes from `offset` replaced by `data`.
pub open spec fn splice_bytes(base: Seq<u8>, offset: int, data: Seq<u8>) -> Seq<u8> {
    Seq::new(
        base.len(),
        |i: int|
            if offset <= i < offset + data.len() {
                data[i - offset]
            } else {
                base[i]
            },
    )
}

} // verus!
