//! The Sv39 three-level page table.
//!
//! A table owns its root node and every intermediate node created while
//! mapping, each backed by a frame from the frame allocator. The walk
//! splits a virtual page number into three 9-bit indexes, high bits
//! first; intermediate entries point at the next level, leaf entries
//! carry the mapped physical page and its flags. The table's meaning is
//! the map from virtual page numbers to their valid leaf entries.
use vstd::prelude::*;
use crate::addr::{PhysPageNumber, VirtPageNumber, RISCV_PPN_MASK, vpn_limit, ppn_limit};
use crate::frame_alloc::{alloc_frame, FrameTracker, StackFrameAllocator};

verus! {

pub const PTE_V: u8 = 1;

pub const PTE_R: u8 = 2;

pub const PTE_W: u8 = 4;

pub const PTE_X: u8 = 8;

pub const PTE_U: u8 = 16;

pub const PTE_G: u8 = 32;

pub const PTE_A: u8 = 64;

pub const PTE_D: u8 = 128;

/// Whether a page-table entry word is marked valid.
pub open spec fn spec_pte_valid(bits: u64) -> bool {
    bits & 1 == 1
}

/// The page number field of an entry word.
pub open spec fn spec_pte_ppn(bits: u64) -> u64 {
    (bits >> 10) & 0xfff_ffff_ffff
}

/// The flag byte of an entry word.
pub open spec fn spec_pte_flags(bits: u64) -> u8 {
    (bits & 0xff) as u8
}

/// One page-table entry: a 64-bit word of flags and page number.
#[derive(Clone, Copy, PartialEq, Eq, Structural, Debug)]
pub struct PageTableEntry {
    pub bits: u64,
}

impl PageTableEntry {
    /// An entry mapping `ppn` with `flags`.
    pub fn new(ppn: PhysPageNumber, flags: u8) -> (r: Self)
        requires
            ppn.0 < ppn_limit(),
        ensures
            spec_pte_ppn(r.bits) == ppn.0,
            spec_pte_flags(r.bits) == flags,
            spec_pte_valid(r.bits) == (flags & 1 == 1),
    {
        let bits = ((ppn.0 & RISCV_PPN_MASK) << 10) | (flags as u64);
        proof {
            let p = ppn.0;
            let f = flags;
            assert(p < 0x1000_0000_0000u64 ==> ((((p & 0xfff_ffff_ffffu64) << 10u64) | (
            f as u64)) >> 10u64) & 0xfff_ffff_ffffu64 == p && ((((p & 0xfff_ffff_ffffu64)
                << 10u64) | (f as u64)) & 0xffu64) as u8 == f && (((((p & 0xfff_ffff_ffffu64)
                << 10u64) | (f as u64)) & 1u64 == 1u64) <==> (f & 1u8 == 1u8))) by (bit_vector);
        }
        Self { bits }
    }

    /// The all-zero, invalid entry.
    pub fn empty() -> (r: Self)
        ensures
            r.bits == 0,
            !spec_pte_valid(r.bits),
    {
        proof {
            assert(0u64 & 1u64 == 0u64) by (bit_vector);
        }
        Self { bits: 0 }
    }

    /// The mapped physical page.
    pub fn page_number(&self) -> (r: PhysPageNumber)
        ensures
            r.0 == spec_pte_ppn(self.bits),
            r.0 < ppn_limit(),
    {
        proof {
            let b = self.bits;
            assert((b >> 10u64) & 0xfff_ffff_ffffu64 < 0x1000_0000_0000u64) by (bit_vector);
        }
        PhysPageNumber((self.bits >> 10) & RISCV_PPN_MASK)
    }

    /// The flag byte.
    pub fn flags(&self) -> (r: u8)
        ensures
            r == spec_pte_flags(self.bits),
    {
        (self.bits & 0xff) as u8
    }

    pub fn is_valid(&self) -> (r: bool)
        ensures
            r == spec_pte_valid(self.bits),
    {
        self.bits & 1 == 1
    }

    pub fn is_readable(&self) -> (r: bool)
        ensures
            r == (self.bits & 2 == 2),
    {
        self.bits & 2 == 2
    }

    pub fn is_writable(&self) -> (r: bool)
        ensures
            r == (self.bits & 4 == 4),
    {
        self.bits & 4 == 4
    }

    pub fn is_executable(&self) -> (r: bool)
        ensures
            r == (self.bits & 8 == 8),
    {
        self.bits & 8 == 8
    }
}

/// One intermediate or leaf node: 512 entry words, backed by the frame
/// whose page number labels it.
pub struct PtNode {
    pub ppn: u64,
    pub entries: Vec<u64>,
}

/// The three-level page table.
pub struct PageTable {
    pub root_ppn: PhysPageNumber,
    pub root: Vec<u64>,
    pub mids: Vec<PtNode>,
    pub leaves: Vec<PtNode>,
    pub frames: Vec<FrameTracker>,
}

impl PageTable {
    /// Level indexes of `vpn`, high bits first.
    pub open spec fn spec_i2(vpn: int) -> int {
        (vpn / 0x40000) % 512
    }

    pub open spec fn spec_i1(vpn: int) -> int {
        (vpn / 0x200) % 512
    }

    pub open spec fn spec_i0(vpn: int) -> int {
        vpn % 512
    }

    /// Structural invariant: full nodes, in-range child indexes, and no
    /// two valid intermediate entries sharing a child.
    pub open spec fn wf(self) -> bool {
        &&& self.root@.len() == 512
        &&& self.mids@.len() <= 0x4000_0000
        &&& self.leaves@.len() <= 0x4000_0000
        &&& forall|m: int|
            0 <= m < self.mids@.len() ==> (#[trigger] self.mids@[m]).entries@.len() == 512
        &&& forall|l: int|
            0 <= l < self.leaves@.len() ==> (#[trigger] self.leaves@[l]).entries@.len() == 512
        &&& forall|i: int|
            0 <= i < 512 && spec_pte_valid(#[trigger] self.root@[i]) ==> spec_pte_ppn(self.root@[i])
                < self.mids@.len()
        &&& forall|m: int, i: int|
            0 <= m < self.mids@.len() && 0 <= i < 512 && spec_pte_valid(
                #[trigger] self.mids@[m].entries@[i],
            ) ==> spec_pte_ppn(self.mids@[m].entries@[i]) < self.leaves@.len()
        &&& forall|i: int, j: int|
            0 <= i < j < 512 && spec_pte_valid(#[trigger] self.root@[i]) && spec_pte_valid(
                #[trigger] self.root@[j],
            ) ==> spec_pte_ppn(self.root@[i]) != spec_pte_ppn(self.root@[j])
        &&& forall|m1: int, i1: int, m2: int, i2: int|
            0 <= m1 < self.mids@.len() && 0 <= m2 < self.mids@.len() && 0 <= i1 < 512 && 0 <= i2
                < 512 && !(m1 == m2 && i1 == i2) && spec_pte_valid(
                #[trigger] self.mids@[m1].entries@[i1],
            ) && spec_pte_valid(#[trigger] self.mids@[m2].entries@[i2]) ==> spec_pte_ppn(
                self.mids@[m1].entries@[i1],
            ) != spec_pte_ppn(self.mids@[m2].entries@[i2])
    }

    /// Whether the walk for `vpn` reaches a leaf node.
    pub open spec fn reaches_leaf(self, vpn: int) -> bool {
        &&& spec_pte_valid(self.root@[Self::spec_i2(vpn)])
        &&& spec_pte_valid(
            self.mids@[spec_pte_ppn(self.root@[Self::spec_i2(vpn)]) as int].entries@[Self::spec_i1(
                vpn,
            )],
        )
    }

    /// The leaf entry word the walk finds for `vpn`.
    pub open spec fn leaf_bits(self, vpn: int) -> u64 {
        self.leaves@[spec_pte_ppn(
            self.mids@[spec_pte_ppn(self.root@[Self::spec_i2(vpn)]) as int].entries@[Self::spec_i1(
                vpn,
            )],
        ) as int].entries@[Self::spec_i0(vpn)]
    }

    /// Whether `vpn` is mapped: the walk reaches a valid leaf entry.
    pub open spec fn maps(self, vpn: int) -> bool {
        self.reaches_leaf(vpn) && spec_pte_valid(self.leaf_bits(vpn))
    }

    /// A fresh table holding only a zeroed root node; `None` when no
    /// frame is left for it.
    pub fn new(allocator: &mut StackFrameAllocator) -> (r: Option<Self>)
        requires
            old(allocator).wf(),
        ensures
            final(allocator).wf(),
            r is Some <==> old(allocator).spec_free_count() > 0,
            final(allocator).end == old(allocator).end,
            r is Some ==> final(allocator).spec_free_count() == old(allocator).spec_free_count()
                - 1,
            r is Some ==> {
                let pt = r.unwrap();
                &&& pt.wf()
                &&& pt.mids@.len() == 0
                &&& pt.leaves@.len() == 0
                &&& forall|vpn: int| 0 <= vpn < vpn_limit() ==> !#[trigger] pt.maps(vpn)
            },
    {
        let got = alloc_frame(allocator);
        match got {
            None => None,
            Some(frame) => {
                let root_ppn = frame.ppn;
                let root = zeroed_node();
                let mut frames: Vec<FrameTracker> = Vec::new();
                frames.push(frame);
                let pt = PageTable {
                    root_ppn,
                    root,
                    mids: Vec::new(),
                    leaves: Vec::new(),
                    frames,
                };
                proof {
                    assert(!spec_pte_valid(0u64)) by (bit_vector);
                    assert forall|vpn: int| 0 <= vpn < vpn_limit() implies !#[trigger] pt.maps(
                        vpn,
                    ) by {
                        assert(0 <= Self::spec_i2(vpn) < 512) by (nonlinear_arith);
                        assert(pt.root@[Self::spec_i2(vpn)] == 0u64);
                    }
                }
                Some(pt)
            },
        }
    }

    /// Map `vpn` to `ppn` with `flags` (validity added), creating the
    /// intermediate nodes the walk needs. Returns `false`, with the
    /// mapping unchanged, when the frame allocator runs dry.
    #[verifier::rlimit(100)]
    pub fn map(
        &mut self,
        vpn: VirtPageNumber,
        ppn: PhysPageNumber,
        flags: u8,
        allocator: &mut StackFrameAllocator,
    ) -> (r: bool)
        requires
            old(self).wf(),
            old(allocator).wf(),
            vpn.0 < vpn_limit(),
            ppn.0 < ppn_limit(),
            !old(self).maps(vpn.0 as int),
        ensures
            final(self).wf(),
            final(allocator).wf(),
            final(self).root_ppn == old(self).root_ppn,
            forall|v: int|
                0 <= v < vpn_limit() && v != vpn.0 ==> #[trigger] final(self).maps(v)
                    == old(self).maps(v),
            forall|v: int|
                0 <= v < vpn_limit() && v != vpn.0 && old(self).maps(v)
                    ==> #[trigger] final(self).leaf_bits(v) == old(self).leaf_bits(v),
            r ==> final(self).maps(vpn.0 as int),
            r ==> spec_pte_ppn(final(self).leaf_bits(vpn.0 as int)) == ppn.0,
            r ==> spec_pte_flags(final(self).leaf_bits(vpn.0 as int)) == (flags | 1),
            !r ==> !final(self).maps(vpn.0 as int),
            final(allocator).spec_free_count() >= old(allocator).spec_free_count() - 2,
            final(allocator).end == old(allocator).end,
            final(self).mids@.len() <= old(self).mids@.len() + 1,
            final(self).leaves@.len() <= old(self).leaves@.len() + 1,
            old(allocator).spec_free_count() >= 2 && old(self).mids@.len() < 0x4000_0000 && old(
                self,
            ).leaves@.len() < 0x4000_0000 ==> r,
    {
        let idx = vpn.level_indexes();
        let i2 = idx[0] as usize;
        let i1 = idx[1] as usize;
        let i0 = idx[2] as usize;
        let ghost pt0 = *self;
        // level 2: find or create the mid node
        let root_word = self.root[i2];
        let root_pte = PageTableEntry { bits: root_word };
        if !root_pte.is_valid() {
            if self.mids.len() >= 0x4000_0000 {
                return false;
            }
            let got = alloc_frame(allocator);
            match got {
                None => {
                    return false;
                },
                Some(frame) => {
                    let m = self.mids.len() as u64;
                    let node = PtNode { ppn: frame.ppn.0, entries: zeroed_node() };
                    self.mids.push(node);
                    self.frames.push(frame);
                    let word = PageTableEntry::new(PhysPageNumber(m), PTE_V);
                    proof {
                        assert(1u8 & 1u8 == 1u8) by (bit_vector);
                    }
                    self.root.set(i2, word.bits);
                    proof {
                        lemma_same_maps_new_mid(pt0, *self, i2 as int);
                    }
                },
            }
        }
        let ghost pt1 = *self;
        let m = PageTableEntry { bits: self.root[i2] }.page_number().0 as usize;
        // level 1: find or create the leaf node
        let mid_word = self.mids[m].entries[i1];
        let mid_pte = PageTableEntry { bits: mid_word };
        if !mid_pte.is_valid() {
            if self.leaves.len() >= 0x4000_0000 {
                return false;
            }
            let got = alloc_frame(allocator);
            match got {
                None => {
                    return false;
                },
                Some(frame) => {
                    let l = self.leaves.len() as u64;
                    let node = PtNode { ppn: frame.ppn.0, entries: zeroed_node() };
                    self.leaves.push(node);
                    self.frames.push(frame);
                    let word = PageTableEntry::new(PhysPageNumber(l), PTE_V);
                    proof {
                        assert(1u8 & 1u8 == 1u8) by (bit_vector);
                    }
                    let mut mid_node = self.mids.remove(m);
                    mid_node.entries.set(i1, word.bits);
                    self.mids.insert(m, mid_node);
                    proof {
                        assert(self.mids@ =~= pt1.mids@.update(
                            m as int,
                            PtNode {
                                ppn: pt1.mids@[m as int].ppn,
                                entries: self.mids@[m as int].entries,
                            },
                        ));
                        lemma_same_maps_new_leaf(pt1, *self, i2 as int, m as int, i1 as int);
                    }
                },
            }
        }
        let ghost pt2 = *self;
        let l = PageTableEntry { bits: self.mids[m].entries[i1] }.page_number().0 as usize;
        // leaf: write the mapping
        let word = PageTableEntry::new(ppn, flags | PTE_V);
        proof {
            let f = flags;
            assert((f | 1u8) & 1u8 == 1u8) by (bit_vector);
        }
        let mut leaf_node = self.leaves.remove(l);
        leaf_node.entries.set(i0, word.bits);
        self.leaves.insert(l, leaf_node);
        proof {
            assert(self.leaves@ =~= pt2.leaves@.update(
                l as int,
                PtNode { ppn: pt2.leaves@[l as int].ppn, entries: self.leaves@[l as int].entries },
            ));
            lemma_same_maps_set_leaf(pt2, *self, i2 as int, m as int, i1 as int, l as int, i0 as int);
            assert(self.maps(vpn.0 as int));
            lemma_maps_transitive(pt0, pt1, pt2, *self, vpn.0 as int);
        }
        true
    }

    /// Clear the mapping of `vpn`.
    pub fn unmap(&mut self, vpn: VirtPageNumber)
        requires
            old(self).wf(),
            vpn.0 < vpn_limit(),
            old(self).maps(vpn.0 as int),
        ensures
            final(self).wf(),
            final(self).root_ppn == old(self).root_ppn,
            !final(self).maps(vpn.0 as int),
            forall|v: int|
                0 <= v < vpn_limit() && v != vpn.0 ==> #[trigger] final(self).maps(v)
                    == old(self).maps(v),
            forall|v: int|
                0 <= v < vpn_limit() && v != vpn.0 && old(self).maps(v)
                    ==> #[trigger] final(self).leaf_bits(v) == old(self).leaf_bits(v),
    {
        let idx = vpn.level_indexes();
        let i2 = idx[0] as usize;
        let i1 = idx[1] as usize;
        let i0 = idx[2] as usize;
        let ghost pt0 = *self;
        let m = PageTableEntry { bits: self.root[i2] }.page_number().0 as usize;
        let l = PageTableEntry { bits: self.mids[m].entries[i1] }.page_number().0 as usize;
        let word = PageTableEntry::empty();
        let mut leaf_node = self.leaves.remove(l);
        leaf_node.entries.set(i0, word.bits);
        self.leaves.insert(l, leaf_node);
        proof {
            assert(self.leaves@ =~= pt0.leaves@.update(
                l as int,
                PtNode { ppn: pt0.leaves@[l as int].ppn, entries: self.leaves@[l as int].entries },
            ));
            lemma_same_maps_set_leaf(pt0, *self, i2 as int, m as int, i1 as int, l as int, i0 as int);
        }
    }

    /// The leaf entry the walk finds for `vpn`, or `None` when an
    /// intermediate entry is invalid. The returned entry itself may be
    /// invalid when `vpn` was unmapped.
    pub fn translate(&self, vpn: VirtPageNumber) -> (r: Option<PageTableEntry>)
        requires
            self.wf(),
            vpn.0 < vpn_limit(),
        ensures
            self.maps(vpn.0 as int) ==> r == Some(
                PageTableEntry { bits: self.leaf_bits(vpn.0 as int) },
            ) && spec_pte_valid(r.unwrap().bits),
            !self.maps(vpn.0 as int) ==> r is None || !spec_pte_valid(r.unwrap().bits),
    {
        let idx = vpn.level_indexes();
        let i2 = idx[0] as usize;
        let i1 = idx[1] as usize;
        let i0 = idx[2] as usize;
        let root_pte = PageTableEntry { bits: self.root[i2] };
        if !root_pte.is_valid() {
            return None;
        }
        let m = root_pte.page_number().0 as usize;
        let mid_pte = PageTableEntry { bits: self.mids[m].entries[i1] };
        if !mid_pte.is_valid() {
            return None;
        }
        let l = mid_pte.page_number().0 as usize;
        Some(PageTableEntry { bits: self.leaves[l].entries[i0] })
    }

    /// The satp register word naming this table: mode Sv39 in the top
    /// nibble, the root page number below.
    pub fn satp_value(&self) -> (r: u64)
        ensures
            r == (8u64 << 60) | self.root_ppn.0,
    {
        (8u64 << 60) | self.root_ppn.0
    }
}

/// A node of 512 zeroed entry words.
fn zeroed_node() -> (r: Vec<u64>)
    ensures
        r@.len() == 512,
        forall|i: int| 0 <= i < 512 ==> #[trigger] r@[i] == 0u64,
{
    let mut r: Vec<u64> = Vec::new();
    let mut i: usize = 0;
    while i < 512
        invariant
            i <= 512,
            r@.len() == i,
            forall|j: int| 0 <= j < i ==> #[trigger] r@[j] == 0u64,
        decreases 512 - i,
    {
        r.push(0u64);
        i = i + 1;
    }
    r
}

/// The level indexes of a virtual page number are in range.
pub proof fn lemma_idx_range(vpn: int)
    ensures
        0 <= PageTable::spec_i2(vpn) < 512,
        0 <= PageTable::spec_i1(vpn) < 512,
        0 <= vpn % 512 < 512,
{
    assert(0 <= (vpn / 0x40000) % 512 < 512 && 0 <= (vpn / 0x200) % 512 < 512 && 0 <= vpn % 512
        < 512) by (nonlinear_arith);
}

/// Two distinct page numbers differ in at least one level index.
pub proof fn lemma_idx_injective(v1: int, v2: int)
    requires
        0 <= v1 < vpn_limit(),
        0 <= v2 < vpn_limit(),
        PageTable::spec_i2(v1) == PageTable::spec_i2(v2),
        PageTable::spec_i1(v1) == PageTable::spec_i1(v2),
        PageTable::spec_i0(v1) == PageTable::spec_i0(v2),
    ensures
        v1 == v2,
{
    assert(v1 == ((v1 / 0x40000) % 512) * 0x40000 + ((v1 / 0x200) % 512) * 0x200 + v1 % 512)
        by (nonlinear_arith)
        requires
            0 <= v1 < 0x800_0000,
    ;
    assert(v2 == ((v2 / 0x40000) % 512) * 0x40000 + ((v2 / 0x200) % 512) * 0x200 + v2 % 512)
        by (nonlinear_arith)
        requires
            0 <= v2 < 0x800_0000,
    ;
}

/// Installing a fresh zeroed mid node under one root slot maps nothing
/// new and disturbs nothing.
#[verifier::rlimit(100)]
proof fn lemma_same_maps_new_mid(pt0: PageTable, pt1: PageTable, i2: int)
    requires
        pt0.wf(),
        0 <= i2 < 512,
        !spec_pte_valid(pt0.root@[i2]),
        pt1.mids@ == pt0.mids@.push(
            PtNode { ppn: pt1.mids@.last().ppn, entries: pt1.mids@.last().entries },
        ),
        pt1.mids@.last().entries@.len() == 512,
        forall|i: int| 0 <= i < 512 ==> #[trigger] pt1.mids@.last().entries@[i] == 0u64,
        pt1.root@ == pt0.root@.update(i2, pt1.root@[i2]),
        spec_pte_valid(pt1.root@[i2]),
        spec_pte_ppn(pt1.root@[i2]) == pt0.mids@.len(),
        pt1.leaves@ == pt0.leaves@,
        pt1.mids@.len() <= 0x4000_0000,
    ensures
        pt1.wf(),
        forall|v: int| 0 <= v < vpn_limit() ==> #[trigger] pt1.maps(v) == pt0.maps(v),
        forall|v: int|
            0 <= v < vpn_limit() && pt0.maps(v) ==> #[trigger] pt1.leaf_bits(v) == pt0.leaf_bits(
                v,
            ),
        forall|v: int|
            0 <= v < vpn_limit() && PageTable::spec_i2(v) == i2 ==> !#[trigger] pt1.maps(v),
{
    assert(!spec_pte_valid(0u64)) by (bit_vector);
    assert(pt1.wf()) by {
        assert forall|i: int, j: int|
            0 <= i < j < 512 && spec_pte_valid(#[trigger] pt1.root@[i]) && spec_pte_valid(
                #[trigger] pt1.root@[j],
            ) implies spec_pte_ppn(pt1.root@[i]) != spec_pte_ppn(pt1.root@[j]) by {
            if i != i2 && j != i2 {
                assert(pt1.root@[i] == pt0.root@[i] && pt1.root@[j] == pt0.root@[j]);
            }
        }
    }
    assert forall|v: int| 0 <= v < vpn_limit() implies #[trigger] pt1.maps(v) == pt0.maps(v) && (
    pt0.maps(v) ==> pt1.leaf_bits(v) == pt0.leaf_bits(v)) by {
        lemma_idx_range(v);
        let vi2 = PageTable::spec_i2(v);
        if vi2 == i2 {
            assert(!pt0.reaches_leaf(v));
            assert(pt1.mids@[spec_pte_ppn(pt1.root@[i2]) as int].entries@[PageTable::spec_i1(v)]
                == 0u64);
            assert(!pt1.reaches_leaf(v));
        } else {
            assert(pt1.root@[vi2] == pt0.root@[vi2]);
            if spec_pte_valid(pt0.root@[vi2]) {
                let mm = spec_pte_ppn(pt0.root@[vi2]) as int;
                assert(mm < pt0.mids@.len());
                assert(pt1.mids@[mm] == pt0.mids@[mm]);
            }
        }
    }
}

/// Installing a fresh zeroed leaf node under one mid slot maps nothing
/// new and disturbs nothing.
#[verifier::rlimit(100)]
proof fn lemma_same_maps_new_leaf(pt1: PageTable, pt2: PageTable, i2: int, m: int, i1: int)
    requires
        pt1.wf(),
        0 <= i2 < 512,
        0 <= i1 < 512,
        0 <= m < pt1.mids@.len(),
        spec_pte_valid(pt1.root@[i2]),
        spec_pte_ppn(pt1.root@[i2]) == m,
        !spec_pte_valid(pt1.mids@[m].entries@[i1]),
        pt2.root@ == pt1.root@,
        pt2.mids@ == pt1.mids@.update(
            m,
            PtNode { ppn: pt1.mids@[m].ppn, entries: pt2.mids@[m].entries },
        ),
        pt2.mids@[m].entries@ == pt1.mids@[m].entries@.update(i1, pt2.mids@[m].entries@[i1]),
        spec_pte_valid(pt2.mids@[m].entries@[i1]),
        spec_pte_ppn(pt2.mids@[m].entries@[i1]) == pt1.leaves@.len(),
        pt2.leaves@ == pt1.leaves@.push(
            PtNode { ppn: pt2.leaves@.last().ppn, entries: pt2.leaves@.last().entries },
        ),
        pt2.leaves@.last().entries@.len() == 512,
        forall|i: int| 0 <= i < 512 ==> #[trigger] pt2.leaves@.last().entries@[i] == 0u64,
        pt2.leaves@.len() <= 0x4000_0000,
    ensures
        pt2.wf(),
        forall|v: int| 0 <= v < vpn_limit() ==> #[trigger] pt2.maps(v) == pt1.maps(v),
        forall|v: int|
            0 <= v < vpn_limit() && pt1.maps(v) ==> #[trigger] pt2.leaf_bits(v) == pt1.leaf_bits(
                v,
            ),
        forall|v: int|
            0 <= v < vpn_limit() && PageTable::spec_i2(v) == i2 && PageTable::spec_i1(v) == i1
                ==> !#[trigger] pt2.maps(v) && pt2.reaches_leaf(v) && pt2.leaf_bits(v) == 0u64,
    {
    assert(!spec_pte_valid(0u64)) by (bit_vector);
    assert(pt2.wf()) by {
        assert forall|m1: int, j1: int, m2: int, j2: int|
            0 <= m1 < pt2.mids@.len() && 0 <= m2 < pt2.mids@.len() && 0 <= j1 < 512 && 0 <= j2
                < 512 && !(m1 == m2 && j1 == j2) && spec_pte_valid(
                #[trigger] pt2.mids@[m1].entries@[j1],
            ) && spec_pte_valid(#[trigger] pt2.mids@[m2].entries@[j2]) implies spec_pte_ppn(
            pt2.mids@[m1].entries@[j1],
        ) != spec_pte_ppn(pt2.mids@[m2].entries@[j2]) by {
            if (m1 == m && j1 == i1) {
                assert(pt2.mids@[m2].entries@[j2] == pt1.mids@[m2].entries@[j2]);
                assert(spec_pte_ppn(pt1.mids@[m2].entries@[j2]) < pt1.leaves@.len());
            } else if (m2 == m && j2 == i1) {
                assert(pt2.mids@[m1].entries@[j1] == pt1.mids@[m1].entries@[j1]);
                assert(spec_pte_ppn(pt1.mids@[m1].entries@[j1]) < pt1.leaves@.len());
            } else {
                assert(pt2.mids@[m1].entries@[j1] == pt1.mids@[m1].entries@[j1]);
                assert(pt2.mids@[m2].entries@[j2] == pt1.mids@[m2].entries@[j2]);
            }
        }
    }
    assert forall|v: int| 0 <= v < vpn_limit() implies #[trigger] pt2.maps(v) == pt1.maps(v) && (
    pt1.maps(v) ==> pt2.leaf_bits(v) == pt1.leaf_bits(v)) by {
        lemma_idx_range(v);
        let vi2 = PageTable::spec_i2(v);
        let vi1 = PageTable::spec_i1(v);
        if spec_pte_valid(pt1.root@[vi2]) {
            let mm = spec_pte_ppn(pt1.root@[vi2]) as int;
            if mm == m && vi1 == i1 {
                assert(vi2 == i2) by {
                    if vi2 != i2 {
                        assert(spec_pte_ppn(pt1.root@[vi2]) != spec_pte_ppn(pt1.root@[i2]));
                    }
                }
                assert(!pt1.reaches_leaf(v));
                assert(pt2.leaves@[spec_pte_ppn(pt2.mids@[m].entries@[i1]) as int].entries@[PageTable::spec_i0(
                    v,
                )] == 0u64);
            } else {
                assert(pt2.mids@[mm].entries@[vi1] == pt1.mids@[mm].entries@[vi1]);
                if spec_pte_valid(pt1.mids@[mm].entries@[vi1]) {
                    let ll = spec_pte_ppn(pt1.mids@[mm].entries@[vi1]) as int;
                    assert(ll < pt1.leaves@.len());
                    assert(pt2.leaves@[ll] == pt1.leaves@[ll]);
                }
            }
        }
    }
    assert forall|v: int|
        0 <= v < vpn_limit() && PageTable::spec_i2(v) == i2 && PageTable::spec_i1(v)
            == i1 implies !#[trigger] pt2.maps(v) && pt2.reaches_leaf(v) && pt2.leaf_bits(v)
        == 0u64 by {
        lemma_idx_range(v);
    }
}

/// Writing one leaf entry changes that virtual page alone.
#[verifier::rlimit(100)]
proof fn lemma_same_maps_set_leaf(
    pt2: PageTable,
    pt3: PageTable,
    i2: int,
    m: int,
    i1: int,
    l: int,
    i0: int,
)
    requires
        pt2.wf(),
        0 <= i2 < 512,
        0 <= i1 < 512,
        0 <= i0 < 512,
        0 <= m < pt2.mids@.len(),
        0 <= l < pt2.leaves@.len(),
        spec_pte_valid(pt2.root@[i2]),
        spec_pte_ppn(pt2.root@[i2]) == m,
        spec_pte_valid(pt2.mids@[m].entries@[i1]),
        spec_pte_ppn(pt2.mids@[m].entries@[i1]) == l,
        pt3.root@ == pt2.root@,
        pt3.mids@ == pt2.mids@,
        pt3.leaves@ == pt2.leaves@.update(
            l,
            PtNode { ppn: pt2.leaves@[l].ppn, entries: pt3.leaves@[l].entries },
        ),
        pt3.leaves@[l].entries@ == pt2.leaves@[l].entries@.update(i0, pt3.leaves@[l].entries@[i0]),
    ensures
        pt3.wf(),
        pt3.reaches_leaf(seq_vpn(i2, i1, i0)),
        pt3.leaf_bits(seq_vpn(i2, i1, i0)) == pt3.leaves@[l].entries@[i0],
        forall|v: int|
            0 <= v < vpn_limit() && v != seq_vpn(i2, i1, i0) ==> #[trigger] pt3.maps(v) == pt2.maps(
                v,
            ),
        forall|v: int|
            0 <= v < vpn_limit() && v != seq_vpn(i2, i1, i0) && pt2.maps(v)
                ==> #[trigger] pt3.leaf_bits(v) == pt2.leaf_bits(v),
{
    let vpn = seq_vpn(i2, i1, i0);
    lemma_vpn_indexes(i2, i1, i0);
    assert forall|v: int| 0 <= v < vpn_limit() && v != vpn implies #[trigger] pt3.maps(v)
        == pt2.maps(v) && (pt2.maps(v) ==> pt3.leaf_bits(v) == pt2.leaf_bits(v)) by {
        lemma_idx_range(v);
        let vi2 = PageTable::spec_i2(v);
        let vi1 = PageTable::spec_i1(v);
        let vi0 = PageTable::spec_i0(v);
        if spec_pte_valid(pt2.root@[vi2]) {
            let mm = spec_pte_ppn(pt2.root@[vi2]) as int;
            if spec_pte_valid(pt2.mids@[mm].entries@[vi1]) {
                let ll = spec_pte_ppn(pt2.mids@[mm].entries@[vi1]) as int;
                if ll == l {
                    if vi0 == i0 {
                        assert(mm == m ==> vi2 == i2) by {
                            if mm == m && vi2 != i2 {
                                assert(spec_pte_ppn(pt2.root@[vi2]) != spec_pte_ppn(
                                    pt2.root@[i2],
                                ));
                            }
                        }
                        assert(!(mm == m && vi1 == i1) ==> ll != l) by {
                            if !(mm == m && vi1 == i1) {
                                assert(spec_pte_ppn(pt2.mids@[mm].entries@[vi1]) != spec_pte_ppn(
                                    pt2.mids@[m].entries@[i1],
                                ));
                            }
                        }
                        assert(mm == m && vi1 == i1 && vi2 == i2);
                        lemma_idx_injective(v, vpn);
                        assert(false);
                    } else {
                        assert(pt3.leaves@[l].entries@[vi0] == pt2.leaves@[l].entries@[vi0]);
                    }
                } else {
                    assert(pt3.leaves@[ll] == pt2.leaves@[ll]);
                }
            }
        }
    }
}

/// The virtual page number with the given level indexes.
pub open spec fn seq_vpn(i2: int, i1: int, i0: int) -> int {
    i2 * 0x40000 + i1 * 0x200 + i0
}

/// Its indexes decompose back.
pub proof fn lemma_vpn_indexes(i2: int, i1: int, i0: int)
    requires
        0 <= i2 < 512,
        0 <= i1 < 512,
        0 <= i0 < 512,
    ensures
        PageTable::spec_i2(seq_vpn(i2, i1, i0)) == i2,
        PageTable::spec_i1(seq_vpn(i2, i1, i0)) == i1,
        PageTable::spec_i0(seq_vpn(i2, i1, i0)) == i0,
        0 <= seq_vpn(i2, i1, i0) < vpn_limit(),
{
    assert(((i2 * 0x40000 + i1 * 0x200 + i0) / 0x40000) % 512 == i2 && ((i2 * 0x40000 + i1 * 0x200
        + i0) / 0x200) % 512 == i1 && (i2 * 0x40000 + i1 * 0x200 + i0) % 512 == i0 && 0 <= i2
        * 0x40000 + i1 * 0x200 + i0 < 0x800_0000) by (nonlinear_arith)
        requires
            0 <= i2 < 512 && 0 <= i1 < 512 && 0 <= i0 < 512,
    ;
}

/// The whole-map transitivity used by `map`: composing the three steps.
proof fn lemma_maps_transitive(
    pt0: PageTable,
    pt1: PageTable,
    pt2: PageTable,
    pt3: PageTable,
    vpn: int,
)
    requires
        0 <= vpn < vpn_limit(),
        forall|v: int| 0 <= v < vpn_limit() && v != vpn ==> #[trigger] pt1.maps(v) == pt0.maps(v),
        forall|v: int|
            0 <= v < vpn_limit() && v != vpn && pt0.maps(v) ==> #[trigger] pt1.leaf_bits(v)
                == pt0.leaf_bits(v),
        forall|v: int| 0 <= v < vpn_limit() && v != vpn ==> #[trigger] pt2.maps(v) == pt1.maps(v),
        forall|v: int|
            0 <= v < vpn_limit() && v != vpn && pt1.maps(v) ==> #[trigger] pt2.leaf_bits(v)
                == pt1.leaf_bits(v),
        forall|v: int| 0 <= v < vpn_limit() && v != vpn ==> #[trigger] pt3.maps(v) == pt2.maps(v),
        forall|v: int|
            0 <= v < vpn_limit() && v != vpn && pt2.maps(v) ==> #[trigger] pt3.leaf_bits(v)
                == pt2.leaf_bits(v),
    ensures
        forall|v: int| 0 <= v < vpn_limit() && v != vpn ==> #[trigger] pt3.maps(v) == pt0.maps(v),
        forall|v: int|
            0 <= v < vpn_limit() && v != vpn && pt0.maps(v) ==> #[trigger] pt3.leaf_bits(v)
                == pt0.leaf_bits(v),
{
}

} // verus!
