//! Address spaces: mapped areas over a page table.
//!
//! A memory area is a half-open range of virtual pages with one map
//! type — `Direct` (page number used as frame number, for kernel
//! identity regions) or `Framed` (each page backed by a freshly
//! allocated frame) — and permission bits. A memory set is a page table
//! plus its areas; the trampoline page is mapped separately at the
//! highest virtual page. The set's invariant ties the page table's
//! mappings exactly to the areas and the trampoline.
use vstd::prelude::*;
use crate::addr::{
    va_limit, vpn_limit, ppn_limit, PhysPageNumber, SimpleRange, VirtAddr, VirtPageNumber,
};
use crate::frame_alloc::{alloc_frame, FrameTracker, StackFrameAllocator};
use crate::page_table::{PageTable, PageTableEntry};
use crate::pid::USER_STACK_SIZE;

verus! {

pub const MAP_PERM_R: u8 = 2;

pub const MAP_PERM_W: u8 = 4;

pub const MAP_PERM_X: u8 = 8;

pub const MAP_PERM_U: u8 = 16;

/// Virtual page of the trampoline.
pub const TRAMPOLINE_VPN: u64 = 0x7ff_ffff;

#[derive(Clone, Copy, PartialEq, Eq, Structural, Debug)]
pub enum MapType {
    Direct,
    Framed,
}

/// One mapped region of an address space.
pub struct MemoryArea {
    pub vpns: SimpleRange,
    pub map_type: MapType,
    pub map_perm: u8,
    pub frames: Vec<FrameTracker>,
}

impl MemoryArea {
    /// The region from `start_va` to `end_va`, rounded out to pages,
    /// with no frames yet.
    pub fn new(start_va: VirtAddr, end_va: VirtAddr, map_type: MapType, perm: u8) -> (r: Self)
        requires
            start_va.0 < va_limit(),
            end_va.0 < va_limit(),
        ensures
            r.vpns.l.0 == start_va.0 / 4096,
            r.vpns.r.0 == (end_va.0 + 4095) / 4096,
            r.map_type == map_type,
            r.map_perm == perm,
            r.frames@.len() == 0,
    {
        let start_vpn = start_va.floor();
        let end_vpn = end_va.ceil();
        MemoryArea {
            vpns: SimpleRange::new(start_vpn, end_vpn),
            map_type,
            map_perm: perm,
            frames: Vec::new(),
        }
    }

    /// An empty copy of `other`: same range, type and permissions.
    pub fn from_existing(other: &MemoryArea) -> (r: Self)
        ensures
            r.vpns == other.vpns,
            r.map_type == other.map_type,
            r.map_perm == other.map_perm,
            r.frames@.len() == 0,
    {
        MemoryArea {
            vpns: SimpleRange::new(other.vpns.get_start(), other.vpns.get_end()),
            map_type: other.map_type,
            map_perm: other.map_perm,
            frames: Vec::new(),
        }
    }
}

/// An address space.
pub struct MemorySet {
    pub page_table: PageTable,
    pub areas: Vec<MemoryArea>,
    pub trampoline_mapped: bool,
    pub trampoline_ppn: u64,
}

impl MemorySet {
    /// Whether some area covers `v`.
    pub open spec fn covered(self, v: int) -> bool {
        exists|i: int| 0 <= i < self.areas@.len() && (#[trigger] self.areas@[i]).vpns.contains_vpn(v)
    }

    /// The page table maps exactly the areas plus, when mapped, the
    /// trampoline; areas are disjoint, in range, and clear of the
    /// trampoline page.
    pub open spec fn wf(self) -> bool {
        &&& self.page_table.wf()
        &&& forall|i: int|
            0 <= i < self.areas@.len() ==> (#[trigger] self.areas@[i]).vpns.l.0
                <= self.areas@[i].vpns.r.0 && self.areas@[i].vpns.r.0 <= vpn_limit()
                && !(self.areas@[i].vpns.l.0 <= TRAMPOLINE_VPN < self.areas@[i].vpns.r.0)
        &&& forall|i: int|
            0 <= i < self.areas@.len() && (#[trigger] self.areas@[i]).map_type is Framed
                ==> self.areas@[i].frames@.len() == self.areas@[i].vpns.r.0
                - self.areas@[i].vpns.l.0 && (forall|j: int|
                0 <= j < self.areas@[i].frames@.len()
                    ==> (#[trigger] self.areas@[i].frames@[j]).data@.len() == 4096)
        &&& forall|i: int, j: int, v: int|
            0 <= i < j < self.areas@.len() && (#[trigger] self.areas@[i].vpns.contains_vpn(v))
                ==> !(#[trigger] self.areas@[j].vpns.contains_vpn(v))
        &&& forall|v: int|
            0 <= v < vpn_limit() ==> (#[trigger] self.page_table.maps(v) <==> (self.covered(v) || (
            self.trampoline_mapped && v == TRAMPOLINE_VPN)))
        &&& TRAMPOLINE_VPN < vpn_limit()
    }

    /// A fresh address space with nothing mapped; `None` when no frame
    /// is left for the root node.
    pub fn new_empty(allocator: &mut StackFrameAllocator) -> (r: Option<Self>)
        requires
            old(allocator).wf(),
        ensures
            final(allocator).wf(),
            r is Some <==> old(allocator).spec_free_count() > 0,
            r is Some ==> final(allocator).spec_free_count() == old(allocator).spec_free_count()
                - 1 && final(allocator).end == old(allocator).end,
            r is Some ==> {
                let ms = r.unwrap();
                &&& ms.wf()
                &&& ms.areas@.len() == 0
                &&& !ms.trampoline_mapped
                &&& ms.page_table.mids@.len() == 0
                &&& ms.page_table.leaves@.len() == 0
            },
    {
        let got = PageTable::new(allocator);
        match got {
            None => None,
            Some(pt) => {
                let ms = MemorySet {
                    page_table: pt,
                    areas: Vec::new(),
                    trampoline_mapped: false,
                    trampoline_ppn: 0,
                };
                Some(ms)
            },
        }
    }

    /// Map the trampoline page read-execute onto the physical page
    /// holding the transition stub.
    pub fn map_trampoline(
        &mut self,
        strampoline_ppn: PhysPageNumber,
        allocator: &mut StackFrameAllocator,
    ) -> (r: bool)
        requires
            old(self).wf(),
            old(allocator).wf(),
            !old(self).trampoline_mapped,
            strampoline_ppn.0 < ppn_limit(),
        ensures
            final(self).wf(),
            final(allocator).wf(),
            final(self).areas@ == old(self).areas@,
            r ==> final(self).trampoline_mapped && final(self).trampoline_ppn == strampoline_ppn.0,
            !r ==> !final(self).trampoline_mapped,
            final(allocator).spec_free_count() >= old(allocator).spec_free_count() - 2,
            final(allocator).end == old(allocator).end,
            final(self).page_table.mids@.len() <= old(self).page_table.mids@.len() + 1,
            final(self).page_table.leaves@.len() <= old(self).page_table.leaves@.len() + 1,
            old(allocator).spec_free_count() >= 2 && old(self).page_table.mids@.len()
                < 0x4000_0000 && old(self).page_table.leaves@.len() < 0x4000_0000 ==> r,
    {
        proof {
            assert(!self.covered(TRAMPOLINE_VPN as int) ==> !self.page_table.maps(
                TRAMPOLINE_VPN as int,
            ));
            assert(!self.covered(TRAMPOLINE_VPN as int)) by {
                if self.covered(TRAMPOLINE_VPN as int) {
                    let i = choose|i: int|
                        0 <= i < self.areas@.len() && (#[trigger] self.areas@[i]).vpns.contains_vpn(
                            TRAMPOLINE_VPN as int,
                        );
                }
            }
        }
        let done = self.page_table.map(
            VirtPageNumber(TRAMPOLINE_VPN),
            strampoline_ppn,
            MAP_PERM_R | MAP_PERM_X,
            allocator,
        );
        if !done {
            return false;
        }
        self.trampoline_mapped = true;
        self.trampoline_ppn = strampoline_ppn.0;
        proof {
            assert forall|v: int| 0 <= v < vpn_limit() implies (#[trigger] self.page_table.maps(v)
                <==> (self.covered(v) || (self.trampoline_mapped && v == TRAMPOLINE_VPN))) by {
                assert(self.covered(v) == old(self).covered(v));
            }
        }
        true
    }

    /// Look up the leaf entry for `vpn`.
    pub fn translate(&self, vpn: VirtPageNumber) -> (r: Option<PageTableEntry>)
        requires
            self.wf(),
            vpn.0 < vpn_limit(),
        ensures
            self.page_table.maps(vpn.0 as int) ==> r == Some(
                PageTableEntry { bits: self.page_table.leaf_bits(vpn.0 as int) },
            ),
            !self.page_table.maps(vpn.0 as int) ==> r is None || !crate::page_table::spec_pte_valid(
                r.unwrap().bits,
            ),
    {
        self.page_table.translate(vpn)
    }

    /// Map every page of `area`, allocating frames for a framed area
    /// and copying `data` into them page by page; record the area. On
    /// allocator exhaustion the pages already mapped are unmapped again
    /// and nothing is recorded.
    #[verifier::rlimit(100)]
    pub fn push(
        &mut self,
        area: MemoryArea,
        data: Option<&Vec<u8>>,
        allocator: &mut StackFrameAllocator,
    ) -> (r: bool)
        requires
            old(self).wf(),
            old(allocator).wf(),
            area.frames@.len() == 0,
            area.vpns.l.0 <= area.vpns.r.0,
            area.vpns.r.0 <= vpn_limit(),
            !(area.vpns.l.0 <= TRAMPOLINE_VPN < area.vpns.r.0),
            forall|v: int| area.vpns.contains_vpn(v) ==> !old(self).covered(v),
        ensures
            final(self).wf(),
            final(allocator).wf(),
            final(self).trampoline_mapped == old(self).trampoline_mapped,
            r ==> final(self).areas@.len() == old(self).areas@.len() + 1,
            r ==> forall|i: int|
                0 <= i < old(self).areas@.len() ==> #[trigger] final(self).areas@[i] == old(
                    self,
                ).areas@[i],
            r ==> final(self).areas@.last().vpns == area.vpns && final(self).areas@.last().map_type
                == area.map_type && final(self).areas@.last().map_perm == area.map_perm,
            r && area.map_type is Framed ==> {
                let fr = final(self).areas@.last().frames@;
                &&& fr.len() == area.vpns.r.0 - area.vpns.l.0
                &&& forall|j: int, b: int|
                    0 <= j < fr.len() && 0 <= b < 4096 ==> #[trigger] fr[j].data@[b] == (
                    match data {
                        Some(d) => {
                            if j * 4096 + b < d@.len() {
                                d@[j * 4096 + b]
                            } else {
                                0u8
                            }
                        },
                        None => 0u8,
                    })
            },
            !r ==> final(self).areas@ == old(self).areas@,
            r ==> forall|v: int|
                area.vpns.l.0 <= v < area.vpns.r.0 ==> #[trigger] final(self).page_table.maps(v)
                    && crate::page_table::spec_pte_flags(final(self).page_table.leaf_bits(v)) == (
                area.map_perm | 1),
            r ==> forall|v: int|
                0 <= v < vpn_limit() && old(self).page_table.maps(v)
                    ==> #[trigger] final(self).page_table.leaf_bits(v) == old(
                    self,
                ).page_table.leaf_bits(v),
            r && area.map_type is Direct ==> forall|v: int|
                area.vpns.l.0 <= v < area.vpns.r.0 ==> crate::page_table::spec_pte_ppn(
                    #[trigger] final(self).page_table.leaf_bits(v),
                ) == v,
            final(allocator).spec_free_count() >= old(allocator).spec_free_count() - 3 * (
            area.vpns.r.0 - area.vpns.l.0),
            final(allocator).end == old(allocator).end,
            old(allocator).spec_free_count() >= 3 * (area.vpns.r.0 - area.vpns.l.0) && old(
                allocator,
            ).end <= 0x1000_0000_0000 && old(self).page_table.mids@.len() + (area.vpns.r.0
                - area.vpns.l.0) <= 0x4000_0000 && old(self).page_table.leaves@.len() + (
            area.vpns.r.0 - area.vpns.l.0) <= 0x4000_0000 ==> r,
    {
        let ghost ms0 = *self;
        let ghost area0 = area;
        let ghost can = old(allocator).spec_free_count() >= 3 * (area.vpns.r.0 as int
            - area.vpns.l.0 as int) && old(allocator).end <= 0x1000_0000_0000 && old(
            self,
        ).page_table.mids@.len() + (area.vpns.r.0 as int - area.vpns.l.0 as int) <= 0x4000_0000
            && old(self).page_table.leaves@.len() + (area.vpns.r.0 as int
            - area.vpns.l.0 as int) <= 0x4000_0000;
        let mut marea = area;
        let start = marea.vpns.get_start();
        let end = marea.vpns.get_end();
        let mut vpn = start;
        let is_framed = match marea.map_type {
            MapType::Framed => true,
            MapType::Direct => false,
        };
        while vpn.0 < end.0
            invariant
                self.page_table.wf(),
                old(allocator).wf(),
                allocator.wf(),
                ms0 == *old(self),
                area0 == area,
                self.areas@ == ms0.areas@,
                self.trampoline_mapped == ms0.trampoline_mapped,
                ms0.wf(),
                marea.vpns == area0.vpns,
                marea.map_type == area0.map_type,
                marea.map_perm == area0.map_perm,
                area0.vpns.l == start,
                area0.vpns.r == end,
                start.0 <= vpn.0 <= end.0,
                start == area.vpns.l,
                end == area.vpns.r,
                end.0 <= vpn_limit(),
                !(start.0 <= TRAMPOLINE_VPN < end.0),
                forall|v: int| area0.vpns.contains_vpn(v) ==> !ms0.covered(v),
                marea.map_type == MapType::Framed <==> is_framed,
                is_framed ==> marea.frames@.len() == vpn.0 - start.0,
                is_framed ==> forall|j: int|
                    0 <= j < marea.frames@.len() ==> (#[trigger] marea.frames@[j]).data@.len()
                        == 4096,
                !is_framed ==> marea.frames@.len() == 0,
                forall|v: int|
                    0 <= v < vpn_limit() ==> (#[trigger] self.page_table.maps(v) <==> (
                    ms0.page_table.maps(v) || (start.0 <= v < vpn.0))),
                forall|v: int|
                    start.0 <= v < vpn.0 ==> crate::page_table::spec_pte_flags(
                        #[trigger] self.page_table.leaf_bits(v),
                    ) == (area.map_perm | 1),
                !is_framed ==> forall|v: int|
                    start.0 <= v < vpn.0 ==> crate::page_table::spec_pte_ppn(
                        #[trigger] self.page_table.leaf_bits(v),
                    ) == v,
                forall|v: int|
                    0 <= v < vpn_limit() && ms0.page_table.maps(v)
                        ==> #[trigger] self.page_table.leaf_bits(v) == ms0.page_table.leaf_bits(
                        v,
                    ),
                can == (old(allocator).spec_free_count() >= 3 * (area0.vpns.r.0 as int
                    - area0.vpns.l.0 as int) && old(allocator).end <= 0x1000_0000_0000 && ms0.page_table.mids@.len()
                    + (area0.vpns.r.0 as int - area0.vpns.l.0 as int) <= 0x4000_0000
                    && ms0.page_table.leaves@.len() + (area0.vpns.r.0 as int
                    - area0.vpns.l.0 as int) <= 0x4000_0000),
                allocator.spec_free_count() >= old(allocator).spec_free_count() - 3 * (vpn.0
                    - start.0),
                allocator.end == old(allocator).end,
                self.page_table.mids@.len() <= ms0.page_table.mids@.len() + (vpn.0 - start.0),
                self.page_table.leaves@.len() <= ms0.page_table.leaves@.len() + (vpn.0 - start.0),
                is_framed ==> forall|j: int, b: int|
                    0 <= j < marea.frames@.len() && 0 <= b < 4096
                        ==> #[trigger] marea.frames@[j].data@[b] == (match data {
                        Some(d) => {
                            if j * 4096 + b < d@.len() {
                                d@[j * 4096 + b]
                            } else {
                                0u8
                            }
                        },
                        None => 0u8,
                    }),
            decreases end.0 - vpn.0,
        {
            let ghost before = *self;
            let ppn: PhysPageNumber;
            if is_framed {
                let got = alloc_frame(allocator);
                match got {
                    None => {
                        self.rollback(start, vpn);
                        proof {
                            lemma_push_rollback(ms0, *self);
                            if can {
                                assert(false);
                            }
                        }
                        return false;
                    },
                    Some(mut frame) => {
                        ppn = frame.ppn;
                        if ppn.0 >= 0x1000_0000_0000 {
                            self.rollback(start, vpn);
                            proof {
                                lemma_push_rollback(ms0, *self);
                                if can {
                                    assert(false);
                                }
                                assert(vpn.0 < area0.vpns.r.0);
                                assert(allocator.spec_free_count() >= old(
                                    allocator,
                                ).spec_free_count() - 3 * (vpn.0 - start.0) - 1);
                                assert(allocator.spec_free_count() >= old(
                                    allocator,
                                ).spec_free_count() - 3 * (area0.vpns.r.0 - area0.vpns.l.0));
                            }
                            return false;
                        }
                        match data {
                            Some(d) => {
                                let base: u64 = (vpn.0 - start.0) * 4096;
                                let mut b: usize = 0;
                                while b < 4096
                                    invariant
                                        frame.data@.len() == 4096,
                                        b <= 4096,
                                        base == (vpn.0 - start.0) * 4096,
                                        forall|t: int|
                                            0 <= t < b ==> #[trigger] frame.data@[t] == (if base
                                                + t < d@.len() {
                                                d@[base + t]
                                            } else {
                                                0u8
                                            }),
                                        forall|t: int|
                                            b <= t < 4096 ==> #[trigger] frame.data@[t] == 0u8,
                                    decreases 4096 - b,
                                {
                                    if base + (b as u64) < d.len() as u64 {
                                        frame.data.set(b, d[(base + b as u64) as usize]);
                                    }
                                    b = b + 1;
                                }
                            },
                            None => {},
                        }
                        marea.frames.push(frame);
                    },
                }
            } else {
                ppn = PhysPageNumber(vpn.0);
            }
            let done = self.page_table.map(vpn, ppn, marea.map_perm, allocator);
            if !done {
                self.rollback(start, vpn);
                proof {
                    lemma_push_rollback(ms0, *self);
                    if can {
                        assert(false);
                    }
                    assert(vpn.0 < area0.vpns.r.0);
                    assert(allocator.spec_free_count() >= old(allocator).spec_free_count() - 3 * (
                    vpn.0 - start.0) - 3);
                    assert(allocator.spec_free_count() >= old(allocator).spec_free_count() - 3 * (
                    area0.vpns.r.0 - area0.vpns.l.0));
                }
                return false;
            }
            proof {
                assert forall|v: int|
                    0 <= v < vpn_limit() && ms0.page_table.maps(v) implies
                    #[trigger] self.page_table.leaf_bits(v) == ms0.page_table.leaf_bits(v) by {
                    if v == vpn.0 as int {
                        assert(ms0.page_table.maps(vpn.0 as int));
                        assert(ms0.covered(vpn.0 as int) || (ms0.trampoline_mapped && vpn.0
                            == TRAMPOLINE_VPN));
                        assert(area0.vpns.contains_vpn(vpn.0 as int));
                        assert(!ms0.covered(vpn.0 as int));
                    } else {
                        assert(before.page_table.maps(v));
                        assert(self.page_table.leaf_bits(v) == before.page_table.leaf_bits(v));
                        assert(before.page_table.leaf_bits(v) == ms0.page_table.leaf_bits(v));
                    }
                }
            }
            vpn.step();
        }
        let ghost areaf = marea;
        self.areas.push(marea);
        proof {
            assert(self.wf()) by {
                assert forall|v: int| 0 <= v < vpn_limit() implies (#[trigger] self.page_table.maps(
                    v,
                ) <==> (self.covered(v) || (self.trampoline_mapped && v == TRAMPOLINE_VPN))) by {
                    assert(self.covered(v) <==> (ms0.covered(v) || areaf.vpns.contains_vpn(v)))
                        by {
                        if ms0.covered(v) {
                            let i = choose|i: int|
                                0 <= i < ms0.areas@.len() && (
                                #[trigger] ms0.areas@[i]).vpns.contains_vpn(v);
                            assert(self.areas@[i].vpns.contains_vpn(v));
                        }
                        if areaf.vpns.contains_vpn(v) {
                            assert(self.areas@[self.areas@.len() - 1].vpns.contains_vpn(v));
                        }
                        if self.covered(v) {
                            let i = choose|i: int|
                                0 <= i < self.areas@.len() && (
                                #[trigger] self.areas@[i]).vpns.contains_vpn(v);
                            if i < ms0.areas@.len() {
                                assert(ms0.covered(v));
                            }
                        }
                    }
                }
                assert forall|i: int, j: int, v: int|
                    0 <= i < j < self.areas@.len() && (#[trigger] self.areas@[i].vpns.contains_vpn(
                        v,
                    )) implies !(#[trigger] self.areas@[j].vpns.contains_vpn(v)) by {
                    if j == self.areas@.len() - 1 {
                        if self.areas@[j].vpns.contains_vpn(v) {
                            assert(ms0.covered(v));
                        }
                    }
                }
            }
        }
        true
    }

    /// Unmap the pages `[start, upto)` again after a failed push.
    fn rollback(&mut self, start: VirtPageNumber, upto: VirtPageNumber)
        requires
            old(self).page_table.wf(),
            start.0 <= upto.0,
            upto.0 <= vpn_limit(),
            forall|v: int|
                start.0 <= v < upto.0 ==> #[trigger] old(self).page_table.maps(v),
        ensures
            final(self).page_table.wf(),
            final(self).areas@ == old(self).areas@,
            final(self).trampoline_mapped == old(self).trampoline_mapped,
            forall|v: int|
                0 <= v < vpn_limit() ==> (#[trigger] final(self).page_table.maps(v) <==> (old(
                    self,
                ).page_table.maps(v) && !(start.0 <= v < upto.0))),
    {
        let mut vpn = start;
        while vpn.0 < upto.0
            invariant
                self.page_table.wf(),
                self.areas@ == old(self).areas@,
                self.trampoline_mapped == old(self).trampoline_mapped,
                start.0 <= vpn.0 <= upto.0,
                upto.0 <= vpn_limit(),
                forall|v: int|
                    vpn.0 <= v < upto.0 ==> #[trigger] self.page_table.maps(v),
                forall|v: int|
                    0 <= v < vpn_limit() ==> (#[trigger] self.page_table.maps(v) <==> (old(
                        self,
                    ).page_table.maps(v) && !(start.0 <= v < vpn.0))),
            decreases upto.0 - vpn.0,
        {
            self.page_table.unmap(vpn);
            vpn.step();
        }
    }

    /// Remove the area starting at `start_vpn`, unmapping all its
    /// pages; `false` when no area starts there.
    #[verifier::rlimit(100)]
    pub fn remove_memory_area(&mut self, start_vpn: VirtPageNumber) -> (r: bool)
        requires
            old(self).wf(),
        ensures
            final(self).wf(),
            final(self).trampoline_mapped == old(self).trampoline_mapped,
            r ==> final(self).areas@.len() == old(self).areas@.len() - 1,
            !r ==> final(self).areas@ == old(self).areas@,
            r == exists|i: int|
                0 <= i < old(self).areas@.len() && (#[trigger] old(self).areas@[i]).vpns.l.0
                    == start_vpn.0,
    {
        let ghost ms0 = *self;
        let n = self.areas.len();
        let mut idx: usize = n;
        let mut i: usize = 0;
        while i < n
            invariant
                *self == ms0,
                n == self.areas@.len(),
                i <= n,
                idx == n || (idx < n && self.areas@[idx as int].vpns.l.0 == start_vpn.0),
                idx == n ==> forall|j: int|
                    0 <= j < i ==> (#[trigger] self.areas@[j]).vpns.l.0 != start_vpn.0,
            decreases n - i,
        {
            if self.areas[i].vpns.get_start().0 == start_vpn.0 {
                idx = i;
                i = n;
            } else {
                i = i + 1;
            }
        }
        if idx == n {
            return false;
        }
        let area = self.areas.remove(idx);
        let start = area.vpns.get_start();
        let end = area.vpns.get_end();
        proof {
            assert forall|v: int| start.0 <= v < end.0 implies #[trigger] self.page_table.maps(
                v,
            ) by {
                assert(ms0.areas@[idx as int].vpns.contains_vpn(v));
                assert(ms0.covered(v));
            }
        }
        self.rollback(start, end);
        proof {
            assert forall|v: int| 0 <= v < vpn_limit() implies (#[trigger] self.page_table.maps(v)
                <==> (self.covered(v) || (self.trampoline_mapped && v == TRAMPOLINE_VPN))) by {
                assert(self.covered(v) <==> (ms0.covered(v) && !ms0.areas@[idx as int].vpns.contains_vpn(
                    v,
                ))) by {
                    if self.covered(v) {
                        let i = choose|i: int|
                            0 <= i < self.areas@.len() && (
                            #[trigger] self.areas@[i]).vpns.contains_vpn(v);
                        if i < idx {
                            assert(ms0.areas@[i].vpns.contains_vpn(v));
                            assert(ms0.covered(v));
                        } else {
                            assert(ms0.areas@[i + 1].vpns.contains_vpn(v));
                            assert(ms0.covered(v));
                        }
                    }
                    if ms0.covered(v) && !ms0.areas@[idx as int].vpns.contains_vpn(v) {
                        let i = choose|i: int|
                            0 <= i < ms0.areas@.len() && (
                            #[trigger] ms0.areas@[i]).vpns.contains_vpn(v);
                        if i < idx {
                            assert(self.areas@[i].vpns.contains_vpn(v));
                        } else {
                            assert(i > idx);
                            assert(self.areas@[i - 1].vpns.contains_vpn(v));
                        }
                    }
                }
                if ms0.areas@[idx as int].vpns.contains_vpn(v) && v != TRAMPOLINE_VPN {
                    assert(!self.covered(v)) by {
                        if self.covered(v) {
                            let i = choose|i: int|
                                0 <= i < self.areas@.len() && (
                                #[trigger] self.areas@[i]).vpns.contains_vpn(v);
                        }
                    }
                }
            }
        }
        true
    }

    /// Drop every area, unmapping all their pages; the trampoline stays.
    pub fn recycle_memory_set(&mut self)
        requires
            old(self).wf(),
        ensures
            final(self).wf(),
            final(self).areas@.len() == 0,
            final(self).trampoline_mapped == old(self).trampoline_mapped,
    {
        while self.areas.len() > 0
            invariant
                self.wf(),
                self.trampoline_mapped == old(self).trampoline_mapped,
            decreases self.areas@.len(),
        {
            let start = self.areas[0].vpns.get_start();
            proof {
                assert((#[trigger] self.areas@[0]).vpns.l.0 == start.0);
            }
            let removed = self.remove_memory_area(start);
            proof {
                if !removed {
                    assert(false);
                }
            }
        }
    }
}

/// After a rollback the page table maps exactly what it did before the
/// failed push began.
proof fn lemma_push_rollback(ms0: MemorySet, ms1: MemorySet)
    requires
        ms0.wf(),
        ms1.page_table.wf(),
        ms1.areas@ == ms0.areas@,
        ms1.trampoline_mapped == ms0.trampoline_mapped,
        forall|v: int|
            0 <= v < vpn_limit() ==> (#[trigger] ms1.page_table.maps(v) <==> ms0.page_table.maps(
                v,
            )),
    ensures
        ms1.wf(),
{
    assert forall|v: int| 0 <= v < vpn_limit() implies (#[trigger] ms1.page_table.maps(v) <==> (
    ms1.covered(v) || (ms1.trampoline_mapped && v == TRAMPOLINE_VPN))) by {
        assert(ms1.covered(v) == ms0.covered(v)) by {
            if ms1.covered(v) {
                let i = choose|i: int|
                    0 <= i < ms1.areas@.len() && (#[trigger] ms1.areas@[i]).vpns.contains_vpn(v);
                assert(ms0.areas@[i].vpns.contains_vpn(v));
            }
            if ms0.covered(v) {
                let i = choose|i: int|
                    0 <= i < ms0.areas@.len() && (#[trigger] ms0.areas@[i]).vpns.contains_vpn(v);
                assert(ms1.areas@[i].vpns.contains_vpn(v));
            }
        }
    }
}


/// Linker-given boundaries of the kernel image sections, all
/// page-aligned and ascending.
#[derive(Clone, Copy, PartialEq, Eq, Structural, Debug)]
pub struct KernelLayout {
    pub stext: u64,
    pub etext: u64,
    pub srodata: u64,
    pub erodata: u64,
    pub sdata: u64,
    pub edata: u64,
    pub sbss: u64,
    pub ebss: u64,
    pub ekernel: u64,
    pub memory_end: u64,
}

impl MemorySet {
    /// Whether no page of `[l, r)` is mapped.
    pub fn range_is_free(&self, l: VirtPageNumber, r: VirtPageNumber) -> (free: bool)
        requires
            self.wf(),
            l.0 <= r.0,
            r.0 <= vpn_limit(),
        ensures
            free == forall|v: int| l.0 <= v < r.0 ==> !#[trigger] self.page_table.maps(v),
    {
        let mut vpn = l;
        while vpn.0 < r.0
            invariant
                self.wf(),
                l.0 <= vpn.0 <= r.0,
                r.0 <= vpn_limit(),
                forall|v: int| l.0 <= v < vpn.0 ==> !#[trigger] self.page_table.maps(v),
            decreases r.0 - vpn.0,
        {
            let got = self.page_table.translate(vpn);
            match got {
                Some(pte) => {
                    if pte.is_valid() {
                        return false;
                    }
                },
                None => {},
            }
            proof {
                if self.page_table.maps(vpn.0 as int) {
                    assert(false);
                }
            }
            vpn.step();
        }
        true
    }

    /// Fork-copy: a new address space with the same areas, the same
    /// bytes in every framed page, and the same trampoline. `None` when
    /// the frame allocator runs dry.
    #[verifier::rlimit(100)]
    pub fn from_existing(other: &MemorySet, allocator: &mut StackFrameAllocator) -> (r: Option<
        MemorySet>)
        requires
            other.wf(),
            old(allocator).wf(),
        ensures
            final(allocator).wf(),
            r is Some ==> {
                let ms = r.unwrap();
                &&& ms.wf()
                &&& ms.trampoline_mapped == other.trampoline_mapped
                &&& ms.areas@.len() == other.areas@.len()
                &&& forall|i: int|
                    0 <= i < other.areas@.len() ==> #[trigger] ms.areas@[i].vpns
                        == other.areas@[i].vpns && ms.areas@[i].map_type == other.areas@[i].map_type
                        && ms.areas@[i].map_perm == other.areas@[i].map_perm
                &&& forall|v: int|
                    0 <= v < vpn_limit() ==> (#[trigger] ms.page_table.maps(v)
                        == other.page_table.maps(v))
                &&& forall|i: int, j: int, b: int|
                    0 <= i < other.areas@.len() && other.areas@[i].map_type is Framed && 0 <= j
                        < other.areas@[i].frames@.len() && other.areas@[i].frames@[j].data@.len()
                        == 4096 && 0 <= b < 4096 ==> #[trigger] ms.areas@[i].frames@[j].data@[b]
                        == other.areas@[i].frames@[j].data@[b]
            },
    {
        let got = MemorySet::new_empty(allocator);
        let mut ms = match got {
            None => {
                return None;
            },
            Some(ms) => ms,
        };
        if other.trampoline_mapped {
            if other.trampoline_ppn >= 0x1000_0000_0000 {
                return None;
            }
            let done = ms.map_trampoline(PhysPageNumber(other.trampoline_ppn), allocator);
            if !done {
                return None;
            }
        }
        let n = other.areas.len();
        let mut i: usize = 0;
        while i < n
            invariant
                other.wf(),
                allocator.wf(),
                ms.wf(),
                ms.trampoline_mapped == other.trampoline_mapped,
                n == other.areas@.len(),
                i <= n,
                ms.areas@.len() == i,
                forall|ai: int|
                    0 <= ai < i ==> #[trigger] ms.areas@[ai].vpns == other.areas@[ai].vpns
                        && ms.areas@[ai].map_type == other.areas@[ai].map_type
                        && ms.areas@[ai].map_perm == other.areas@[ai].map_perm,
                forall|v: int|
                    0 <= v < vpn_limit() ==> (#[trigger] ms.covered(v) ==> other.covered(v)),
                forall|ai: int, j: int, b: int|
                    0 <= ai < i && other.areas@[ai].map_type is Framed && 0 <= j
                        < other.areas@[ai].frames@.len() && other.areas@[ai].frames@[j].data@.len()
                        == 4096 && 0 <= b < 4096 ==> #[trigger] ms.areas@[ai].frames@[j].data@[b]
                        == other.areas@[ai].frames@[j].data@[b],
            decreases n - i,
        {
            let ghost msb = ms;
            let src = &other.areas[i];
            let new_area = MemoryArea::from_existing(src);
            let is_framed = match src.map_type {
                MapType::Framed => true,
                MapType::Direct => false,
            };
            proof {
                assert forall|v: int| new_area.vpns.contains_vpn(v) implies !ms.covered(v) by {
                    assert(other.areas@[i as int].vpns.contains_vpn(v));
                    if ms.covered(v) {
                        let ai = choose|ai: int|
                            0 <= ai < ms.areas@.len() && (
                            #[trigger] ms.areas@[ai]).vpns.contains_vpn(v);
                        assert(other.areas@[ai].vpns.contains_vpn(v));
                    }
                }
                assert(new_area.vpns.l.0 <= new_area.vpns.r.0 && new_area.vpns.r.0 <= vpn_limit()
                    && !(new_area.vpns.l.0 <= TRAMPOLINE_VPN < new_area.vpns.r.0)) by {
                    assert(0 <= i < other.areas@.len());
                    assert((#[trigger] other.areas@[i as int]).vpns.l.0
                        <= other.areas@[i as int].vpns.r.0);
                }
            }
            let pushed;
            if is_framed {
                // gather the parent's bytes for this area
                let mut bytes: Vec<u8> = Vec::new();
                let m = src.frames.len();
                let mut j: usize = 0;
                while j < m
                    invariant
                        allocator.wf(),
                        m == src.frames@.len(),
                        j <= m,
                        bytes@.len() == j * 4096,
                        forall|j2: int, b: int|
                            0 <= j2 < j && 0 <= b < 4096 && src.frames@[j2].data@.len() == 4096
                                ==> #[trigger] bytes@[j2 * 4096 + b] == src.frames@[j2].data@[b],
                    decreases m - j,
                {
                    let fd = &src.frames[j].data;
                    if fd.len() != 4096 {
                        return None;
                    }
                    let ghost before = bytes@;
                    let mut b: usize = 0;
                    while b < 4096
                        invariant
                            fd@.len() == 4096,
                            b <= 4096,
                            bytes@.len() == before.len() + b,
                            bytes@ == before + fd@.subrange(0, b as int),
                        decreases 4096 - b,
                    {
                        bytes.push(fd[b]);
                        proof {
                            assert(bytes@ =~= before + fd@.subrange(0, b + 1));
                        }
                        b = b + 1;
                    }
                    proof {
                        assert(bytes@ == before + fd@.subrange(0, 4096));
                        assert(fd@.subrange(0, 4096) =~= fd@);
                        assert forall|j2: int, b2: int|
                            0 <= j2 < j + 1 && 0 <= b2 < 4096 && src.frames@[j2].data@.len()
                                == 4096 implies #[trigger] bytes@[j2 * 4096 + b2]
                            == src.frames@[j2].data@[b2] by {
                            assert(0 <= j2 * 4096 + b2 < bytes@.len()) by (nonlinear_arith)
                                requires
                                    0 <= j2 <= j && 0 <= b2 < 4096 && bytes@.len() == (j + 1)
                                        * 4096,
                            ;
                            if j2 < j {
                                assert(j2 * 4096 + b2 < before.len()) by (nonlinear_arith)
                                    requires
                                        0 <= j2 < j && 0 <= b2 < 4096 && before.len() == j * 4096,
                                ;
                                assert(bytes@[j2 * 4096 + b2] == before[j2 * 4096 + b2]);
                            } else {
                                assert(bytes@[j * 4096 + b2] == fd@[b2]);
                            }
                        }
                    }
                    j = j + 1;
                }
                pushed = ms.push(new_area, Some(&bytes), allocator);
                proof {
                    if pushed {
                        assert((#[trigger] other.areas@[i as int]).map_type is Framed);
                        assert(src.frames@.len() == other.areas@[i as int].vpns.r.0
                            - other.areas@[i as int].vpns.l.0);
                        assert forall|j2: int, b: int|
                            0 <= j2 < src.frames@.len() && src.frames@[j2].data@.len() == 4096 && 0
                                <= b < 4096 implies #[trigger] ms.areas@[i as int].frames@[j2].data@[b]
                            == src.frames@[j2].data@[b] by {
                            assert(0 <= j2 * 4096 + b < bytes@.len()) by (nonlinear_arith)
                                requires
                                    0 <= j2 < src.frames@.len() && 0 <= b < 4096 && bytes@.len()
                                        == src.frames@.len() * 4096,
                            ;
                            assert(ms.areas@[i as int].frames@.len() == src.frames@.len());
                            assert(ms.areas@[i as int].frames@[j2].data@[b] == bytes@[j2 * 4096
                                + b]);
                        }
                    }
                }
            } else {
                pushed = ms.push(new_area, None, allocator);
            }
            if !pushed {
                return None;
            }
            proof {
                assert forall|v: int| 0 <= v < vpn_limit() implies (#[trigger] ms.covered(v)
                    ==> other.covered(v)) by {
                    if ms.covered(v) {
                        let ai = choose|ai: int|
                            0 <= ai < ms.areas@.len() && (
                            #[trigger] ms.areas@[ai]).vpns.contains_vpn(v);
                        if ai < i {
                            assert(msb.covered(v));
                        } else {
                            assert(other.areas@[i as int].vpns.contains_vpn(v));
                        }
                    }
                }
            }
            i = i + 1;
        }
        proof {
            assert forall|v: int| 0 <= v < vpn_limit() implies (#[trigger] ms.page_table.maps(v)
                == other.page_table.maps(v)) by {
                assert(ms.covered(v) == other.covered(v)) by {
                    if other.covered(v) {
                        let ai = choose|ai: int|
                            0 <= ai < other.areas@.len() && (
                            #[trigger] other.areas@[ai]).vpns.contains_vpn(v);
                        assert(ms.areas@[ai].vpns.contains_vpn(v));
                    }
                }
            }
        }
        Some(ms)
    }
}



impl MemorySet {
    /// The kernel address space: the trampoline, then `.text` (RX),
    /// `.rodata` (R), `.data` and `.bss` (RW), and the remaining
    /// physical memory (RW), all identity-mapped.
    #[verifier::rlimit(100)]
    pub fn new_kernel_space(
        l: KernelLayout,
        strampoline_ppn: PhysPageNumber,
        allocator: &mut StackFrameAllocator,
    ) -> (r: Option<MemorySet>)
        requires
            old(allocator).wf(),
            strampoline_ppn.0 < ppn_limit(),
            l.stext % 4096 == 0 && l.etext % 4096 == 0 && l.srodata % 4096 == 0 && l.erodata % 4096
                == 0 && l.sdata % 4096 == 0 && l.edata % 4096 == 0 && l.sbss % 4096 == 0 && l.ebss
                % 4096 == 0 && l.ekernel % 4096 == 0 && l.memory_end % 4096 == 0,
            0 < l.stext <= l.etext <= l.srodata <= l.erodata <= l.sdata <= l.edata <= l.sbss
                <= l.ebss <= l.ekernel <= l.memory_end,
            l.memory_end < va_limit(),
            l.memory_end / 4096 < TRAMPOLINE_VPN,
        ensures
            final(allocator).wf(),
            r is Some ==> {
                let ms = r.unwrap();
                &&& ms.wf()
                &&& ms.trampoline_mapped
                &&& ms.areas@.len() == 5
                &&& forall|v: int|
                    ((l.stext / 4096 <= v < l.etext / 4096) || (l.srodata / 4096 <= v < l.erodata
                        / 4096) || (l.sdata / 4096 <= v < l.edata / 4096) || (l.sbss / 4096 <= v
                        < l.ebss / 4096) || (l.ekernel / 4096 <= v < l.memory_end / 4096))
                        ==> #[trigger] ms.page_table.maps(v)
            },
    {
        let got = MemorySet::new_empty(allocator);
        let mut ms = match got {
            None => {
                return None;
            },
            Some(ms) => ms,
        };
        if !ms.map_trampoline(strampoline_ppn, allocator) {
            return None;
        }
        proof {
            lemma_aligned_ranges(l);
            assert(l.stext as int / 4096 <= l.etext as int / 4096 <= l.srodata as int / 4096
                <= l.erodata as int / 4096 <= l.sdata as int / 4096 <= l.edata as int / 4096
                <= l.sbss as int / 4096 <= l.ebss as int / 4096 <= l.ekernel as int / 4096
                <= l.memory_end as int / 4096) by (nonlinear_arith)
                requires
                    0 < l.stext <= l.etext <= l.srodata <= l.erodata <= l.sdata <= l.edata
                        <= l.sbss <= l.ebss <= l.ekernel <= l.memory_end,
            ;
            assert(l.memory_end as int / 4096 <= vpn_limit()) by (nonlinear_arith)
                requires
                    l.memory_end < 0x80_0000_0000,
            ;
            assert(l.stext % 0x80_0000_0000u64 == l.stext && l.etext % 0x80_0000_0000u64
                == l.etext && l.srodata % 0x80_0000_0000u64 == l.srodata && l.erodata
                % 0x80_0000_0000u64 == l.erodata && l.sdata % 0x80_0000_0000u64 == l.sdata
                && l.edata % 0x80_0000_0000u64 == l.edata && l.sbss % 0x80_0000_0000u64 == l.sbss
                && l.ebss % 0x80_0000_0000u64 == l.ebss && l.ekernel % 0x80_0000_0000u64
                == l.ekernel && l.memory_end % 0x80_0000_0000u64 == l.memory_end)
                by (nonlinear_arith)
                requires
                    0 < l.stext <= l.etext <= l.srodata <= l.erodata <= l.sdata <= l.edata
                        <= l.sbss <= l.ebss <= l.ekernel <= l.memory_end,
                    l.memory_end < 0x80_0000_0000,
            ;
        }
        if !push_kernel_section(&mut ms, l.stext, l.etext, MAP_PERM_R | MAP_PERM_X, allocator) {
            return None;
        }
        proof {
            lemma_kernel_disjoint(ms, l, 1);
        }
        if !push_kernel_section(&mut ms, l.srodata, l.erodata, MAP_PERM_R, allocator) {
            return None;
        }
        proof {
            lemma_kernel_disjoint(ms, l, 2);
        }
        if !push_kernel_section(&mut ms, l.sdata, l.edata, MAP_PERM_R | MAP_PERM_W, allocator) {
            return None;
        }
        proof {
            lemma_kernel_disjoint(ms, l, 3);
        }
        if !push_kernel_section(&mut ms, l.sbss, l.ebss, MAP_PERM_R | MAP_PERM_W, allocator) {
            return None;
        }
        proof {
            lemma_kernel_disjoint(ms, l, 4);
        }
        if !push_kernel_section(
            &mut ms,
            l.ekernel,
            l.memory_end,
            MAP_PERM_R | MAP_PERM_W,
            allocator,
        ) {
            return None;
        }
        proof {
            assert forall|v: int|
                ((l.stext / 4096 <= v < l.etext / 4096) || (l.srodata / 4096 <= v < l.erodata
                    / 4096) || (l.sdata / 4096 <= v < l.edata / 4096) || (l.sbss / 4096 <= v
                    < l.ebss / 4096) || (l.ekernel / 4096 <= v < l.memory_end
                    / 4096)) implies #[trigger] ms.page_table.maps(v) by {
                assert(ms.covered(v)) by {
                    if l.stext / 4096 <= v < l.etext / 4096 {
                        assert((#[trigger] ms.areas@[0]).vpns.contains_vpn(v));
                    } else if l.srodata / 4096 <= v < l.erodata / 4096 {
                        assert((#[trigger] ms.areas@[1]).vpns.contains_vpn(v));
                    } else if l.sdata / 4096 <= v < l.edata / 4096 {
                        assert((#[trigger] ms.areas@[2]).vpns.contains_vpn(v));
                    } else if l.sbss / 4096 <= v < l.ebss / 4096 {
                        assert((#[trigger] ms.areas@[3]).vpns.contains_vpn(v));
                    } else {
                        assert((#[trigger] ms.areas@[4]).vpns.contains_vpn(v));
                    }
                }
            }
        }
        Some(ms)
    }
}


/// Push one identity-mapped kernel section. On success its pages map
/// to themselves with the given permissions, and everything already
/// mapped keeps its entries.
#[verifier::rlimit(100)]
fn push_kernel_section(
    ms: &mut MemorySet,
    start_va: u64,
    end_va: u64,
    perm: u8,
    allocator: &mut StackFrameAllocator,
) -> (r: bool)
    requires
        old(ms).wf(),
        old(allocator).wf(),
        start_va % 4096 == 0,
        end_va % 4096 == 0,
        start_va <= end_va,
        end_va < va_limit(),
        end_va / 4096 < TRAMPOLINE_VPN,
        forall|v: int| start_va / 4096 <= v < end_va / 4096 ==> !old(ms).covered(v),
    ensures
        final(ms).wf(),
        final(allocator).wf(),
        final(ms).trampoline_mapped == old(ms).trampoline_mapped,
        r ==> final(ms).areas@.len() == old(ms).areas@.len() + 1,
        r ==> forall|i: int|
            0 <= i < old(ms).areas@.len() ==> #[trigger] final(ms).areas@[i] == old(
                ms,
            ).areas@[i],
        r ==> final(ms).areas@.last().vpns.l.0 == start_va / 4096
            && final(ms).areas@.last().vpns.r.0 == end_va / 4096,
        !r ==> final(ms).areas@ == old(ms).areas@,
        r ==> forall|v: int|
            start_va / 4096 <= v < end_va / 4096 ==> #[trigger] final(ms).page_table.maps(v)
                && crate::page_table::spec_pte_flags(final(ms).page_table.leaf_bits(v)) == (perm
                | 1) && crate::page_table::spec_pte_ppn(final(ms).page_table.leaf_bits(v)) == v,
        r ==> forall|v: int|
            0 <= v < vpn_limit() && old(ms).page_table.maps(v)
                ==> #[trigger] final(ms).page_table.maps(v) && final(ms).page_table.leaf_bits(v)
                == old(ms).page_table.leaf_bits(v),
{
    proof {
        assert(start_va % 0x80_0000_0000u64 == start_va && end_va % 0x80_0000_0000u64 == end_va)
            by (nonlinear_arith)
            requires
                start_va <= end_va && end_va < 0x80_0000_0000,
        ;
        assert(start_va as int / 4096 <= end_va as int / 4096) by (nonlinear_arith)
            requires
                start_va <= end_va,
        ;
        assert((end_va as int + 4095) / 4096 == end_va as int / 4096) by (nonlinear_arith)
            requires
                end_va % 4096 == 0,
        ;
        assert(end_va as int / 4096 <= vpn_limit()) by (nonlinear_arith)
            requires
                end_va < 0x80_0000_0000,
        ;
    }
    let area = MemoryArea::new(
        VirtAddr::new(start_va),
        VirtAddr::new(end_va),
        MapType::Direct,
        perm,
    );
    let done = ms.push(area, None, allocator);
    proof {
        if done {
            assert forall|v: int|
                0 <= v < vpn_limit() && old(ms).page_table.maps(v) implies
                #[trigger] ms.page_table.maps(v) && ms.page_table.leaf_bits(v) == old(
                ms,
            ).page_table.leaf_bits(v) by {
                assert(old(ms).covered(v) || (old(ms).trampoline_mapped && v == TRAMPOLINE_VPN));
                if old(ms).covered(v) {
                    let i = choose|i: int|
                        0 <= i < old(ms).areas@.len() && (
                        #[trigger] old(ms).areas@[i]).vpns.contains_vpn(v);
                    assert(ms.areas@[i] == old(ms).areas@[i]);
                    assert((#[trigger] ms.areas@[i]).vpns.contains_vpn(v));
                    assert(ms.covered(v));
                }
                assert(ms.page_table.maps(v));
            }
        }
    }
    done
}

/// Page-aligned section boundaries floor and ceil to the same page.
proof fn lemma_aligned_ranges(l: KernelLayout)
    requires
        l.stext % 4096 == 0 && l.etext % 4096 == 0 && l.srodata % 4096 == 0 && l.erodata % 4096
            == 0 && l.sdata % 4096 == 0 && l.edata % 4096 == 0 && l.sbss % 4096 == 0 && l.ebss
            % 4096 == 0 && l.ekernel % 4096 == 0 && l.memory_end % 4096 == 0,
    ensures
        (l.stext as int + 4095) / 4096 == l.stext as int / 4096,
        (l.etext as int + 4095) / 4096 == l.etext as int / 4096,
        (l.srodata as int + 4095) / 4096 == l.srodata as int / 4096,
        (l.erodata as int + 4095) / 4096 == l.erodata as int / 4096,
        (l.sdata as int + 4095) / 4096 == l.sdata as int / 4096,
        (l.edata as int + 4095) / 4096 == l.edata as int / 4096,
        (l.sbss as int + 4095) / 4096 == l.sbss as int / 4096,
        (l.ebss as int + 4095) / 4096 == l.ebss as int / 4096,
        (l.ekernel as int + 4095) / 4096 == l.ekernel as int / 4096,
        (l.memory_end as int + 4095) / 4096 == l.memory_end as int / 4096,
{
    lemma_aligned_ceil(l.stext as int);
    lemma_aligned_ceil(l.etext as int);
    lemma_aligned_ceil(l.srodata as int);
    lemma_aligned_ceil(l.erodata as int);
    lemma_aligned_ceil(l.sdata as int);
    lemma_aligned_ceil(l.edata as int);
    lemma_aligned_ceil(l.sbss as int);
    lemma_aligned_ceil(l.ebss as int);
    lemma_aligned_ceil(l.ekernel as int);
    lemma_aligned_ceil(l.memory_end as int);
}

proof fn lemma_aligned_ceil(a: int)
    requires
        a % 4096 == 0,
        0 <= a,
    ensures
        (a + 4095) / 4096 == a / 4096,
{
    assert((a + 4095) / 4096 == a / 4096) by (nonlinear_arith)
        requires
            a % 4096 == 0 && 0 <= a,
    ;
}

/// The first `n` kernel sections lie strictly below the next section's
/// start page, so the next push is disjoint from everything mapped.
proof fn lemma_kernel_disjoint(ms: MemorySet, l: KernelLayout, n: int)
    requires
        ms.wf(),
        ms.areas@.len() == n,
        1 <= n <= 4,
        0 < l.stext <= l.etext <= l.srodata <= l.erodata <= l.sdata <= l.edata <= l.sbss <= l.ebss
            <= l.ekernel <= l.memory_end,
        n >= 1 ==> ms.areas@[0].vpns.l.0 as int == l.stext as int / 4096
            && ms.areas@[0].vpns.r.0 as int == (l.etext as int + 4095) / 4096,
        n >= 2 ==> ms.areas@[1].vpns.l.0 as int == l.srodata as int / 4096
            && ms.areas@[1].vpns.r.0 as int == (l.erodata as int + 4095) / 4096,
        n >= 3 ==> ms.areas@[2].vpns.l.0 as int == l.sdata as int / 4096
            && ms.areas@[2].vpns.r.0 as int == (l.edata as int + 4095) / 4096,
        n >= 4 ==> ms.areas@[3].vpns.l.0 as int == l.sbss as int / 4096
            && ms.areas@[3].vpns.r.0 as int == (l.ebss as int + 4095) / 4096,
        l.stext % 4096 == 0 && l.etext % 4096 == 0 && l.srodata % 4096 == 0 && l.erodata % 4096
            == 0 && l.sdata % 4096 == 0 && l.edata % 4096 == 0 && l.sbss % 4096 == 0 && l.ebss
            % 4096 == 0 && l.ekernel % 4096 == 0 && l.memory_end % 4096 == 0,
    ensures
        n == 1 ==> forall|v: int|
            l.srodata as int / 4096 <= v ==> !#[trigger] ms.covered(v),
        n == 2 ==> forall|v: int|
            l.sdata as int / 4096 <= v ==> !#[trigger] ms.covered(v),
        n == 3 ==> forall|v: int|
            l.sbss as int / 4096 <= v ==> !#[trigger] ms.covered(v),
        n == 4 ==> forall|v: int|
            l.ekernel as int / 4096 <= v ==> !#[trigger] ms.covered(v),
{
    lemma_aligned_ranges(l);
    assert(l.stext as int / 4096 <= l.etext as int / 4096 <= l.srodata as int / 4096
        <= l.erodata as int / 4096 <= l.sdata as int / 4096 <= l.edata as int / 4096
        <= l.sbss as int / 4096 <= l.ebss as int / 4096 <= l.ekernel as int / 4096
        <= l.memory_end as int / 4096) by (nonlinear_arith)
        requires
            0 < l.stext <= l.etext <= l.srodata <= l.erodata <= l.sdata <= l.edata <= l.sbss
                <= l.ebss <= l.ekernel <= l.memory_end,
    ;
}



impl MemorySet {
    /// Build a user address space from an ELF image: the trampoline,
    /// one framed area per loadable segment (user bit always set, R/W/X
    /// from the segment flags) holding the segment's bytes, a guard
    /// page, the user stack, and the trap context page just under the
    /// trampoline. Returns the space, the initial user stack pointer
    /// and the entry point; `None` on a bad image, overlapping
    /// segments, or an exhausted allocator.
    #[verifier::rlimit(100)]
    pub fn from_elf_data(
        data: &Vec<u8>,
        strampoline_ppn: PhysPageNumber,
        allocator: &mut StackFrameAllocator,
    ) -> (r: Option<(MemorySet, u64, u64)>)
        requires
            old(allocator).wf(),
            strampoline_ppn.0 < ppn_limit(),
        ensures
            final(allocator).wf(),
            r is Some ==> {
                let ms = r.unwrap().0;
                &&& crate::elf::spec_elf_magic(data@)
                &&& r.unwrap().2 as int == crate::bytes::le64_at(data@, 24)
                &&& ms.wf()
                &&& ms.trampoline_mapped
                &&& ms.page_table.maps(TRAMPOLINE_VPN as int - 1)
                &&& r.unwrap().1 % 4096 == 0
                &&& r.unwrap().1 >= 4096
                &&& ms.page_table.maps(r.unwrap().1 as int / 4096 - 1)
                &&& crate::page_table::spec_pte_flags(
                    ms.page_table.leaf_bits(r.unwrap().1 as int / 4096 - 1),
                ) == (MAP_PERM_R | MAP_PERM_W | MAP_PERM_U | 1)
            },
    {
        let parsed = crate::elf::parse_elf(data);
        let (segments, entry) = match parsed {
            None => {
                return None;
            },
            Some(t) => t,
        };
        let got = MemorySet::new_empty(allocator);
        let mut ms = match got {
            None => {
                return None;
            },
            Some(ms) => ms,
        };
        if !ms.map_trampoline(strampoline_ppn, allocator) {
            return None;
        }
        let mut max_end_vpn: u64 = 0;
        let n = segments.len();
        let mut i: usize = 0;
        while i < n
            invariant
                allocator.wf(),
                ms.wf(),
                ms.trampoline_mapped,
                n == segments@.len(),
                i <= n,
                max_end_vpn <= vpn_limit(),
            decreases n - i,
        {
            let seg = segments[i];
            if seg.mem_size > 0 {
                if seg.vaddr > u64::MAX - seg.mem_size {
                    return None;
                }
                let start_va = VirtAddr::new(seg.vaddr);
                let end_va = VirtAddr::new(seg.vaddr + seg.mem_size);
                if end_va.0 < start_va.0 {
                    return None;
                }
                let mut perm = MAP_PERM_U;
                if seg.flags & 4 != 0 {
                    perm = perm | MAP_PERM_R;
                }
                if seg.flags & 2 != 0 {
                    perm = perm | MAP_PERM_W;
                }
                if seg.flags & 1 != 0 {
                    perm = perm | MAP_PERM_X;
                }
                let area = MemoryArea::new(start_va, end_va, MapType::Framed, perm);
                let l = area.vpns.get_start();
                let r2 = area.vpns.get_end();
                proof {
                    assert(r2.0 <= vpn_limit()) by (nonlinear_arith)
                        requires
                            r2.0 as int == (end_va.0 + 4095) / 4096 && end_va.0
                                < 0x80_0000_0000,
                    ;
                }
                if !ms.range_is_free(l, r2) {
                    return None;
                }
                proof {
                    assert(!(l.0 <= TRAMPOLINE_VPN < r2.0)) by {
                        if l.0 <= TRAMPOLINE_VPN < r2.0 {
                            assert(ms.page_table.maps(TRAMPOLINE_VPN as int));
                        }
                    }
                    assert forall|v: int| area.vpns.contains_vpn(v) implies !ms.covered(v) by {
                        assert(!ms.page_table.maps(v));
                    }
                }
                if seg.file_size > seg.mem_size {
                    return None;
                }
                if seg.offset > data.len() as u64 || seg.file_size > data.len() as u64
                    - seg.offset {
                    return None;
                }
                let slice = crate::block_dev::clone_range(
                    data,
                    seg.offset as usize,
                    seg.file_size as usize,
                );
                if !ms.push(area, Some(&slice), allocator) {
                    return None;
                }
                if r2.0 > max_end_vpn {
                    max_end_vpn = r2.0;
                }
            }
            i = i + 1;
        }
        // guard page, then the user stack
        if max_end_vpn >= TRAMPOLINE_VPN - 4 {
            return None;
        }
        let stack_bottom_vpn = max_end_vpn + 1;
        let stack_top_vpn = stack_bottom_vpn + USER_STACK_SIZE / 4096;
        let stack_area = MemoryArea {
            vpns: SimpleRange::new(
                VirtPageNumber(stack_bottom_vpn),
                VirtPageNumber(stack_top_vpn),
            ),
            map_type: MapType::Framed,
            map_perm: MAP_PERM_R | MAP_PERM_W | MAP_PERM_U,
            frames: Vec::new(),
        };
        if !ms.range_is_free(VirtPageNumber(stack_bottom_vpn), VirtPageNumber(stack_top_vpn)) {
            return None;
        }
        proof {
            assert forall|v: int| stack_area.vpns.contains_vpn(v) implies !ms.covered(v) by {
                assert(!ms.page_table.maps(v));
            }
        }
        if !ms.push(stack_area, None, allocator) {
            return None;
        }
        let ghost msstk = ms;
        proof {
            assert(stack_area.vpns.l.0 <= stack_top_vpn - 1 < stack_area.vpns.r.0);
            assert(msstk.page_table.maps(stack_top_vpn as int - 1));
            assert(((MAP_PERM_R | MAP_PERM_W | MAP_PERM_U) | 1) == 23u8) by (bit_vector);
            assert((MAP_PERM_R | MAP_PERM_W | MAP_PERM_U | 1) == 23u8) by (bit_vector);
            assert(crate::page_table::spec_pte_flags(
                msstk.page_table.leaf_bits(stack_top_vpn as int - 1),
            ) == (MAP_PERM_R | MAP_PERM_W | MAP_PERM_U | 1));
        }
        // the trap context page, just under the trampoline
        let trap_vpn = TRAMPOLINE_VPN - 1;
        let trap_area = MemoryArea {
            vpns: SimpleRange::new(VirtPageNumber(trap_vpn), VirtPageNumber(TRAMPOLINE_VPN)),
            map_type: MapType::Framed,
            map_perm: MAP_PERM_R | MAP_PERM_W,
            frames: Vec::new(),
        };
        if !ms.range_is_free(VirtPageNumber(trap_vpn), VirtPageNumber(TRAMPOLINE_VPN)) {
            return None;
        }
        proof {
            assert forall|v: int| trap_area.vpns.contains_vpn(v) implies !ms.covered(v) by {
                assert(!ms.page_table.maps(v));
            }
        }
        if !ms.push(trap_area, None, allocator) {
            return None;
        }
        proof {
            assert(ms.covered(TRAMPOLINE_VPN as int - 1)) by {
                assert(ms.areas@.last().vpns.contains_vpn(TRAMPOLINE_VPN as int - 1));
            }
            // the stack page's entry survived the one push after it
            assert(ms.covered(stack_top_vpn as int - 1)) by {
                assert(msstk.areas@.len() >= 1);
                assert(ms.areas@[msstk.areas@.len() - 1] == msstk.areas@[msstk.areas@.len() - 1]);
                assert((#[trigger] ms.areas@[msstk.areas@.len() - 1]).vpns.contains_vpn(
                    stack_top_vpn as int - 1,
                ));
            }
            assert(ms.page_table.maps(stack_top_vpn as int - 1));
            assert(ms.page_table.leaf_bits(stack_top_vpn as int - 1)
                == msstk.page_table.leaf_bits(stack_top_vpn as int - 1));
        }
        let user_sp = stack_top_vpn * 4096;
        proof {
            assert(stack_top_vpn * 4096 % 4096 == 0) by (nonlinear_arith);
            assert(user_sp as int / 4096 == stack_top_vpn) by (nonlinear_arith)
                requires
                    user_sp == stack_top_vpn * 4096 && stack_top_vpn < 0x800_0000,
            ;
        }
        Some((ms, user_sp, entry))
    }
}

} // verus!
