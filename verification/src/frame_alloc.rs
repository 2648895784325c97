//! The physical frame allocator.
//!
//! A stack allocator over `[current, end)`: allocation pops a recycled
//! page if one exists, else bumps the cursor. A page number is free
//! exactly when it is recycled or not yet handed out; freeing a page
//! that was never handed out, or freeing it twice, is refused.
use vstd::prelude::*;
use crate::addr::{PhysAddr, PhysPageNumber};

verus! {

/// Stack-shaped allocator of physical page frames.
pub struct StackFrameAllocator {
    pub current: u64,
    pub end: u64,
    pub recycled: Vec<u64>,
}

/// Ownership handle of one allocated frame; the page's contents are
/// modelled beside it, zeroed on acquisition.
pub struct FrameTracker {
    pub ppn: PhysPageNumber,
    pub data: Vec<u8>,
}

impl StackFrameAllocator {
    /// No recycled entry repeats, and all lie below the cursor.
    pub open spec fn wf(self) -> bool {
        &&& forall|i: int|
            0 <= i < self.recycled@.len() ==> (#[trigger] self.recycled@[i]) < self.current
        &&& forall|i: int, j: int|
            0 <= i < j < self.recycled@.len() ==> self.recycled@[i] != self.recycled@[j]
        &&& self.current <= self.end
    }

    /// Pages still available: recycled ones plus the untouched tail.
    pub open spec fn spec_free_count(self) -> int {
        self.recycled@.len() + (self.end - self.current)
    }

    pub fn new() -> (r: Self)
        ensures
            r.wf(),
            r.current == 0,
            r.end == 0,
            r.recycled@.len() == 0,
    {
        Self { current: 0, end: 0, recycled: Vec::new() }
    }

    /// Hand the allocator the page range `[low, high)`.
    pub fn init(&mut self, low: PhysPageNumber, high: PhysPageNumber)
        requires
            old(self).recycled@.len() == 0,
            low.0 <= high.0,
        ensures
            final(self).wf(),
            final(self).current == low.0,
            final(self).end == high.0,
            final(self).recycled@.len() == 0,
    {
        self.current = low.0;
        self.end = high.0;
    }

    /// Pop a recycled page, else bump the cursor; `None` when no page
    /// is left.
    pub fn allocate(&mut self) -> (r: Option<PhysPageNumber>)
        requires
            old(self).wf(),
        ensures
            final(self).wf(),
            final(self).end == old(self).end,
            match r {
                None => old(self).spec_free_count() == 0 && final(self).recycled@ == old(
                    self,
                ).recycled@ && final(self).current == old(self).current,
                Some(ppn) => {
                    &&& final(self).spec_free_count() == old(self).spec_free_count() - 1
                    &&& if old(self).recycled@.len() > 0 {
                        ppn.0 == old(self).recycled@.last() && final(self).recycled@ == old(
                            self,
                        ).recycled@.drop_last() && final(self).current == old(self).current
                    } else {
                        ppn.0 == old(self).current && final(self).current == old(self).current + 1
                    }
                },
            },
    {
        let got = self.recycled.pop();
        match got {
            Some(ppn) => Some(PhysPageNumber(ppn)),
            None => {
                if self.current == self.end {
                    None
                } else {
                    let ppn = self.current;
                    self.current = self.current + 1;
                    Some(PhysPageNumber(ppn))
                }
            },
        }
    }

    /// Recycle `ppn`. It must have been handed out and not be free
    /// already.
    pub fn dealloc(&mut self, ppn: PhysPageNumber)
        requires
            old(self).wf(),
            ppn.0 < old(self).current,
            forall|i: int| 0 <= i < old(self).recycled@.len() ==> old(self).recycled@[i] != ppn.0,
        ensures
            final(self).wf(),
            final(self).current == old(self).current,
            final(self).end == old(self).end,
            final(self).recycled@ == old(self).recycled@.push(ppn.0),
            final(self).spec_free_count() == old(self).spec_free_count() + 1,
    {
        self.recycled.push(ppn.0);
    }

    /// Whether `ppn` is currently in the recycled list.
    pub fn is_recycled(&self, ppn: PhysPageNumber) -> (r: bool)
        ensures
            r == exists|i: int|
                0 <= i < self.recycled@.len() && #[trigger] self.recycled@[i] == ppn.0,
    {
        let mut i: usize = 0;
        while i < self.recycled.len()
            invariant
                i <= self.recycled@.len(),
                forall|j: int| 0 <= j < i ==> #[trigger] self.recycled@[j] != ppn.0,
            decreases self.recycled@.len() - i,
        {
            if self.recycled[i] == ppn.0 {
                return true;
            }
            i = i + 1;
        }
        false
    }
}

impl FrameTracker {
    /// Take ownership of `ppn` with its page zeroed.
    pub fn new(ppn: PhysPageNumber) -> (r: Self)
        ensures
            r.ppn == ppn,
            r.data@.len() == 4096,
            forall|i: int| 0 <= i < 4096 ==> #[trigger] r.data@[i] == 0u8,
    {
        let mut data: Vec<u8> = Vec::new();
        let mut i: usize = 0;
        while i < 4096
            invariant
                i <= 4096,
                data@.len() == i,
                forall|j: int| 0 <= j < i ==> #[trigger] data@[j] == 0u8,
            decreases 4096 - i,
        {
            data.push(0u8);
            i = i + 1;
        }
        FrameTracker { ppn, data }
    }
}

/// Allocate a frame and wrap it in a zeroed tracker.
pub fn alloc_frame(allocator: &mut StackFrameAllocator) -> (r: Option<FrameTracker>)
    requires
        old(allocator).wf(),
    ensures
        final(allocator).wf(),
        final(allocator).end == old(allocator).end,
        r is None <==> old(allocator).spec_free_count() == 0,
        r is Some ==> final(allocator).spec_free_count() == old(allocator).spec_free_count() - 1
            && r.unwrap().data@.len() == 4096 && (forall|i: int|
            0 <= i < 4096 ==> #[trigger] r.unwrap().data@[i] == 0u8),
        r is Some ==> r.unwrap().ppn.0 == (if old(allocator).recycled@.len() > 0 {
            old(allocator).recycled@.last()
        } else {
            old(allocator).current
        }),
        r is Some ==> r.unwrap().ppn.0 < old(allocator).end,
{
    let got = allocator.allocate();
    match got {
        None => None,
        Some(ppn) => Some(FrameTracker::new(ppn)),
    }
}

/// Return a frame's page to the allocator.
pub fn dealloc_frame(allocator: &mut StackFrameAllocator, ppn: PhysPageNumber)
    requires
        old(allocator).wf(),
        ppn.0 < old(allocator).current,
        forall|i: int|
            0 <= i < old(allocator).recycled@.len() ==> old(allocator).recycled@[i] != ppn.0,
    ensures
        final(allocator).wf(),
        final(allocator).spec_free_count() == old(allocator).spec_free_count() + 1,
{
    allocator.dealloc(ppn);
}

/// Build the frame allocator over the physical pages between the end of
/// the kernel image and the end of memory.
pub fn init_frame_allocator(allocator: &mut StackFrameAllocator, ekernel: u64, memory_end: u64) -> (
    r: bool)
    requires
        old(allocator).recycled@.len() == 0,
    ensures
        r ==> final(allocator).wf(),
        r == (ekernel < crate::addr::pa_limit() && memory_end < crate::addr::pa_limit() && (
        ekernel + 4095) / 4096 <= memory_end / 4096),
        r ==> final(allocator).current as int == (ekernel + 4095) / 4096,
        r ==> final(allocator).end as int == memory_end / 4096,
{
    if ekernel >= 0x100_0000_0000_0000 || memory_end >= 0x100_0000_0000_0000 {
        return false;
    }
    let start = PhysAddr::new(ekernel).ceil();
    let end = PhysAddr::new(memory_end).floor();
    proof {
        assert(ekernel % 0x100_0000_0000_0000u64 == ekernel) by (bit_vector)
            requires
                ekernel < 0x100_0000_0000_0000u64,
        ;
        assert(memory_end % 0x100_0000_0000_0000u64 == memory_end) by (bit_vector)
            requires
                memory_end < 0x100_0000_0000_0000u64,
        ;
    }
    if start.0 > end.0 {
        return false;
    }
    allocator.init(start, end);
    true
}

} // verus!
