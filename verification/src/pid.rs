//! Process identifiers and their kernel stacks.
//!
//! Pids come from a stack allocator like the frame allocator's. Each
//! pid owns a kernel stack mapped just under the trampoline, one guard
//! page between neighbours.
use vstd::prelude::*;
use crate::addr::{PAGE_SIZE, TRAMPOLINE};

verus! {

/// Kernel and user stacks are both 8 KiB.
pub const USER_STACK_SIZE: u64 = 8192;

pub const KERNEL_STACK_SIZE: u64 = 8192;

/// Highest pid, exclusive.
pub const PID_LIMIT: u64 = 1024;

/// An allocated process identifier.
#[derive(Clone, Copy, PartialEq, Eq, Structural, Debug)]
pub struct PIDHandle(pub u64);

/// Stack allocator of pids over `[current, end)` with a recycled list.
pub struct PIDAllocator {
    pub current: u64,
    pub end: u64,
    pub recycled: Vec<u64>,
}

impl PIDAllocator {
    pub open spec fn wf(self) -> bool {
        &&& forall|i: int|
            0 <= i < self.recycled@.len() ==> (#[trigger] self.recycled@[i]) < self.current
        &&& forall|i: int, j: int|
            0 <= i < j < self.recycled@.len() ==> self.recycled@[i] != self.recycled@[j]
        &&& self.current <= self.end
    }

    pub fn new(start: u64, end: u64) -> (r: Self)
        requires
            start < end,
        ensures
            r.wf(),
            r.current == start,
            r.end == end,
            r.recycled@.len() == 0,
    {
        PIDAllocator { current: start, end, recycled: Vec::new() }
    }

    /// Pop a recycled pid, else bump the cursor; `None` when the range
    /// is exhausted.
    pub fn allocate(&mut self) -> (r: Option<PIDHandle>)
        requires
            old(self).wf(),
        ensures
            final(self).wf(),
            final(self).end == old(self).end,
            match r {
                None => final(self).recycled@ == old(self).recycled@ && final(self).current
                    == old(self).current && old(self).recycled@.len() == 0 && old(self).current
                    == old(self).end,
                Some(h) => if old(self).recycled@.len() > 0 {
                    h.0 == old(self).recycled@.last() && final(self).recycled@ == old(
                        self,
                    ).recycled@.drop_last() && final(self).current == old(self).current
                } else {
                    h.0 == old(self).current && final(self).current == old(self).current + 1
                },
            },
    {
        let got = self.recycled.pop();
        match got {
            Some(pid) => Some(PIDHandle(pid)),
            None => {
                if self.current == self.end {
                    None
                } else {
                    let pid = self.current;
                    self.current = self.current + 1;
                    Some(PIDHandle(pid))
                }
            },
        }
    }

    /// Recycle `pid`.
    pub fn dealloc(&mut self, pid: u64)
        requires
            old(self).wf(),
            pid < old(self).current,
            forall|i: int| 0 <= i < old(self).recycled@.len() ==> old(self).recycled@[i] != pid,
        ensures
            final(self).wf(),
            final(self).recycled@ == old(self).recycled@.push(pid),
            final(self).current == old(self).current,
            final(self).end == old(self).end,
    {
        self.recycled.push(pid);
    }
}

/// Allocate a fresh pid.
pub fn alloc_pid(allocator: &mut PIDAllocator) -> (r: Option<PIDHandle>)
    requires
        old(allocator).wf(),
    ensures
        final(allocator).wf(),
        r is None ==> old(allocator).recycled@.len() == 0 && old(allocator).current == old(
            allocator,
        ).end,
        r is Some ==> r.unwrap().0 < old(allocator).end,
        final(allocator).end == old(allocator).end,
{
    allocator.allocate()
}

/// Bottom and top of the kernel stack of `pid`: stacked downward from
/// the trampoline, one guard page between neighbours.
pub fn kernel_stack_position(pid: u64) -> (r: (u64, u64))
    requires
        pid < PID_LIMIT,
    ensures
        r.1 == TRAMPOLINE - pid * (KERNEL_STACK_SIZE + PAGE_SIZE),
        r.0 == r.1 - KERNEL_STACK_SIZE,
        r.0 < r.1,
{
    proof {
        assert(pid * (KERNEL_STACK_SIZE + PAGE_SIZE) <= 1024 * 12288) by (nonlinear_arith)
            requires
                pid < 1024,
        ;
    }
    let top = TRAMPOLINE - pid * (KERNEL_STACK_SIZE + PAGE_SIZE);
    let bottom = top - KERNEL_STACK_SIZE;
    (bottom, top)
}

} // verus!
