//! Processes: trap and switch contexts, control blocks, the ready
//! queue, and the syscall and trap decision logic.
//!
//! The kernel state is one aggregate: allocators, the kernel address
//! space, the process table, the FIFO ready queue, and the processor
//! slot. The context-switch and trap stubs themselves are assembly and
//! stay outside; everything here computes the next state and says which
//! action the stub layer must take.
use vstd::prelude::*;
use std::collections::VecDeque;
use crate::addr::{PhysPageNumber, TIME_FREQUENCY};
use crate::frame_alloc::StackFrameAllocator;
use crate::memory_set::{MemoryArea, MemorySet, MapType, MAP_PERM_R, MAP_PERM_W, TRAMPOLINE_VPN};
use crate::pid::{alloc_pid, kernel_stack_position, PIDAllocator, PIDHandle, PID_LIMIT};

verus! {

/// Timer ticks per second of scheduling.
pub const TICK_PER_SECOND: u64 = 100;

/// The saved user state: all integer registers plus the control values
/// the kernel needs to come back in.
pub struct TrapContext {
    pub x: Vec<u64>,
    pub sstatus: u64,
    pub sepc: u64,
    pub kernel_satp: u64,
    pub kernel_sp: u64,
    pub trap_handler: u64,
}

impl TrapContext {
    pub open spec fn wf(self) -> bool {
        self.x@.len() == 32
    }

    /// Whether the register file has its full width.
    pub fn wf_exec(&self) -> (r: bool)
        ensures
            r == self.wf(),
    {
        self.x.len() == 32
    }

    /// Store the user stack pointer in register x2.
    pub fn set_sp(&mut self, sp: u64)
        requires
            old(self).wf(),
        ensures
            final(self).wf(),
            final(self).x@ == old(self).x@.update(2, sp),
            final(self).sepc == old(self).sepc,
            final(self).sstatus == old(self).sstatus,
            final(self).kernel_satp == old(self).kernel_satp,
            final(self).kernel_sp == old(self).kernel_sp,
            final(self).trap_handler == old(self).trap_handler,
    {
        self.x.set(2, sp);
    }

    /// The context a fresh task starts from: zero registers but the
    /// user stack pointer, the entry point in `sepc`, user mode in
    /// `sstatus`, and the kernel's return path.
    pub fn task_init_context(
        app_entry: u64,
        user_sp: u64,
        kernel_sp: u64,
        kernel_satp: u64,
        trap_handler: u64,
        sstatus: u64,
    ) -> (r: Self)
        ensures
            r.wf(),
            r.sepc == app_entry,
            r.x@[2] == user_sp,
            forall|i: int| 0 <= i < 32 && i != 2 ==> #[trigger] r.x@[i] == 0u64,
            r.sstatus == sstatus & 0xffff_ffff_ffff_feff,
            r.kernel_satp == kernel_satp,
            r.kernel_sp == kernel_sp,
            r.trap_handler == trap_handler,
    {
        let mut x: Vec<u64> = Vec::new();
        let mut i: usize = 0;
        while i < 32
            invariant
                i <= 32,
                x@.len() == i,
                forall|j: int| 0 <= j < i ==> #[trigger] x@[j] == 0u64,
            decreases 32 - i,
        {
            x.push(0u64);
            i = i + 1;
        }
        let mut ctx = TrapContext {
            x,
            // the SPP bit cleared: the task returns to user mode
            sstatus: sstatus & 0xffff_ffff_ffff_feff,
            sepc: app_entry,
            kernel_satp,
            kernel_sp,
            trap_handler,
        };
        ctx.set_sp(user_sp);
        ctx
    }
}

/// The callee-saved state a kernel-side switch preserves.
pub struct ProcessContext {
    pub ra: u64,
    pub sp: u64,
    pub s: Vec<u64>,
}

impl ProcessContext {
    pub fn new_empty_ctx() -> (r: Self)
        ensures
            r.ra == 0,
            r.sp == 0,
            r.s@.len() == 12,
    {
        let mut s: Vec<u64> = Vec::new();
        let mut i: usize = 0;
        while i < 12
            invariant
                i <= 12,
                s@.len() == i,
            decreases 12 - i,
        {
            s.push(0u64);
            i = i + 1;
        }
        ProcessContext { ra: 0, sp: 0, s }
    }

    /// A context that resumes at the trap-return stub on the given
    /// kernel stack.
    pub fn trap_return_context(trap_return_va: u64, kernel_stack_sp: u64) -> (r: Self)
        ensures
            r.ra == trap_return_va,
            r.sp == kernel_stack_sp,
            r.s@.len() == 12,
    {
        let mut r = Self::new_empty_ctx();
        r.ra = trap_return_va;
        r.sp = kernel_stack_sp;
        r
    }
}

#[derive(Clone, Copy, PartialEq, Eq, Structural, Debug)]
pub enum ProcessStatus {
    New,
    Ready,
    Running,
    Exited,
    Zombie,
}

/// One process: identity, kernel stack, saved contexts, address space,
/// family links and status.
pub struct ProcessControlBlock {
    pub pid: PIDHandle,
    pub kernel_stack_top: u64,
    pub trap_ctx: TrapContext,
    pub proc_context: ProcessContext,
    pub memory_set: MemorySet,
    pub parent: Option<u64>,
    pub children: Vec<u64>,
    pub exit_code: i64,
    pub status: ProcessStatus,
    pub base_size: u64,
}

impl ProcessControlBlock {
    pub open spec fn wf(self) -> bool {
        &&& self.trap_ctx.wf()
        &&& self.memory_set.wf()
    }

    pub fn get_pid(&self) -> (r: u64)
        ensures
            r == self.pid.0,
    {
        self.pid.0
    }

    pub fn get_status(&self) -> (r: ProcessStatus)
        ensures
            r == self.status,
    {
        self.status
    }

    /// The satp word naming this process's address space.
    pub fn user_space_satp(&self) -> (r: u64)
        ensures
            r == (8u64 << 60) | self.memory_set.page_table.root_ppn.0,
    {
        self.memory_set.page_table.satp_value()
    }

    /// Build a fresh process from an ELF image: its address space, a
    /// pid, its kernel stack mapped into the kernel space, and an
    /// initial trap context pointing at the entry.
    #[verifier::rlimit(100)]
    pub fn new(
        elf_data: &Vec<u8>,
        strampoline_ppn: PhysPageNumber,
        frame_allocator: &mut StackFrameAllocator,
        pid_allocator: &mut PIDAllocator,
        kernel_space: &mut MemorySet,
        kernel_satp: u64,
        trap_handler_va: u64,
        trap_return_va: u64,
        sstatus: u64,
    ) -> (r: Option<Self>)
        requires
            old(frame_allocator).wf(),
            old(pid_allocator).wf(),
            old(kernel_space).wf(),
            old(pid_allocator).end <= PID_LIMIT,
            strampoline_ppn.0 < crate::addr::ppn_limit(),
        ensures
            final(frame_allocator).wf(),
            final(pid_allocator).wf(),
            final(pid_allocator).end == old(pid_allocator).end,
            final(kernel_space).wf(),
            r is Some ==> {
                let p = r.unwrap();
                &&& p.wf()
                &&& p.status is Ready
                &&& p.children@.len() == 0
                &&& p.parent is None
                &&& p.trap_ctx.sepc as int == crate::bytes::le64_at(elf_data@, 24)
                &&& p.trap_ctx.x@[2] % 4096 == 0
                &&& p.proc_context.ra == trap_return_va
                &&& p.proc_context.sp == p.kernel_stack_top
                &&& p.memory_set.page_table.maps(TRAMPOLINE_VPN as int - 1)
            },
    {
        let built = MemorySet::from_elf_data(elf_data, strampoline_ppn, frame_allocator);
        let (memory_set, user_sp, entry) = match built {
            None => {
                return None;
            },
            Some(t) => t,
        };
        let got = alloc_pid(pid_allocator);
        let pid = match got {
            None => {
                return None;
            },
            Some(h) => h,
        };
        let (stack_bottom, stack_top) = kernel_stack_position(pid.0);
        if !Self::map_kernel_stack(stack_bottom, stack_top, kernel_space, frame_allocator) {
            return None;
        }
        let trap_ctx = TrapContext::task_init_context(
            entry,
            user_sp,
            stack_top,
            kernel_satp,
            trap_handler_va,
            sstatus,
        );
        let base_size = elf_data.len() as u64;
        Some(
            ProcessControlBlock {
                pid,
                kernel_stack_top: stack_top,
                trap_ctx,
                proc_context: ProcessContext::trap_return_context(trap_return_va, stack_top),
                memory_set,
                parent: None,
                children: Vec::new(),
                exit_code: 0,
                status: ProcessStatus::Ready,
                base_size,
            },
        )
    }

    /// Map the pages of one kernel stack into the kernel space.
    fn map_kernel_stack(
        stack_bottom: u64,
        stack_top: u64,
        kernel_space: &mut MemorySet,
        frame_allocator: &mut StackFrameAllocator,
    ) -> (r: bool)
        requires
            old(kernel_space).wf(),
            old(frame_allocator).wf(),
            stack_bottom < stack_top,
        ensures
            final(kernel_space).wf(),
            final(frame_allocator).wf(),
    {
        let bottom_va = crate::addr::VirtAddr::new(stack_bottom);
        let top_va = crate::addr::VirtAddr::new(stack_top);
        if top_va.0 <= bottom_va.0 {
            return false;
        }
        let area = MemoryArea::new(
            bottom_va,
            top_va,
            MapType::Framed,
            MAP_PERM_R | MAP_PERM_W,
        );
        let l = area.vpns.get_start();
        let r2 = area.vpns.get_end();
        proof {
            assert(r2.0 <= crate::addr::vpn_limit()) by (nonlinear_arith)
                requires
                    r2.0 as int == (top_va.0 + 4095) / 4096 && top_va.0 < 0x80_0000_0000,
            ;
        }
        if !kernel_space.range_is_free(l, r2) {
            return false;
        }
        if l.0 <= TRAMPOLINE_VPN && TRAMPOLINE_VPN < r2.0 {
            return false;
        }
        proof {
            assert forall|v: int| area.vpns.contains_vpn(v) implies !kernel_space.covered(v) by {
                assert(!kernel_space.page_table.maps(v));
            }
        }
        kernel_space.push(area, None, frame_allocator)
    }

    /// Fork: a child with a deep copy of the address space, a fresh pid
    /// and kernel stack, the same saved user state, and no children.
    #[verifier::rlimit(100)]
    pub fn fork(
        &self,
        frame_allocator: &mut StackFrameAllocator,
        pid_allocator: &mut PIDAllocator,
        kernel_space: &mut MemorySet,
        trap_return_va: u64,
    ) -> (r: Option<Self>)
        requires
            old(frame_allocator).wf(),
            old(pid_allocator).wf(),
            old(kernel_space).wf(),
            old(pid_allocator).end <= PID_LIMIT,
            self.wf(),
        ensures
            final(frame_allocator).wf(),
            final(pid_allocator).wf(),
            final(pid_allocator).end == old(pid_allocator).end,
            final(kernel_space).wf(),
            r is Some ==> {
                let c = r.unwrap();
                &&& c.wf()
                &&& c.status is Ready
                &&& c.children@.len() == 0
                &&& c.parent == Some(self.pid.0)
                &&& c.trap_ctx.sepc == self.trap_ctx.sepc
                &&& c.trap_ctx.x@ == self.trap_ctx.x@
                &&& c.memory_set.areas@.len() == self.memory_set.areas@.len()
                &&& forall|i: int|
                    0 <= i < self.memory_set.areas@.len() ==> #[trigger] c.memory_set.areas@[i].vpns
                        == self.memory_set.areas@[i].vpns
                &&& forall|v: int|
                    0 <= v < crate::addr::vpn_limit() ==> (#[trigger] c.memory_set.page_table.maps(
                        v,
                    ) == self.memory_set.page_table.maps(v))
                &&& forall|i: int, j: int, b: int|
                    0 <= i < self.memory_set.areas@.len() && self.memory_set.areas@[i].map_type
                        is Framed && 0 <= j < self.memory_set.areas@[i].frames@.len()
                        && self.memory_set.areas@[i].frames@[j].data@.len() == 4096 && 0 <= b < 4096
                        ==> #[trigger] c.memory_set.areas@[i].frames@[j].data@[b]
                        == self.memory_set.areas@[i].frames@[j].data@[b]
            },
    {
        let built = MemorySet::from_existing(&self.memory_set, frame_allocator);
        let memory_set = match built {
            None => {
                return None;
            },
            Some(ms) => ms,
        };
        let got = alloc_pid(pid_allocator);
        let pid = match got {
            None => {
                return None;
            },
            Some(h) => h,
        };
        let (stack_bottom, stack_top) = kernel_stack_position(pid.0);
        if !Self::map_kernel_stack(stack_bottom, stack_top, kernel_space, frame_allocator) {
            return None;
        }
        let trap_ctx = TrapContext {
            x: clone_words(&self.trap_ctx.x),
            sstatus: self.trap_ctx.sstatus,
            sepc: self.trap_ctx.sepc,
            kernel_satp: self.trap_ctx.kernel_satp,
            // the child's own kernel stack
            kernel_sp: stack_top,
            trap_handler: self.trap_ctx.trap_handler,
        };
        Some(
            ProcessControlBlock {
                pid,
                kernel_stack_top: stack_top,
                trap_ctx,
                proc_context: ProcessContext::trap_return_context(trap_return_va, stack_top),
                memory_set,
                parent: Some(self.pid.0),
                children: Vec::new(),
                exit_code: 0,
                status: ProcessStatus::Ready,
                base_size: self.base_size,
            },
        )
    }

    /// Exec: replace the address space and trap context with ones built
    /// from a new image; the pid and kernel stack stay.
    pub fn exec(
        &mut self,
        elf_data: &Vec<u8>,
        strampoline_ppn: PhysPageNumber,
        frame_allocator: &mut StackFrameAllocator,
        kernel_satp: u64,
        trap_handler_va: u64,
        sstatus: u64,
    ) -> (r: bool)
        requires
            old(frame_allocator).wf(),
            old(self).wf(),
            old(self).trap_ctx.wf(),
            strampoline_ppn.0 < crate::addr::ppn_limit(),
        ensures
            final(frame_allocator).wf(),
            final(self).wf(),
            final(self).pid == old(self).pid,
            final(self).kernel_stack_top == old(self).kernel_stack_top,
            r ==> final(self).trap_ctx.sepc as int == crate::bytes::le64_at(elf_data@, 24),
            !r ==> *final(self) == *old(self),
    {
        let built = MemorySet::from_elf_data(elf_data, strampoline_ppn, frame_allocator);
        let (memory_set, user_sp, entry) = match built {
            None => {
                return false;
            },
            Some(t) => t,
        };
        self.memory_set = memory_set;
        self.trap_ctx = TrapContext::task_init_context(
            entry,
            user_sp,
            self.kernel_stack_top,
            kernel_satp,
            trap_handler_va,
            sstatus,
        );
        true
    }
}

/// Copy of a register vector.
pub fn clone_words(src: &Vec<u64>) -> (r: Vec<u64>)
    ensures
        r@ == src@,
{
    let mut r: Vec<u64> = Vec::new();
    let mut j: usize = 0;
    while j < src.len()
        invariant
            j <= src@.len(),
            r@ == src@.subrange(0, j as int),
        decreases src@.len() - j,
    {
        r.push(src[j]);
        proof {
            assert(r@ =~= src@.subrange(0, j as int + 1));
        }
        j = j + 1;
    }
    proof {
        assert(r@ =~= src@);
    }
    r
}

/// The FIFO ready queue of pids.
pub struct ProcessManager {
    pub queue: VecDeque<u64>,
}

impl ProcessManager {
    pub fn new() -> (r: Self)
        ensures
            r.queue@.len() == 0,
    {
        ProcessManager { queue: VecDeque::new() }
    }

    /// Enqueue a runnable process at the back.
    pub fn push(&mut self, pid: u64)
        ensures
            final(self).queue@ == old(self).queue@.push(pid),
    {
        self.queue.push_back(pid);
    }

    /// Dequeue the process that has waited longest.
    pub fn pop(&mut self) -> (r: Option<u64>)
        ensures
            old(self).queue@.len() == 0 ==> r is None && final(self).queue@ == old(self).queue@,
            old(self).queue@.len() > 0 ==> r == Some(old(self).queue@[0]) && final(self).queue@
                == old(self).queue@.drop_first(),
    {
        self.queue.pop_front()
    }
}

/// The processor slot: which process runs now, and the idle context
/// the scheduler pivots through.
pub struct Processor {
    pub current: Option<u64>,
    pub idle_context: ProcessContext,
}

impl Processor {
    pub fn new() -> (r: Self)
        ensures
            r.current is None,
    {
        Processor { current: None, idle_context: ProcessContext::new_empty_ctx() }
    }

    /// Take the running process out of the slot.
    pub fn take_current(&mut self) -> (r: Option<u64>)
        ensures
            r == old(self).current,
            final(self).current is None,
            final(self).idle_context == old(self).idle_context,
    {
        let c = self.current;
        self.current = None;
        c
    }

    /// The running process, if any.
    pub fn current(&self) -> (r: Option<u64>)
        ensures
            r == self.current,
    {
        self.current
    }
}

/// One rotation of a round-robin queue: the front goes to the back.
pub open spec fn rotate(q: Seq<u64>) -> Seq<u64> {
    q.drop_first().push(q[0])
}

/// `n` rotations.
pub open spec fn rotate_n(q: Seq<u64>, n: int) -> Seq<u64>
    decreases n,
{
    if n <= 0 {
        q
    } else {
        rotate_n(rotate(q), n - 1)
    }
}

/// Round-robin fairness: whatever position a ready process holds, that
/// many suspend-and-requeue rounds bring it to the front, so a bounded
/// queue of yielding processes runs every one of them.
pub proof fn lemma_round_robin_fairness(q: Seq<u64>, k: int)
    requires
        0 <= k < q.len(),
    ensures
        rotate_n(q, k).len() == q.len(),
        rotate_n(q, k)[0] == q[k],
    decreases k,
{
    if k > 0 {
        lemma_round_robin_fairness(rotate(q), k - 1);
        assert(rotate(q)[k - 1] == q[k]);
    }
}

/// The timer deadline after one more tick.
pub fn set_next_time_trigger(now: u64) -> (r: u64)
    requires
        now <= u64::MAX - TIME_FREQUENCY,
    ensures
        r == now + TIME_FREQUENCY / TICK_PER_SECOND,
{
    now + TIME_FREQUENCY / TICK_PER_SECOND
}

/// Milliseconds on the platform clock.
pub fn get_time_ms(cycles: u64) -> (r: u64)
    ensures
        r == cycles / (TIME_FREQUENCY / 1000),
{
    cycles / (TIME_FREQUENCY / 1000)
}

} // verus!
