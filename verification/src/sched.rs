//! The kernel's state machine: scheduling, syscalls and trap dispatch.
//!
//! Everything the kernel decides is a function from the kernel state
//! and the trap cause to the next state and an action. The stub layer
//! around it performs the action: a context switch, a console byte, a
//! timer write, or a shutdown.
use vstd::prelude::*;
use crate::addr::PhysPageNumber;
use crate::frame_alloc::StackFrameAllocator;
use crate::memory_set::MemorySet;
use crate::pid::{PIDAllocator, PID_LIMIT};
use crate::proc::{get_time_ms, ProcessControlBlock, ProcessManager, ProcessStatus, Processor};

verus! {

pub const SYS_CALL_READ: u64 = 63;

pub const SYS_CALL_WRITE: u64 = 64;

pub const SYS_CALL_EXIT: u64 = 93;

pub const SYS_CALL_YIELD: u64 = 124;

pub const SYS_CALL_GET_TIME: u64 = 169;

pub const SYS_CALL_FORK: u64 = 220;

pub const SYS_CALL_EXEC: u64 = 221;

pub const SYS_CALL_WAITPID: u64 = 260;

/// Whether child pid `c` matches a waitpid request: `-1` matches any
/// child, otherwise the pids must agree.
pub open spec fn spec_wait_match(pid: i64, c: u64) -> bool {
    pid == -1 || (pid >= 0 && c == pid as u64)
}

/// What the stub layer must do after a dispatch decision.
#[derive(Clone, Copy, PartialEq, Eq, Structural, Debug)]
pub enum TrapAction {
    /// Return to the current process through the trampoline.
    Return,
    /// Perform the context switch to the idle loop.
    Switch,
    /// Re-arm the timer, then switch to the idle loop.
    RearmTimer,
    /// Read one console byte and retry the read syscall.
    ConsoleIn,
    /// Print the translated buffer, then return.
    ConsoleOut,
    /// An invariant was violated: halt.
    Halt,
}

/// Why the processor trapped, as the kernel handler reads it from the
/// cause register.
#[derive(Clone, Copy, PartialEq, Eq, Structural, Debug)]
pub enum TrapCause {
    UserEnvCall,
    SupervisorTimer,
    StoreFault,
    StorePageFault,
    InstructionFault,
    InstructionPageFault,
    LoadFault,
    LoadPageFault,
    IllegalInstruction,
    Unknown,
}

/// The table of user programs the loader publishes: parallel names and
/// images.
pub struct AppTable {
    pub names: Vec<Vec<u8>>,
    pub images: Vec<Vec<u8>>,
}

impl AppTable {
    pub open spec fn wf(self) -> bool {
        self.names@.len() == self.images@.len()
    }

    pub fn get_num_apps(&self) -> (r: usize)
        ensures
            r == self.names@.len(),
    {
        self.names.len()
    }

    /// The image published under `name`, by table order.
    pub fn get_app_data_by_name(&self, name: &Vec<u8>) -> (r: Option<&Vec<u8>>)
        requires
            self.wf(),
        ensures
            match r {
                Some(img) => exists|i: int|
                    0 <= i < self.names@.len() && (#[trigger] self.names@[i])@ == name@
                        && img == self.images@[i],
                None => forall|i: int|
                    0 <= i < self.names@.len() ==> (#[trigger] self.names@[i])@ != name@,
            },
    {
        let mut i: usize = 0;
        while i < self.names.len()
            invariant
                self.wf(),
                i <= self.names@.len(),
                forall|j: int| 0 <= j < i ==> (#[trigger] self.names@[j])@ != name@,
            decreases self.names@.len() - i,
        {
            if crate::vfs::bytes_equal(&self.names[i], name) {
                let img = &self.images[i];
                proof {
                    assert((#[trigger] self.names@[i as int])@ == name@);
                }
                return Some(img);
            }
            i = i + 1;
        }
        None
    }
}

/// The kernel's whole mutable state.
pub struct Kernel {
    pub frame_allocator: StackFrameAllocator,
    pub pid_allocator: PIDAllocator,
    pub kernel_space: MemorySet,
    pub manager: ProcessManager,
    pub processor: Processor,
    pub procs: Vec<ProcessControlBlock>,
    pub initproc_pid: u64,
    pub strampoline_ppn: u64,
    pub kernel_satp: u64,
    pub trap_handler_va: u64,
    pub trap_return_va: u64,
    pub sstatus: u64,
}

impl Kernel {
    /// Everything but the queue, processor slot and process table.
    pub open spec fn same_core(self, other: Self) -> bool {
        &&& self.frame_allocator == other.frame_allocator
        &&& self.pid_allocator == other.pid_allocator
        &&& self.kernel_space == other.kernel_space
        &&& self.initproc_pid == other.initproc_pid
        &&& self.strampoline_ppn == other.strampoline_ppn
        &&& self.kernel_satp == other.kernel_satp
        &&& self.trap_handler_va == other.trap_handler_va
        &&& self.trap_return_va == other.trap_return_va
        &&& self.sstatus == other.sstatus
    }

    pub open spec fn wf(self) -> bool {
        &&& self.frame_allocator.wf()
        &&& self.pid_allocator.wf()
        &&& self.kernel_space.wf()
        &&& self.pid_allocator.end <= PID_LIMIT
        &&& self.strampoline_ppn < crate::addr::ppn_limit()
        &&& forall|i: int| 0 <= i < self.procs@.len() ==> (#[trigger] self.procs@[i]).wf()
    }

    /// Index of the process with `pid` in the table.
    pub fn find_proc(&self, pid: u64) -> (r: Option<usize>)
        ensures
            match r {
                Some(i) => i < self.procs@.len() && self.procs@[i as int].pid.0 == pid,
                None => forall|i: int|
                    0 <= i < self.procs@.len() ==> (#[trigger] self.procs@[i]).pid.0 != pid,
            },
    {
        let mut i: usize = 0;
        while i < self.procs.len()
            invariant
                i <= self.procs@.len(),
                forall|j: int| 0 <= j < i ==> (#[trigger] self.procs@[j]).pid.0 != pid,
            decreases self.procs@.len() - i,
        {
            if self.procs[i].pid.0 == pid {
                return Some(i);
            }
            i = i + 1;
        }
        None
    }

    /// Enqueue a runnable process.
    pub fn add_process(&mut self, pid: u64)
        ensures
            final(self).manager.queue@ == old(self).manager.queue@.push(pid),
            final(self).procs@ == old(self).procs@,
            final(self).processor == old(self).processor,
            final(self).same_core(*old(self)),
    {
        self.manager.push(pid);
    }

    /// Dequeue the longest-waiting runnable process.
    pub fn fetch_process(&mut self) -> (r: Option<u64>)
        ensures
            final(self).procs@ == old(self).procs@,
            final(self).processor == old(self).processor,
            final(self).same_core(*old(self)),
            old(self).manager.queue@.len() == 0 ==> r is None,
            old(self).manager.queue@.len() > 0 ==> r == Some(old(self).manager.queue@[0])
                && final(self).manager.queue@ == old(self).manager.queue@.drop_first(),
    {
        self.manager.pop()
    }

    /// One scheduler turn: take the front of the ready queue, mark it
    /// running and put it in the processor slot. The stub layer then
    /// switches to its saved context.
    pub fn schedule_step(&mut self) -> (r: Option<u64>)
        requires
            old(self).wf(),
        ensures
            final(self).wf(),
            old(self).manager.queue@.len() == 0 <==> r is None,
            r is Some ==> {
                &&& r == Some(old(self).manager.queue@[0])
                &&& final(self).manager.queue@ == old(self).manager.queue@.drop_first()
                &&& final(self).processor.current == r
            },
            old(self).manager.queue@.len() > 0 && (exists|i: int|
                0 <= i < old(self).procs@.len() && (#[trigger] old(self).procs@[i]).pid.0 == old(
                    self,
                ).manager.queue@[0]) ==> exists|i: int|
                0 <= i < final(self).procs@.len() && (#[trigger] final(self).procs@[i]).pid.0
                    == old(self).manager.queue@[0] && final(self).procs@[i].status is Running,
    {
        let got = self.fetch_process();
        match got {
            None => None,
            Some(pid) => {
                self.processor.current = Some(pid);
                let found = self.find_proc(pid);
                match found {
                    Some(i) => {
                        let mut p = self.procs.remove(i);
                        p.status = ProcessStatus::Running;
                        self.procs.insert(i, p);
                        proof {
                            assert((#[trigger] self.procs@[i as int]).pid.0 == pid
                                && self.procs@[i as int].status is Running);
                            assert forall|j: int| 0 <= j < self.procs@.len() implies (
                            #[trigger] self.procs@[j]).wf() by {
                                if j != i {
                                    assert(self.procs@[j] == old(self).procs@[j]);
                                }
                            }
                        }
                    },
                    None => {
                        proof {
                            if exists|k: int|
                                0 <= k < old(self).procs@.len() && (
                                #[trigger] old(self).procs@[k]).pid.0 == pid {
                                let k = choose|k: int|
                                    0 <= k < old(self).procs@.len() && (
                                    #[trigger] old(self).procs@[k]).pid.0 == pid;
                                assert(self.procs@ =~= old(self).procs@);
                                assert((#[trigger] self.procs@[k]).pid.0 == pid);
                            }
                        }
                    },
                }
                Some(pid)
            },
        }
    }

    /// Suspend the running process: mark it ready and requeue it at the
    /// back. The stub layer then switches to the idle context.
    pub fn suspend_current_and_run_next(&mut self) -> (r: TrapAction)
        requires
            old(self).wf(),
        ensures
            final(self).wf(),
            r == TrapAction::Switch,
            old(self).processor.current is Some ==> final(self).manager.queue@
                == old(self).manager.queue@.push(old(self).processor.current.unwrap()),
            final(self).processor.current is None,
            old(self).processor.current is Some && (exists|i: int|
                0 <= i < old(self).procs@.len() && (#[trigger] old(self).procs@[i]).pid.0 == old(
                    self,
                ).processor.current.unwrap()) ==> exists|i: int|
                0 <= i < final(self).procs@.len() && (#[trigger] final(self).procs@[i]).pid.0
                    == old(self).processor.current.unwrap() && final(self).procs@[i].status
                    is Ready,
    {
        let got = self.processor.take_current();
        match got {
            None => TrapAction::Switch,
            Some(pid) => {
                let found = self.find_proc(pid);
                match found {
                    Some(i) => {
                        let mut p = self.procs.remove(i);
                        p.status = ProcessStatus::Ready;
                        self.procs.insert(i, p);
                        proof {
                            assert((#[trigger] self.procs@[i as int]).pid.0 == pid
                                && self.procs@[i as int].status is Ready);
                            assert forall|j: int| 0 <= j < self.procs@.len() implies (
                            #[trigger] self.procs@[j]).wf() by {
                                if j != i {
                                    assert(self.procs@[j] == old(self).procs@[j]);
                                }
                            }
                        }
                    },
                    None => {},
                }
                self.add_process(pid);
                TrapAction::Switch
            },
        }
    }

    /// Exit the running process: mark it a zombie holding `code`, hand
    /// its children to the init process, and recycle its user memory
    /// early. It is not requeued; the stub layer switches to idle.
    #[verifier::rlimit(100)]
    pub fn exit_current_and_run_next(&mut self, code: i64) -> (r: TrapAction)
        requires
            old(self).wf(),
        ensures
            final(self).wf(),
            r == TrapAction::Switch,
            final(self).processor.current is None,
            old(self).processor.current is Some && (exists|i: int|
                0 <= i < old(self).procs@.len() && (#[trigger] old(self).procs@[i]).pid.0
                    == old(self).processor.current.unwrap()) ==> exists|i: int|
                0 <= i < final(self).procs@.len() && (#[trigger] final(self).procs@[i]).pid.0
                    == old(self).processor.current.unwrap() && final(self).procs@[i].status
                    is Zombie && final(self).procs@[i].exit_code == code
                    && final(self).procs@[i].memory_set.areas@.len() == 0
                    && final(self).procs@[i].children@.len() == 0,
    {
        let got = self.processor.take_current();
        let pid = match got {
            None => {
                return TrapAction::Switch;
            },
            Some(pid) => pid,
        };
        let found = self.find_proc(pid);
        let i = match found {
            None => {
                return TrapAction::Switch;
            },
            Some(i) => i,
        };
        let mut p = self.procs.remove(i);
        p.status = ProcessStatus::Zombie;
        p.exit_code = code;
        p.memory_set.recycle_memory_set();
        // reparent every child to the init process
        let ghost pmid = p;
        let mut orphans: Vec<u64> = Vec::new();
        let n = p.children.len();
        let mut j: usize = 0;
        while j < n
            invariant
                p == pmid,
                n == p.children@.len(),
                j <= n,
                orphans@ == p.children@.subrange(0, j as int),
            decreases n - j,
        {
            orphans.push(p.children[j]);
            proof {
                assert(orphans@ =~= p.children@.subrange(0, j as int + 1));
            }
            j = j + 1;
        }
        p.children = Vec::new();
        self.procs.insert(i, p);
        proof {
            assert forall|k: int| 0 <= k < self.procs@.len() implies (
            #[trigger] self.procs@[k]).wf() by {
                if k != i {
                    assert(self.procs@[k] == old(self).procs@[k]);
                }
            }
        }
        let init_pid = self.initproc_pid;
        let found_init = if init_pid != pid {
            self.find_proc(init_pid)
        } else {
            None
        };
        match found_init {
            None => {},
            Some(pi) => {
                let ghost before = self.procs@;
                let mut initp = self.procs.remove(pi);
                let mut j2: usize = 0;
                let m = orphans.len();
                while j2 < m
                    invariant
                        m == orphans@.len(),
                        j2 <= m,
                        initp.wf(),
                    decreases m - j2,
                {
                    initp.children.push(orphans[j2]);
                    j2 = j2 + 1;
                }
                self.procs.insert(pi, initp);
                proof {
                    assert forall|k: int| 0 <= k < self.procs@.len() implies (
                    #[trigger] self.procs@[k]).wf() by {
                        if k != pi {
                            assert(self.procs@[k] == before[k]);
                        }
                    }
                    assert(pi != i) by {
                        if pi == i {
                            assert(before[pi as int].pid.0 == init_pid);
                        }
                    }
                    assert((#[trigger] self.procs@[i as int]).pid.0 == pid
                        && self.procs@[i as int].status is Zombie && self.procs@[i as int].exit_code
                        == code && self.procs@[i as int].memory_set.areas@.len() == 0
                        && self.procs@[i as int].children@.len() == 0);
                }
            },
        }
        proof {
            assert((#[trigger] self.procs@[i as int]).pid.0 == pid);
        }
        TrapAction::Switch
    }

    /// The fork syscall: clone the running process; the child gets
    /// return value 0 in its saved x10, the parent gets the child's
    /// pid.
    #[verifier::rlimit(100)]
    pub fn sys_fork(&mut self) -> (r: i64)
        requires
            old(self).wf(),
        ensures
            final(self).wf(),
            r >= 0 ==> exists|i: int|
                0 <= i < final(self).procs@.len() && (#[trigger] final(self).procs@[i]).pid.0
                    == r as u64 && final(self).procs@[i].trap_ctx.x@.len() == 32
                    && final(self).procs@[i].trap_ctx.x@[10] == 0 && final(self).procs@[i].status
                    is Ready,
            r >= 0 ==> final(self).manager.queue@ == old(self).manager.queue@.push(r as u64),
            r >= 0 && old(self).processor.current is Some ==> exists|pi: int, ci: int|
                {
                    &&& 0 <= pi < old(self).procs@.len()
                    &&& (#[trigger] old(self).procs@[pi]).pid.0 == old(
                        self,
                    ).processor.current.unwrap()
                    &&& 0 <= ci < final(self).procs@.len()
                    &&& (#[trigger] final(self).procs@[ci]).pid.0 == r as u64
                    &&& final(self).procs@[ci].parent == Some(
                        old(self).processor.current.unwrap(),
                    )
                    &&& final(self).procs@[ci].trap_ctx.sepc == old(
                        self,
                    ).procs@[pi].trap_ctx.sepc
                    &&& forall|v: int|
                        0 <= v < crate::addr::vpn_limit()
                            ==> (#[trigger] final(self).procs@[ci].memory_set.page_table.maps(v)
                            == old(self).procs@[pi].memory_set.page_table.maps(v))
                },
    {
        let got = self.processor.current();
        let pid = match got {
            None => {
                return -1;
            },
            Some(pid) => pid,
        };
        let found = self.find_proc(pid);
        let i = match found {
            None => {
                return -1;
            },
            Some(i) => i,
        };
        let child = {
            let parent = &self.procs[i];
            proof {
                assert((#[trigger] self.procs@[i as int]).wf());
            }
            parent.fork(
                &mut self.frame_allocator,
                &mut self.pid_allocator,
                &mut self.kernel_space,
                self.trap_return_va,
            )
        };
        let mut child = match child {
            None => {
                return -1;
            },
            Some(c) => c,
        };
        let child_pid = child.pid.0;
        // the child's fork returns 0
        child.trap_ctx.x.set(10, 0);
        // record the child under its parent
        let ghost before = self.procs@;
        let mut parent = self.procs.remove(i);
        parent.children.push(child_pid);
        self.procs.insert(i, parent);
        proof {
            assert forall|k: int| 0 <= k < self.procs@.len() implies (
            #[trigger] self.procs@[k]).wf() by {
                if k != i {
                    assert(self.procs@[k] == before[k]);
                }
            }
        }
        let ghost before2 = self.procs@;
        self.procs.push(child);
        proof {
            assert forall|k: int| 0 <= k < self.procs@.len() implies (
            #[trigger] self.procs@[k]).wf() by {
                if k < before2.len() {
                    assert(self.procs@[k] == before2[k]);
                }
            }
        }
        self.add_process(child_pid);
        if child_pid > i64::MAX as u64 {
            return -1;
        }
        proof {
            let ci = self.procs@.len() - 1;
            assert((#[trigger] self.procs@[ci]).pid.0 == child_pid);
            assert((#[trigger] old(self).procs@[i as int]).pid.0 == pid);
            assert(self.procs@[ci].parent == Some(pid));
            assert(self.procs@[ci].trap_ctx.sepc == old(self).procs@[i as int].trap_ctx.sepc);
            assert(forall|v: int|
                0 <= v < crate::addr::vpn_limit()
                    ==> (#[trigger] self.procs@[ci].memory_set.page_table.maps(v) == old(
                    self,
                ).procs@[i as int].memory_set.page_table.maps(v)));
        }
        child_pid as i64
    }

    /// The exec syscall: replace the running process's image by the
    /// named one; `-1` when the table has no such name.
    pub fn sys_exec(&mut self, path: &Vec<u8>, apps: &AppTable) -> (r: i64)
        requires
            old(self).wf(),
            apps.wf(),
        ensures
            final(self).wf(),
            (forall|i: int|
                0 <= i < apps.names@.len() ==> (#[trigger] apps.names@[i])@ != path@) ==> r == -1,
            r == 0 && old(self).processor.current is Some ==> exists|i: int, j: int|
                {
                    &&& 0 <= j < apps.names@.len()
                    &&& (#[trigger] apps.names@[j])@ == path@
                    &&& 0 <= i < final(self).procs@.len()
                    &&& (#[trigger] final(self).procs@[i]).pid.0 == old(
                        self,
                    ).processor.current.unwrap()
                    &&& final(self).procs@[i].trap_ctx.sepc as int == crate::bytes::le64_at(
                        apps.images@[j]@,
                        24,
                    )
                },
    {
        let got = apps.get_app_data_by_name(path);
        let img = match got {
            None => {
                return -1;
            },
            Some(img) => img,
        };
        let cur = self.processor.current();
        let pid = match cur {
            None => {
                return -1;
            },
            Some(pid) => pid,
        };
        let found = self.find_proc(pid);
        let i = match found {
            None => {
                return -1;
            },
            Some(i) => i,
        };
        let ghost before = self.procs@;
        let mut p = self.procs.remove(i);
        let done = p.exec(
            img,
            PhysPageNumber(self.strampoline_ppn),
            &mut self.frame_allocator,
            self.kernel_satp,
            self.trap_handler_va,
            self.sstatus,
        );
        self.procs.insert(i, p);
        proof {
            assert forall|k: int| 0 <= k < self.procs@.len() implies (
            #[trigger] self.procs@[k]).wf() by {
                if k != i {
                    assert(self.procs@[k] == before[k]);
                }
            }
            if done {
                let j = choose|j: int|
                    0 <= j < apps.names@.len() && (#[trigger] apps.names@[j])@ == path@ && img
                        == apps.images@[j];
                assert((#[trigger] apps.names@[j])@ == path@);
                assert((#[trigger] self.procs@[i as int]).pid.0 == pid);
                assert(self.procs@[i as int].trap_ctx.sepc as int == crate::bytes::le64_at(
                    apps.images@[j]@,
                    24,
                ));
            }
        }
        if done {
            0
        } else {
            -1
        }
    }

    /// The waitpid syscall: `-1` when no child matches, `-2` when a
    /// matching child is still running, else the reaped child's pid;
    /// beside it the exit code to store through the caller's pointer.
    #[verifier::rlimit(100)]
    /// The waitpid syscall: `-1` when no child matches the requested
    /// pid, `-2` when a matching child is still running, else the
    /// reaped child's pid beside its exit code, with the child unlinked
    /// from the parent. Nothing changes unless a child is reaped.
    #[verifier::rlimit(100)]
    pub fn sys_waitpid(&mut self, pid: i64) -> (r: (i64, i64))
        requires
            old(self).wf(),
        ensures
            final(self).wf(),
            r.0 == -1 || r.0 == -2 || r.0 >= 0,
            r.0 == -1 || r.0 == -2 ==> final(self).procs@ == old(self).procs@
                && final(self).manager.queue@ == old(self).manager.queue@
                && final(self).processor == old(self).processor,
            r.0 == -1 && old(self).processor.current is Some && (exists|i: int|
                0 <= i < old(self).procs@.len() && (#[trigger] old(self).procs@[i]).pid.0 == old(
                    self,
                ).processor.current.unwrap()) ==> exists|i: int|
                0 <= i < old(self).procs@.len() && (#[trigger] old(self).procs@[i]).pid.0 == old(
                    self,
                ).processor.current.unwrap() && (forall|j: int|
                    0 <= j < old(self).procs@[i].children@.len() ==> !spec_wait_match(
                        pid,
                        #[trigger] old(self).procs@[i].children@[j],
                    )),
            r.0 >= 0 ==> old(self).processor.current is Some && exists|i: int, k: int, ci: int|
                {
                    &&& 0 <= i < old(self).procs@.len()
                    &&& (#[trigger] old(self).procs@[i]).pid.0 == old(
                        self,
                    ).processor.current.unwrap()
                    &&& 0 <= k < old(self).procs@[i].children@.len()
                    &&& (#[trigger] old(self).procs@[i].children@[k]) == r.0 as u64
                    &&& spec_wait_match(pid, r.0 as u64)
                    &&& 0 <= ci < old(self).procs@.len()
                    &&& (#[trigger] old(self).procs@[ci]).pid.0 == r.0 as u64
                    &&& old(self).procs@[ci].status is Zombie
                    &&& old(self).procs@[ci].exit_code == r.1
                    &&& final(self).procs@.len() == old(self).procs@.len()
                    &&& final(self).procs@[i].children@ == old(self).procs@[i].children@.remove(k)
                    &&& final(self).procs@[i].pid == old(self).procs@[i].pid
                    &&& forall|t: int|
                        0 <= t < old(self).procs@.len() && t != i ==> final(self).procs@[t] == old(
                            self,
                        ).procs@[t]
                },
    {
        let got = self.processor.current();
        let me = match got {
            None => {
                return (-1, 0);
            },
            Some(me) => me,
        };
        let found = self.find_proc(me);
        let i = match found {
            None => {
                return (-1, 0);
            },
            Some(i) => i,
        };
        // does any child match the requested pid at all?
        let n = self.procs[i].children.len();
        let mut j: usize = 0;
        let mut matched = false;
        while j < n && !matched
            invariant
                i < self.procs@.len(),
                n == self.procs@[i as int].children@.len(),
                j <= n,
                !matched ==> forall|jj: int|
                    0 <= jj < j ==> !spec_wait_match(
                        pid,
                        #[trigger] self.procs@[i as int].children@[jj],
                    ),
            decreases n - j, (if matched {
                0int
            } else {
                1int
            }),
        {
            let c = self.procs[i].children[j];
            if pid == -1 || (pid >= 0 && c == pid as u64) {
                matched = true;
            } else {
                j = j + 1;
            }
        }
        if !matched {
            proof {
                assert((#[trigger] self.procs@[i as int]).pid.0 == me);
            }
            return (-1, 0);
        }
        // find a matching zombie child
        let n2 = self.procs[i].children.len();
        let mut k: usize = 0;
        while k < n2
            invariant
                self.wf(),
                *self == *old(self),
                old(self).processor.current == Some(me),
                i < self.procs@.len(),
                self.procs@[i as int].pid.0 == me,
                n2 == self.procs@[i as int].children@.len(),
                k <= n2,
            decreases n2 - k,
        {
            let c = self.procs[i].children[k];
            if pid == -1 || (pid >= 0 && c == pid as u64) {
                let foundc = self.find_proc(c);
                match foundc {
                    None => {},
                    Some(ci) => {
                        let is_zombie = match self.procs[ci].status {
                            ProcessStatus::Zombie => true,
                            _ => false,
                        };
                        if is_zombie {
                            if c > i64::MAX as u64 {
                                return (-2, 0);
                            }
                            let code = self.procs[ci].exit_code;
                            // unlink the reaped child
                            let ghost before = self.procs@;
                            let mut parent = self.procs.remove(i);
                            let _reaped = parent.children.remove(k);
                            self.procs.insert(i, parent);
                            proof {
                                assert forall|t: int| 0 <= t < self.procs@.len() implies (
                                #[trigger] self.procs@[t]).wf() by {
                                    if t != i {
                                        assert(self.procs@[t] == before[t]);
                                    }
                                }
                                assert((#[trigger] before[i as int]).pid.0 == me);
                                assert((#[trigger] before[i as int].children@[k as int])
                                    == c);
                                assert((#[trigger] before[ci as int]).pid.0 == c);
                                assert(self.procs@[i as int].children@ == before[i as int].children@.remove(
                                    k as int,
                                ));
                                assert forall|t: int|
                                    0 <= t < before.len() && t != i implies self.procs@[t]
                                    == before[t] by {
                                }
                            }
                            return (c as i64, code);
                        }
                    },
                }
            }
            k = k + 1;
        }
        (-2, 0)
    }

    /// Create the first process from the init image and enqueue it.
    /// Its pid becomes the target for reparented orphans.
    pub fn add_initproc(&mut self, init_img: &Vec<u8>) -> (r: bool)
        requires
            old(self).wf(),
        ensures
            final(self).wf(),
            r ==> final(self).manager.queue@.len() == old(self).manager.queue@.len() + 1,
            !r ==> final(self).procs@ == old(self).procs@,
    {
        let built = ProcessControlBlock::new(
            init_img,
            PhysPageNumber(self.strampoline_ppn),
            &mut self.frame_allocator,
            &mut self.pid_allocator,
            &mut self.kernel_space,
            self.kernel_satp,
            self.trap_handler_va,
            self.trap_return_va,
            self.sstatus,
        );
        let p = match built {
            None => {
                return false;
            },
            Some(p) => p,
        };
        let pid = p.pid.0;
        let ghost before = self.procs@;
        self.procs.push(p);
        proof {
            assert forall|k: int| 0 <= k < self.procs@.len() implies (
            #[trigger] self.procs@[k]).wf() by {
                if k < before.len() {
                    assert(self.procs@[k] == before[k]);
                }
            }
        }
        self.initproc_pid = pid;
        self.add_process(pid);
        true
    }

    /// The satp word of the running process's address space.
    pub fn current_proc_satp(&self) -> (r: Option<u64>)
        requires
            self.wf(),
        ensures
            r is None ==> self.processor.current is None || (forall|i: int|
                0 <= i < self.procs@.len() ==> (#[trigger] self.procs@[i]).pid.0
                    != self.processor.current.unwrap()),
            r is Some ==> self.processor.current is Some && exists|i: int|
                0 <= i < self.procs@.len() && (#[trigger] self.procs@[i]).pid.0
                    == self.processor.current.unwrap() && r.unwrap() == (8u64 << 60)
                    | self.procs@[i].memory_set.page_table.root_ppn.0,
    {
        let got = self.processor.current();
        let pid = match got {
            None => {
                return None;
            },
            Some(pid) => pid,
        };
        let found = self.find_proc(pid);
        match found {
            None => None,
            Some(i) => Some(self.procs[i].user_space_satp()),
        }
    }

    /// Wait for any child: one probe of `waitpid(-1)`. On `-2` the stub
    /// layer yields and retries, which is what makes the wait blocking.
    pub fn sys_wait(&mut self) -> (r: (i64, i64))
        requires
            old(self).wf(),
        ensures
            final(self).wf(),
            r.0 == -1 || r.0 == -2 || r.0 >= 0,
            r.0 == -1 || r.0 == -2 ==> final(self).procs@ == old(self).procs@
                && final(self).manager.queue@ == old(self).manager.queue@
                && final(self).processor == old(self).processor,
            r.0 == -1 && old(self).processor.current is Some && (exists|i: int|
                0 <= i < old(self).procs@.len() && (#[trigger] old(self).procs@[i]).pid.0 == old(
                    self,
                ).processor.current.unwrap()) ==> exists|i: int|
                0 <= i < old(self).procs@.len() && (#[trigger] old(self).procs@[i]).pid.0 == old(
                    self,
                ).processor.current.unwrap() && old(self).procs@[i].children@.len() == 0,
            r.0 >= 0 ==> exists|ci: int|
                0 <= ci < old(self).procs@.len() && (#[trigger] old(self).procs@[ci]).pid.0
                    == r.0 as u64 && old(self).procs@[ci].status is Zombie && old(
                    self,
                ).procs@[ci].exit_code == r.1,
    {
        let ghost pre = *self;
        let r = self.sys_waitpid(-1);
        proof {
            if r.0 == -1 && pre.processor.current is Some && (exists|i: int|
                0 <= i < pre.procs@.len() && (#[trigger] pre.procs@[i]).pid.0
                    == pre.processor.current.unwrap()) {
                let i = choose|i: int|
                    0 <= i < pre.procs@.len() && (#[trigger] pre.procs@[i]).pid.0
                        == pre.processor.current.unwrap() && (forall|j: int|
                        0 <= j < pre.procs@[i].children@.len() ==> !spec_wait_match(
                            -1i64,
                            #[trigger] pre.procs@[i].children@[j],
                        ));
                assert(pre.procs@[i].children@.len() == 0) by {
                    if pre.procs@[i].children@.len() > 0 {
                        assert(!spec_wait_match(-1i64, pre.procs@[i].children@[0]));
                    }
                }
            }
        }
        r
    }

    /// The yield syscall.
    pub fn sys_yield(&mut self) -> (r: (i64, TrapAction))
        requires
            old(self).wf(),
        ensures
            final(self).wf(),
            r.0 == 0,
            r.1 == TrapAction::Switch,
    {
        let a = self.suspend_current_and_run_next();
        (0, a)
    }

    /// The exit syscall: never returns to the caller. The process
    /// becomes a zombie holding `code`, its memory is recycled and its
    /// children move to the init process.
    pub fn sys_exit(&mut self, code: i64) -> (r: TrapAction)
        requires
            old(self).wf(),
        ensures
            final(self).wf(),
            r == TrapAction::Switch,
            final(self).processor.current is None,
            old(self).processor.current is Some && (exists|i: int|
                0 <= i < old(self).procs@.len() && (#[trigger] old(self).procs@[i]).pid.0 == old(
                    self,
                ).processor.current.unwrap()) ==> exists|i: int|
                0 <= i < final(self).procs@.len() && (#[trigger] final(self).procs@[i]).pid.0
                    == old(self).processor.current.unwrap() && final(self).procs@[i].status
                    is Zombie && final(self).procs@[i].exit_code == code
                    && final(self).procs@[i].memory_set.areas@.len() == 0,
    {
        self.exit_current_and_run_next(code)
    }

    /// Dispatch one syscall by number. Returns the value for the
    /// caller's x10 and the action for the stub layer. An unknown
    /// number halts, as a kernel invariant violation.
    pub fn syscall(&mut self, id: u64, arg0: u64, apps: &AppTable, path: &Vec<u8>) -> (r: (
        i64,
        TrapAction,
    ))
        requires
            old(self).wf(),
            apps.wf(),
        ensures
            final(self).wf(),
            id == SYS_CALL_READ ==> r.1 == TrapAction::ConsoleIn,
            id == SYS_CALL_WRITE ==> r.1 == TrapAction::ConsoleOut,
            id == SYS_CALL_YIELD ==> r.0 == 0 && r.1 == TrapAction::Switch,
            id == SYS_CALL_GET_TIME ==> r.0 as int == arg0 as int / (crate::addr::TIME_FREQUENCY
                as int / 1000),
            id == SYS_CALL_EXIT ==> r.1 == TrapAction::Switch,
            id == SYS_CALL_FORK && r.0 >= 0 ==> final(self).manager.queue@ == old(
                self,
            ).manager.queue@.push(r.0 as u64),
            id == SYS_CALL_WAITPID ==> r.0 == -1 || r.0 == -2 || r.0 >= 0,
            id == SYS_CALL_WAITPID && (r.0 == -1 || r.0 == -2) ==> final(self).procs@ == old(
                self,
            ).procs@,
            id == SYS_CALL_EXEC && (forall|i: int|
                0 <= i < apps.names@.len() ==> (#[trigger] apps.names@[i])@ != path@) ==> r.0
                == -1,
            !(id == SYS_CALL_READ || id == SYS_CALL_WRITE || id == SYS_CALL_EXIT || id
                == SYS_CALL_YIELD || id == SYS_CALL_GET_TIME || id == SYS_CALL_FORK || id
                == SYS_CALL_EXEC || id == SYS_CALL_WAITPID) ==> r.1 == TrapAction::Halt,
    {
        if id == SYS_CALL_READ {
            (0, TrapAction::ConsoleIn)
        } else if id == SYS_CALL_WRITE {
            (0, TrapAction::ConsoleOut)
        } else if id == SYS_CALL_EXIT {
            let a = self.sys_exit(arg0 as i64);
            (0, a)
        } else if id == SYS_CALL_YIELD {
            let (v, a) = self.sys_yield();
            (v, a)
        } else if id == SYS_CALL_GET_TIME {
            let ms = get_time_ms(arg0);
            proof {
                assert(ms < 0x8000_0000_0000_0000) by (nonlinear_arith)
                    requires
                        ms == arg0 / 12500,
                ;
            }
            (ms as i64, TrapAction::Return)
        } else if id == SYS_CALL_FORK {
            let v = self.sys_fork();
            (v, TrapAction::Return)
        } else if id == SYS_CALL_EXEC {
            let v = self.sys_exec(path, apps);
            (v, TrapAction::Return)
        } else if id == SYS_CALL_WAITPID {
            let (v, _code) = self.sys_waitpid(arg0 as i64);
            (v, TrapAction::Return)
        } else {
            (0, TrapAction::Halt)
        }
    }

    /// The kernel trap handler's decision: a user syscall advances the
    /// saved program counter and dispatches; a timer tick suspends the
    /// process and re-arms; a memory fault kills the process with exit
    /// code -2, an illegal instruction with -3; anything else halts.
    pub fn trap_handler(&mut self, cause: TrapCause, apps: &AppTable, path: &Vec<u8>) -> (r: (
        i64,
        TrapAction,
    ))
        requires
            old(self).wf(),
            apps.wf(),
        ensures
            final(self).wf(),
            cause == TrapCause::SupervisorTimer ==> r.1 == TrapAction::RearmTimer,
            cause == TrapCause::Unknown ==> r.1 == TrapAction::Halt,
            (cause == TrapCause::StoreFault || cause == TrapCause::StorePageFault || cause
                == TrapCause::InstructionFault || cause == TrapCause::InstructionPageFault || cause
                == TrapCause::LoadFault || cause == TrapCause::LoadPageFault) ==> r.1
                == TrapAction::Switch && r.0 == -2,
            cause == TrapCause::IllegalInstruction ==> r.1 == TrapAction::Switch && r.0 == -3,
            cause == TrapCause::SupervisorTimer && old(self).processor.current is Some
                ==> final(self).manager.queue@ == old(self).manager.queue@.push(
                old(self).processor.current.unwrap(),
            ) && final(self).processor.current is None,
            (cause == TrapCause::StoreFault || cause == TrapCause::StorePageFault || cause
                == TrapCause::InstructionFault || cause == TrapCause::InstructionPageFault || cause
                == TrapCause::LoadFault || cause == TrapCause::LoadPageFault || cause
                == TrapCause::IllegalInstruction) && old(self).processor.current is Some && (exists|i: int|
                0 <= i < old(self).procs@.len() && (#[trigger] old(self).procs@[i]).pid.0
                    == old(self).processor.current.unwrap()) ==> exists|i: int|
                0 <= i < final(self).procs@.len() && (#[trigger] final(self).procs@[i]).pid.0
                    == old(self).processor.current.unwrap() && final(self).procs@[i].status
                    is Zombie && final(self).procs@[i].exit_code == r.0,
    {
        match cause {
            TrapCause::UserEnvCall => {
                // advance past the ecall instruction, then dispatch on
                // the saved argument registers
                let got = self.processor.current();
                let pid = match got {
                    None => {
                        return (0, TrapAction::Halt);
                    },
                    Some(pid) => pid,
                };
                let found = self.find_proc(pid);
                let i = match found {
                    None => {
                        return (0, TrapAction::Halt);
                    },
                    Some(i) => i,
                };
                let ghost before = self.procs@;
                let mut p = self.procs.remove(i);
                if !p.trap_ctx.wf_exec() {
                    self.procs.insert(i, p);
                    proof {
                        lemma_procs_wf_restore(before, self.procs@, i as int);
                    }
                    return (0, TrapAction::Halt);
                }
                if p.trap_ctx.sepc > u64::MAX - 4 {
                    self.procs.insert(i, p);
                    proof {
                        lemma_procs_wf_restore(before, self.procs@, i as int);
                    }
                    return (0, TrapAction::Halt);
                }
                p.trap_ctx.sepc = p.trap_ctx.sepc + 4;
                let id = p.trap_ctx.x[17];
                let arg0 = p.trap_ctx.x[10];
                self.procs.insert(i, p);
                proof {
                    lemma_procs_wf_restore(before, self.procs@, i as int);
                }
                let (v, a) = self.syscall(id, arg0, apps, path);
                // store the result; exec may have replaced the context,
                // so the process is looked up afresh
                let found2 = self.find_proc(pid);
                match found2 {
                    None => {},
                    Some(i2) => {
                        let ghost before2 = self.procs@;
                        let mut p2 = self.procs.remove(i2);
                        if p2.trap_ctx.wf_exec() {
                            p2.trap_ctx.x.set(10, v as u64);
                        }
                        self.procs.insert(i2, p2);
                        proof {
                            lemma_procs_wf_restore(before2, self.procs@, i2 as int);
                        }
                    },
                }
                (v, a)
            },
            TrapCause::SupervisorTimer => {
                self.suspend_current_and_run_next();
                (0, TrapAction::RearmTimer)
            },
            TrapCause::StoreFault | TrapCause::StorePageFault | TrapCause::InstructionFault
                | TrapCause::InstructionPageFault | TrapCause::LoadFault
                | TrapCause::LoadPageFault => {
                let a = self.exit_current_and_run_next(-2);
                (-2, a)
            },
            TrapCause::IllegalInstruction => {
                let a = self.exit_current_and_run_next(-3);
                (-3, a)
            },
            TrapCause::Unknown => (0, TrapAction::Halt),
        }
    }
}

/// Re-inserting a well-formed process keeps the whole table
/// well-formed.
proof fn lemma_procs_wf_restore(
    before: Seq<ProcessControlBlock>,
    after: Seq<ProcessControlBlock>,
    i: int,
)
    requires
        0 <= i < after.len(),
        after.len() == before.len(),
        forall|k: int| 0 <= k < before.len() ==> (#[trigger] before[k]).wf(),
        forall|k: int| 0 <= k < after.len() && k != i ==> after[k] == before[k],
        after[i].wf(),
    ensures
        forall|k: int| 0 <= k < after.len() ==> (#[trigger] after[k]).wf(),
{
}

} // verus!
