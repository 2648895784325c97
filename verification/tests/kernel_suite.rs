use oscore::addr::{PhysAddr, PhysPageNumber, VirtAddr, VirtPageNumber, TRAMPOLINE, TRAP_CONTEXT};
use oscore::elf::parse_elf;
use oscore::frame_alloc::StackFrameAllocator;
use oscore::memory_set::{
    KernelLayout, MapType, MemoryArea, MemorySet, MAP_PERM_R, MAP_PERM_W, TRAMPOLINE_VPN,
};
use oscore::page_table::{PageTable, PTE_R, PTE_V, PTE_W};
use oscore::pid::{alloc_pid, kernel_stack_position, PIDAllocator};
use oscore::proc::{
    get_time_ms, set_next_time_trigger, ProcessContext, ProcessControlBlock, ProcessManager,
    ProcessStatus, Processor, TrapContext,
};
use oscore::sched::{AppTable, Kernel, TrapAction, TrapCause, SYS_CALL_WAITPID};

fn allocator() -> StackFrameAllocator {
    let mut a = StackFrameAllocator::new();
    a.init(PhysPageNumber(0x1000), PhysPageNumber(0x5000));
    a
}

/// A minimal ELF64 image: one loadable segment at the given address.
fn tiny_elf(entry: u64, vaddr: u64) -> Vec<u8> {
    let mut img = vec![0u8; 256];
    img[0] = 0x7f;
    img[1] = b'E';
    img[2] = b'L';
    img[3] = b'F';
    img[24..32].copy_from_slice(&entry.to_le_bytes());
    img[32..40].copy_from_slice(&64u64.to_le_bytes()); // header table offset
    img[54..56].copy_from_slice(&56u16.to_le_bytes()); // header entry size
    img[56..58].copy_from_slice(&1u16.to_le_bytes()); // one header
    // the single program header at offset 64
    img[64..68].copy_from_slice(&1u32.to_le_bytes()); // loadable
    img[68..72].copy_from_slice(&5u32.to_le_bytes()); // read + execute
    img[72..80].copy_from_slice(&128u64.to_le_bytes()); // bytes at 128
    img[80..88].copy_from_slice(&vaddr.to_le_bytes());
    img[96..104].copy_from_slice(&16u64.to_le_bytes()); // file size
    img[104..112].copy_from_slice(&64u64.to_le_bytes()); // memory size
    for i in 0..16 {
        img[128 + i] = 0xa0 + i as u8;
    }
    img
}

#[test]
fn aligned_floor_recovers_address() {
    let pa = PhysAddr::new(0x8020_3000);
    assert_eq!(pa.page_offset(), 0);
    assert_eq!(pa.floor().0 * 4096, pa.0);
    assert_eq!(pa.ceil().0, pa.floor().0);
    let off = PhysAddr::new(0x8020_3123);
    assert_eq!(off.page_offset(), 0x123);
    assert_eq!(off.ceil().0, off.floor().0 + 1);
}

#[test]
fn level_indexes_concatenate_to_vpn() {
    let vpn = VirtPageNumber(0x599_9abc);
    let idx = vpn.level_indexes();
    let low27 = vpn.0 % (1 << 27);
    assert_eq!(idx[0] * (1 << 18) + idx[1] * (1 << 9) + idx[2], low27);
    for part in idx {
        assert!(part < 512);
    }
    let small = VirtPageNumber(5);
    assert_eq!(small.level_indexes(), [0, 0, 5]);
}

#[test]
fn virt_addr_masks_to_39_bits() {
    let va = VirtAddr::new(u64::MAX);
    assert_eq!(va.0, (1u64 << 39) - 1);
    assert_eq!(VirtAddr::from_vpn(VirtPageNumber(3)).0, 3 * 4096);
    assert_eq!(TRAP_CONTEXT, TRAMPOLINE - 4096);
}

#[test]
fn page_table_map_translate_unmap() {
    let mut alloc = allocator();
    let mut pt = PageTable::new(&mut alloc).unwrap();
    let vpn = VirtPageNumber(0x12345);
    assert!(pt.translate(vpn).is_none());
    assert!(pt.map(vpn, PhysPageNumber(0x888), PTE_R | PTE_W, &mut alloc));
    let pte = pt.translate(vpn).unwrap();
    assert!(pte.is_valid());
    assert!(pte.is_readable());
    assert!(pte.is_writable());
    assert!(!pte.is_executable());
    assert_eq!(pte.page_number().0, 0x888);
    assert_eq!(pte.flags(), PTE_R | PTE_W | PTE_V);
    // a second page is independent
    let vpn2 = VirtPageNumber(0x12346);
    assert!(pt.map(vpn2, PhysPageNumber(0x999), PTE_R, &mut alloc));
    pt.unmap(vpn);
    let after = pt.translate(vpn);
    assert!(after.is_none() || !after.unwrap().is_valid());
    assert_eq!(pt.translate(vpn2).unwrap().page_number().0, 0x999);
}

#[test]
fn map_after_unmap_restores_translation() {
    let mut alloc = allocator();
    let mut pt = PageTable::new(&mut alloc).unwrap();
    let vpn = VirtPageNumber(77);
    assert!(pt.map(vpn, PhysPageNumber(10), PTE_R, &mut alloc));
    pt.unmap(vpn);
    assert!(pt.map(vpn, PhysPageNumber(11), PTE_R, &mut alloc));
    assert_eq!(pt.translate(vpn).unwrap().page_number().0, 11);
}

#[test]
fn satp_encodes_mode_and_root() {
    let mut alloc = allocator();
    let pt = PageTable::new(&mut alloc).unwrap();
    let satp = pt.satp_value();
    assert_eq!(satp >> 60, 8);
    assert_eq!(satp & 0xfff_ffff_ffff, pt.root_ppn.0);
}

#[test]
fn frame_allocator_recycles_lifo() {
    let mut a = StackFrameAllocator::new();
    a.init(PhysPageNumber(100), PhysPageNumber(103));
    let p1 = a.allocate().unwrap();
    let p2 = a.allocate().unwrap();
    assert_eq!((p1.0, p2.0), (100, 101));
    a.dealloc(p1);
    assert_eq!(a.allocate().unwrap().0, 100);
    assert_eq!(a.allocate().unwrap().0, 102);
    assert!(a.allocate().is_none());
}

#[test]
fn pid_allocator_reuses_freed_pids() {
    let mut a = PIDAllocator::new(0, 4);
    let h0 = alloc_pid(&mut a).unwrap();
    let h1 = alloc_pid(&mut a).unwrap();
    assert_eq!((h0.0, h1.0), (0, 1));
    a.dealloc(0);
    assert_eq!(alloc_pid(&mut a).unwrap().0, 0);
    let (bottom, top) = kernel_stack_position(0);
    assert_eq!(top, TRAMPOLINE);
    assert_eq!(top - bottom, 8192);
    let (b1, t1) = kernel_stack_position(1);
    // one guard page separates neighbouring kernel stacks
    assert_eq!(bottom - t1, 4096);
    assert_eq!(t1 - b1, 8192);
}

#[test]
fn memory_set_push_maps_and_copies() {
    let mut alloc = allocator();
    let mut ms = MemorySet::new_empty(&mut alloc).unwrap();
    let area = MemoryArea::new(
        VirtAddr::new(0x10000),
        VirtAddr::new(0x12000),
        MapType::Framed,
        MAP_PERM_R | MAP_PERM_W,
    );
    let data = vec![0xabu8; 5000];
    assert!(ms.push(area, Some(&data), &mut alloc));
    assert!(ms.translate(VirtPageNumber(0x10)).unwrap().is_valid());
    assert!(ms.translate(VirtPageNumber(0x11)).unwrap().is_valid());
    let beyond = ms.translate(VirtPageNumber(0x12));
    assert!(beyond.is_none() || !beyond.unwrap().is_valid());
    // first page fully copied, second page padded with zeros
    assert_eq!(ms.areas[0].frames[0].data, vec![0xab; 4096]);
    assert_eq!(ms.areas[0].frames[1].data[0..904], vec![0xab; 904]);
    assert_eq!(ms.areas[0].frames[1].data[904..], vec![0u8; 4096 - 904]);
    assert!(ms.remove_memory_area(VirtPageNumber(0x10)));
    let gone = ms.translate(VirtPageNumber(0x10));
    assert!(gone.is_none() || !gone.unwrap().is_valid());
}

#[test]
fn fork_copy_shares_vpns_and_bytes() {
    let mut alloc = allocator();
    let mut parent = MemorySet::new_empty(&mut alloc).unwrap();
    assert!(parent.map_trampoline(PhysPageNumber(0x4999), &mut alloc));
    let area = MemoryArea::new(
        VirtAddr::new(0x40000),
        VirtAddr::new(0x42000),
        MapType::Framed,
        MAP_PERM_R | MAP_PERM_W,
    );
    let data: Vec<u8> = (0..8192u32).map(|i| (i % 241) as u8).collect();
    assert!(parent.push(area, Some(&data), &mut alloc));
    let child = MemorySet::from_existing(&parent, &mut alloc).unwrap();
    assert_eq!(child.areas.len(), parent.areas.len());
    assert_eq!(child.areas[0].vpns, parent.areas[0].vpns);
    for j in 0..2 {
        assert_eq!(child.areas[0].frames[j].data, parent.areas[0].frames[j].data);
        // the copy is independent storage
        assert_ne!(child.areas[0].frames[j].ppn.0, parent.areas[0].frames[j].ppn.0);
    }
    assert!(child.translate(VirtPageNumber(0x40)).unwrap().is_valid());
    assert!(child.translate(VirtPageNumber(TRAMPOLINE_VPN)).unwrap().is_valid());
}

#[test]
fn kernel_space_maps_sections_with_permissions() {
    let mut alloc = allocator();
    let l = KernelLayout {
        stext: 0x80200000,
        etext: 0x80210000,
        srodata: 0x80210000,
        erodata: 0x80220000,
        sdata: 0x80220000,
        edata: 0x80230000,
        sbss: 0x80230000,
        ebss: 0x80240000,
        ekernel: 0x80240000,
        memory_end: 0x80300000,
    };
    let ms = MemorySet::new_kernel_space(l, PhysPageNumber(0x4999), &mut alloc).unwrap();
    assert_eq!(ms.areas.len(), 5);
    let text = ms.translate(VirtPageNumber(0x80200000 / 4096)).unwrap();
    assert!(text.is_valid() && text.is_readable() && text.is_executable() && !text.is_writable());
    // identity mapping: the page number equals the virtual page
    assert_eq!(text.page_number().0, 0x80200000 / 4096);
    let data = ms.translate(VirtPageNumber(0x80220000 / 4096)).unwrap();
    assert!(data.is_valid() && data.is_writable() && !data.is_executable());
}

#[test]
fn elf_parse_reads_entry_and_segments() {
    let img = tiny_elf(0x10000, 0x10000);
    let (segments, entry) = parse_elf(&img).unwrap();
    assert_eq!(entry, 0x10000);
    assert_eq!(segments.len(), 1);
    assert_eq!(segments[0].vaddr, 0x10000);
    assert_eq!(segments[0].mem_size, 64);
    assert_eq!(segments[0].file_size, 16);
    assert_eq!(segments[0].offset, 128);
    assert_eq!(segments[0].flags, 5);
    let mut broken = img.clone();
    broken[1] = 0;
    assert!(parse_elf(&broken).is_none());
}

#[test]
fn from_elf_builds_user_space() {
    let mut alloc = allocator();
    let img = tiny_elf(0x10000, 0x10000);
    let (ms, user_sp, entry) =
        MemorySet::from_elf_data(&img, PhysPageNumber(0x4999), &mut alloc).unwrap();
    assert_eq!(entry, 0x10000);
    assert_eq!(user_sp % 4096, 0);
    // the segment page holds the image bytes then zeros
    let seg = ms.translate(VirtPageNumber(0x10)).unwrap();
    assert!(seg.is_valid());
    assert_eq!(ms.areas[0].frames[0].data[0..16], img[128..144]);
    assert_eq!(ms.areas[0].frames[0].data[16], 0);
    // trap context page mapped just under the trampoline
    assert!(ms.translate(VirtPageNumber(TRAMPOLINE_VPN - 1)).unwrap().is_valid());
    assert!(ms.translate(VirtPageNumber(TRAMPOLINE_VPN)).unwrap().is_valid());
}

#[test]
fn trap_context_init_sets_entry_and_stack() {
    let ctx = TrapContext::task_init_context(0x5000, 0x9000, 0x800, 42, 7, 0x100);
    assert_eq!(ctx.sepc, 0x5000);
    assert_eq!(ctx.x[2], 0x9000);
    assert_eq!(ctx.x[10], 0);
    // the previous-privilege bit is cleared: return goes to user mode
    assert_eq!(ctx.sstatus & 0x100, 0);
    assert_eq!(ctx.kernel_sp, 0x800);
    assert_eq!(ctx.kernel_satp, 42);
    assert_eq!(ctx.trap_handler, 7);
    let pc = ProcessContext::trap_return_context(0xcafe, 0x8000);
    assert_eq!(pc.ra, 0xcafe);
    assert_eq!(pc.sp, 0x8000);
}

#[test]
fn ready_queue_is_fifo() {
    let mut m = ProcessManager::new();
    m.push(3);
    m.push(1);
    m.push(2);
    assert_eq!(m.pop(), Some(3));
    assert_eq!(m.pop(), Some(1));
    m.push(3);
    assert_eq!(m.pop(), Some(2));
    assert_eq!(m.pop(), Some(3));
    assert_eq!(m.pop(), None);
}

#[test]
fn timer_arithmetic() {
    assert_eq!(set_next_time_trigger(0), 125000);
    assert_eq!(set_next_time_trigger(125000), 250000);
    assert_eq!(get_time_ms(12500), 1);
    assert_eq!(get_time_ms(12500000), 1000);
}

fn boot_kernel() -> (Kernel, AppTable) {
    let mut frame_allocator = StackFrameAllocator::new();
    frame_allocator.init(PhysPageNumber(0x1000), PhysPageNumber(0x9000));
    let l = KernelLayout {
        stext: 0x80200000,
        etext: 0x80210000,
        srodata: 0x80210000,
        erodata: 0x80220000,
        sdata: 0x80220000,
        edata: 0x80230000,
        sbss: 0x80230000,
        ebss: 0x80240000,
        ekernel: 0x80240000,
        memory_end: 0x80300000,
    };
    let kernel_space =
        MemorySet::new_kernel_space(l, PhysPageNumber(0x8999), &mut frame_allocator).unwrap();
    let kernel_satp = kernel_space.page_table.satp_value();
    let kernel = Kernel {
        frame_allocator,
        pid_allocator: PIDAllocator::new(0, 1024),
        kernel_space,
        manager: ProcessManager::new(),
        processor: Processor::new(),
        procs: Vec::new(),
        initproc_pid: 0,
        strampoline_ppn: 0x8999,
        kernel_satp,
        trap_handler_va: 0x80205000,
        trap_return_va: 0x80206000,
        sstatus: 0x100,
    };
    let apps = AppTable {
        names: vec![b"init_proc".to_vec(), b"hello_world".to_vec()],
        images: vec![tiny_elf(0x10000, 0x10000), tiny_elf(0x20000, 0x20000)],
    };
    (kernel, apps)
}

#[test]
fn fork_exec_wait_round_trip() {
    let (mut kernel, apps) = boot_kernel();
    // bring up the first process
    let init_img = apps.get_app_data_by_name(&b"init_proc".to_vec()).unwrap().clone();
    let init = ProcessControlBlock::new(
        &init_img,
        PhysPageNumber(0x8999),
        &mut kernel.frame_allocator,
        &mut kernel.pid_allocator,
        &mut kernel.kernel_space,
        kernel.kernel_satp,
        kernel.trap_handler_va,
        kernel.trap_return_va,
        kernel.sstatus,
    )
    .unwrap();
    let init_pid = init.pid.0;
    assert_eq!(init.status, ProcessStatus::Ready);
    kernel.procs.push(init);
    kernel.add_process(init_pid);
    // the scheduler picks it and marks it running
    assert_eq!(kernel.schedule_step(), Some(init_pid));
    let i = kernel.find_proc(init_pid).unwrap();
    assert_eq!(kernel.procs[i].status, ProcessStatus::Running);
    // fork: the child is ready, queued, and will see 0 in x10
    let child_pid = kernel.sys_fork();
    assert!(child_pid >= 0);
    let ci = kernel.find_proc(child_pid as u64).unwrap();
    assert_eq!(kernel.procs[ci].trap_ctx.x[10], 0);
    assert_eq!(kernel.procs[ci].status, ProcessStatus::Ready);
    assert_eq!(kernel.procs[ci].parent, Some(init_pid));
    // before the child exits, waitpid reports "still running"
    let (w, _) = kernel.sys_waitpid(child_pid);
    assert_eq!(w, -2);
    // the parent suspends; the child runs and execs the other image
    assert_eq!(
        kernel.suspend_current_and_run_next(),
        TrapAction::Switch
    );
    assert_eq!(kernel.schedule_step(), Some(child_pid as u64));
    let rc = kernel.sys_exec(&b"hello_world".to_vec(), &apps);
    assert_eq!(rc, 0);
    let ci2 = kernel.find_proc(child_pid as u64).unwrap();
    assert_eq!(kernel.procs[ci2].trap_ctx.sepc, 0x20000);
    // exec of an unknown name fails without hurting anything
    assert_eq!(kernel.sys_exec(&b"no_such_app".to_vec(), &apps), -1);
    // the child exits with code 0; the parent reaps it
    assert_eq!(kernel.sys_exit(0), TrapAction::Switch);
    let zi = kernel.find_proc(child_pid as u64).unwrap();
    assert_eq!(kernel.procs[zi].status, ProcessStatus::Zombie);
    assert_eq!(kernel.schedule_step(), Some(init_pid));
    let (w2, code) = kernel.sys_waitpid(child_pid);
    assert_eq!(w2, child_pid);
    assert_eq!(code, 0);
    // the zombie is unlinked: waiting again finds no child
    let (w3, _) = kernel.sys_waitpid(child_pid);
    assert_eq!(w3, -1);
}

#[test]
fn timer_trap_preempts_round_robin() {
    let (mut kernel, apps) = boot_kernel();
    let img = apps.get_app_data_by_name(&b"init_proc".to_vec()).unwrap().clone();
    for _ in 0..2 {
        let p = ProcessControlBlock::new(
            &img,
            PhysPageNumber(0x8999),
            &mut kernel.frame_allocator,
            &mut kernel.pid_allocator,
            &mut kernel.kernel_space,
            kernel.kernel_satp,
            kernel.trap_handler_va,
            kernel.trap_return_va,
            kernel.sstatus,
        )
        .unwrap();
        let pid = p.pid.0;
        kernel.procs.push(p);
        kernel.add_process(pid);
    }
    // two looping processes alternate under timer preemption
    let first = kernel.schedule_step().unwrap();
    let path = Vec::new();
    let (_, action) = kernel.trap_handler(TrapCause::SupervisorTimer, &apps, &path);
    assert_eq!(action, TrapAction::RearmTimer);
    let second = kernel.schedule_step().unwrap();
    assert_ne!(first, second);
    let (_, action2) = kernel.trap_handler(TrapCause::SupervisorTimer, &apps, &path);
    assert_eq!(action2, TrapAction::RearmTimer);
    assert_eq!(kernel.schedule_step(), Some(first));
}

#[test]
fn faults_kill_with_documented_codes() {
    let (mut kernel, apps) = boot_kernel();
    let img = apps.images[0].clone();
    let p = ProcessControlBlock::new(
        &img,
        PhysPageNumber(0x8999),
        &mut kernel.frame_allocator,
        &mut kernel.pid_allocator,
        &mut kernel.kernel_space,
        kernel.kernel_satp,
        kernel.trap_handler_va,
        kernel.trap_return_va,
        kernel.sstatus,
    )
    .unwrap();
    let pid = p.pid.0;
    kernel.procs.push(p);
    kernel.add_process(pid);
    kernel.schedule_step();
    let path = Vec::new();
    let (code, action) = kernel.trap_handler(TrapCause::StorePageFault, &apps, &path);
    assert_eq!((code, action), (-2, TrapAction::Switch));
    let i = kernel.find_proc(pid).unwrap();
    assert_eq!(kernel.procs[i].exit_code, -2);
    assert_eq!(kernel.procs[i].status, ProcessStatus::Zombie);
    // the recycled address space holds no areas any more
    assert_eq!(kernel.procs[i].memory_set.areas.len(), 0);
}

#[test]
fn illegal_instruction_kills_with_minus_three() {
    let (mut kernel, apps) = boot_kernel();
    let img = apps.images[0].clone();
    let p = ProcessControlBlock::new(
        &img,
        PhysPageNumber(0x8999),
        &mut kernel.frame_allocator,
        &mut kernel.pid_allocator,
        &mut kernel.kernel_space,
        kernel.kernel_satp,
        kernel.trap_handler_va,
        kernel.trap_return_va,
        kernel.sstatus,
    )
    .unwrap();
    let pid = p.pid.0;
    kernel.procs.push(p);
    kernel.add_process(pid);
    kernel.schedule_step();
    let path = Vec::new();
    let (code, action) = kernel.trap_handler(TrapCause::IllegalInstruction, &apps, &path);
    assert_eq!((code, action), (-3, TrapAction::Switch));
    let i = kernel.find_proc(pid).unwrap();
    assert_eq!(kernel.procs[i].exit_code, -3);
}

#[test]
fn initproc_bring_up_and_wait_probe() {
    let (mut kernel, apps) = boot_kernel();
    assert!(kernel.add_initproc(&apps.images[0]));
    let init_pid = kernel.initproc_pid;
    assert_eq!(kernel.schedule_step(), Some(init_pid));
    assert!(kernel.current_proc_satp().is_some());
    // no child yet: wait reports "no matching child"
    let (w, _) = kernel.sys_wait();
    assert_eq!(w, -1);
    let child = kernel.sys_fork();
    assert!(child >= 0);
    let (w2, _) = kernel.sys_wait();
    assert_eq!(w2, -2);
}

#[test]
fn unknown_trap_and_syscall_halt() {
    let (mut kernel, apps) = boot_kernel();
    let path = Vec::new();
    let (_, action) = kernel.trap_handler(TrapCause::Unknown, &apps, &path);
    assert_eq!(action, TrapAction::Halt);
    let (_, action2) = kernel.syscall(999, 0, &apps, &path);
    assert_eq!(action2, TrapAction::Halt);
    let (v, action3) = kernel.syscall(SYS_CALL_WAITPID, 5, &apps, &path);
    assert_eq!(action3, TrapAction::Return);
    assert_eq!(v, -1);
}
