use rvkern::mem_layout::TRAMPOLINE;
use rvkern::proc::{scheduler_select, BootInfo, Kernel, Proc, ProcState};

const KERN_BASE: u64 = 0x8000_0000;

fn boot(frames: u64) -> BootInfo {
    let heap_start = KERN_BASE + 0x20_0000;
    BootInfo {
        text_end: KERN_BASE + 0x10_0000,
        phy_stop: heap_start + frames * 4096,
        heap_start,
        trampoline: KERN_BASE + 0x11_0000,
        kernel_vec: KERN_BASE + 0x1000,
        uservec_off: 0,
        userret_off: 0x100,
        fork_ret: KERN_BASE + 0x2000,
        user_trap: KERN_BASE + 0x3000,
    }
}

#[test]
fn new_kernel_starts_empty() {
    let k = Kernel::new(boot(16));
    assert_eq!(k.next_pid, 1);
    assert_eq!(k.procs.len(), 64);
    assert_eq!(k.cpus.len(), 4);
    assert!(k.kernel_page_table.is_none());
    for p in &k.procs {
        assert!(matches!(p.state, ProcState::Unused));
    }
    assert_eq!(k.mem.free_count(), 16);
}

#[test]
fn proc_init_lays_stacks_below_trampoline() {
    let mut k = Kernel::new(boot(8));
    k.proc_init();
    assert_eq!(k.procs[0].kstack, TRAMPOLINE - 2 * 4096);
    assert_eq!(k.procs[1].kstack, TRAMPOLINE - 4 * 4096);
    assert_eq!(k.procs[63].kstack, TRAMPOLINE - 128 * 4096);
}

#[test]
fn alloc_proc_builds_a_runnable_slot() {
    let mut k = Kernel::new(boot(16));
    k.proc_init();
    let i = k.alloc_proc().unwrap();
    assert_eq!(i, 0);
    assert!(matches!(k.procs[0].state, ProcState::Runnable));
    assert_eq!(k.procs[0].pid, 1);
    assert_eq!(k.procs[0].size, 0);
    assert!(k.procs[0].page_table.is_some());
    assert!(k.procs[0].trap_frame.is_some());
    assert_eq!(k.procs[0].context.ra, k.boot.fork_ret);
    assert_eq!(k.procs[0].context.sp, k.procs[0].kstack + 4096);
    // the next allocation takes the next slot and the next id
    let j = k.alloc_proc().unwrap();
    assert_eq!(j, 1);
    assert_eq!(k.procs[1].pid, 2);
}

#[test]
fn alloc_then_free_restores_frame_count() {
    let mut k = Kernel::new(boot(16));
    k.proc_init();
    let before = k.mem.free_count();
    let i = k.alloc_proc().unwrap();
    // one trap-frame page plus three page-table nodes
    assert_eq!(k.mem.free_count(), before - 4);
    assert_eq!(k.free_proc(i), Ok(()));
    assert_eq!(k.mem.free_count(), before);
    assert!(matches!(k.procs[i].state, ProcState::Unused));
    assert!(k.procs[i].page_table.is_none());
    assert!(k.procs[i].trap_frame.is_none());
}

#[test]
fn alloc_proc_fails_cleanly_when_out_of_frames() {
    let mut k = Kernel::new(boot(2));
    k.proc_init();
    let before = k.mem.free_count();
    assert!(k.alloc_proc().is_none());
    assert_eq!(k.mem.free_count(), before);
}

#[test]
fn user_init_loads_the_first_process() {
    let mut k = Kernel::new(boot(16));
    k.proc_init();
    let image = vec![0x13u8; 4096];
    let i = k.user_init(&image).unwrap();
    assert!(matches!(k.procs[i].state, ProcState::Runnable));
    assert_eq!(k.procs[i].size, 4096);
    match &k.procs[i].trap_frame {
        Some(t) => {
            assert_eq!(t.frame.epc, 0);
            assert_eq!(t.frame.sp, 4096);
        },
        None => panic!("first process has no trap frame"),
    }
}

#[test]
fn scheduler_select_scans_ascending() {
    let mut procs: Vec<Proc> = Vec::new();
    for _ in 0..8 {
        procs.push(Proc::new());
    }
    procs[0].state = ProcState::Runnable;
    procs[1].state = ProcState::Runnable;
    procs[2].state = ProcState::Runnable;
    // one full pass visits the runnable prefix exactly once, ascending
    let mut visits = Vec::new();
    let mut start = 0usize;
    while let Some(i) = scheduler_select(&procs, start) {
        visits.push(i);
        start = i + 1;
    }
    assert_eq!(visits, vec![0, 1, 2]);
    // a sleeping slot in front does not hide the runnable ones behind it
    procs[0].state = ProcState::Sleeping;
    assert_eq!(scheduler_select(&procs, 0), Some(1));
    // nothing runnable from a later start
    assert_eq!(scheduler_select(&procs, 3), None);
}

#[test]
fn scheduler_marks_running_and_records_current() {
    let mut k = Kernel::new(boot(16));
    k.proc_init();
    let a = k.alloc_proc().unwrap();
    let got = k.scheduler(0);
    assert_eq!(got, Some(a));
    assert!(matches!(k.procs[a].state, ProcState::Running));
    assert_eq!(k.cpus[k.hart].current, Some(a));
    // yielding puts it back and returns the unit to the scheduler
    assert_eq!(k.yield_cpu(), Ok(()));
    assert!(matches!(k.procs[a].state, ProcState::Runnable));
    assert_eq!(k.cpus[k.hart].current, None);
}

#[test]
fn kernel_mappings_carry_their_permission_bits() {
    let mut k = Kernel::new(boot(600));
    k.proc_init();
    assert_eq!(k.kvm_init(), Ok(()));
    match &k.kernel_page_table {
        Some(kt) => {
            // kernel code is read/execute, RAM read/write, devices read/write
            let rx = 0x2u64 | 0x8 | 1;
            let rw = 0x2u64 | 0x4 | 1;
            let code_pte = rvkern::vm::walk(kt, KERN_BASE).unwrap();
            assert_eq!(code_pte & 0x3ff, rx);
            let ram_pte = rvkern::vm::walk(kt, k.boot.text_end).unwrap();
            assert_eq!(ram_pte & 0x3ff, rw);
            let uart_pte = rvkern::vm::walk(kt, 0x1000_0000).unwrap();
            assert_eq!(uart_pte & 0x3ff, rw);
            let tramp_pte = rvkern::vm::walk(kt, TRAMPOLINE).unwrap();
            assert_eq!(tramp_pte & 0x3ff, rx);
            // stacks are read/write, and the guard page between the first
            // two stacks stays unmapped
            let stack_pte = rvkern::vm::walk(kt, TRAMPOLINE - 2 * 4096).unwrap();
            assert_eq!(stack_pte & 0x3ff, rw);
            assert_eq!(rvkern::vm::translate(kt, TRAMPOLINE - 3 * 4096), None);
        },
        None => panic!("kernel table missing"),
    }
}

#[test]
fn alloc_proc_none_consumes_nothing() {
    // no Unused slot left: the call changes nothing
    let mut k = Kernel::new(boot(300));
    k.proc_init();
    for _ in 0..64 {
        assert!(k.alloc_proc().is_some());
    }
    let before_pid = k.next_pid;
    let before_frames = k.mem.free_count();
    assert!(k.alloc_proc().is_none());
    assert_eq!(k.next_pid, before_pid);
    assert_eq!(k.mem.free_count(), before_frames);
}

#[test]
fn kvm_init_builds_identity_kernel_space() {
    let mut k = Kernel::new(boot(600));
    k.proc_init();
    assert_eq!(k.kvm_init(), Ok(()));
    assert!(k.kernel_page_table.is_some());
    let satp = k.kvm_init_hart();
    assert_eq!(k.cpus[k.hart].satp, satp);
    match &k.kernel_page_table {
        Some(kt) => {
            // device windows and the kernel image are identity mapped
            assert_eq!(rvkern::vm::translate(kt, 0x1000_0000), Some(0x1000_0000));
            assert_eq!(rvkern::vm::translate(kt, 0x1000_1004), Some(0x1000_1004));
            assert_eq!(rvkern::vm::translate(kt, 0x0c00_0000), Some(0x0c00_0000));
            assert_eq!(rvkern::vm::translate(kt, KERN_BASE + 8), Some(KERN_BASE + 8));
            // the trampoline page sits at the fixed high address
            assert_eq!(
                rvkern::vm::translate(kt, TRAMPOLINE + 4),
                Some(k.boot.trampoline + 4)
            );
            // the stack page of slot zero is mapped
            assert!(rvkern::vm::translate(kt, TRAMPOLINE - 2 * 4096).is_some());
        },
        None => panic!("kernel table missing"),
    }
}
