use rvkern::errors::Fatal;
use rvkern::mem_layout::{TRAMPOLINE, TRAP_FRAME};
use rvkern::proc::{BootInfo, Kernel, ProcState};
use rvkern::riscv::{SSTATUS_SIE, SSTATUS_SPIE, SSTATUS_SPP};
use rvkern::trap::{fork_ret, kernel_trap, trap_init_hart, user_trap, user_trap_ret, TrapKind};

const KERN_BASE: u64 = 0x8000_0000;
const INTERRUPT: u64 = 0x8000_0000_0000_0000;

fn booted(frames: u64) -> Kernel {
    let heap = KERN_BASE + 0x20_0000;
    let boot = BootInfo {
        text_end: KERN_BASE + 0x10_0000,
        phy_stop: heap + frames * 4096,
        heap_start: heap,
        trampoline: KERN_BASE + 0x11_0000,
        kernel_vec: KERN_BASE + 0x1000,
        uservec_off: 16,
        userret_off: 0x100,
        fork_ret: KERN_BASE + 0x2000,
        user_trap: KERN_BASE + 0x3000,
    };
    let mut k = Kernel::new(boot);
    k.proc_init();
    k
}

/// A kernel with one process dispatched and running.
fn running(frames: u64) -> Kernel {
    let mut k = booted(frames);
    let image = vec![0x13u8; 4096];
    k.user_init(&image).unwrap();
    assert!(k.scheduler(0).is_some());
    k
}

#[test]
fn trap_vector_installed() {
    let mut k = booted(8);
    trap_init_hart(&mut k);
    assert_eq!(k.cpus[k.hart].stvec, k.boot.kernel_vec);
}

#[test]
fn kernel_trap_guards_privilege_and_interrupts() {
    let mut k = booted(8);
    // entered from user privilege: fatal
    assert_eq!(kernel_trap(&mut k, INTERRUPT | 1, 0, 0), Err(Fatal::TrapNotFromSupervisor));
    // supervisor, but interrupts still enabled: fatal
    let h = k.hart;
    k.cpus[h].sstatus = SSTATUS_SPP | SSTATUS_SIE;
    assert_eq!(kernel_trap(&mut k, INTERRUPT | 1, 0, 0), Err(Fatal::TrapInterruptsOn));
}

#[test]
fn kernel_trap_timer_preempts_running_process() {
    let mut k = running(16);
    let h = k.hart;
    let p = k.cpus[h].current.unwrap();
    k.cpus[h].sstatus = SSTATUS_SPP;
    k.cpus[h].sip = 2;
    assert_eq!(kernel_trap(&mut k, INTERRUPT | 1, 0, 0), Ok(TrapKind::Timer));
    // the running process yielded and the pending bit is acknowledged
    assert!(matches!(k.procs[p].state, ProcState::Runnable));
    assert_eq!(k.cpus[h].current, None);
    assert_eq!(k.cpus[h].sip, 0);
}

#[test]
fn kernel_trap_external_and_unknown() {
    let mut k = booted(8);
    let h = k.hart;
    k.cpus[h].sstatus = SSTATUS_SPP;
    assert_eq!(kernel_trap(&mut k, INTERRUPT | 9, 0, 0), Ok(TrapKind::External));
    // an unknown cause reaches the fatal path with its diagnostic
    assert_eq!(kernel_trap(&mut k, INTERRUPT | 7, 0, 0), Err(Fatal::UnhandledTrap(INTERRUPT | 7)));
    assert_eq!(kernel_trap(&mut k, 2, 0, 0), Err(Fatal::UnhandledTrap(2)));
    assert_eq!(kernel_trap(&mut k, 5, 0, 0), Err(Fatal::LoadAccessFault));
    assert_eq!(kernel_trap(&mut k, 13, 0, 0), Err(Fatal::LoadPageFault));
}

#[test]
fn syscall_advances_saved_pc_by_four() {
    let mut k = running(16);
    let h = k.hart;
    let p = k.cpus[h].current.unwrap();
    // the previous privilege must be user
    k.cpus[h].sstatus = 0;
    let entry_pc = 0x1a0u64;
    assert_eq!(user_trap(&mut k, 8, entry_pc, 0), Ok(TrapKind::Syscall));
    match &k.procs[p].trap_frame {
        Some(t) => assert_eq!(t.frame.epc, entry_pc + 4),
        None => panic!("no trap frame"),
    }
    // the kernel vector is back in place for the next trap
    assert_eq!(k.cpus[h].stvec, k.boot.kernel_vec);
}

#[test]
fn user_trap_unknown_cause_is_fatal() {
    let mut k = running(16);
    let h = k.hart;
    k.cpus[h].sstatus = 0;
    assert_eq!(user_trap(&mut k, 3, 0x100, 0), Err(Fatal::UnhandledTrap(3)));
    assert_eq!(user_trap(&mut k, 12, 0x100, 0), Err(Fatal::InstructionPageFault));
    assert_eq!(user_trap(&mut k, 15, 0x100, 0), Err(Fatal::StorePageFault));
    // entered with supervisor as the previous privilege: fatal
    k.cpus[h].sstatus = SSTATUS_SPP;
    assert_eq!(user_trap(&mut k, 8, 0x100, 0), Err(Fatal::TrapNotFromUser));
}

#[test]
fn user_trap_timer_yields() {
    let mut k = running(16);
    let h = k.hart;
    let p = k.cpus[h].current.unwrap();
    k.cpus[h].sstatus = 0;
    assert_eq!(user_trap(&mut k, INTERRUPT | 1, 0x200, 0), Ok(TrapKind::Timer));
    assert!(matches!(k.procs[p].state, ProcState::Runnable));
    assert_eq!(k.cpus[h].current, None);
}

#[test]
fn return_to_user_stages_the_transition() {
    let mut k = running(16);
    let h = k.hart;
    let p = k.cpus[h].current.unwrap();
    k.cpus[h].sstatus = SSTATUS_SIE | SSTATUS_SPP;
    k.cpus[h].satp = 0xabc;
    let (tf_va, satp_val) = user_trap_ret(&mut k).unwrap();
    assert_eq!(tf_va, TRAP_FRAME);
    match &k.procs[p].page_table {
        Some(a) => assert_eq!(satp_val, rvkern::riscv::make_satp(a.root.pa)),
        None => panic!("no page table"),
    }
    match &k.procs[p].trap_frame {
        Some(t) => {
            assert_eq!(t.frame.kernel_satp, 0xabc);
            assert_eq!(t.frame.kernel_sp, k.procs[p].kstack + 4096);
            assert_eq!(t.frame.kernel_trap, k.boot.user_trap);
            assert_eq!(t.frame.kernel_hartid, k.hart as u64);
        },
        None => panic!("no trap frame"),
    }
    // user mode on return, interrupts due once back, vector in the trampoline
    assert_eq!(k.cpus[h].sstatus & SSTATUS_SPP, 0);
    assert_ne!(k.cpus[h].sstatus & SSTATUS_SPIE, 0);
    assert_eq!(k.cpus[h].sstatus & SSTATUS_SIE, 0);
    assert_eq!(k.cpus[h].stvec, TRAMPOLINE + k.boot.uservec_off);
    // the bootstrap path of a fresh process goes through the same sequence
    let mut k2 = running(16);
    let h2 = k2.hart;
    k2.cpus[h2].sstatus = 0;
    assert!(fork_ret(&mut k2).is_ok());
}
