//! Trap and interrupt dispatch: the state machine entered on every privilege
//! transition. The hardware-captured cause, program counter and fault-value
//! registers arrive as arguments; the handlers consult and update the process
//! table and the per-unit register model, and hand back what the embedder
//! must do next (run the interrupt-controller protocol, or jump through the
//! trampoline with the returned pair). An unrecognized cause always reaches
//! the fatal path — never a silent return.
use vstd::prelude::*;

use crate::errors::Fatal;
use crate::mem_layout::TRAMPOLINE;
use crate::mem_layout::TRAP_FRAME;
use crate::param::NCPU;
use crate::param::NPROC;
use crate::proc::lemma_same_frames_ok;
use crate::proc::proc_frames_ok;
use crate::proc::proc_owns_pa;
use crate::proc::Kernel;
use crate::proc::ProcState;
use crate::riscv::SCAUSE_INTERRUPT;
use crate::riscv::SSTATUS_SIE;
use crate::riscv::SSTATUS_SPIE;
use crate::riscv::SSTATUS_SPP;

verus! {

/// What a kernel-mode trap asked of the embedder.
#[derive(Clone, Copy, Debug, PartialEq, Eq, Structural)]
pub enum TrapKind {
    /// A timer tick: any running process has yielded and the pending bit is
    /// acknowledged.
    Timer,
    /// An external interrupt: run the claim/route/complete protocol of the
    /// interrupt controller.
    External,
    /// A system call from user mode: the saved program counter has been
    /// advanced past the call instruction.
    Syscall,
}

/// Install the kernel trap vector on this unit.
pub fn trap_init_hart(k: &mut Kernel)
    requires
        old(k).inv(),
    ensures
        final(k).inv(),
        final(k).cpus@[old(k).hart as int].stvec == old(k).boot.kernel_vec,
        final(k).cpus@[old(k).hart as int].current == old(k).cpus@[old(k).hart as int].current,
        final(k).procs@ == old(k).procs@,
        final(k).mem == old(k).mem,
        final(k).boot == old(k).boot,
        final(k).hart == old(k).hart,
        final(k).kernel_page_table == old(k).kernel_page_table,
        forall|c: int|
            0 <= c < NCPU && c != old(k).hart ==> #[trigger] final(k).cpus@[c] == old(k).cpus@[c],
{
    let h = k.hart;
    let kv = k.boot.kernel_vec;
    let cp = &mut k.cpus[h];
    cp.stvec = kv;
}

/// The kernel-mode trap handler: fatal if entered from user privilege or with
/// interrupts still enabled; a timer tick makes the running process yield and
/// clears the pending bit; an external interrupt is handed to the controller
/// protocol; anything else is an unhandled trap with the cause as diagnostic.
pub fn kernel_trap(k: &mut Kernel, scause: u64, sepc: u64, stval: u64) -> (r: Result<
    TrapKind,
    Fatal,
>)
    requires
        old(k).inv(),
    ensures
        final(k).inv(),
        final(k).mem == old(k).mem,
        final(k).boot == old(k).boot,
        final(k).hart == old(k).hart,
        final(k).kernel_page_table == old(k).kernel_page_table,
        match r {
            Ok(TrapKind::Timer) => {
                &&& scause & SCAUSE_INTERRUPT != 0 && scause & 0xff == 1
                &&& final(k).cpus@[old(k).hart as int].sip == old(k).cpus@[old(
                    k,
                ).hart as int].sip & !2u64
                &&& ((old(k).cpus@[old(k).hart as int].current is Some
                    && old(k).procs@[old(k).cpus@[old(k).hart as int].current->Some_0 as int].state
                    is Running) ==> (final(k).procs@[old(k).cpus@[old(
                    k,
                ).hart as int].current->Some_0 as int].state is Runnable
                    && final(k).cpus@[old(k).hart as int].current is None))
            },
            Ok(TrapKind::External) => {
                &&& scause & SCAUSE_INTERRUPT != 0 && scause & 0xff == 9
                &&& *final(k) == *old(k)
            },
            Ok(TrapKind::Syscall) => false,
            Err(e) => {
                &&& *final(k) == *old(k)
                &&& (e == Fatal::TrapNotFromSupervisor <==> old(k).cpus@[old(
                    k,
                ).hart as int].sstatus & SSTATUS_SPP == 0)
                &&& (e == Fatal::TrapInterruptsOn ==> old(k).cpus@[old(k).hart as int].sstatus
                    & SSTATUS_SIE != 0)
                &&& (e == Fatal::LoadAccessFault ==> scause & SCAUSE_INTERRUPT == 0 && scause
                    & 0xff == 5)
                &&& (e == Fatal::LoadPageFault ==> scause & SCAUSE_INTERRUPT == 0 && scause & 0xff
                    == 13)
                &&& (e matches Fatal::UnhandledTrap(c) ==> c == scause)
                &&& (e == Fatal::TrapNotFromSupervisor || e == Fatal::TrapInterruptsOn || e
                    == Fatal::LoadAccessFault || e == Fatal::LoadPageFault || e matches
                    Fatal::UnhandledTrap(_))
            },
        },
        // never a silent return: an unknown cause is fatal
        (old(k).cpus@[old(k).hart as int].sstatus & SSTATUS_SPP != 0 && old(k).cpus@[old(
            k,
        ).hart as int].sstatus & SSTATUS_SIE == 0 && !(scause & SCAUSE_INTERRUPT != 0 && (scause
            & 0xff == 1 || scause & 0xff == 9))) ==> (r matches Err(e) && (e matches
            Fatal::UnhandledTrap(c) && c == scause || e == Fatal::LoadAccessFault || e
            == Fatal::LoadPageFault)),
        // a violated entry gate is always fatal
        (old(k).cpus@[old(k).hart as int].sstatus & SSTATUS_SPP == 0 || old(k).cpus@[old(
            k,
        ).hart as int].sstatus & SSTATUS_SIE != 0) ==> r is Err,
        // the recognized causes are owed their handling
        (old(k).cpus@[old(k).hart as int].sstatus & SSTATUS_SPP != 0 && old(k).cpus@[old(
            k,
        ).hart as int].sstatus & SSTATUS_SIE == 0 && scause & SCAUSE_INTERRUPT != 0 && scause
            & 0xff == 1) ==> r == Ok::<TrapKind, Fatal>(TrapKind::Timer),
        (old(k).cpus@[old(k).hart as int].sstatus & SSTATUS_SPP != 0 && old(k).cpus@[old(
            k,
        ).hart as int].sstatus & SSTATUS_SIE == 0 && scause & SCAUSE_INTERRUPT != 0 && scause
            & 0xff == 9) ==> r == Ok::<TrapKind, Fatal>(TrapKind::External),
{
    let h = k.hart;
    let sstatus = k.cpus[h].sstatus;
    if sstatus & SSTATUS_SPP == 0 {
        return Err(Fatal::TrapNotFromSupervisor);
    }
    if sstatus & SSTATUS_SIE != 0 {
        return Err(Fatal::TrapInterruptsOn);
    }
    if scause & SCAUSE_INTERRUPT != 0 {
        let code = scause & 0xff;
        if code == 1 {
            // timer tick: make the running process give the unit up
            let cur = k.my_proc();
            if let Some(p) = cur {
                if matches!(k.procs[p].state, ProcState::Running) {
                    match k.yield_cpu() {
                        Ok(()) => {},
                        Err(_) => {
                            proof {
                                assert(false);
                            }
                            return Err(Fatal::SchedInterruptsOn);
                        },
                    }
                }
            }
            // acknowledge the pending software-interrupt bit
            let h2 = k.hart;
            let sip = k.cpus[h2].sip;
            let cp = &mut k.cpus[h2];
            cp.sip = sip & !2u64;
            Ok(TrapKind::Timer)
        } else if code == 9 {
            Ok(TrapKind::External)
        } else {
            Err(Fatal::UnhandledTrap(scause))
        }
    } else {
        let code = scause & 0xff;
        if code == 5 {
            Err(Fatal::LoadAccessFault)
        } else if code == 13 {
            Err(Fatal::LoadPageFault)
        } else {
            Err(Fatal::UnhandledTrap(scause))
        }
    }
}

/// The user-mode trap handler, entered through the trampoline: fatal if the
/// previous privilege was supervisor; re-installs the kernel trap vector,
/// records the interrupted program counter into the trap frame, and
/// dispatches on the cause. A system call advances the saved program counter
/// by exactly four past the call instruction; a timer tick yields; faults and
/// unknown causes are fatal with a diagnostic.
pub fn user_trap(k: &mut Kernel, scause: u64, sepc: u64, stval: u64) -> (r: Result<
    TrapKind,
    Fatal,
>)
    requires
        old(k).inv(),
        old(k).cpus@[old(k).hart as int].current is Some,
        old(k).procs@[old(k).cpus@[old(k).hart as int].current->Some_0 as int].trap_frame is Some,
        sepc + 4 <= u64::MAX,
    ensures
        final(k).inv(),
        final(k).mem == old(k).mem,
        final(k).boot == old(k).boot,
        final(k).hart == old(k).hart,
        final(k).kernel_page_table == old(k).kernel_page_table,
        match r {
            Ok(TrapKind::Syscall) => {
                &&& scause & SCAUSE_INTERRUPT == 0 && scause & 0xff == 8
                &&& final(k).procs@[old(k).cpus@[old(k).hart as int].current->Some_0 as int].trap_frame
                    matches Some(tf) && tf.frame.epc == sepc + 4
                &&& final(k).cpus@[old(k).hart as int].stvec == old(k).boot.kernel_vec
            },
            Ok(TrapKind::Timer) => {
                &&& scause & SCAUSE_INTERRUPT != 0 && scause & 0xff == 1
                &&& final(k).procs@[old(k).cpus@[old(k).hart as int].current->Some_0 as int].trap_frame
                    matches Some(tf) && tf.frame.epc == sepc
                &&& final(k).procs@[old(k).cpus@[old(k).hart as int].current->Some_0 as int].state
                    is Runnable
                &&& final(k).cpus@[old(k).hart as int].current is None
            },
            Ok(TrapKind::External) => false,
            Err(e) => {
                &&& (e == Fatal::TrapNotFromUser <==> old(k).cpus@[old(k).hart as int].sstatus
                    & SSTATUS_SPP != 0)
                &&& (e == Fatal::SchedInterruptsOn ==> old(k).cpus@[old(k).hart as int].sstatus
                    & SSTATUS_SIE != 0)
                &&& (e == Fatal::InstructionPageFault ==> scause & SCAUSE_INTERRUPT == 0 && scause
                    & 0xff == 12)
                &&& (e == Fatal::StorePageFault ==> scause & SCAUSE_INTERRUPT == 0 && scause & 0xff
                    == 15)
                &&& (e matches Fatal::UnhandledTrap(c) ==> c == scause)
                &&& (e == Fatal::TrapNotFromUser || e == Fatal::SchedInterruptsOn || e
                    == Fatal::InstructionPageFault || e == Fatal::StorePageFault || e matches
                    Fatal::UnhandledTrap(_))
            },
        },
        // an unrecognized cause reaches the fatal path, never a silent return
        (old(k).cpus@[old(k).hart as int].sstatus & SSTATUS_SPP == 0 && !(scause & SCAUSE_INTERRUPT
            != 0 && scause & 0xff == 1) && !(scause & SCAUSE_INTERRUPT == 0 && scause & 0xff == 8))
            ==> r is Err,
        // entering from supervisor privilege is always fatal
        old(k).cpus@[old(k).hart as int].sstatus & SSTATUS_SPP != 0 ==> r is Err,
        // the recognized causes are owed their handling
        (old(k).cpus@[old(k).hart as int].sstatus & SSTATUS_SPP == 0 && scause & SCAUSE_INTERRUPT
            == 0 && scause & 0xff == 8) ==> r == Ok::<TrapKind, Fatal>(TrapKind::Syscall),
        (old(k).cpus@[old(k).hart as int].sstatus & SSTATUS_SPP == 0 && scause & SCAUSE_INTERRUPT
            != 0 && scause & 0xff == 1 && old(k).cpus@[old(k).hart as int].sstatus & SSTATUS_SIE
            == 0) ==> r == Ok::<TrapKind, Fatal>(TrapKind::Timer),
        // past the privilege gate, the kernel trap vector is back in place
        old(k).cpus@[old(k).hart as int].sstatus & SSTATUS_SPP == 0 ==> final(k).cpus@[old(
            k,
        ).hart as int].stvec == old(k).boot.kernel_vec,
{
    let h = k.hart;
    let sstatus = k.cpus[h].sstatus;
    if sstatus & SSTATUS_SPP != 0 {
        return Err(Fatal::TrapNotFromUser);
    }
    // back on the kernel trap vector
    let kv = k.boot.kernel_vec;
    let cp = &mut k.cpus[h];
    cp.stvec = kv;
    // record where user execution was interrupted
    let p = match k.cpus[h].current {
        Some(p) => p,
        None => {
            proof {
                assert(false);
            }
            return Err(Fatal::TrapNotFromUser);
        },
    };
    let ghost k1 = *k;
    let pr = &mut k.procs[p];
    let mut tfp = match pr.trap_frame.take() {
        Some(t) => t,
        None => {
            proof {
                assert(false);
            }
            return Err(Fatal::TrapNotFromUser);
        },
    };
    tfp.frame.epc = sepc;
    if scause & SCAUSE_INTERRUPT == 0 && scause & 0xff == 8 {
        // system call: resume past the four-byte call instruction
        tfp.frame.epc = sepc + 4;
    }
    let pr = &mut k.procs[p];
    pr.trap_frame = Some(tfp);
    proof {
        restore_inv(k1, *k);
    }
    if scause & SCAUSE_INTERRUPT != 0 {
        let code = scause & 0xff;
        if code == 1 {
            match k.yield_cpu() {
                Ok(()) => {},
                Err(e) => {
                    return Err(e);
                },
            }
            let h2 = k.hart;
            let sip = k.cpus[h2].sip;
            let cp = &mut k.cpus[h2];
            cp.sip = sip & !2u64;
            Ok(TrapKind::Timer)
        } else {
            Err(Fatal::UnhandledTrap(scause))
        }
    } else {
        let code = scause & 0xff;
        if code == 8 {
            Ok(TrapKind::Syscall)
        } else if code == 12 {
            Err(Fatal::InstructionPageFault)
        } else if code == 15 {
            Err(Fatal::StorePageFault)
        } else {
            Err(Fatal::UnhandledTrap(scause))
        }
    }
}

/// Re-establish the kernel invariant after only a trap frame's register
/// contents changed: the frame keeps its page, so no ownership moved.
proof fn restore_inv(k0: Kernel, k1: Kernel)
    requires
        k0.inv(),
        k1.mem == k0.mem,
        k1.boot == k0.boot,
        k1.hart == k0.hart,
        k1.cpus@ == k0.cpus@,
        k1.kernel_page_table == k0.kernel_page_table,
        k1.procs@.len() == k0.procs@.len(),
        forall|j: int|
            0 <= j < k0.procs@.len() ==> {
                let p0 = #[trigger] k0.procs@[j];
                let p1 = k1.procs@[j];
                p1.page_table == p0.page_table && (match (p1.trap_frame, p0.trap_frame) {
                    (Some(t1), Some(t0)) => t1.pa == t0.pa,
                    (None, None) => true,
                    _ => false,
                }) && p1.size == p0.size && p1.kstack == p0.kstack && (p1.state is Unused
                    ==> p0.state is Unused)
            },
    ensures
        k1.inv(),
{
    assert forall|j: int| 0 <= j < NPROC implies (#[trigger] k1.procs@[j]).kstack
        <= TRAMPOLINE by {
        assert(k0.procs@[j].kstack <= TRAMPOLINE);
    }
    assert forall|j: int| 0 <= j < NPROC implies proc_frames_ok(
        #[trigger] k1.procs@[j],
        k1.mem,
    ) by {
        lemma_same_frames_ok(k0.procs@[j], k1.procs@[j], k0.mem);
    }
    assert forall|j1: int, j2: int, pa: u64|
        0 <= j1 < NPROC && 0 <= j2 < NPROC && j1 != j2 && #[trigger] proc_owns_pa(
            k1.procs@[j1],
            pa,
        ) implies !(#[trigger] proc_owns_pa(k1.procs@[j2], pa)) by {
        lemma_same_frames_ok(k0.procs@[j1], k1.procs@[j1], k0.mem);
        lemma_same_frames_ok(k0.procs@[j2], k1.procs@[j2], k0.mem);
    }
    if k1.kernel_page_table is Some {
        assert forall|j: int, pa: u64|
            0 <= j < NPROC && #[trigger] proc_owns_pa(k1.procs@[j], pa) implies !(
        k1.kernel_page_table->Some_0).is_table_pa(pa) by {
            lemma_same_frames_ok(k0.procs@[j], k1.procs@[j], k0.mem);
        }
    }
}

/// The return-to-user sequence: disable interrupts, point the trap vector at
/// the trampoline's user-entry routine, fill the trap frame's kernel-resume
/// fields, flip the status register to user mode with interrupts due on
/// return, stage the resume program counter, and hand back the pair the
/// trampoline's user-return routine takes: the trap-frame virtual address and
/// the process's translation-control value. The jump itself never returns to
/// its caller.
pub fn user_trap_ret(k: &mut Kernel) -> (r: Result<(u64, u64), Fatal>)
    requires
        old(k).inv(),
        old(k).cpus@[old(k).hart as int].current is Some,
        old(k).procs@[old(k).cpus@[old(k).hart as int].current->Some_0 as int].trap_frame is Some,
        old(k).procs@[old(k).cpus@[old(k).hart as int].current->Some_0 as int].page_table is Some,
        old(k).boot.uservec_off < 4096,
    ensures
        final(k).inv(),
        final(k).mem == old(k).mem,
        final(k).boot == old(k).boot,
        final(k).hart == old(k).hart,
        final(k).kernel_page_table == old(k).kernel_page_table,
        r matches Ok(pair) ==> {
            let h = old(k).hart as int;
            let p = old(k).cpus@[h].current->Some_0 as int;
            let tf = final(k).procs@[p].trap_frame->Some_0.frame;
            &&& pair.0 == TRAP_FRAME
            &&& pair.1 == crate::riscv::spec_make_satp(
                final(k).procs@[p].page_table->Some_0.root.pa,
            )
            &&& tf.kernel_satp == old(k).cpus@[h].satp
            &&& tf.kernel_sp == old(k).procs@[p].kstack + 4096
            &&& tf.kernel_trap == old(k).boot.user_trap
            &&& tf.kernel_hartid == old(k).hart as u64
            &&& final(k).cpus@[h].stvec == TRAMPOLINE + old(k).boot.uservec_off
            &&& final(k).cpus@[h].sstatus == ((old(k).cpus@[h].sstatus & !SSTATUS_SIE)
                & !SSTATUS_SPP) | SSTATUS_SPIE
            &&& final(k).cpus@[h].sepc == tf.epc
        },
        r is Ok,
{
    let h = k.hart;
    let p = match k.cpus[h].current {
        Some(p) => p,
        None => {
            proof {
                assert(false);
            }
            return Err(Fatal::TrapNotFromUser);
        },
    };
    // interrupts off around the transition
    let st0 = k.cpus[h].sstatus;
    let cp = &mut k.cpus[h];
    cp.sstatus = st0 & !SSTATUS_SIE;
    // trap vector now points into the trampoline's user-entry routine
    let uv = k.boot.uservec_off;
    let cp = &mut k.cpus[h];
    cp.stvec = TRAMPOLINE + uv;
    // kernel-resume fields for the next entry
    let satp_now = k.cpus[h].satp;
    let kstack_top = k.procs[p].kstack;
    let utrap = k.boot.user_trap;
    let ghost k1 = *k;
    let pr = &mut k.procs[p];
    let mut tfp = match pr.trap_frame.take() {
        Some(t) => t,
        None => {
            proof {
                assert(false);
            }
            return Err(Fatal::TrapNotFromUser);
        },
    };
    tfp.frame.kernel_satp = satp_now;
    tfp.frame.kernel_sp = kstack_top + crate::riscv::PAGE_SIZE;
    tfp.frame.kernel_trap = utrap;
    tfp.frame.kernel_hartid = h as u64;
    let resume_pc = tfp.frame.epc;
    let pr = &mut k.procs[p];
    pr.trap_frame = Some(tfp);
    proof {
        restore_inv(k1, *k);
    }
    // user mode on return, with interrupts enabled once there
    let st = k.cpus[h].sstatus;
    let cp = &mut k.cpus[h];
    cp.sstatus = (st & !SSTATUS_SPP) | SSTATUS_SPIE;
    cp.sepc = resume_pc;
    // the translation-control value of the process's own tables
    let root_pa = match &k.procs[p].page_table {
        Some(a) => a.root.pa,
        None => {
            proof {
                assert(false);
            }
            return Err(Fatal::TrapNotFromUser);
        },
    };
    let satp_val = crate::riscv::make_satp(root_pa);
    Ok((TRAP_FRAME, satp_val))
}

/// Where a fresh process first resumes: the bootstrap routine performs the
/// initial transition to user mode through the return-to-user sequence, so it
/// promises exactly what that sequence promises.
pub fn fork_ret(k: &mut Kernel) -> (r: Result<(u64, u64), Fatal>)
    requires
        old(k).inv(),
        old(k).cpus@[old(k).hart as int].current is Some,
        old(k).procs@[old(k).cpus@[old(k).hart as int].current->Some_0 as int].trap_frame is Some,
        old(k).procs@[old(k).cpus@[old(k).hart as int].current->Some_0 as int].page_table is Some,
        old(k).boot.uservec_off < 4096,
    ensures
        final(k).inv(),
        final(k).mem == old(k).mem,
        final(k).boot == old(k).boot,
        final(k).hart == old(k).hart,
        final(k).kernel_page_table == old(k).kernel_page_table,
        r matches Ok(pair) ==> {
            let h = old(k).hart as int;
            let p = old(k).cpus@[h].current->Some_0 as int;
            let tf = final(k).procs@[p].trap_frame->Some_0.frame;
            &&& pair.0 == TRAP_FRAME
            &&& pair.1 == crate::riscv::spec_make_satp(
                final(k).procs@[p].page_table->Some_0.root.pa,
            )
            &&& tf.kernel_satp == old(k).cpus@[h].satp
            &&& tf.kernel_sp == old(k).procs@[p].kstack + 4096
            &&& tf.kernel_trap == old(k).boot.user_trap
            &&& tf.kernel_hartid == old(k).hart as u64
            &&& final(k).cpus@[h].stvec == TRAMPOLINE + old(k).boot.uservec_off
            &&& final(k).cpus@[h].sstatus == ((old(k).cpus@[h].sstatus & !SSTATUS_SIE)
                & !SSTATUS_SPP) | SSTATUS_SPIE
            &&& final(k).cpus@[h].sepc == tf.epc
        },
        r is Ok,
{
    user_trap_ret(k)
}

} // verus!
