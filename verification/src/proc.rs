//! The process table and the round-robin scheduler: per-process address
//! spaces and trap frames, saved contexts for kernel-to-kernel switches, and
//! the per-unit bookkeeping of what is currently running.
//!
//! The low-level switch primitive (save callee registers, restore another
//! context, jump) is an opaque boundary operation: the functions here decide
//! and record everything around it, and the embedder performs the switch. The
//! model runs one concurrently scheduling execution unit; the source shares
//! its tables between units with no mutual exclusion, and this restriction is
//! the explicit answer to that gap.
use vstd::prelude::*;

use crate::errors::Fatal;
use crate::kalloc::Kmem;
use crate::mem_layout::kstack;
use crate::mem_layout::TRAMPOLINE;
use crate::mem_layout::TRAP_FRAME;
use crate::param::NCPU;
use crate::param::NPROC;
use crate::riscv::MAX_VA;
use crate::riscv::PAGE_SIZE;
use crate::riscv::SSTATUS_SIE;
use crate::vm::frame_owned;
use crate::vm::page_at;
use crate::vm::pages_of;
use crate::vm::range_frames_owned;
use crate::vm::AddressSpace;

verus! {

/// Callee-saved registers of a kernel-to-kernel switch.
#[derive(Clone, Copy)]
pub struct Context {
    pub ra: u64,
    pub sp: u64,
    pub s0: u64,
    pub s1: u64,
    pub s2: u64,
    pub s3: u64,
    pub s4: u64,
    pub s5: u64,
    pub s6: u64,
    pub s7: u64,
    pub s8: u64,
    pub s9: u64,
    pub s10: u64,
    pub s11: u64,
}

impl Context {
    /// A zeroed context.
    pub fn new() -> (c: Context)
        ensures
            c == (Context {
                ra: 0,
                sp: 0,
                s0: 0,
                s1: 0,
                s2: 0,
                s3: 0,
                s4: 0,
                s5: 0,
                s6: 0,
                s7: 0,
                s8: 0,
                s9: 0,
                s10: 0,
                s11: 0,
            }),
    {
        Context {
            ra: 0,
            sp: 0,
            s0: 0,
            s1: 0,
            s2: 0,
            s3: 0,
            s4: 0,
            s5: 0,
            s6: 0,
            s7: 0,
            s8: 0,
            s9: 0,
            s10: 0,
            s11: 0,
        }
    }
}

/// The fixed-layout record ferrying user register state across a privilege
/// transition, with the kernel-resume fields the trampoline reads.
#[derive(Clone, Copy)]
pub struct TrapFrame {
    pub kernel_satp: u64,
    pub kernel_sp: u64,
    pub kernel_trap: u64,
    pub epc: u64,
    pub kernel_hartid: u64,
    pub ra: u64,
    pub sp: u64,
    pub gp: u64,
    pub tp: u64,
    pub t0: u64,
    pub t1: u64,
    pub t2: u64,
    pub s0: u64,
    pub s1: u64,
    pub a0: u64,
    pub a1: u64,
    pub a2: u64,
    pub a3: u64,
    pub a4: u64,
    pub a5: u64,
    pub a6: u64,
    pub a7: u64,
    pub s2: u64,
    pub s3: u64,
    pub s4: u64,
    pub s5: u64,
    pub s6: u64,
    pub s7: u64,
    pub s8: u64,
    pub s9: u64,
    pub s10: u64,
    pub s11: u64,
    pub t3: u64,
    pub t4: u64,
    pub t5: u64,
    pub t6: u64,
}

impl TrapFrame {
    /// A zeroed trap frame.
    pub fn new() -> (t: TrapFrame)
        ensures
            t.epc == 0,
            t.sp == 0,
            t.a0 == 0,
            t.kernel_satp == 0,
            t.kernel_sp == 0,
            t.kernel_trap == 0,
            t.kernel_hartid == 0,
    {
        TrapFrame {
            kernel_satp: 0,
            kernel_sp: 0,
            kernel_trap: 0,
            epc: 0,
            kernel_hartid: 0,
            ra: 0,
            sp: 0,
            gp: 0,
            tp: 0,
            t0: 0,
            t1: 0,
            t2: 0,
            s0: 0,
            s1: 0,
            a0: 0,
            a1: 0,
            a2: 0,
            a3: 0,
            a4: 0,
            a5: 0,
            a6: 0,
            a7: 0,
            s2: 0,
            s3: 0,
            s4: 0,
            s5: 0,
            s6: 0,
            s7: 0,
            s8: 0,
            s9: 0,
            s10: 0,
            s11: 0,
            t3: 0,
            t4: 0,
            t5: 0,
            t6: 0,
        }
    }
}

/// A trap frame together with the physical frame that backs its page.
#[derive(Clone, Copy)]
pub struct TrapFramePage {
    /// The frame the trap-frame page occupies, owned by its process.
    pub pa: u64,
    /// The register staging area itself.
    pub frame: TrapFrame,
}

/// Lifecycle states of a process slot.
#[derive(Clone, Copy, Debug, PartialEq, Eq, Structural)]
pub enum ProcState {
    Unused,
    Sleeping,
    Runnable,
    Running,
    Zombie,
}

/// One slot of the process table.
pub struct Proc {
    pub state: ProcState,
    /// Weak back-reference to the parent slot; never an owner.
    pub parent: Option<usize>,
    pub killed: i32,
    pub pid: i32,
    /// Top of this process's kernel stack in the kernel address space.
    pub kstack: u64,
    /// Size in bytes of the user image mapped from virtual address zero.
    pub size: u64,
    /// The address space this process exclusively owns, once allocated.
    pub page_table: Option<AddressSpace>,
    /// The trap-frame page this process exclusively owns, once allocated.
    pub trap_frame: Option<TrapFramePage>,
    /// Saved callee registers for the kernel-to-kernel switch.
    pub context: Context,
}

impl Proc {
    /// An empty, unused slot.
    pub fn new() -> (p: Proc)
        ensures
            p.state is Unused,
            p.parent is None,
            p.killed == 0,
            p.pid == 0,
            p.kstack == 0,
            p.size == 0,
            p.page_table is None,
            p.trap_frame is None,
    {
        Proc {
            state: ProcState::Unused,
            parent: None,
            killed: 0,
            pid: 0,
            kstack: 0,
            size: 0,
            page_table: None,
            trap_frame: None,
            context: Context::new(),
        }
    }
}

/// Per-execution-unit record: the process it currently runs, its scheduler
/// context, and the model of its privileged registers.
pub struct Cpu {
    /// The slot currently running on this unit; absent while in the scheduler.
    pub current: Option<usize>,
    /// The scheduler loop's own saved context.
    pub context: Context,
    /// Status register model; the interrupt-enable bit lives here.
    pub sstatus: u64,
    /// Trap-vector register model.
    pub stvec: u64,
    /// Resume program-counter register model.
    pub sepc: u64,
    /// Pending-interrupt register model.
    pub sip: u64,
    /// Translation-control register model.
    pub satp: u64,
}

impl Cpu {
    /// An idle unit with cleared registers.
    pub fn new() -> (c: Cpu)
        ensures
            c.current is None,
            c.sstatus == 0,
            c.stvec == 0,
            c.sepc == 0,
            c.sip == 0,
            c.satp == 0,
    {
        Cpu {
            current: None,
            context: Context::new(),
            sstatus: 0,
            stvec: 0,
            sepc: 0,
            sip: 0,
            satp: 0,
        }
    }
}

/// Boot-time constants the linker and the trampoline provide: image
/// boundaries and the addresses of the fixed entry routines.
#[derive(Clone, Copy)]
pub struct BootInfo {
    /// End of kernel code; start of kernel data.
    pub text_end: u64,
    /// One past the last byte of physical RAM.
    pub phy_stop: u64,
    /// First byte available to the frame allocator.
    pub heap_start: u64,
    /// Physical address of the trampoline code page.
    pub trampoline: u64,
    /// Address of the kernel trap vector.
    pub kernel_vec: u64,
    /// Offset of the user-entry routine within the trampoline page.
    pub uservec_off: u64,
    /// Offset of the user-return routine within the trampoline page.
    pub userret_off: u64,
    /// Address of the bootstrap routine a fresh process first resumes in.
    pub fork_ret: u64,
    /// Address of the user trap handler, stored into trap frames.
    pub user_trap: u64,
}

/// The whole kernel core: allocator, process table, execution units, and the
/// kernel's own address space.
pub struct Kernel {
    pub boot: BootInfo,
    pub mem: Kmem,
    pub procs: Vec<Proc>,
    pub cpus: Vec<Cpu>,
    pub next_pid: i32,
    pub kernel_page_table: Option<AddressSpace>,
    /// The single execution unit this model lets schedule.
    pub hart: usize,
}

/// The frames one process owns: its trap-frame page, its page-table nodes,
/// and the data pages of its image.
pub open spec fn proc_owns_pa(p: Proc, pa: u64) -> bool {
    ||| (p.trap_frame matches Some(tf) && tf.pa == pa)
    ||| (p.page_table matches Some(a) && a.is_table_pa(pa))
    ||| (p.page_table matches Some(a) && exists|k: u64|
        k < pages_of(p.size) && pa == crate::riscv::spec_pte_to_pa(
            a.leaf_pte(#[trigger] page_at(0, k)),
        ))
}

/// Well-formedness of one slot against the frame pool: an allocated address
/// space is well formed, owns its node frames and data frames exclusively of
/// the pool, maps its whole image, the two fixed high pages and nothing else,
/// and the trap-frame page sits on its own owned frame, mapped at
/// `TRAP_FRAME`.
pub open spec fn proc_frames_ok(p: Proc, km: Kmem) -> bool {
    &&& (p.state is Unused ==> p.page_table is None && p.trap_frame is None && p.size == 0)
    &&& (p.page_table matches Some(a) ==> {
        &&& a.wf()
        &&& a.owns(km)
        &&& p.size + 2 * 4096 <= MAX_VA
        &&& range_frames_owned(a, km, 0, pages_of(p.size))
        &&& (forall|k: u64|
            k < pages_of(p.size) ==> a.mapped(#[trigger] page_at(0, k))
                && crate::riscv::spec_pte_flags(a.leaf_pte(page_at(0, k))) != 1)
        &&& a.mapped(TRAMPOLINE) && crate::riscv::spec_pte_flags(a.leaf_pte(TRAMPOLINE)) != 1
        &&& a.mapped(TRAP_FRAME) && crate::riscv::spec_pte_flags(a.leaf_pte(TRAP_FRAME)) != 1
        &&& (forall|va: u64|
            va < MAX_VA && #[trigger] a.mapped(va) ==> crate::riscv::spec_page_round_down(va)
                < crate::riscv::spec_page_round_up(p.size) || crate::riscv::spec_page_round_down(
                va,
            ) == TRAMPOLINE || crate::riscv::spec_page_round_down(va) == TRAP_FRAME)
    })
    &&& (p.trap_frame matches Some(tf) ==> {
        &&& frame_owned(km, tf.pa)
        &&& (p.page_table matches Some(a) ==> !a.is_table_pa(tf.pa) && (forall|k: u64|
            k < pages_of(p.size) ==> tf.pa != crate::riscv::spec_pte_to_pa(
                a.leaf_pte(#[trigger] page_at(0, k)),
            )))
    })
}

impl Kernel {
    /// The kernel-wide invariant: a well-formed pool, full tables, every slot
    /// well formed against the pool, no frame owned by two slots (or by a
    /// slot and the kernel's own table), and the current-process references
    /// in range.
    pub open spec fn inv(self) -> bool {
        &&& self.mem.wf()
        &&& self.mem.limit() + 4096 <= u64::MAX
        &&& boot_wf(self.boot)
        &&& forall|i: int| 0 <= i < NPROC ==> (#[trigger] self.procs@[i]).kstack <= TRAMPOLINE
        &&& self.procs@.len() == NPROC
        &&& self.cpus@.len() == NCPU
        &&& self.hart < NCPU
        &&& forall|i: int| 0 <= i < NPROC ==> proc_frames_ok(#[trigger] self.procs@[i], self.mem)
        &&& forall|i: int, j: int, pa: u64|
            0 <= i < NPROC && 0 <= j < NPROC && i != j && #[trigger] proc_owns_pa(
                self.procs@[i],
                pa,
            ) ==> !(#[trigger] proc_owns_pa(self.procs@[j], pa))
        &&& (self.kernel_page_table matches Some(kt) ==> {
            &&& kt.wf()
            &&& kt.owns(self.mem)
            &&& forall|i: int, pa: u64|
                0 <= i < NPROC && #[trigger] proc_owns_pa(self.procs@[i], pa)
                    ==> !kt.is_table_pa(pa)
        })
        &&& forall|c: int|
            0 <= c < NCPU ==> ((#[trigger] self.cpus@[c].current) matches Some(p) ==> p < NPROC)
    }

    /// The id of the executing unit — in the model, the one active unit.
    pub fn cpu_id(&self) -> (r: usize)
        ensures
            r == self.hart,
    {
        self.hart
    }

    /// The slot currently running on this unit, if any. On hardware,
    /// interrupts are masked around this read so the process cannot migrate
    /// underneath it; the single-unit model reads its own record directly.
    pub fn my_proc(&self) -> (r: Option<usize>)
        requires
            self.inv(),
        ensures
            r == self.cpus@[self.hart as int].current,
            r matches Some(p) ==> p < NPROC,
    {
        let c = self.hart;
        self.cpus[c].current
    }
}

/// Whether the boot constants are usable: the trampoline page is a whole
/// aligned page.
pub open spec fn boot_wf(b: BootInfo) -> bool {
    &&& b.trampoline % 4096 == 0
    &&& b.trampoline + 4096 <= u64::MAX
}

/// A slot whose frames did not move keeps its well-formedness and owns the
/// same frames, whatever happened to the rest of its fields.
pub proof fn lemma_same_frames_ok(p0: Proc, p1: Proc, km: Kmem)
    requires
        proc_frames_ok(p0, km),
        p1.page_table == p0.page_table,
        match (p1.trap_frame, p0.trap_frame) {
            (Some(t1), Some(t0)) => t1.pa == t0.pa,
            (None, None) => true,
            _ => false,
        },
        p1.size == p0.size,
        p1.state is Unused ==> p0.state is Unused,
    ensures
        proc_frames_ok(p1, km),
        forall|pa: u64| proc_owns_pa(p1, pa) == proc_owns_pa(p0, pa),
{
}

impl Kernel {
    /// Build the kernel core over the physical range the boot contract hands
    /// in: the allocator takes every whole frame above the kernel image, and
    /// the tables start empty.
    pub fn new(boot: BootInfo) -> (k: Kernel)
        requires
            boot.heap_start + 4095 <= u64::MAX,
            boot.phy_stop + 4096 <= u64::MAX,
            boot_wf(boot),
        ensures
            k.inv(),
            k.boot == boot,
            k.hart == 0,
            k.next_pid == 1,
            k.kernel_page_table is None,
            forall|i: int| 0 <= i < NPROC ==> (#[trigger] k.procs@[i].state) is Unused,
            forall|c: int| 0 <= c < NCPU ==> (#[trigger] k.cpus@[c].current) is None,
            k.mem.base() == crate::riscv::spec_page_round_up(boot.heap_start),
            k.mem.limit() == boot.phy_stop,
            forall|i: int| 0 <= i < k.mem@.len() ==> #[trigger] k.mem@[i] == k.mem.base() + 4096 * i,
            k.mem.base() + 4096 * k.mem@.len() <= boot.phy_stop || k.mem@.len() == 0,
            boot.phy_stop < k.mem.base() + 4096 * k.mem@.len() + 4096,
    {
        let mem = Kmem::km_init(boot.heap_start, boot.phy_stop);
        let mut procs: Vec<Proc> = Vec::new();
        let mut i: u32 = 0;
        while i < NPROC
            invariant
                i <= NPROC,
                procs@.len() == i,
                forall|j: int|
                    0 <= j < i ==> (#[trigger] procs@[j].state) is Unused && procs@[j].page_table
                        is None && procs@[j].trap_frame is None && procs@[j].size == 0
                        && procs@[j].kstack == 0,
            decreases NPROC - i,
        {
            procs.push(Proc::new());
            i = i + 1;
        }
        let mut cpus: Vec<Cpu> = Vec::new();
        let mut c: u32 = 0;
        while c < NCPU
            invariant
                c <= NCPU,
                cpus@.len() == c,
                forall|j: int| 0 <= j < c ==> (#[trigger] cpus@[j].current) is None,
            decreases NCPU - c,
        {
            cpus.push(Cpu::new());
            c = c + 1;
        }
        let k = Kernel {
            boot,
            mem,
            procs,
            cpus,
            next_pid: 1,
            kernel_page_table: None,
            hart: 0,
        };
        proof {
            assert forall|i: int| 0 <= i < NPROC implies proc_frames_ok(
                #[trigger] k.procs@[i],
                k.mem,
            ) by {}
            assert forall|i: int, j: int, pa: u64|
                0 <= i < NPROC && 0 <= j < NPROC && i != j && #[trigger] proc_owns_pa(
                    k.procs@[i],
                    pa,
                ) implies !(#[trigger] proc_owns_pa(k.procs@[j], pa)) by {}
        }
        k
    }

    /// Record every slot's fixed kernel-stack address.
    pub fn proc_init(&mut self)
        requires
            old(self).inv(),
        ensures
            final(self).inv(),
            final(self).mem == old(self).mem,
            final(self).boot == old(self).boot,
            final(self).hart == old(self).hart,
            final(self).kernel_page_table == old(self).kernel_page_table,
            final(self).cpus@ == old(self).cpus@,
            forall|i: int|
                0 <= i < NPROC ==> (#[trigger] final(self).procs@[i]).kstack == TRAMPOLINE - (i + 1)
                    * 2 * 4096,
            forall|i: int|
                0 <= i < NPROC ==> (#[trigger] final(self).procs@[i]).state == old(
                    self,
                ).procs@[i].state && final(self).procs@[i].page_table == old(
                    self,
                ).procs@[i].page_table && final(self).procs@[i].trap_frame == old(
                    self,
                ).procs@[i].trap_frame && final(self).procs@[i].size == old(self).procs@[i].size,
    {
        let ghost k0 = *old(self);
        let mut i: u32 = 0;
        while i < NPROC
            invariant
                k0 == *old(self),
                k0.inv(),
                self.inv(),
                self.mem == k0.mem,
                self.boot == k0.boot,
                self.hart == k0.hart,
                self.kernel_page_table == k0.kernel_page_table,
                self.cpus@ == k0.cpus@,
                self.procs@.len() == NPROC,
                i <= NPROC,
                forall|j: int|
                    0 <= j < i ==> (#[trigger] self.procs@[j]).kstack == TRAMPOLINE - (j + 1) * 2
                        * 4096,
                forall|j: int|
                    i <= j < NPROC ==> #[trigger] self.procs@[j] == k0.procs@[j],
                forall|j: int|
                    0 <= j < NPROC ==> (#[trigger] self.procs@[j]).state == k0.procs@[j].state
                        && self.procs@[j].page_table == k0.procs@[j].page_table
                        && self.procs@[j].trap_frame == k0.procs@[j].trap_frame
                        && self.procs@[j].size == k0.procs@[j].size,
            decreases NPROC - i,
        {
            let va = kstack(i);
            let ghost pre = *self;
            let pr = &mut self.procs[i as usize];
            pr.kstack = va;
            proof {
                assert forall|j: int| 0 <= j < NPROC implies proc_frames_ok(
                    #[trigger] self.procs@[j],
                    self.mem,
                ) by {
                    lemma_same_frames_ok(pre.procs@[j], self.procs@[j], self.mem);
                }
                assert forall|j1: int, j2: int, pa: u64|
                    0 <= j1 < NPROC && 0 <= j2 < NPROC && j1 != j2 && #[trigger] proc_owns_pa(
                        self.procs@[j1],
                        pa,
                    ) implies !(#[trigger] proc_owns_pa(self.procs@[j2], pa)) by {
                    lemma_same_frames_ok(pre.procs@[j1], self.procs@[j1], self.mem);
                    lemma_same_frames_ok(pre.procs@[j2], self.procs@[j2], self.mem);
                }
                if self.kernel_page_table is Some {
                    assert forall|j: int, pa: u64|
                        0 <= j < NPROC && #[trigger] proc_owns_pa(self.procs@[j], pa) implies !(
                    self.kernel_page_table->Some_0).is_table_pa(pa) by {
                        lemma_same_frames_ok(pre.procs@[j], self.procs@[j], self.mem);
                    }
                }
            }
            i = i + 1;
        }
    }

    /// One scheduling decision: scan the table in index order from `start`,
    /// mark the first Runnable process Running, and record it as the current
    /// process of this unit. The embedder then switches into its context; the
    /// returned slot says which. `None` when nothing from `start` on is
    /// Runnable.
    pub fn scheduler(&mut self, start: usize) -> (r: Option<usize>)
        requires
            old(self).inv(),
        ensures
            final(self).inv(),
            final(self).mem == old(self).mem,
            final(self).boot == old(self).boot,
            final(self).hart == old(self).hart,
            final(self).next_pid == old(self).next_pid,
            final(self).kernel_page_table == old(self).kernel_page_table,
            match r {
                Some(i) => {
                    &&& select_spec(old(self).procs@, start as int) == Some(i as int)
                    &&& i < NPROC
                    &&& old(self).procs@[i as int].state is Runnable
                    &&& final(self).procs@[i as int].state is Running
                    &&& final(self).procs@[i as int].page_table == old(
                        self,
                    ).procs@[i as int].page_table
                    &&& final(self).procs@[i as int].trap_frame == old(
                        self,
                    ).procs@[i as int].trap_frame
                    &&& final(self).procs@[i as int].size == old(self).procs@[i as int].size
                    &&& final(self).procs@[i as int].pid == old(self).procs@[i as int].pid
                    &&& final(self).procs@[i as int].kstack == old(self).procs@[i as int].kstack
                    &&& forall|j: int|
                        0 <= j < NPROC && j != i ==> #[trigger] final(self).procs@[j] == old(
                            self,
                        ).procs@[j]
                    &&& final(self).cpus@[old(self).hart as int].current == Some(i)
                    &&& final(self).cpus@[old(self).hart as int].sstatus == old(self).cpus@[old(
                        self,
                    ).hart as int].sstatus
                    &&& final(self).cpus@[old(self).hart as int].stvec == old(self).cpus@[old(
                        self,
                    ).hart as int].stvec
                    &&& final(self).cpus@[old(self).hart as int].sip == old(self).cpus@[old(
                        self,
                    ).hart as int].sip
                    &&& final(self).cpus@[old(self).hart as int].sepc == old(self).cpus@[old(
                        self,
                    ).hart as int].sepc
                    &&& final(self).cpus@[old(self).hart as int].satp == old(self).cpus@[old(
                        self,
                    ).hart as int].satp
                    &&& final(self).cpus@[old(self).hart as int].context == old(self).cpus@[old(
                        self,
                    ).hart as int].context
                    &&& forall|c: int|
                        0 <= c < NCPU && c != old(self).hart ==> #[trigger] final(self).cpus@[c]
                            == old(self).cpus@[c]
                },
                None => {
                    &&& select_spec(old(self).procs@, start as int) is None
                    &&& *final(self) == *old(self)
                },
            },
    {
        let r = scheduler_select(&self.procs, start);
        match r {
            None => None,
            Some(i) => {
                let ghost pre = *self;
                let pr = &mut self.procs[i];
                pr.state = ProcState::Running;
                let h = self.hart;
                let cp = &mut self.cpus[h];
                cp.current = Some(i);
                proof {
                    assert forall|j: int| 0 <= j < NPROC implies proc_frames_ok(
                        #[trigger] self.procs@[j],
                        self.mem,
                    ) by {
                        lemma_same_frames_ok(pre.procs@[j], self.procs@[j], self.mem);
                    }
                    assert forall|j1: int, j2: int, pa: u64|
                        0 <= j1 < NPROC && 0 <= j2 < NPROC && j1 != j2 && #[trigger] proc_owns_pa(
                            self.procs@[j1],
                            pa,
                        ) implies !(#[trigger] proc_owns_pa(self.procs@[j2], pa)) by {
                        lemma_same_frames_ok(pre.procs@[j1], self.procs@[j1], self.mem);
                        lemma_same_frames_ok(pre.procs@[j2], self.procs@[j2], self.mem);
                    }
                    if self.kernel_page_table is Some {
                        assert forall|j: int, pa: u64|
                            0 <= j < NPROC && #[trigger] proc_owns_pa(
                                self.procs@[j],
                                pa,
                            ) implies !(self.kernel_page_table->Some_0).is_table_pa(pa) by {
                            lemma_same_frames_ok(pre.procs@[j], self.procs@[j], self.mem);
                        }
                    }
                }
                Some(i)
            },
        }
    }

    /// The pre-switch gate: fatal if the departing process is still marked
    /// Running, or if interrupts are live — switching with interrupts enabled
    /// risks re-entrant corruption of the per-unit bookkeeping. On success
    /// control goes back to the scheduler loop, so the current-process
    /// reference is cleared.
    pub fn sched(&mut self) -> (r: Result<(), Fatal>)
        requires
            old(self).inv(),
            old(self).cpus@[old(self).hart as int].current is Some,
        ensures
            final(self).inv(),
            final(self).mem == old(self).mem,
            final(self).boot == old(self).boot,
            final(self).hart == old(self).hart,
            final(self).next_pid == old(self).next_pid,
            final(self).kernel_page_table == old(self).kernel_page_table,
            final(self).procs@ == old(self).procs@,
            match r {
                Ok(()) => {
                    &&& !(old(self).procs@[old(self).cpus@[old(self).hart as int].current->Some_0
                        as int].state is Running)
                    &&& old(self).cpus@[old(self).hart as int].sstatus & SSTATUS_SIE == 0
                    &&& final(self).cpus@[old(self).hart as int].current is None
                    &&& final(self).cpus@[old(self).hart as int].sstatus == old(self).cpus@[old(
                        self,
                    ).hart as int].sstatus
                    &&& final(self).cpus@[old(self).hart as int].stvec == old(self).cpus@[old(
                        self,
                    ).hart as int].stvec
                    &&& final(self).cpus@[old(self).hart as int].sip == old(self).cpus@[old(
                        self,
                    ).hart as int].sip
                    &&& final(self).cpus@[old(self).hart as int].satp == old(self).cpus@[old(
                        self,
                    ).hart as int].satp
                    &&& final(self).cpus@[old(self).hart as int].sepc == old(self).cpus@[old(
                        self,
                    ).hart as int].sepc
                    &&& forall|c: int|
                        0 <= c < NCPU && c != old(self).hart ==> #[trigger] final(self).cpus@[c]
                            == old(self).cpus@[c]
                },
                Err(e) => {
                    &&& *final(self) == *old(self)
                    &&& (e == Fatal::SchedStillRunning <==> old(self).procs@[old(
                        self,
                    ).cpus@[old(self).hart as int].current->Some_0 as int].state is Running)
                    &&& (e == Fatal::SchedStillRunning || e == Fatal::SchedInterruptsOn)
                    &&& (e == Fatal::SchedInterruptsOn ==> old(self).cpus@[old(
                        self,
                    ).hart as int].sstatus & SSTATUS_SIE != 0)
                },
            },
    {
        let h = self.hart;
        let p = match self.cpus[h].current {
            Some(p) => p,
            None => {
                proof {
                    assert(false);
                }
                return Err(Fatal::SchedStillRunning);
            },
        };
        if matches!(self.procs[p].state, ProcState::Running) {
            return Err(Fatal::SchedStillRunning);
        }
        if self.cpus[h].sstatus & SSTATUS_SIE != 0 {
            return Err(Fatal::SchedInterruptsOn);
        }
        let cp = &mut self.cpus[h];
        cp.current = None;
        Ok(())
    }

    /// Voluntarily relinquish this unit: the running process goes back to
    /// Runnable and control returns to the scheduler loop, never directly to
    /// another process.
    pub fn yield_cpu(&mut self) -> (r: Result<(), Fatal>)
        requires
            old(self).inv(),
            old(self).cpus@[old(self).hart as int].current is Some,
        ensures
            final(self).inv(),
            final(self).mem == old(self).mem,
            final(self).boot == old(self).boot,
            final(self).hart == old(self).hart,
            final(self).next_pid == old(self).next_pid,
            final(self).kernel_page_table == old(self).kernel_page_table,
            final(self).procs@[old(self).cpus@[old(self).hart as int].current->Some_0 as int].state
                is Runnable,
            final(self).procs@[old(self).cpus@[old(self).hart as int].current->Some_0 as int].trap_frame
                == old(self).procs@[old(self).cpus@[old(self).hart as int].current->Some_0 as int].trap_frame,
            final(self).procs@[old(self).cpus@[old(self).hart as int].current->Some_0 as int].page_table
                == old(self).procs@[old(self).cpus@[old(self).hart as int].current->Some_0 as int].page_table,
            final(self).procs@[old(self).cpus@[old(self).hart as int].current->Some_0 as int].size
                == old(self).procs@[old(self).cpus@[old(self).hart as int].current->Some_0 as int].size,
            final(self).procs@[old(self).cpus@[old(self).hart as int].current->Some_0 as int].pid
                == old(self).procs@[old(self).cpus@[old(self).hart as int].current->Some_0 as int].pid,
            forall|j: int|
                0 <= j < NPROC && j != old(self).cpus@[old(self).hart as int].current->Some_0 as int
                    ==> #[trigger] final(self).procs@[j] == old(self).procs@[j],
            match r {
                Ok(()) => {
                    &&& old(self).cpus@[old(self).hart as int].sstatus & SSTATUS_SIE == 0
                    &&& final(self).cpus@[old(self).hart as int].current is None
                    &&& final(self).cpus@[old(self).hart as int].sstatus == old(self).cpus@[old(
                        self,
                    ).hart as int].sstatus
                    &&& final(self).cpus@[old(self).hart as int].stvec == old(self).cpus@[old(
                        self,
                    ).hart as int].stvec
                    &&& final(self).cpus@[old(self).hart as int].sip == old(self).cpus@[old(
                        self,
                    ).hart as int].sip
                    &&& final(self).cpus@[old(self).hart as int].satp == old(self).cpus@[old(
                        self,
                    ).hart as int].satp
                    &&& final(self).cpus@[old(self).hart as int].sepc == old(self).cpus@[old(
                        self,
                    ).hart as int].sepc
                    &&& forall|c: int|
                        0 <= c < NCPU && c != old(self).hart ==> #[trigger] final(self).cpus@[c]
                            == old(self).cpus@[c]
                },
                Err(e) => {
                    &&& e == Fatal::SchedInterruptsOn
                    &&& old(self).cpus@[old(self).hart as int].sstatus & SSTATUS_SIE != 0
                    &&& final(self).cpus@ == old(self).cpus@
                },
            },
    {
        let h = self.hart;
        let p = match self.cpus[h].current {
            Some(p) => p,
            None => {
                proof {
                    assert(false);
                }
                return Err(Fatal::SchedStillRunning);
            },
        };
        let ghost pre = *self;
        let pr = &mut self.procs[p];
        pr.state = ProcState::Runnable;
        proof {
            assert forall|j: int| 0 <= j < NPROC implies proc_frames_ok(
                #[trigger] self.procs@[j],
                self.mem,
            ) by {
                lemma_same_frames_ok(pre.procs@[j], self.procs@[j], self.mem);
            }
            assert forall|j1: int, j2: int, pa: u64|
                0 <= j1 < NPROC && 0 <= j2 < NPROC && j1 != j2 && #[trigger] proc_owns_pa(
                    self.procs@[j1],
                    pa,
                ) implies !(#[trigger] proc_owns_pa(self.procs@[j2], pa)) by {
                lemma_same_frames_ok(pre.procs@[j1], self.procs@[j1], self.mem);
                lemma_same_frames_ok(pre.procs@[j2], self.procs@[j2], self.mem);
            }
            if self.kernel_page_table is Some {
                assert forall|j: int, pa: u64|
                    0 <= j < NPROC && #[trigger] proc_owns_pa(self.procs@[j], pa) implies !(
                self.kernel_page_table->Some_0).is_table_pa(pa) by {
                    lemma_same_frames_ok(pre.procs@[j], self.procs@[j], self.mem);
                }
            }
        }
        self.sched()
    }
}

/// How many physical frames a slot holds: its trap-frame page, its page-table
/// nodes, and its data pages.
pub open spec fn proc_frames_count(p: Proc) -> int {
    (if p.trap_frame is Some {
        1int
    } else {
        0int
    }) + (match p.page_table {
        Some(a) => a.tables_held() + pages_of(p.size),
        None => 0,
    })
}

/// What a successful `alloc_proc` did: slot `i` went from Unused to a
/// Runnable process with a fresh id, an empty image, its own trap frame and
/// address space, and a context that will first resume in the bootstrap
/// routine; everything else is untouched, and the pool shrank by exactly the
/// frames the new slot now holds.
pub open spec fn alloc_proc_post(k0: Kernel, k1: Kernel, i: usize) -> bool {
    &&& i < NPROC
    &&& k0.procs@[i as int].state is Unused
    &&& forall|j: int| 0 <= j < i ==> !((#[trigger] k0.procs@[j].state) is Unused)
    &&& k1.procs@[i as int].state is Runnable
    &&& k1.procs@[i as int].pid == k0.next_pid
    &&& k1.procs@[i as int].size == 0
    &&& k1.procs@[i as int].page_table is Some
    &&& k1.procs@[i as int].trap_frame is Some
    &&& k1.procs@[i as int].context == (Context {
        ra: k0.boot.fork_ret,
        sp: (k0.procs@[i as int].kstack + 4096) as u64,
        s0: 0,
        s1: 0,
        s2: 0,
        s3: 0,
        s4: 0,
        s5: 0,
        s6: 0,
        s7: 0,
        s8: 0,
        s9: 0,
        s10: 0,
        s11: 0,
    })
    &&& k1.procs@[i as int].context.ra == k0.boot.fork_ret
    &&& k1.procs@[i as int].context.sp == k0.procs@[i as int].kstack + 4096
    &&& k1.procs@[i as int].kstack == k0.procs@[i as int].kstack
    // the address space maps exactly the shared trampoline page (read and
    // execute) and this slot's own trap-frame page (read and write)
    &&& (k1.procs@[i as int].page_table matches Some(a) && {
        &&& a.leaf_pte(TRAMPOLINE) == (crate::riscv::spec_pa_to_pte(k0.boot.trampoline) | (
        crate::riscv::PTE_R | crate::riscv::PTE_X) | 1)
        &&& (k1.procs@[i as int].trap_frame matches Some(tf) && a.leaf_pte(TRAP_FRAME) == (
        crate::riscv::spec_pa_to_pte(tf.pa) | (crate::riscv::PTE_R | crate::riscv::PTE_W) | 1)
            && k0.mem@.contains(tf.pa))
        &&& (forall|va: u64|
            va < MAX_VA && #[trigger] a.mapped(va) ==> crate::riscv::spec_page_round_down(va)
                == TRAMPOLINE || crate::riscv::spec_page_round_down(va) == TRAP_FRAME)
    })
    // the pool only shrank: no unrelated frame moved
    &&& forall|p: u64| #[trigger] k1.mem@.contains(p) ==> k0.mem@.contains(p)
    &&& forall|j: int| 0 <= j < NPROC && j != i ==> #[trigger] k1.procs@[j] == k0.procs@[j]
    &&& k1.next_pid == k0.next_pid + 1
    &&& k0.mem@.len() == k1.mem@.len() + proc_frames_count(k1.procs@[i as int])
    &&& proc_frames_count(k1.procs@[i as int]) <= 6
    &&& k1.mem.base() == k0.mem.base()
    &&& k1.mem.limit() == k0.mem.limit()
    &&& k1.cpus@ == k0.cpus@
    &&& k1.boot == k0.boot
    &&& k1.hart == k0.hart
}

/// What `free_proc` did to slot `i`: the slot is Unused and empty again (its
/// kernel-stack address is a per-slot constant and stays), everything else is
/// untouched, and every frame the slot held is back in the pool.
pub open spec fn free_proc_post(k0: Kernel, k1: Kernel, i: usize) -> bool {
    &&& i < NPROC
    &&& k1.procs@[i as int].state is Unused
    &&& k1.procs@[i as int].page_table is None
    &&& k1.procs@[i as int].trap_frame is None
    &&& k1.procs@[i as int].size == 0
    &&& k1.procs@[i as int].pid == 0
    &&& k1.procs@[i as int].parent is None
    &&& k1.procs@[i as int].killed == 0
    &&& k1.procs@[i as int].kstack == k0.procs@[i as int].kstack
    // the pool gained exactly the slot's frames and lost nothing
    &&& forall|p: u64|
        #[trigger] k1.mem@.contains(p) <==> (k0.mem@.contains(p) || proc_owns_pa(
            k0.procs@[i as int],
            p,
        ))
    &&& forall|j: int| 0 <= j < NPROC && j != i ==> #[trigger] k1.procs@[j] == k0.procs@[j]
    &&& k1.mem@.len() == k0.mem@.len() + proc_frames_count(k0.procs@[i as int])
    &&& k1.mem.base() == k0.mem.base()
    &&& k1.mem.limit() == k0.mem.limit()
    &&& k1.next_pid == k0.next_pid
    &&& k1.cpus@ == k0.cpus@
    &&& k1.boot == k0.boot
    &&& k1.hart == k0.hart
}

/// Law: allocating a process and immediately freeing it returns the
/// allocator's free-frame count to its pre-call value — the lifecycle leaks
/// no frame.
pub proof fn lemma_alloc_free_no_leak(k0: Kernel, k1: Kernel, i: usize, k2: Kernel)
    requires
        alloc_proc_post(k0, k1, i),
        free_proc_post(k1, k2, i),
    ensures
        k2.mem@.len() == k0.mem@.len(),
{
}

/// A slot keeps its well-formedness when the pool only shrinks.
proof fn lemma_frames_ok_shrink(p: Proc, km0: Kmem, km1: Kmem)
    requires
        proc_frames_ok(p, km0),
        km1.base() == km0.base(),
        km1.limit() == km0.limit(),
        forall|q: u64| #[trigger] km1@.contains(q) ==> km0@.contains(q),
    ensures
        proc_frames_ok(p, km1),
{
    if let Some(a) = p.page_table {
        crate::vm::lemma_owns_shrink(a, km0, km1);
        crate::vm::lemma_range_owned_shrink(a, km0, km1, 0, pages_of(p.size));
    }
}

/// A slot keeps its well-formedness when the pool gains only frames owned by
/// some other slot whose frames are disjoint from this one's.
proof fn lemma_frames_ok_grow(p: Proc, km0: Kmem, km1: Kmem, other: Proc)
    requires
        proc_frames_ok(p, km0),
        km1.base() == km0.base(),
        km1.limit() == km0.limit(),
        forall|q: u64|
            #[trigger] km1@.contains(q) ==> km0@.contains(q) || proc_owns_pa(other, q),
        forall|pa: u64| #[trigger] proc_owns_pa(p, pa) ==> !proc_owns_pa(other, pa),
    ensures
        proc_frames_ok(p, km1),
{
    if let Some(a) = p.page_table {
        assert forall|pa: u64| #[trigger] a.is_table_pa(pa) implies proc_owns_pa(p, pa) by {}
        assert(a.owns(km1)) by {
            assert(frame_owned(km1, a.root.pa)) by {
                assert(proc_owns_pa(p, a.root.pa));
            }
            assert forall|m: int| 0 <= m < a.mids@.len() implies frame_owned(
                km1,
                (#[trigger] a.mids@[m]).pa,
            ) && a.mids@[m].pa != a.root.pa by {
                assert(frame_owned(km0, a.mids@[m].pa));
                assert(a.is_table_pa(a.mids@[m].pa));
                assert(proc_owns_pa(p, a.mids@[m].pa));
            }
            assert forall|l: int| 0 <= l < a.leaves@.len() implies frame_owned(
                km1,
                (#[trigger] a.leaves@[l]).pa,
            ) && a.leaves@[l].pa != a.root.pa by {
                assert(frame_owned(km0, a.leaves@[l].pa));
                assert(a.is_table_pa(a.leaves@[l].pa));
                assert(proc_owns_pa(p, a.leaves@[l].pa));
            }
        }
        assert(range_frames_owned(a, km1, 0, pages_of(p.size))) by {
            assert forall|k: u64|
                k < pages_of(p.size) && a.mapped(#[trigger] page_at(0, k)) implies frame_owned(
                km1,
                crate::riscv::spec_pte_to_pa(a.leaf_pte(page_at(0, k))),
            ) && !a.is_table_pa(crate::riscv::spec_pte_to_pa(a.leaf_pte(page_at(0, k)))) by {
                let q = crate::riscv::spec_pte_to_pa(a.leaf_pte(page_at(0, k)));
                assert(frame_owned(km0, q));
                assert(proc_owns_pa(p, q));
            }
        }
    }
    if let Some(tf) = p.trap_frame {
        assert(proc_owns_pa(p, tf.pa));
    }
}

/// Every frame a well-formed slot owns is outside the pool.
proof fn lemma_owned_not_in_pool(p: Proc, km: Kmem)
    requires
        proc_frames_ok(p, km),
    ensures
        forall|pa: u64| #[trigger] proc_owns_pa(p, pa) ==> !km@.contains(pa),
{
    assert forall|pa: u64| #[trigger] proc_owns_pa(p, pa) implies !km@.contains(pa) by {
        if p.trap_frame matches Some(tf) && tf.pa == pa {
        } else if let Some(a) = p.page_table {
            if a.is_table_pa(pa) {
                crate::vm::lemma_table_pa_owned(a, km);
            } else {
                let k = choose|k: u64|
                    k < pages_of(p.size) && pa == crate::riscv::spec_pte_to_pa(
                        a.leaf_pte(#[trigger] page_at(0, k)),
                    );
                assert(a.mapped(page_at(0, k)));
                assert(frame_owned(km, pa));
            }
        }
    }
}

/// Build a fresh per-process address space: the shared trampoline page and
/// this process's trap-frame page at the two fixed high addresses, and
/// nothing else. On failure everything acquired is released again.
fn proc_page_table(km: &mut Kmem, trampoline: u64, tf_pa: u64) -> (r: Option<AddressSpace>)
    requires
        old(km).wf(),
        trampoline % 4096 == 0,
        trampoline + 4096 <= u64::MAX,
        tf_pa % 4096 == 0,
        tf_pa + 4096 <= u64::MAX,
    ensures
        final(km).wf(),
        final(km).base() == old(km).base(),
        final(km).limit() == old(km).limit(),
        forall|p: u64| #[trigger] final(km)@.contains(p) ==> old(km)@.contains(p),
        match r {
            Some(a) => {
                &&& a.wf()
                &&& a.owns(*final(km))
                &&& old(km)@.len() - final(km)@.len() == a.tables_held()
                &&& a.tables_held() <= 5
                &&& (forall|p: u64| #[trigger] a.is_table_pa(p) ==> old(km)@.contains(p))
                &&& a.mapped(TRAMPOLINE)
                &&& crate::riscv::spec_pte_flags(a.leaf_pte(TRAMPOLINE)) != 1
                &&& a.leaf_pte(TRAMPOLINE) == (crate::riscv::spec_pa_to_pte(trampoline) | (
                crate::riscv::PTE_R | crate::riscv::PTE_X) | 1)
                &&& a.mapped(TRAP_FRAME)
                &&& crate::riscv::spec_pte_flags(a.leaf_pte(TRAP_FRAME)) != 1
                &&& a.leaf_pte(TRAP_FRAME) == (crate::riscv::spec_pa_to_pte(tf_pa) | (
                crate::riscv::PTE_R | crate::riscv::PTE_W) | 1)
                &&& crate::riscv::spec_pte_to_pa(a.leaf_pte(TRAP_FRAME)) == tf_pa
                &&& (forall|va: u64|
                    va < MAX_VA && #[trigger] a.mapped(va) ==> crate::riscv::spec_page_round_down(
                        va,
                    ) == TRAMPOLINE || crate::riscv::spec_page_round_down(va) == TRAP_FRAME)
            },
            None => final(km)@.len() == old(km)@.len(),
        },
        old(km)@.len() >= 5 ==> r is Some,
{
    proof {
        crate::vm::lemma_zero_invalid();
        assert(((crate::riscv::PTE_R | crate::riscv::PTE_X) & 0x3ffu64 == (crate::riscv::PTE_R
            | crate::riscv::PTE_X)) && ((crate::riscv::PTE_R | crate::riscv::PTE_X) & 1u64 == 0)
            && ((crate::riscv::PTE_R | crate::riscv::PTE_X) & 0xeu64 != 0)) by (bit_vector);
        assert(((crate::riscv::PTE_R | crate::riscv::PTE_W) & 0x3ffu64 == (crate::riscv::PTE_R
            | crate::riscv::PTE_W)) && ((crate::riscv::PTE_R | crate::riscv::PTE_W) & 1u64 == 0)
            && ((crate::riscv::PTE_R | crate::riscv::PTE_W) & 0xeu64 != 0)) by (bit_vector);
    }
    let ghost k0 = *old(km);
    let mut a = match AddressSpace::new(km) {
        None => {
            return None;
        },
        Some(a) => a,
    };
    let ghost a1 = a;
    let ghost k1 = *km;
    let res = crate::vm::map_pages(
        &mut a,
        km,
        TRAMPOLINE,
        PAGE_SIZE,
        trampoline,
        crate::riscv::PTE_R | crate::riscv::PTE_X,
    );
    proof {
        crate::riscv::lemma_round_down((TRAMPOLINE + PAGE_SIZE - 1) as u64);
    }
    match res {
        Ok(()) => {},
        Err(_) => {
            proof {
                assert forall|va2: u64| va2 < MAX_VA implies !a.mapped(va2) by {
                    crate::vm::lemma_zero_invalid();
                }
            }
            proof {
                crate::riscv::lemma_round_up(0);
                assert(pages_of(0) == 0);
            }
            let res2 = crate::vm::uvm_free(a, km, 0);
            proof {
                assert(res2 is Ok);
            }
            return None;
        },
    }
    let ghost a2 = a;
    let ghost k2 = *km;
    proof {
        // the trap-frame page is still unmapped: it is a different page
        assert(TRAP_FRAME != TRAMPOLINE);
        assert forall|p: u64|
            p % 4096 == 0 && TRAP_FRAME <= p < TRAP_FRAME + 4096 implies !(#[trigger] a2.mapped(
            p,
        )) by {
            crate::riscv::lemma_round_down(p);
            assert(p == TRAP_FRAME);
            assert(a2.leaf_pte(p) == a1.leaf_pte(p));
            crate::vm::lemma_zero_invalid();
        }
    }
    let res = crate::vm::map_pages(
        &mut a,
        km,
        TRAP_FRAME,
        PAGE_SIZE,
        tf_pa,
        crate::riscv::PTE_R | crate::riscv::PTE_W,
    );
    proof {
        crate::riscv::lemma_round_down((TRAP_FRAME + PAGE_SIZE - 1) as u64);
    }
    match res {
        Ok(()) => {},
        Err(_) => {
            proof {
                crate::riscv::lemma_round_down(TRAMPOLINE);
                crate::vm::lemma_leaf_pte_fields(
                    trampoline,
                    crate::riscv::PTE_R | crate::riscv::PTE_X,
                );
                assert(a.leaf_pte(TRAMPOLINE) == a2.leaf_pte(TRAMPOLINE));
                assert(a.mapped(page_at(TRAMPOLINE, 0)));
                assert(crate::riscv::spec_pte_flags(a.leaf_pte(page_at(TRAMPOLINE, 0))) != 1);
            }
            match crate::vm::uvm_unmap(&mut a, km, TRAMPOLINE, 1, false) {
                Ok(()) => {},
                Err(_) => {
                    proof {
                        assert(false);
                    }
                    return None;
                },
            }
            proof {
                assert forall|va2: u64| va2 < MAX_VA implies !a.mapped(va2) by {
                    crate::vm::lemma_zero_invalid();
                    crate::riscv::lemma_round_down(va2);
                    if crate::riscv::spec_page_round_down(va2) == TRAMPOLINE {
                    } else {
                        assert(a.leaf_pte(va2) == a2.leaf_pte(va2));
                        if crate::riscv::spec_page_round_down(va2) == TRAMPOLINE {
                        } else {
                            assert(a2.leaf_pte(va2) == a1.leaf_pte(va2));
                        }
                    }
                }
            }
            proof {
                crate::riscv::lemma_round_up(0);
                assert(pages_of(0) == 0);
            }
            let res2 = crate::vm::uvm_free(a, km, 0);
            proof {
                assert(res2 is Ok);
            }
            return None;
        },
    }
    proof {
        crate::riscv::lemma_round_down(TRAMPOLINE);
        crate::riscv::lemma_round_down(TRAP_FRAME);
        assert(a.leaf_pte(TRAMPOLINE) == a2.leaf_pte(TRAMPOLINE));
        crate::vm::lemma_leaf_pte_fields(trampoline, crate::riscv::PTE_R | crate::riscv::PTE_X);
        crate::vm::lemma_leaf_pte_fields(tf_pa, crate::riscv::PTE_R | crate::riscv::PTE_W);
        assert forall|va: u64|
            va < MAX_VA && #[trigger] a.mapped(va) implies crate::riscv::spec_page_round_down(va)
            == TRAMPOLINE || crate::riscv::spec_page_round_down(va) == TRAP_FRAME by {
            crate::vm::lemma_zero_invalid();
            crate::riscv::lemma_round_down(va);
            let rd = crate::riscv::spec_page_round_down(va);
            if rd != TRAMPOLINE && rd != TRAP_FRAME {
                assert(a.leaf_pte(va) == a2.leaf_pte(va));
                assert(a2.leaf_pte(va) == a1.leaf_pte(va));
            }
        }
    }
    Some(a)
}

/// Release a whole per-process address space: the two fixed high pages are
/// unmapped without freeing (the trampoline is shared, the trap-frame page is
/// freed by its owner), then the data region and every node go back to the
/// pool.
fn proc_free_page_table(a: AddressSpace, km: &mut Kmem, size: u64) -> (r: Result<(), Fatal>)
    requires
        a.wf(),
        old(km).wf(),
        a.owns(*old(km)),
        size + 2 * 4096 <= MAX_VA,
        range_frames_owned(a, *old(km), 0, pages_of(size)),
        forall|k: u64|
            k < pages_of(size) ==> a.mapped(#[trigger] page_at(0, k)) && crate::riscv::spec_pte_flags(
                a.leaf_pte(page_at(0, k)),
            ) != 1,
        a.mapped(TRAMPOLINE) && crate::riscv::spec_pte_flags(a.leaf_pte(TRAMPOLINE)) != 1,
        a.mapped(TRAP_FRAME) && crate::riscv::spec_pte_flags(a.leaf_pte(TRAP_FRAME)) != 1,
        forall|va: u64|
            va < MAX_VA && #[trigger] a.mapped(va) ==> crate::riscv::spec_page_round_down(va)
                < crate::riscv::spec_page_round_up(size) || crate::riscv::spec_page_round_down(va)
                == TRAMPOLINE || crate::riscv::spec_page_round_down(va) == TRAP_FRAME,
    ensures
        final(km).wf(),
        final(km).base() == old(km).base(),
        final(km).limit() == old(km).limit(),
        r is Ok,
        final(km)@.len() == old(km)@.len() + a.tables_held() + pages_of(size),
        forall|q: u64|
            #[trigger] final(km)@.contains(q) ==> old(km)@.contains(q) || a.is_table_pa(q) || (
            exists|k: u64|
                k < pages_of(size) && q == crate::riscv::spec_pte_to_pa(
                    a.leaf_pte(#[trigger] page_at(0, k)),
                )),
        forall|q: u64| #[trigger] old(km)@.contains(q) ==> final(km)@.contains(q),
        forall|q: u64| #[trigger] a.is_table_pa(q) ==> final(km)@.contains(q),
        forall|k: u64|
            k < pages_of(size) ==> final(km)@.contains(
                crate::riscv::spec_pte_to_pa(a.leaf_pte(#[trigger] page_at(0, k))),
            ),
{
    proof {
        crate::riscv::lemma_round_up(size);
        crate::riscv::lemma_round_down(TRAMPOLINE);
        crate::riscv::lemma_round_down(TRAP_FRAME);
    }
    let mut a = a;
    let ghost a0 = a;
    let ghost k0 = *old(km);
    match crate::vm::uvm_unmap(&mut a, km, TRAMPOLINE, 1, false) {
        Ok(()) => {},
        Err(_) => {
            proof {
                assert(a0.mapped(page_at(TRAMPOLINE, 0)));
                assert(false);
            }
            return Err(Fatal::UnmapNotMapped);
        },
    }
    let ghost a1 = a;
    proof {
        assert(a1.leaf_pte(TRAP_FRAME) == a0.leaf_pte(TRAP_FRAME));
        assert(a1.mapped(page_at(TRAP_FRAME, 0)));
    }
    match crate::vm::uvm_unmap(&mut a, km, TRAP_FRAME, 1, false) {
        Ok(()) => {},
        Err(_) => {
            proof {
                assert(false);
            }
            return Err(Fatal::UnmapNotMapped);
        },
    }
    let ghost a2 = a;
    proof {
        // the data region is untouched by the two unmaps, and nothing else
        // remains mapped
        let ru = crate::riscv::spec_page_round_up(size);
        assert(ru <= TRAP_FRAME) by {
            if ru > TRAP_FRAME {
                crate::riscv::lemma_aligned_gap(ru, TRAP_FRAME);
            }
        }
        assert forall|k: u64| k < pages_of(size) implies a2.mapped(#[trigger] page_at(0, k))
            && a2.leaf_pte(page_at(0, k)) == a0.leaf_pte(page_at(0, k)) by {
            assert(a0.mapped(page_at(0, k)));
            crate::riscv::lemma_round_down(page_at(0, k));
            assert(crate::riscv::spec_page_round_down(page_at(0, k)) < ru);
            assert(a1.leaf_pte(page_at(0, k)) == a0.leaf_pte(page_at(0, k)));
            assert(a2.leaf_pte(page_at(0, k)) == a1.leaf_pte(page_at(0, k)));
        }
        assert forall|va: u64| va < MAX_VA && #[trigger] a2.mapped(va) implies
            crate::riscv::spec_page_round_down(va) < ru by {
            crate::riscv::lemma_round_down(va);
            let rd = crate::riscv::spec_page_round_down(va);
            if rd == TRAMPOLINE {
                assert(!a1.mapped(va));
                assert(a2.leaf_pte(va) == a1.leaf_pte(va));
                assert(false);
            } else if rd == TRAP_FRAME {
                assert(!a2.mapped(va));
                assert(false);
            } else {
                assert(a2.leaf_pte(va) == a1.leaf_pte(va));
                assert(a1.leaf_pte(va) == a0.leaf_pte(va));
                assert(a0.mapped(va));
            }
        }
        assert(range_frames_owned(a2, *km, 0, pages_of(size))) by {
            assert forall|k: u64|
                k < pages_of(size) && a2.mapped(#[trigger] page_at(0, k)) implies frame_owned(
                *km,
                crate::riscv::spec_pte_to_pa(a2.leaf_pte(page_at(0, k))),
            ) && !a2.is_table_pa(crate::riscv::spec_pte_to_pa(a2.leaf_pte(page_at(0, k)))) by {
                assert(a0.mapped(page_at(0, k)));
                assert(frame_owned(k0, crate::riscv::spec_pte_to_pa(a0.leaf_pte(page_at(0, k)))));
            }
        }
    }
    let res = crate::vm::uvm_free(a, km, size);
    proof {
        assert(res is Ok);
    }
    match res {
        Ok(()) => Ok(()),
        Err(e) => Err(e),
    }
}

impl Kernel {
    /// Hand out the next monotonically increasing process id.
    fn alloc_pid(&mut self) -> (pid: i32)
        requires
            old(self).next_pid < i32::MAX,
        ensures
            pid == old(self).next_pid,
            final(self).next_pid == old(self).next_pid + 1,
            final(self).mem == old(self).mem,
            final(self).procs@ == old(self).procs@,
            final(self).cpus@ == old(self).cpus@,
            final(self).boot == old(self).boot,
            final(self).hart == old(self).hart,
            final(self).kernel_page_table == old(self).kernel_page_table,
    {
        let pid = self.next_pid;
        self.next_pid = self.next_pid + 1;
        pid
    }

    /// Find an Unused slot and turn it into a fresh Runnable process: a new
    /// id, a trap-frame page, and an address space mapping only the
    /// trampoline and that trap frame; the image is the caller's to map. The
    /// context is seeded so the first resume lands in the bootstrap routine.
    /// On any allocation failure whatever was acquired is released again.
    pub fn alloc_proc(&mut self) -> (r: Option<usize>)
        requires
            old(self).inv(),
            old(self).next_pid < i32::MAX,
        ensures
            final(self).inv(),
            final(self).boot == old(self).boot,
            final(self).hart == old(self).hart,
            final(self).cpus@ == old(self).cpus@,
            final(self).kernel_page_table == old(self).kernel_page_table,
            final(self).mem.base() == old(self).mem.base(),
            final(self).mem.limit() == old(self).mem.limit(),
            match r {
                Some(i) => alloc_proc_post(*old(self), *final(self), i),
                None => {
                    &&& final(self).mem@.len() == old(self).mem@.len()
                    &&& final(self).procs@ == old(self).procs@
                    &&& (final(self).next_pid == old(self).next_pid || final(self).next_pid == old(
                        self,
                    ).next_pid + 1)
                    &&& forall|p: u64|
                        #[trigger] final(self).mem@.contains(p) ==> old(self).mem@.contains(p)
                },
            },
            // with no free slot the call changes nothing at all
            (forall|j: int| 0 <= j < NPROC ==> !((#[trigger] old(self).procs@[j].state) is Unused))
                ==> *final(self) == *old(self),
            (exists|j: int|
                0 <= j < NPROC && (#[trigger] old(self).procs@[j].state) is Unused) && old(
                self,
            ).mem@.len() >= 6 ==> r is Some,
    {
        let ghost k0 = *old(self);
        let n = self.procs.len();
        let mut i: usize = 0;
        while i < n
            invariant
                n == NPROC,
                *self == *old(self),
                self.procs@.len() == NPROC,
                old(self).inv(),
                i <= n,
                forall|j: int| 0 <= j < i ==> !((#[trigger] self.procs@[j].state) is Unused),
            ensures
                n == NPROC,
                *self == *old(self),
                i <= n,
                i < n ==> self.procs@[i as int].state is Unused,
                i == n ==> forall|j: int|
                    0 <= j < NPROC ==> !((#[trigger] self.procs@[j].state) is Unused),
            decreases n - i,
        {
            if matches!(self.procs[i].state, ProcState::Unused) {
                break ;
            }
            i = i + 1;
        }
        if i >= n {
            return None;
        }
        let pid = self.alloc_pid();
        // the trap-frame page first
        let tf_pa = match self.mem.kalloc() {
            None => {
                proof {
                    restore_state_facts(k0, *self);
                    assert forall|j: int| 0 <= j < NPROC implies proc_frames_ok(
                        #[trigger] self.procs@[j],
                        self.mem,
                    ) by {
                        lemma_frames_ok_shrink(k0.procs@[j], k0.mem, self.mem);
                    }
                    if self.kernel_page_table is Some {
                        crate::vm::lemma_owns_shrink(
                            self.kernel_page_table->Some_0,
                            k0.mem,
                            self.mem,
                        );
                    }
                }
                return None;
            },
            Some(pa) => pa,
        };
        let ghost k1 = *self;
        // then the address space
        let pt = match proc_page_table(&mut self.mem, self.boot.trampoline, tf_pa) {
            None => {
                // release the trap-frame page again
                let ghost km2 = self.mem;
                proof {
                    assert(!self.mem@.contains(tf_pa)) by {
                        assert forall|q: u64| #[trigger] self.mem@.contains(q) implies
                            k1.mem@.contains(q) by {}
                    }
                }
                match self.mem.kfree(tf_pa) {
                    Ok(()) => {},
                    Err(_) => {
                        proof {
                            assert(false);
                        }
                        return None;
                    },
                }
                proof {
                    restore_state_facts(k0, *self);
                    assert(k0.mem@.contains(tf_pa)) by {
                        assert(k0.mem@[k0.mem@.len() - 1] == tf_pa);
                    }
                    assert forall|q: u64| #[trigger] self.mem@.contains(q) implies
                        k0.mem@.contains(q) by {
                        let idx = choose|idx: int|
                            0 <= idx < self.mem@.len() && self.mem@[idx] == q;
                        if idx < km2@.len() {
                            assert(km2@[idx] == q);
                            assert(km2@.contains(q));
                            assert(k1.mem@.contains(q));
                            crate::kalloc::lemma_alloc_next_contains(k0.mem@, q);
                        } else {
                            assert(q == tf_pa);
                        }
                    }
                    assert forall|j: int| 0 <= j < NPROC implies proc_frames_ok(
                        #[trigger] self.procs@[j],
                        self.mem,
                    ) by {
                        lemma_frames_ok_shrink(k0.procs@[j], k0.mem, self.mem);
                    }
                    if self.kernel_page_table is Some {
                        crate::vm::lemma_owns_shrink(
                            self.kernel_page_table->Some_0,
                            k0.mem,
                            self.mem,
                        );
                    }
                }
                return None;
            },
            Some(a) => a,
        };
        let ghost a = pt;
        let ghost k2 = *self;
        let kstack_va = self.procs[i].kstack;
        let fr = self.boot.fork_ret;
        let pr = &mut self.procs[i];
        pr.state = ProcState::Runnable;
        pr.pid = pid;
        pr.size = 0;
        pr.trap_frame = Some(TrapFramePage { pa: tf_pa, frame: TrapFrame::new() });
        pr.page_table = Some(pt);
        pr.context = Context::new();
        pr.context.ra = fr;
        pr.context.sp = kstack_va + PAGE_SIZE;
        proof {
            let ghost kf = *self;
            crate::riscv::lemma_round_up(0);
            assert(pages_of(0) == 0);
            // the new slot is well formed against the shrunken pool
            assert(frame_owned(kf.mem, tf_pa)) by {
                assert forall|q: u64| #[trigger] kf.mem@.contains(q) implies k1.mem@.contains(
                    q,
                ) by {}
            }
            assert(!a.is_table_pa(tf_pa)) by {
                if a.is_table_pa(tf_pa) {
                    assert(k1.mem@.contains(tf_pa));
                }
            }
            assert(proc_frames_ok(kf.procs@[i as int], kf.mem));
            // everyone else only saw the pool shrink
            assert forall|j: int| 0 <= j < NPROC implies proc_frames_ok(
                #[trigger] kf.procs@[j],
                kf.mem,
            ) by {
                if j != i {
                    assert(kf.procs@[j] == k0.procs@[j]);
                    lemma_frames_ok_shrink(k0.procs@[j], k0.mem, kf.mem);
                }
            }
            // the new slot's frames all came out of the old pool, so they are
            // disjoint from every other owner
            assert forall|pa: u64| #[trigger] proc_owns_pa(kf.procs@[i as int], pa) implies
                k0.mem@.contains(pa) by {
                if !(kf.procs@[i as int].trap_frame matches Some(tf) && tf.pa == pa) {
                    assert(a.is_table_pa(pa) || exists|k: u64|
                        k < pages_of(0) && pa == crate::riscv::spec_pte_to_pa(
                            a.leaf_pte(#[trigger] page_at(0, k)),
                        ));
                    assert(a.is_table_pa(pa));
                    assert(k1.mem@.contains(pa));
                    assert(k0.mem@[k0.mem@.len() - 1] == tf_pa);
                    crate::kalloc::lemma_alloc_next_contains(k0.mem@, pa);
                } else {
                    assert(k0.mem@[k0.mem@.len() - 1] == tf_pa);
                    assert(k0.mem@.contains(tf_pa));
                }
            }
            assert forall|j1: int, j2: int, pa: u64|
                0 <= j1 < NPROC && 0 <= j2 < NPROC && j1 != j2 && #[trigger] proc_owns_pa(
                    kf.procs@[j1],
                    pa,
                ) implies !(#[trigger] proc_owns_pa(kf.procs@[j2], pa)) by {
                if j1 == i as int {
                    if proc_owns_pa(kf.procs@[j2], pa) {
                        lemma_owned_not_in_pool(k0.procs@[j2], k0.mem);
                        assert(kf.procs@[j2] == k0.procs@[j2]);
                        assert(!k0.mem@.contains(pa));
                    }
                } else if j2 == i as int {
                    if proc_owns_pa(kf.procs@[j2], pa) {
                        lemma_owned_not_in_pool(k0.procs@[j1], k0.mem);
                        assert(kf.procs@[j1] == k0.procs@[j1]);
                        assert(!k0.mem@.contains(pa));
                    }
                } else {
                    assert(kf.procs@[j1] == k0.procs@[j1]);
                    assert(kf.procs@[j2] == k0.procs@[j2]);
                }
            }
            if kf.kernel_page_table is Some {
                let kt = kf.kernel_page_table->Some_0;
                crate::vm::lemma_table_pa_owned(kt, k0.mem);
                assert forall|j: int, pa: u64|
                    0 <= j < NPROC && #[trigger] proc_owns_pa(kf.procs@[j], pa) implies
                    !kt.is_table_pa(pa) by {
                    if j == i as int {
                        if kt.is_table_pa(pa) {
                            assert(frame_owned(k0.mem, pa));
                        }
                    } else {
                        assert(kf.procs@[j] == k0.procs@[j]);
                    }
                }
                crate::vm::lemma_owns_shrink(kt, k0.mem, kf.mem);
            }
        }
        Some(i)
    }
}

impl Kernel {
    /// Return every resource of slot `i` and mark it Unused: the trap-frame
    /// page goes back to the pool, the address space is torn down (data
    /// region freed, trampoline and trap-frame mappings dropped without
    /// freeing the shared pages), and the fields reset. Under the kernel
    /// invariant this never fails.
    pub fn free_proc(&mut self, i: usize) -> (r: Result<(), Fatal>)
        requires
            old(self).inv(),
            i < NPROC,
        ensures
            final(self).inv(),
            r is Ok,
            free_proc_post(*old(self), *final(self), i),
    {
        let ghost k0 = *old(self);
        let pr = &mut self.procs[i];
        let tf = pr.trap_frame.take();
        let pt = pr.page_table.take();
        let size = pr.size;
        pr.size = 0;
        pr.parent = None;
        pr.killed = 0;
        pr.pid = 0;
        pr.state = ProcState::Unused;
        proof {
            crate::riscv::lemma_round_up(0);
            assert(pages_of(0) == 0);
        }
        let ghost oldp = k0.procs@[i as int];
        if let Some(tfp) = tf {
            proof {
                assert(frame_owned(k0.mem, tfp.pa));
                assert(proc_owns_pa(oldp, tfp.pa));
            }
            match self.mem.kfree(tfp.pa) {
                Ok(()) => {},
                Err(_) => {
                    proof {
                        assert(false);
                    }
                    return Err(Fatal::BadFree);
                },
            }
        }
        let ghost km1 = self.mem;
        proof {
            assert forall|q: u64| #[trigger] km1@.contains(q) implies k0.mem@.contains(q)
                || proc_owns_pa(oldp, q) by {
                if oldp.trap_frame is Some {
                    let idx = choose|idx: int| 0 <= idx < km1@.len() && km1@[idx] == q;
                    if idx < k0.mem@.len() {
                        assert(k0.mem@[idx] == q);
                    }
                }
            }
        }
        if let Some(a) = pt {
            proof {
                // the data frames are still owned after the trap-frame push:
                // they are distinct from it
                assert(a.owns(km1)) by {
                    crate::vm::lemma_table_pa_owned(a, k0.mem);
                    assert forall|q: u64| #[trigger] a.is_table_pa(q) implies !km1@.contains(
                        q,
                    ) by {
                        assert(proc_owns_pa(oldp, q));
                        assert(frame_owned(k0.mem, q));
                        if km1@.contains(q) {
                            let idx = choose|idx: int| 0 <= idx < km1@.len() && km1@[idx] == q;
                            if idx < k0.mem@.len() {
                                assert(k0.mem@[idx] == q);
                            } else {
                                assert(oldp.trap_frame is Some && q == oldp.trap_frame->Some_0.pa);
                            }
                        }
                    }
                    crate::vm::lemma_owns_shrink_facts(a, k0.mem, km1);
                }
                assert(range_frames_owned(a, km1, 0, pages_of(size))) by {
                    assert forall|k: u64|
                        k < pages_of(size) && a.mapped(#[trigger] page_at(0, k)) implies
                        frame_owned(
                        km1,
                        crate::riscv::spec_pte_to_pa(a.leaf_pte(page_at(0, k))),
                    ) && !a.is_table_pa(crate::riscv::spec_pte_to_pa(a.leaf_pte(page_at(0, k)))) by {
                        let q = crate::riscv::spec_pte_to_pa(a.leaf_pte(page_at(0, k)));
                        assert(frame_owned(k0.mem, q));
                        assert(proc_owns_pa(oldp, q));
                        if km1@.contains(q) {
                            let idx = choose|idx: int| 0 <= idx < km1@.len() && km1@[idx] == q;
                            if idx < k0.mem@.len() {
                                assert(k0.mem@[idx] == q);
                            } else {
                                assert(oldp.trap_frame is Some && q == oldp.trap_frame->Some_0.pa);
                            }
                        }
                    }
                }
            }
            let ghost ag = a;
            match proc_free_page_table(a, &mut self.mem, size) {
                Ok(()) => {},
                Err(e) => {
                    proof {
                        assert(false);
                    }
                    return Err(e);
                },
            }
            proof {
                assert forall|q: u64| #[trigger] self.mem@.contains(q) implies k0.mem@.contains(q)
                    || proc_owns_pa(oldp, q) by {
                    if !km1@.contains(q) && !ag.is_table_pa(q) {
                        let k = choose|k: u64|
                            k < pages_of(size) && q == crate::riscv::spec_pte_to_pa(
                                ag.leaf_pte(#[trigger] page_at(0, k)),
                            );
                        assert(proc_owns_pa(oldp, q));
                    } else if km1@.contains(q) {
                    } else {
                        assert(proc_owns_pa(oldp, q));
                    }
                }
            }
        }
        proof {
            let kf = *self;
            assert forall|j: int| 0 <= j < NPROC implies proc_frames_ok(
                #[trigger] kf.procs@[j],
                kf.mem,
            ) by {
                if j != i {
                    assert(kf.procs@[j] == k0.procs@[j]);
                    lemma_frames_ok_grow(k0.procs@[j], k0.mem, kf.mem, oldp);
                }
            }
            assert forall|j1: int, j2: int, pa: u64|
                0 <= j1 < NPROC && 0 <= j2 < NPROC && j1 != j2 && #[trigger] proc_owns_pa(
                    kf.procs@[j1],
                    pa,
                ) implies !(#[trigger] proc_owns_pa(kf.procs@[j2], pa)) by {
                assert(kf.procs@[i as int].trap_frame is None);
                assert(kf.procs@[i as int].page_table is None);
            }
            if kf.kernel_page_table is Some {
                let kt = kf.kernel_page_table->Some_0;
                crate::vm::lemma_table_pa_owned(kt, k0.mem);
                assert(kt.owns(kf.mem)) by {
                    assert forall|q: u64| #[trigger] kt.is_table_pa(q) implies !kf.mem@.contains(
                        q,
                    ) by {
                        assert(frame_owned(k0.mem, q));
                        if kf.mem@.contains(q) {
                            assert(proc_owns_pa(oldp, q));
                        }
                    }
                    crate::vm::lemma_owns_shrink_facts(kt, k0.mem, kf.mem);
                }
            }
            // the pool holds exactly what it held plus the slot's frames
            assert forall|p: u64| #[trigger] self.mem@.contains(p) <==> (k0.mem@.contains(p)
                || proc_owns_pa(oldp, p)) by {
                if self.mem@.contains(p) {
                    if oldp.page_table is None {
                        if let Some(t) = oldp.trap_frame {
                            crate::vm::lemma_push_contains(k0.mem@, t.pa, p);
                            assert(k0.mem@.contains(p) || p == t.pa);
                        }
                        assert(k0.mem@.contains(p) || proc_owns_pa(oldp, p));
                    } else {
                        assert(k0.mem@.contains(p) || proc_owns_pa(oldp, p));
                    }
                }
                if k0.mem@.contains(p) || proc_owns_pa(oldp, p) {
                    if k0.mem@.contains(p) {
                        assert(km1@.contains(p)) by {
                            if let Some(t) = oldp.trap_frame {
                                crate::vm::lemma_push_contains(k0.mem@, t.pa, p);
                            }
                        }
                        assert(self.mem@.contains(p));
                    } else if oldp.trap_frame is Some && oldp.trap_frame->Some_0.pa == p {
                        assert(km1@.contains(p)) by {
                            let t = oldp.trap_frame->Some_0;
                            crate::vm::lemma_push_contains(k0.mem@, t.pa, p);
                            assert(k0.mem@.push(t.pa).contains(p));
                        }
                        assert(self.mem@.contains(p));
                    } else {
                        assert(oldp.page_table is Some);
                        let a = oldp.page_table->Some_0;
                        if a.is_table_pa(p) {
                            assert(self.mem@.contains(p));
                        } else {
                            let k = choose|k: u64|
                                k < pages_of(oldp.size) && p == crate::riscv::spec_pte_to_pa(
                                    a.leaf_pte(#[trigger] page_at(0, k)),
                                );
                            assert(self.mem@.contains(
                                crate::riscv::spec_pte_to_pa(a.leaf_pte(page_at(0, k))),
                            ));
                        }
                    }
                }
            }
        }
        Ok(())
    }
}

impl Kernel {
    /// Create the first user process: allocate a slot, load the one-page
    /// initial instruction image at virtual address zero, point the saved
    /// user program counter at zero and the user stack at the top of that
    /// page, and mark the process Runnable.
    pub fn user_init(&mut self, image: &Vec<u8>) -> (r: Result<usize, Fatal>)
        requires
            old(self).inv(),
            old(self).next_pid < i32::MAX,
            image@.len() == 4096,
        ensures
            final(self).inv(),
            match r {
                Ok(i) => {
                    &&& i < NPROC
                    &&& final(self).procs@[i as int].state is Runnable
                    &&& final(self).procs@[i as int].size == 4096
                    &&& final(self).procs@[i as int].trap_frame matches Some(tf)
                        && tf.frame.epc == 0 && tf.frame.sp == 4096
                    &&& final(self).procs@[i as int].pid == old(self).next_pid
                    // the image page: read/execute/user at virtual address
                    // zero, on a fresh frame out of the pool
                    &&& (final(self).procs@[i as int].page_table matches Some(a) && {
                        &&& a.mapped(0)
                        &&& crate::riscv::spec_pte_flags(a.leaf_pte(0)) == ((crate::riscv::PTE_R
                            | crate::riscv::PTE_X | crate::riscv::PTE_U) | 1)
                        &&& old(self).mem@.contains(
                            crate::riscv::spec_pte_to_pa(a.leaf_pte(0)),
                        )
                        &&& a.leaf_pte(TRAMPOLINE) == (crate::riscv::spec_pa_to_pte(
                            old(self).boot.trampoline,
                        ) | (crate::riscv::PTE_R | crate::riscv::PTE_X) | 1)
                    })
                },
                Err(e) => e == Fatal::NoFrame,
            },
            (exists|j: int|
                0 <= j < NPROC && (#[trigger] old(self).procs@[j].state) is Unused) && old(
                self,
            ).mem@.len() >= 9 ==> r is Ok,
    {
        let ghost k0 = *old(self);
        let i = match self.alloc_proc() {
            None => {
                return Err(Fatal::NoFrame);
            },
            Some(i) => i,
        };
        let ghost k1 = *self;
        let pr = &mut self.procs[i];
        let mut a = match pr.page_table.take() {
            Some(a) => a,
            None => {
                proof {
                    assert(false);
                }
                return Err(Fatal::NoFrame);
            },
        };
        let ghost a0 = a;
        proof {
            crate::riscv::lemma_round_up(0);
            assert(pages_of(0) == 0);
            assert(!a.mapped(0)) by {
                crate::riscv::lemma_round_down(0);
                crate::riscv::lemma_round_up(0);
                if a.mapped(0) {
                    assert(crate::riscv::spec_page_round_down(0) < crate::riscv::spec_page_round_up(
                        0,
                    ) || crate::riscv::spec_page_round_down(0) == TRAMPOLINE
                        || crate::riscv::spec_page_round_down(0) == TRAP_FRAME);
                }
            }
        }
        let res = crate::vm::uvm_init(&mut a, &mut self.mem, image, PAGE_SIZE);
        match res {
            Ok(data_pa) => {
                let ghost km2 = self.mem;
                let ghost a1 = a;
                let pr = &mut self.procs[i];
                pr.page_table = Some(a);
                pr.size = PAGE_SIZE;
                let mut tfp = match pr.trap_frame.take() {
                    Some(t) => t,
                    None => {
                        proof {
                            assert(false);
                        }
                        return Err(Fatal::NoFrame);
                    },
                };
                tfp.frame.epc = 0;
                tfp.frame.sp = PAGE_SIZE;
                pr.trap_frame = Some(tfp);
                pr.state = ProcState::Runnable;
                proof {
                    let kf = *self;
                    crate::riscv::lemma_round_up(4096);
                    crate::riscv::lemma_round_down(0);
                    assert(pages_of(4096) == 1);
                    crate::vm::lemma_leaf_pte_round_down(a1, 0);
                    assert(page_at(0, 0) == 0);
                    assert(((crate::riscv::PTE_R | crate::riscv::PTE_X | crate::riscv::PTE_U)
                        & 0x3ffu64 == (crate::riscv::PTE_R | crate::riscv::PTE_X
                        | crate::riscv::PTE_U)) && ((crate::riscv::PTE_R | crate::riscv::PTE_X
                        | crate::riscv::PTE_U) & 1u64 == 0) && ((crate::riscv::PTE_R
                        | crate::riscv::PTE_X | crate::riscv::PTE_U) & 0xeu64 != 0))
                        by (bit_vector);
                    crate::vm::lemma_leaf_pte_fields(
                        data_pa,
                        crate::riscv::PTE_R | crate::riscv::PTE_X | crate::riscv::PTE_U,
                    );
                    // the new slot is well formed: one data page, owned
                    assert(proc_frames_ok(kf.procs@[i as int], kf.mem)) by {
                        assert(a1.mapped(page_at(0, 0)));
                        assert(crate::riscv::spec_pte_flags(a1.leaf_pte(0)) != 1);
                        assert(crate::riscv::spec_pte_to_pa(a1.leaf_pte(0)) == data_pa);
                        // the trampoline and trap-frame pages kept their entries
                        assert(a1.leaf_pte(TRAMPOLINE) == a0.leaf_pte(TRAMPOLINE)) by {
                            crate::riscv::lemma_round_down(TRAMPOLINE);
                        }
                        assert(a1.leaf_pte(TRAP_FRAME) == a0.leaf_pte(TRAP_FRAME)) by {
                            crate::riscv::lemma_round_down(TRAP_FRAME);
                        }
                        // everything mapped lies in the image or on the two
                        // fixed pages
                        assert forall|va: u64| va < MAX_VA && #[trigger] a1.mapped(va) implies
                            crate::riscv::spec_page_round_down(va)
                            < crate::riscv::spec_page_round_up(4096)
                            || crate::riscv::spec_page_round_down(va) == TRAMPOLINE
                            || crate::riscv::spec_page_round_down(va) == TRAP_FRAME by {
                            crate::riscv::lemma_round_down(va);
                            if crate::riscv::spec_page_round_down(va) != 0 {
                                assert(a1.leaf_pte(va) == a0.leaf_pte(va));
                                assert(a0.mapped(va));
                                assert(crate::riscv::spec_page_round_down(va)
                                    < crate::riscv::spec_page_round_up(0)
                                    || crate::riscv::spec_page_round_down(va) == TRAMPOLINE
                                    || crate::riscv::spec_page_round_down(va) == TRAP_FRAME);
                            }
                        }
                        // the trap-frame page is not the data page and not a node
                        assert(kf.procs@[i as int].trap_frame matches Some(t) ==> frame_owned(
                            kf.mem,
                            t.pa,
                        )) by {
                            if kf.mem@.contains(tfp.pa) {
                                assert(km2@.contains(tfp.pa));
                                assert(k1.mem@.contains(tfp.pa));
                            }
                        }
                        assert(tfp.pa != data_pa) by {
                            assert(k1.mem@.contains(data_pa));
                        }
                        assert(!a1.is_table_pa(tfp.pa)) by {
                            if a1.is_table_pa(tfp.pa) {
                                if a0.is_table_pa(tfp.pa) {
                                } else {
                                    assert(k1.mem@.contains(tfp.pa));
                                }
                            }
                        }
                    }
                    // everyone else only saw the pool shrink
                    assert forall|j: int| 0 <= j < NPROC implies proc_frames_ok(
                        #[trigger] kf.procs@[j],
                        kf.mem,
                    ) by {
                        if j != i {
                            assert(kf.procs@[j] == k1.procs@[j]);
                            lemma_frames_ok_shrink(k1.procs@[j], k1.mem, kf.mem);
                        }
                    }
                    // the slot's frames all come from the pool before this call
                    assert forall|pa: u64| #[trigger] proc_owns_pa(kf.procs@[i as int], pa) implies
                        proc_owns_pa(k1.procs@[i as int], pa) || k1.mem@.contains(pa) by {
                        if kf.procs@[i as int].trap_frame matches Some(t) && t.pa == pa {
                            assert(proc_owns_pa(k1.procs@[i as int], pa));
                        } else if a1.is_table_pa(pa) {
                            if a0.is_table_pa(pa) {
                                assert(proc_owns_pa(k1.procs@[i as int], pa));
                            }
                        } else {
                            let kk = choose|kk: u64|
                                kk < pages_of(4096) && pa == crate::riscv::spec_pte_to_pa(
                                    a1.leaf_pte(#[trigger] page_at(0, kk)),
                                );
                            assert(kk == 0);
                            assert(pa == data_pa);
                        }
                    }
                    assert forall|j1: int, j2: int, pa: u64|
                        0 <= j1 < NPROC && 0 <= j2 < NPROC && j1 != j2 && #[trigger] proc_owns_pa(
                            kf.procs@[j1],
                            pa,
                        ) implies !(#[trigger] proc_owns_pa(kf.procs@[j2], pa)) by {
                        if j1 == i as int {
                            if proc_owns_pa(kf.procs@[j2], pa) {
                                lemma_owned_not_in_pool(k1.procs@[j2], k1.mem);
                                assert(kf.procs@[j2] == k1.procs@[j2]);
                            }
                        } else if j2 == i as int {
                            if proc_owns_pa(kf.procs@[j2], pa) {
                                lemma_owned_not_in_pool(k1.procs@[j1], k1.mem);
                                assert(kf.procs@[j1] == k1.procs@[j1]);
                            }
                        } else {
                            assert(kf.procs@[j1] == k1.procs@[j1]);
                            assert(kf.procs@[j2] == k1.procs@[j2]);
                        }
                    }
                    if kf.kernel_page_table is Some {
                        let kt = kf.kernel_page_table->Some_0;
                        crate::vm::lemma_table_pa_owned(kt, k1.mem);
                        assert forall|j: int, pa: u64|
                            0 <= j < NPROC && #[trigger] proc_owns_pa(kf.procs@[j], pa) implies
                            !kt.is_table_pa(pa) by {
                            if j == i as int {
                                if kt.is_table_pa(pa) {
                                    assert(frame_owned(k1.mem, pa));
                                    if !proc_owns_pa(k1.procs@[i as int], pa) {
                                        assert(k1.mem@.contains(pa));
                                    }
                                }
                            } else {
                                assert(kf.procs@[j] == k1.procs@[j]);
                            }
                        }
                        crate::vm::lemma_owns_shrink(kt, k1.mem, kf.mem);
                    }
                }
                Ok(i)
            },
            Err(e) => {
                // nothing changed: put the table back and release the slot
                let pr = &mut self.procs[i];
                pr.page_table = Some(a);
                proof {
                    let kf = *self;
                    assert forall|j: int| 0 <= j < NPROC implies proc_frames_ok(
                        #[trigger] kf.procs@[j],
                        kf.mem,
                    ) by {
                        lemma_same_frames_ok(k1.procs@[j], kf.procs@[j], kf.mem);
                    }
                    assert forall|j1: int, j2: int, pa: u64|
                        0 <= j1 < NPROC && 0 <= j2 < NPROC && j1 != j2 && #[trigger] proc_owns_pa(
                            kf.procs@[j1],
                            pa,
                        ) implies !(#[trigger] proc_owns_pa(kf.procs@[j2], pa)) by {
                        lemma_same_frames_ok(k1.procs@[j1], kf.procs@[j1], kf.mem);
                        lemma_same_frames_ok(k1.procs@[j2], kf.procs@[j2], kf.mem);
                    }
                    if kf.kernel_page_table is Some {
                        assert forall|j: int, pa: u64|
                            0 <= j < NPROC && #[trigger] proc_owns_pa(kf.procs@[j], pa) implies !(
                        kf.kernel_page_table->Some_0).is_table_pa(pa) by {
                            lemma_same_frames_ok(k1.procs@[j], kf.procs@[j], kf.mem);
                        }
                    }
                }
                match self.free_proc(i) {
                    Ok(()) => {},
                    Err(_) => {
                        proof {
                            assert(false);
                        }
                        return Err(Fatal::NoFrame);
                    },
                }
                Err(Fatal::NoFrame)
            },
        }
    }
}

/// The kernel-stack page of slot `j`.
pub open spec fn kstack_va(j: int) -> u64 {
    (TRAMPOLINE - (j + 1) * 2 * 4096) as u64
}

/// Map every process slot's kernel stack into the kernel address space: one
/// freshly allocated frame per slot, writable, with a guard gap between
/// neighbours, all hanging just below the trampoline page.
pub fn proc_map_stacks(aspace: &mut AddressSpace, km: &mut Kmem) -> (r: Result<(), Fatal>)
    requires
        old(aspace).wf(),
        old(km).wf(),
        old(aspace).owns(*old(km)),
        old(km).limit() + 4096 <= u64::MAX,
        forall|va2: u64|
            va2 < MAX_VA && TRAMPOLINE - 64 * 2 * 4096 <= crate::riscv::spec_page_round_down(va2)
                < TRAMPOLINE ==> !(#[trigger] old(aspace).mapped(va2)),
    ensures
        final(aspace).wf(),
        final(km).wf(),
        final(km).base() == old(km).base(),
        final(km).limit() == old(km).limit(),
        final(aspace).owns(*final(km)),
        final(aspace).root.pa == old(aspace).root.pa,
        forall|p: u64|
            #[trigger] final(aspace).is_table_pa(p) ==> old(aspace).is_table_pa(p) || old(
                km,
            )@.contains(p),
        forall|p: u64| #[trigger] final(km)@.contains(p) ==> old(km)@.contains(p),
        forall|va2: u64|
            va2 < MAX_VA && !(TRAMPOLINE - 64 * 2 * 4096 <= crate::riscv::spec_page_round_down(va2)
                < TRAMPOLINE) ==> final(aspace).leaf_pte(va2) == old(aspace).leaf_pte(va2),
        r is Ok ==> forall|j: int|
            0 <= j < NPROC ==> final(aspace).mapped(#[trigger] kstack_va(j))
                && crate::riscv::spec_pte_flags(final(aspace).leaf_pte(kstack_va(j))) == ((
            crate::riscv::PTE_R | crate::riscv::PTE_W) | 1) && old(km)@.contains(
                crate::riscv::spec_pte_to_pa(final(aspace).leaf_pte(kstack_va(j))),
            ) && !final(km)@.contains(
                crate::riscv::spec_pte_to_pa(final(aspace).leaf_pte(kstack_va(j))),
            ),
        // every slot's stack sits on its own frame
        r is Ok ==> forall|j1: int, j2: int|
            0 <= j1 < j2 < NPROC ==> crate::riscv::spec_pte_to_pa(
                final(aspace).leaf_pte(#[trigger] kstack_va(j1)),
            ) != crate::riscv::spec_pte_to_pa(final(aspace).leaf_pte(#[trigger] kstack_va(j2))),
        // the guard gaps between stacks stay unmapped
        r is Ok ==> forall|va2: u64|
            va2 < MAX_VA && TRAMPOLINE - 64 * 2 * 4096 <= crate::riscv::spec_page_round_down(va2)
                < TRAMPOLINE && #[trigger] final(aspace).mapped(va2) ==> exists|j: int|
                0 <= j < NPROC && crate::riscv::spec_page_round_down(va2) == #[trigger] kstack_va(
                    j,
                ),
        r matches Err(e) ==> (e == Fatal::NoFrame || e == Fatal::KvmMapFailed)
            && final(km)@.len() == 0,
        // at most three frames per slot: the stack page and up to two nodes
        old(km)@.len() - final(km)@.len() <= 3 * 64,
        old(km)@.len() > 3 * 64 ==> r is Ok,
{
    let ghost a0 = *old(aspace);
    let ghost k0 = *old(km);
    let mut i: u32 = 0;
    while i < NPROC
        invariant
            a0 == *old(aspace),
            k0 == *old(km),
            a0.wf(),
            aspace.wf(),
            km.wf(),
            km.base() == k0.base(),
            km.limit() == k0.limit(),
            km.limit() + 4096 <= u64::MAX,
            aspace.owns(*km),
            aspace.root.pa == a0.root.pa,
            i <= NPROC,
            forall|p: u64|
                #[trigger] aspace.is_table_pa(p) ==> a0.is_table_pa(p) || k0@.contains(p),
            forall|p: u64| #[trigger] km@.contains(p) ==> k0@.contains(p),
            forall|va2: u64|
                va2 < MAX_VA && !(TRAMPOLINE - 64 * 2 * 4096
                    <= crate::riscv::spec_page_round_down(va2) < TRAMPOLINE) ==> aspace.leaf_pte(
                    va2,
                ) == a0.leaf_pte(va2),
            forall|j: int|
                0 <= j < i ==> aspace.mapped(#[trigger] kstack_va(j)) && crate::riscv::spec_pte_flags(
                    aspace.leaf_pte(kstack_va(j)),
                ) == ((crate::riscv::PTE_R | crate::riscv::PTE_W) | 1) && k0@.contains(
                    crate::riscv::spec_pte_to_pa(aspace.leaf_pte(kstack_va(j))),
                ) && !km@.contains(crate::riscv::spec_pte_to_pa(aspace.leaf_pte(kstack_va(j)))),
            forall|j1: int, j2: int|
                0 <= j1 < j2 < i ==> crate::riscv::spec_pte_to_pa(
                    aspace.leaf_pte(#[trigger] kstack_va(j1)),
                ) != crate::riscv::spec_pte_to_pa(aspace.leaf_pte(#[trigger] kstack_va(j2))),
            k0@.len() - km@.len() <= 3 * i,
            forall|va2: u64|
                va2 < MAX_VA && TRAMPOLINE - 64 * 2 * 4096
                    <= crate::riscv::spec_page_round_down(va2) < TRAMPOLINE && #[trigger] aspace.mapped(
                    va2,
                ) ==> exists|j: int|
                    0 <= j < i && crate::riscv::spec_page_round_down(va2) == #[trigger] kstack_va(
                        j,
                    ),
        decreases NPROC - i,
    {
        let ghost a_pre = *aspace;
        let ghost k_pre = *km;
        let pa = match km.kalloc() {
            None => {
                proof {
                    assert(k0@.len() <= 3 * i);
                }
                return Err(Fatal::NoFrame);
            },
            Some(pa) => pa,
        };
        proof {
            assert forall|q: u64| #[trigger] km@.contains(q) implies k0@.contains(q) by {
                crate::kalloc::lemma_alloc_next_contains(k_pre@, q);
                assert(k_pre@.contains(q));
            }
            crate::vm::lemma_owns_shrink(a_pre, k_pre, *km);
            assert(((crate::riscv::PTE_R | crate::riscv::PTE_W) & 0x3ffu64 == (crate::riscv::PTE_R
                | crate::riscv::PTE_W)) && ((crate::riscv::PTE_R | crate::riscv::PTE_W) & 1u64
                == 0) && ((crate::riscv::PTE_R | crate::riscv::PTE_W) & 0xeu64 != 0))
                by (bit_vector);
        }
        let va = kstack(i);
        let ghost k_mid = *km;
        let res = crate::vm::kvm_map(
            aspace,
            km,
            va,
            pa,
            PAGE_SIZE,
            crate::riscv::PTE_R | crate::riscv::PTE_W,
        );
        match res {
            Ok(()) => {},
            Err(_) => {
                proof {
                    if exists|p: u64|
                        p % 4096 == 0 && va <= p < va + 4096 && #[trigger] a_pre.mapped(p) {
                        let p = choose|p: u64|
                            p % 4096 == 0 && va <= p < va + 4096 && #[trigger] a_pre.mapped(p);
                        crate::riscv::lemma_round_down(p);
                        assert(p == va);
                        assert(p < MAX_VA);
                        let j = choose|j: int|
                            0 <= j < i && crate::riscv::spec_page_round_down(p)
                                == #[trigger] kstack_va(j);
                        assert(false);
                    }
                    assert(km@.len() == 0);
                    crate::riscv::lemma_round_down((va + 4095) as u64);
                    assert(crate::riscv::spec_page_round_down((va + 4095) as u64) == va);
                    assert(k0@.len() <= 3 * i + 3);
                }
                return Err(Fatal::KvmMapFailed);
            },
        }
        proof {
            crate::riscv::lemma_round_down(va);
            assert forall|p: u64| #[trigger] aspace.is_table_pa(p) implies a0.is_table_pa(p)
                || k0@.contains(p) by {
                if !a_pre.is_table_pa(p) {
                    assert(k_mid@.contains(p));
                }
            }
            assert forall|va2: u64|
                va2 < MAX_VA && TRAMPOLINE - 64 * 2 * 4096
                    <= crate::riscv::spec_page_round_down(va2) < TRAMPOLINE
                    && #[trigger] aspace.mapped(va2) implies exists|j: int|
                0 <= j < i + 1 && crate::riscv::spec_page_round_down(va2) == #[trigger] kstack_va(
                    j,
                ) by {
                crate::riscv::lemma_round_down(va2);
                if crate::riscv::spec_page_round_down(va2) == va {
                    assert(crate::riscv::spec_page_round_down(va2) == kstack_va(i as int));
                } else {
                    assert(aspace.leaf_pte(va2) == a_pre.leaf_pte(va2));
                    assert(a_pre.mapped(va2));
                    let j = choose|j: int|
                        0 <= j < i && crate::riscv::spec_page_round_down(va2)
                            == #[trigger] kstack_va(j);
                    assert(0 <= j < i + 1 && crate::riscv::spec_page_round_down(va2) == kstack_va(
                        j,
                    ));
                }
            }
            assert forall|p: u64| #[trigger] km@.contains(p) implies k0@.contains(p) by {
                assert(k_mid@.contains(p));
            }
            assert forall|va2: u64|
                va2 < MAX_VA && !(TRAMPOLINE - 64 * 2 * 4096
                    <= crate::riscv::spec_page_round_down(va2) < TRAMPOLINE) implies
                aspace.leaf_pte(va2) == a0.leaf_pte(va2) by {
                crate::riscv::lemma_round_down(va2);
                assert(aspace.leaf_pte(va2) == a_pre.leaf_pte(va2));
            }
            // this step took at most the stack frame and two nodes
            crate::riscv::lemma_round_down((va + 4095) as u64);
            assert(crate::riscv::spec_page_round_down((va + 4095) as u64) == va);
            assert(k0@.len() - km@.len() <= 3 * (i + 1));
            assert forall|j: int| 0 <= j < i + 1 implies aspace.mapped(#[trigger] kstack_va(j))
                && crate::riscv::spec_pte_flags(aspace.leaf_pte(kstack_va(j))) == ((
            crate::riscv::PTE_R | crate::riscv::PTE_W) | 1) && k0@.contains(
                crate::riscv::spec_pte_to_pa(aspace.leaf_pte(kstack_va(j))),
            ) && !km@.contains(crate::riscv::spec_pte_to_pa(aspace.leaf_pte(kstack_va(j)))) by {
                let w = kstack_va(j);
                crate::riscv::lemma_round_down(w);
                crate::vm::lemma_leaf_pte_fields(pa, crate::riscv::PTE_R | crate::riscv::PTE_W);
                if j == i as int {
                    assert(w == va);
                    assert(aspace.leaf_pte(w) == (crate::riscv::spec_pa_to_pte(pa) | (
                    crate::riscv::PTE_R | crate::riscv::PTE_W) | 1));
                    assert(k_pre@.contains(pa)) by {
                        assert(k_pre@[k_pre@.len() - 1] == pa);
                    }
                } else {
                    assert(a_pre.mapped(w));
                    assert(w != va);
                    assert(aspace.leaf_pte(w) == a_pre.leaf_pte(w));
                }
            }
            assert forall|j1: int, j2: int| 0 <= j1 < j2 < i + 1 implies crate::riscv::spec_pte_to_pa(
                aspace.leaf_pte(#[trigger] kstack_va(j1)),
            ) != crate::riscv::spec_pte_to_pa(aspace.leaf_pte(#[trigger] kstack_va(j2))) by {
                crate::riscv::lemma_round_down(kstack_va(j1));
                crate::riscv::lemma_round_down(kstack_va(j2));
                if j2 == i as int {
                    // the new frame came out of the pool the older ones left
                    assert(aspace.leaf_pte(kstack_va(j1)) == a_pre.leaf_pte(kstack_va(j1)));
                    assert(!k_pre@.contains(
                        crate::riscv::spec_pte_to_pa(a_pre.leaf_pte(kstack_va(j1))),
                    ));
                    assert(k_pre@.contains(pa)) by {
                        assert(k_pre@[k_pre@.len() - 1] == pa);
                    }
                    assert(kstack_va(j2) == va);
                    crate::vm::lemma_leaf_pte_fields(
                        pa,
                        crate::riscv::PTE_R | crate::riscv::PTE_W,
                    );
                } else {
                    assert(aspace.leaf_pte(kstack_va(j1)) == a_pre.leaf_pte(kstack_va(j1)));
                    assert(aspace.leaf_pte(kstack_va(j2)) == a_pre.leaf_pte(kstack_va(j2)));
                }
            }
        }
        i = i + 1;
    }
    Ok(())
}

impl Kernel {
    /// Build the kernel address space, once, from the boot constants.
    pub fn kvm_init(&mut self) -> (r: Result<(), Fatal>)
        requires
            old(self).inv(),
            old(self).kernel_page_table is None,
            old(self).boot.text_end % 4096 == 0,
            old(self).boot.phy_stop % 4096 == 0,
            crate::mem_layout::KERN_BASE < old(self).boot.text_end,
            old(self).boot.text_end < old(self).boot.phy_stop,
            old(self).boot.phy_stop <= TRAMPOLINE - 64 * 2 * 4096,
        ensures
            final(self).inv(),
            r is Ok ==> final(self).kernel_page_table is Some,
            final(self).procs@ == old(self).procs@,
            final(self).cpus@ == old(self).cpus@,
            final(self).boot == old(self).boot,
            final(self).hart == old(self).hart,
            // on success the kernel address space identity-maps the device
            // windows read/write, the kernel code read/execute, the rest of
            // RAM read/write, the trampoline at its fixed page read/execute,
            // and every slot's kernel stack read/write
            r is Ok ==> (final(self).kernel_page_table matches Some(kt) && {
                &&& (forall|va2: u64|
                    crate::mem_layout::UART <= va2 < crate::mem_layout::UART + 4096
                        ==> #[trigger] kt.spec_translate(va2) == Some(va2))
                &&& (forall|va2: u64|
                    crate::mem_layout::VIRTIO <= va2 < crate::mem_layout::VIRTIO + 4096
                        ==> #[trigger] kt.spec_translate(va2) == Some(va2))
                &&& (forall|va2: u64|
                    crate::mem_layout::PLIC <= va2 < crate::mem_layout::PLIC + 0x40_0000
                        ==> #[trigger] kt.spec_translate(va2) == Some(va2))
                &&& (forall|va2: u64|
                    crate::mem_layout::KERN_BASE <= va2 < old(self).boot.phy_stop
                        ==> #[trigger] kt.spec_translate(va2) == Some(va2))
                &&& (forall|va2: u64|
                    TRAMPOLINE <= va2 < MAX_VA ==> #[trigger] kt.spec_translate(va2) == Some(
                        (old(self).boot.trampoline + (va2 - TRAMPOLINE)) as u64,
                    ))
                &&& (forall|va2: u64|
                    va2 < MAX_VA && crate::mem_layout::KERN_BASE
                        <= #[trigger] crate::riscv::spec_page_round_down(va2) < old(
                        self,
                    ).boot.text_end ==> kt.leaf_pte(va2) == (crate::riscv::spec_pa_to_pte(
                        crate::riscv::spec_page_round_down(va2),
                    ) | (crate::riscv::PTE_R | crate::riscv::PTE_X) | 1))
                &&& (forall|va2: u64|
                    va2 < MAX_VA && old(self).boot.text_end
                        <= #[trigger] crate::riscv::spec_page_round_down(va2) < old(
                        self,
                    ).boot.phy_stop ==> kt.leaf_pte(va2) == (crate::riscv::spec_pa_to_pte(
                        crate::riscv::spec_page_round_down(va2),
                    ) | (crate::riscv::PTE_R | crate::riscv::PTE_W) | 1))
                &&& (forall|va2: u64|
                    va2 < MAX_VA && #[trigger] crate::riscv::spec_page_round_down(va2)
                        == TRAMPOLINE ==> kt.leaf_pte(va2) == (crate::riscv::spec_pa_to_pte(
                        old(self).boot.trampoline,
                    ) | (crate::riscv::PTE_R | crate::riscv::PTE_X) | 1))
                &&& (forall|j: int|
                    0 <= j < NPROC ==> kt.mapped(#[trigger] kstack_va(j))
                        && crate::riscv::spec_pte_flags(kt.leaf_pte(kstack_va(j))) == ((crate::riscv::PTE_R | crate::riscv::PTE_W)
                        | 1))
            }),
            // with enough free frames the build is owed its success
            old(self).mem@.len() > 207 + 2 * ((crate::riscv::spec_page_round_down((old(self).boot.text_end - 1) as u64) >> 21) - (
                crate::mem_layout::KERN_BASE >> 21)) + 2 * ((crate::riscv::spec_page_round_down((old(self).boot.phy_stop - 1) as u64) >> 21) - (old(
                self,
            ).boot.text_end >> 21)) ==> r is Ok,
        {
        let ghost k0 = *old(self);
        let boot = self.boot;
        let kt = match crate::vm::kvm_make(&mut self.mem, &boot) {
            Ok(kt) => kt,
            Err(e) => {
                proof {
                    assert forall|j: int| 0 <= j < NPROC implies proc_frames_ok(
                        #[trigger] self.procs@[j],
                        self.mem,
                    ) by {
                        lemma_frames_ok_shrink(k0.procs@[j], k0.mem, self.mem);
                    }
                }
                return Err(e);
            },
        };
        let ghost ktg = kt;
        self.kernel_page_table = Some(kt);
        proof {
            assert forall|j: int| 0 <= j < NPROC implies proc_frames_ok(
                #[trigger] self.procs@[j],
                self.mem,
            ) by {
                lemma_frames_ok_shrink(k0.procs@[j], k0.mem, self.mem);
            }
            assert forall|j: int, pa: u64|
                0 <= j < NPROC && #[trigger] proc_owns_pa(self.procs@[j], pa) implies
                !ktg.is_table_pa(pa) by {
                lemma_owned_not_in_pool(k0.procs@[j], k0.mem);
                if ktg.is_table_pa(pa) {
                    assert(k0.mem@.contains(pa));
                }
            }
        }
        Ok(())
    }

    /// Load this unit's translation-control register with the kernel table:
    /// the value is what the register write and the full fence take.
    pub fn kvm_init_hart(&mut self) -> (r: u64)
        requires
            old(self).inv(),
            old(self).kernel_page_table is Some,
        ensures
            final(self).inv(),
            r == crate::riscv::spec_make_satp(
                old(self).kernel_page_table->Some_0.root.pa,
            ),
            final(self).cpus@[old(self).hart as int].satp == r,
            final(self).procs@ == old(self).procs@,
            final(self).mem == old(self).mem,
            final(self).boot == old(self).boot,
            final(self).hart == old(self).hart,
            final(self).kernel_page_table == old(self).kernel_page_table,
    {
        let root_pa = match &self.kernel_page_table {
            Some(kt) => kt.root.pa,
            None => {
                proof {
                    assert(false);
                }
                0
            },
        };
        let v = crate::riscv::make_satp(root_pa);
        let h = self.hart;
        let cp = &mut self.cpus[h];
        cp.satp = v;
        v
    }
}

/// Facts shared by the failure paths of `alloc_proc`: the table's states are
/// unchanged when only scalar fields of the scanned slot were touched.
proof fn restore_state_facts(k0: Kernel, k1: Kernel)
    requires
        k0.procs@ == k1.procs@,
    ensures
        forall|j: int|
            0 <= j < k1.procs@.len() ==> (#[trigger] k1.procs@[j]).state == k0.procs@[j].state,
{
}

/// What a scan of the table from `start` selects: the first Runnable slot.
pub open spec fn select_spec(procs: Seq<Proc>, start: int) -> Option<int>
    decreases procs.len() - start,
{
    if start < 0 || start >= procs.len() {
        None
    } else if procs[start].state is Runnable {
        Some(start)
    } else {
        select_spec(procs, start + 1)
    }
}

/// The slots one full scheduler pass visits when scanning from `start`, in
/// the order it visits them: every Runnable slot, ascending.
pub open spec fn pass_visits(procs: Seq<Proc>, start: int) -> Seq<int>
    decreases procs.len() - start,
{
    if start < 0 || start >= procs.len() {
        Seq::empty()
    } else if procs[start].state is Runnable {
        seq![start] + pass_visits(procs, start + 1)
    } else {
        pass_visits(procs, start + 1)
    }
}

/// Scan the table in index order from `start` for a Runnable process — the
/// decision the scheduler loop makes before each switch.
pub fn scheduler_select(procs: &Vec<Proc>, start: usize) -> (r: Option<usize>)
    ensures
        r matches Some(i) ==> start <= i < procs@.len() && procs@[i as int].state is Runnable
            && select_spec(procs@, start as int) == Some(i as int),
        r is None ==> select_spec(procs@, start as int) is None,
        r matches Some(i) ==> forall|j: int|
            start <= j < i ==> !((#[trigger] procs@[j].state) is Runnable),
        r is None ==> forall|j: int|
            start <= j < procs@.len() ==> !((#[trigger] procs@[j].state) is Runnable),
{
    let n = procs.len();
    let mut i = start;
    while i < n
        invariant
            n == procs@.len(),
            start <= i,
            forall|j: int| start <= j < i ==> !((#[trigger] procs@[j].state) is Runnable),
            select_spec(procs@, start as int) == select_spec(procs@, i as int),
        decreases n - i,
    {
        if matches!(procs[i].state, ProcState::Runnable) {
            return Some(i);
        }
        i = i + 1;
    }
    None
}

/// Law: with the Runnable processes sitting exactly in slots `0 .. k` and no
/// further yields, one full scheduler pass visits all `k` of them exactly
/// once, in ascending slot order.
pub proof fn lemma_pass_visits_prefix(procs: Seq<Proc>, k: int, start: int)
    requires
        0 <= k <= procs.len(),
        0 <= start,
        forall|i: int| 0 <= i < k ==> (#[trigger] procs[i].state) is Runnable,
        forall|i: int| k <= i < procs.len() ==> !((#[trigger] procs[i].state) is Runnable),
    ensures
        start <= k ==> pass_visits(procs, start) == Seq::new((k - start) as nat, |i: int| start + i),
        start > k ==> pass_visits(procs, start) == Seq::<int>::empty(),
    decreases procs.len() - start,
{
    if start >= procs.len() {
        assert(pass_visits(procs, start) =~= Seq::<int>::empty());
        if start <= k {
            assert(start == k && k == procs.len());
            assert(pass_visits(procs, start) =~= Seq::new((k - start) as nat, |i: int| start + i));
        }
    } else {
        lemma_pass_visits_prefix(procs, k, start + 1);
        if start < k {
            assert(pass_visits(procs, start) == seq![start] + pass_visits(procs, start + 1));
            assert(pass_visits(procs, start) =~= Seq::new((k - start) as nat, |i: int| start + i));
        } else {
            assert(pass_visits(procs, start) =~= Seq::<int>::empty());
            if start == k {
                assert(pass_visits(procs, start) =~= Seq::new(
                    (k - start) as nat,
                    |i: int| start + i,
                ));
            }
        }
    }
}

} // verus!
