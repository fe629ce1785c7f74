use vstd::prelude::*;

verus! {

/// A fatal invariant violation: the kernel halts with a diagnostic rather
/// than continuing on corrupted state. Each variant names the invariant that
/// was broken; the embedder is expected to stop the machine when it sees one.
#[derive(Clone, Copy, Debug, PartialEq, Eq, Structural)]
pub enum Fatal {
    /// A frame handed back to the allocator was not page aligned or lies
    /// outside the managed range.
    BadFree,
    /// A page was mapped while its leaf entry was already valid; remapping is
    /// never silently accepted.
    Remap,
    /// The virtual address handed to an unmap was not page aligned.
    UnmapNotAligned,
    /// An unmap found no valid leaf entry for a page in its range.
    UnmapNotMapped,
    /// An unmap found an entry whose flags mark an internal node, not a leaf.
    UnmapNotLeaf,
    /// A page table was torn down while a leaf entry was still mapped.
    LeafRemains,
    /// A mapping that the kernel address space cannot do without failed.
    KvmMapFailed,
    /// The initial user image is larger than one page.
    UvmInitTooLarge,
    /// The allocator ran dry at a point where the kernel cannot recover.
    NoFrame,
    /// A context switch was requested by a process still marked Running.
    SchedStillRunning,
    /// A context switch was requested with interrupts enabled.
    SchedInterruptsOn,
    /// The kernel trap vector was entered from user privilege.
    TrapNotFromSupervisor,
    /// The kernel trap vector was entered with interrupts still enabled.
    TrapInterruptsOn,
    /// The user trap vector was entered from supervisor privilege.
    TrapNotFromUser,
    /// A load touched memory it may not access.
    LoadAccessFault,
    /// A load faulted in the page tables; there is no recovery path.
    LoadPageFault,
    /// An instruction fetch faulted in the page tables.
    InstructionPageFault,
    /// A store or atomic memory operation faulted in the page tables.
    StorePageFault,
    /// A trap cause no handler recognizes; the cause value is the diagnostic.
    UnhandledTrap(u64),
}

/// The ways a mapping request can fail. `OutOfFrames` is recoverable: the
/// caller unwinds what it already acquired and reports failure upward.
/// `Remap` is an invariant violation of the `Fatal` kind.
#[derive(Clone, Copy, Debug, PartialEq, Eq, Structural)]
pub enum MapError {
    /// The physical frame allocator was exhausted while building the path.
    OutOfFrames,
    /// The target leaf entry was already valid.
    Remap,
}

} // verus!
