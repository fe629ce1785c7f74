//! The physical and virtual memory map: device register windows, the kernel
//! image boundaries, and the two fixed high virtual pages every address space
//! shares.
use vstd::prelude::*;

use crate::riscv::MAX_VA;
use crate::riscv::PAGE_SIZE;

verus! {

/// Console register window.
pub const UART: u64 = 0x1000_0000;

/// Interrupt source id of the console.
pub const UART_IRQ: u64 = 10;

/// Block-device register window.
pub const VIRTIO: u64 = 0x1000_1000;

/// Interrupt source id of the block device.
pub const VIRTIO_IRQ: u64 = 1;

/// Interrupt-controller register window.
pub const PLIC: u64 = 0x0c00_0000;

/// Where the kernel image is loaded.
pub const KERN_BASE: u64 = 0x8000_0000;

/// One past the last byte of physical RAM.
pub const PHY_STOP: u64 = KERN_BASE + 128 * 1024 * 1024;

/// The trampoline code page sits at the same, highest virtual page of every
/// address space; the trap-vector register bakes this address in.
pub const TRAMPOLINE: u64 = MAX_VA - PAGE_SIZE;

/// Each process's trap frame is mapped just below the trampoline.
pub const TRAP_FRAME: u64 = TRAMPOLINE - PAGE_SIZE;

/// Interrupt-enable bitmask register of one execution unit.
pub fn plic_senable(hart: u64) -> (r: u64)
    requires
        hart < 1024,
    ensures
        r == PLIC + 0x2080 + hart * 0x100,
{
    PLIC + 0x2080 + hart * 0x100
}

/// Priority-threshold register of one execution unit.
pub fn plic_spriority(hart: u64) -> (r: u64)
    requires
        hart < 1024,
    ensures
        r == PLIC + 0x20_1000 + hart * 0x2000,
{
    PLIC + 0x20_1000 + hart * 0x2000
}

/// Claim/complete register of one execution unit.
pub fn plic_sclaim(hart: u64) -> (r: u64)
    requires
        hart < 1024,
    ensures
        r == PLIC + 0x20_1004 + hart * 0x2000,
{
    PLIC + 0x20_1004 + hart * 0x2000
}

/// Top of the kernel stack of process slot `p`: stacks hang below the
/// trampoline, one guard page between neighbours.
pub fn kstack(p: u32) -> (r: u64)
    requires
        p < 64,
    ensures
        r == TRAMPOLINE - (p + 1) * 2 * PAGE_SIZE,
{
    TRAMPOLINE - (p as u64 + 1) * 2 * PAGE_SIZE
}

} // verus!
