//! Verified model of a small preemptive kernel core for a 64-bit RISC-style
//! machine with hardware paging: the physical page-frame allocator, the
//! three-level page tables of the virtual memory manager, the process table
//! with its round-robin scheduler, and the trap dispatch state machine.
//!
//! Physical memory is modelled as an arena of page frames addressed by
//! checked integer handles; each address space exclusively owns its page-table
//! nodes. Hardware register access, the context-switch primitive and the
//! trampoline are boundary primitives: the functions here compute the values
//! that are written to them and take the values read from them as arguments.

pub mod errors;
pub mod kalloc;
pub mod mem_layout;
pub mod page;
pub mod param;
pub mod plic;
pub mod proc;
pub mod riscv;
pub mod string;
pub mod syscall;
pub mod trap;
pub mod uart;
pub mod vm;
