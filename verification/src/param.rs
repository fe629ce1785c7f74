//! Fixed capacities of the kernel core.
use vstd::prelude::*;

verus! {

/// Number of hardware execution units the kernel will run on. The model
/// restricts itself to one *concurrently scheduling* unit — the source shares
/// its tables between units with no mutual exclusion, and this restriction is
/// the explicit answer to that gap.
pub const NCPU: u32 = 4;

/// Capacity of the process table.
pub const NPROC: u32 = 64;

} // verus!
