//! The interrupt-controller protocol: a claim names a source id, the id is
//! routed to its driver, and the same id is written back to complete. The
//! register reads and writes are hardware territory; this module decides the
//! routing, and `crate::mem_layout` computes the register addresses.
use vstd::prelude::*;

use crate::mem_layout::UART_IRQ;
use crate::mem_layout::VIRTIO_IRQ;

verus! {

/// The driver a claimed interrupt source belongs to.
#[derive(Clone, Copy, Debug, PartialEq, Eq, Structural)]
pub enum IrqSource {
    /// The console line driver.
    Uart,
    /// The block-device driver.
    Virtio,
    /// A source id nothing claims: logged and ignored, never fatal — it marks
    /// a spurious interrupt, not a kernel bug.
    Unknown(u32),
}

/// One round of the claim/dispatch/complete protocol, from the value the
/// claim register returned: a zero claim means no source is pending and
/// nothing may be completed; a nonzero claim is routed to its driver and the
/// very same id must be written back to complete — exactly once.
pub fn plic_intr(claim: u32) -> (r: (IrqSource, Option<u32>))
    ensures
        claim == 0 ==> r.1 is None,
        claim != 0 ==> r.1 == Some(claim),
        claim == 0 ==> r.0 == IrqSource::Unknown(0u32),
        claim != 0 && claim == UART_IRQ ==> r.0 == IrqSource::Uart,
        claim != 0 && claim == VIRTIO_IRQ ==> r.0 == IrqSource::Virtio,
        claim != 0 && claim != UART_IRQ && claim != VIRTIO_IRQ ==> r.0 == IrqSource::Unknown(
            claim,
        ),
{
    if claim == 0 {
        (IrqSource::Unknown(0), None)
    } else {
        (plic_route(claim), Some(claim))
    }
}

/// Route a claimed source id to its driver.
pub fn plic_route(irq: u32) -> (r: IrqSource)
    ensures
        irq == UART_IRQ ==> r == IrqSource::Uart,
        irq == VIRTIO_IRQ ==> r == IrqSource::Virtio,
        irq != UART_IRQ && irq != VIRTIO_IRQ ==> r == IrqSource::Unknown(irq),
{
    if irq as u64 == UART_IRQ {
        IrqSource::Uart
    } else if irq as u64 == VIRTIO_IRQ {
        IrqSource::Virtio
    } else {
        IrqSource::Unknown(irq)
    }
}

} // verus!
