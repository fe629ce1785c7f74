//! The console device handle and the echo decision of its receive interrupt.
//! Register access itself (init, put, get) is volatile hardware territory the
//! embedder performs; the library decides what the received byte echoes back.
use vstd::prelude::*;

verus! {

/// Handle on the console's register window.
pub struct Uart {
    /// Physical base address of the register window.
    pub base_address: usize,
}

impl Uart {
    /// A handle on the registers at `base_address`.
    pub fn new(base_address: usize) -> (u: Uart)
        ensures
            u.base_address == base_address,
    {
        Uart { base_address }
    }
}

/// What a received byte echoes back to the terminal: a backspace rubs the
/// previous character out, a newline or carriage return starts a fresh line,
/// anything else echoes as itself.
pub fn uart_echo(c: u8) -> (r: Vec<u8>)
    ensures
        c == 8 ==> r@ =~= seq![8u8, 32u8, 8u8],
        c == 10 || c == 13 ==> r@ =~= seq![10u8],
        c != 8 && c != 10 && c != 13 ==> r@ =~= seq![c],
{
    let mut out: Vec<u8> = Vec::new();
    if c == 8 {
        out.push(8);
        out.push(32);
        out.push(8);
    } else if c == 10 || c == 13 {
        out.push(10);
    } else {
        out.push(c);
    }
    out
}

} // verus!
