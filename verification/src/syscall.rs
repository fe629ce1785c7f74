//! System-call dispatch: which call was requested and where user execution
//! resumes. The calls themselves are placeholders in this core — processes
//! cannot yet be deleted — so every call resumes just past the call
//! instruction; the console output a call produces is the embedder's to emit.
use vstd::prelude::*;

use crate::proc::TrapFrame;

verus! {

/// What the dispatched system call asks the embedder to do.
#[derive(Clone, Copy, Debug, PartialEq, Eq, Structural)]
pub enum SyscallAction {
    /// The exit request: nothing happens yet — processes run forever in this
    /// core, and reclamation is out of scope.
    Exit,
    /// The test call: print its diagnostic line.
    Test,
    /// A number no entry of the table matches: report it.
    Unknown(u64),
}

/// Dispatch on the system-call number in the first argument register: the
/// resume program counter always moves just past the call instruction.
pub fn do_syscall(mepc: usize, frame: &TrapFrame) -> (r: (usize, SyscallAction))
    requires
        mepc + 4 <= usize::MAX,
    ensures
        r.0 == mepc + 4,
        frame.a0 == 0 ==> r.1 == SyscallAction::Exit,
        frame.a0 == 1 ==> r.1 == SyscallAction::Test,
        frame.a0 != 0 && frame.a0 != 1 ==> r.1 == SyscallAction::Unknown(frame.a0),
{
    let number = frame.a0;
    if number == 0 {
        (mepc + 4, SyscallAction::Exit)
    } else if number == 1 {
        (mepc + 4, SyscallAction::Test)
    } else {
        (mepc + 4, SyscallAction::Unknown(number))
    }
}

} // verus!
