use rvkern::proc::{BootInfo, Kernel, ProcState};

const KERN_BASE: u64 = 0x8000_0000;

fn booted(frames: u64) -> Kernel {
    let heap = KERN_BASE + 0x20_0000;
    let boot = BootInfo {
        text_end: KERN_BASE + 0x10_0000,
        phy_stop: heap + frames * 4096,
        heap_start: heap,
        trampoline: KERN_BASE + 0x11_0000,
        kernel_vec: KERN_BASE + 0x1000,
        uservec_off: 0,
        userret_off: 0x100,
        fork_ret: KERN_BASE + 0x2000,
        user_trap: KERN_BASE + 0x3000,
    };
    let mut k = Kernel::new(boot);
    k.proc_init();
    k
}

/// Two Runnable processes in slots 0 and 1; each, once selected, yields
/// straight back. Ascending-slot scanning makes the execution order
/// alternate: 0, 1, 0, 1, ...
#[test]
fn two_yielding_processes_alternate() {
    let mut k = booted(24);
    let image = vec![0x13u8; 4096];
    let a = k.user_init(&image).unwrap();
    let b = k.user_init(&image).unwrap();
    assert_eq!(a, 0);
    assert_eq!(b, 1);

    let mut order = Vec::new();
    let mut scan = 0usize;
    // four full turns of the dispatch loop
    while order.len() < 8 {
        match k.scheduler(scan) {
            Some(i) => {
                order.push(i);
                assert!(matches!(k.procs[i].state, ProcState::Running));
                // the process runs and voluntarily gives the unit up
                assert_eq!(k.yield_cpu(), Ok(()));
                assert!(matches!(k.procs[i].state, ProcState::Runnable));
                scan = i + 1;
            },
            None => {
                // a pass ended: start the next one from the front
                scan = 0;
            },
        }
    }
    assert_eq!(order, vec![0, 1, 0, 1, 0, 1, 0, 1]);
}

/// The scheduler never picks a process that is not Runnable, and a full scan
/// with nothing Runnable selects nobody.
#[test]
fn scheduler_skips_non_runnable() {
    let mut k = booted(24);
    let image = vec![0x13u8; 4096];
    let a = k.user_init(&image).unwrap();
    let sel = k.scheduler(0).unwrap();
    assert_eq!(sel, a);
    // while it is Running, a rescan finds nothing else
    assert_eq!(k.scheduler(sel + 1), None);
}
