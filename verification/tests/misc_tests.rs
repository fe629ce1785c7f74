use rvkern::mem_layout::{kstack, plic_sclaim, plic_senable, plic_spriority, PLIC, TRAMPOLINE};
use rvkern::page::{align_val, page_round_down, page_round_up, Entry, EntryBits, Table};
use rvkern::plic::{plic_intr, plic_route, IrqSource};
use rvkern::proc::TrapFrame;
use rvkern::riscv::{make_satp, pa_to_pte, pte_flags, pte_to_pa, vpn};
use rvkern::string::{mem_copy, mem_set, str_cmp};
use rvkern::syscall::{do_syscall, SyscallAction};
use rvkern::uart::{uart_echo, Uart};

#[test]
fn pte_packing_round_trips() {
    let pa = 0x8020_3000u64;
    let pte = pa_to_pte(pa) | 0xf;
    assert_eq!(pte_to_pa(pte), pa);
    assert_eq!(pte_flags(pte), 0xf);
    assert_eq!(make_satp(pa), (8u64 << 60) | (pa >> 12));
}

#[test]
fn vpn_extracts_index_fields() {
    let va = (3u64 << 30) | (5u64 << 21) | (7u64 << 12) | 0x123;
    assert_eq!(vpn(2, va), 3);
    assert_eq!(vpn(1, va), 5);
    assert_eq!(vpn(0, va), 7);
    assert_eq!(rvkern::riscv::page_round_down(va), va - 0x123);
    assert_eq!(rvkern::riscv::page_round_up(va), va - 0x123 + 4096);
}

#[test]
fn layout_formulas() {
    assert_eq!(TRAMPOLINE, (1u64 << 38) - 4096);
    assert_eq!(kstack(0), TRAMPOLINE - 2 * 4096);
    assert_eq!(kstack(5), TRAMPOLINE - 12 * 4096);
    assert_eq!(plic_senable(2), PLIC + 0x2080 + 0x200);
    assert_eq!(plic_spriority(2), PLIC + 0x20_1000 + 0x4000);
    assert_eq!(plic_sclaim(2), PLIC + 0x20_1004 + 0x4000);
}

#[test]
fn raw_entry_records() {
    let mut e = Entry::new(0);
    assert!(!e.is_valid());
    e.set_entry((0x8020_3000i64 >> 12) << 10 | EntryBits::ReadWrite.val() | EntryBits::Valid.val());
    assert!(e.is_valid());
    assert_eq!(e.to_pa(), 0x8020_3000);
    assert_eq!(e.get_entry(), (0x8020_3000i64 >> 12) << 10 | 0x7);
    let t = Table::new();
    assert_eq!(t.entries.len(), Table::len());
}

#[test]
fn page_alignment_arithmetic() {
    assert_eq!(align_val(4097, 12), 8192);
    assert_eq!(align_val(4096, 12), 4096);
    assert_eq!(page_round_up(1), 4096);
    assert_eq!(page_round_down(8191), 4096);
}

#[test]
fn syscall_numbers_dispatch() {
    let mut tf = TrapFrame::new();
    let (pc, act) = do_syscall(100, &tf);
    assert_eq!(pc, 104);
    assert_eq!(act, SyscallAction::Exit);
    tf.a0 = 1;
    assert_eq!(do_syscall(0, &tf).1, SyscallAction::Test);
    tf.a0 = 42;
    assert_eq!(do_syscall(8, &tf), (12, SyscallAction::Unknown(42)));
}

#[test]
fn irq_routing() {
    assert_eq!(plic_route(10), IrqSource::Uart);
    assert_eq!(plic_route(1), IrqSource::Virtio);
    assert_eq!(plic_route(33), IrqSource::Unknown(33));
}

#[test]
fn irq_protocol_completes_each_nonzero_claim_once() {
    // a zero claim: nothing pending, nothing completed
    assert_eq!(plic_intr(0), (IrqSource::Unknown(0), None));
    // a claimed source is completed with exactly its own id
    assert_eq!(plic_intr(10), (IrqSource::Uart, Some(10)));
    assert_eq!(plic_intr(1), (IrqSource::Virtio, Some(1)));
    // a spurious source is still completed, never fatal
    assert_eq!(plic_intr(33), (IrqSource::Unknown(33), Some(33)));
}

#[test]
fn console_echo_bytes() {
    assert_eq!(uart_echo(8), vec![8, 32, 8]);
    assert_eq!(uart_echo(10), vec![10]);
    assert_eq!(uart_echo(13), vec![10]);
    assert_eq!(uart_echo(b'x'), vec![b'x']);
    let u = Uart::new(0x1000_0000);
    assert_eq!(u.base_address, 0x1000_0000);
}

#[test]
fn byte_buffer_primitives() {
    let mut buf = vec![0xffu8; 8];
    mem_set(&mut buf, 0x61, 4);
    assert_eq!(buf, vec![0x61, 0x61, 0x61, 0x61, 0xff, 0xff, 0xff, 0xff]);
    let src = vec![1u8, 2, 3, 4];
    mem_copy(&mut buf, &src, 3);
    assert_eq!(buf, vec![1, 2, 3, 0x61, 0xff, 0xff, 0xff, 0xff]);
    let s1 = vec![b'a', b'b', b'c'];
    let s2 = vec![b'a', b'b', b'c'];
    assert_eq!(str_cmp(&s1, &s2, 3), 0);
    let s3 = vec![b'a', b'x', b'c'];
    assert_eq!(str_cmp(&s1, &s3, 3), b'b');
    assert_eq!(str_cmp(&s1, &s3, 1), 0);
}
