//! Architectural constants and pure arithmetic of the paging hardware:
//! page-table entry packing, page rounding, and the per-level index fields of
//! a virtual address. The privileged registers themselves are machine state;
//! the model keeps their values in [`crate::proc::Cpu`].
use vstd::prelude::*;

verus! {

pub const PAGE_SIZE: u64 = 4096;

/// One past the highest representable virtual address: three 9-bit index
/// levels and a 12-bit offset, with the top bit left to the hardware.
pub const MAX_VA: u64 = 0x40_0000_0000;

pub const PTE_V: u64 = 0x1;
pub const PTE_R: u64 = 0x2;
pub const PTE_W: u64 = 0x4;
pub const PTE_X: u64 = 0x8;
pub const PTE_U: u64 = 0x10;

/// Mode tag selecting 39-bit three-level translation, packed into the high
/// bits of the translation-control register.
pub const SATP_SV39: u64 = 0x8000_0000_0000_0000;

pub const SSTATUS_SIE: u64 = 0x2;
pub const SSTATUS_SPIE: u64 = 0x20;
/// Previous privilege: supervisor when set, user when clear.
pub const SSTATUS_SPP: u64 = 0x100;

/// Top bit of the trap cause register: asynchronous interrupt when set,
/// synchronous exception when clear.
pub const SCAUSE_INTERRUPT: u64 = 0x8000_0000_0000_0000;

pub open spec fn spec_make_satp(page_table: u64) -> u64 {
    SATP_SV39 | (page_table >> 12)
}

/// Pack the translation-control register value: mode tag plus root frame number.
#[verifier::when_used_as_spec(spec_make_satp)]
pub fn make_satp(page_table: u64) -> (r: u64)
    ensures
        r == spec_make_satp(page_table),
{
    SATP_SV39 | (page_table >> 12)
}

pub open spec fn spec_pa_to_pte(pa: u64) -> u64 {
    (pa >> 12) << 10
}

/// Place a physical address into the frame-number field of a page-table entry.
#[verifier::when_used_as_spec(spec_pa_to_pte)]
pub fn pa_to_pte(pa: u64) -> (r: u64)
    ensures
        r == spec_pa_to_pte(pa),
{
    (pa >> 12) << 10
}

pub open spec fn spec_pte_to_pa(pte: u64) -> u64 {
    (pte >> 10) << 12
}

/// Recover the physical address from the frame-number field of an entry.
#[verifier::when_used_as_spec(spec_pte_to_pa)]
pub fn pte_to_pa(pte: u64) -> (r: u64)
    ensures
        r == spec_pte_to_pa(pte),
{
    (pte >> 10) << 12
}

pub open spec fn spec_pte_flags(pte: u64) -> u64 {
    pte & 0x3ff
}

/// The low flag bits of an entry; `PTE_V` alone marks an internal node.
#[verifier::when_used_as_spec(spec_pte_flags)]
pub fn pte_flags(pte: u64) -> (r: u64)
    ensures
        r == spec_pte_flags(pte),
{
    pte & 0x3ff
}

pub open spec fn spec_page_round_up(a: u64) -> u64 {
    ((a + 4095) as u64) & !4095u64
}

/// Round up to the next page boundary.
#[verifier::when_used_as_spec(spec_page_round_up)]
pub fn page_round_up(a: u64) -> (r: u64)
    requires
        a + 4095 <= u64::MAX,
    ensures
        r == spec_page_round_up(a),
{
    (a + (PAGE_SIZE - 1)) & !(PAGE_SIZE - 1)
}

pub open spec fn spec_page_round_down(a: u64) -> u64 {
    a & !4095u64
}

/// Round down to the enclosing page boundary.
#[verifier::when_used_as_spec(spec_page_round_down)]
pub fn page_round_down(a: u64) -> (r: u64)
    ensures
        r == spec_page_round_down(a),
{
    a & !(PAGE_SIZE - 1)
}

/// The level-2 (root) index field of a virtual address.
pub open spec fn vpn2(va: u64) -> u64 {
    (va >> 30) & 0x1ff
}

/// The level-1 index field of a virtual address.
pub open spec fn vpn1(va: u64) -> u64 {
    (va >> 21) & 0x1ff
}

/// The level-0 (leaf) index field of a virtual address.
pub open spec fn vpn0(va: u64) -> u64 {
    (va >> 12) & 0x1ff
}

/// Extract the page-table index of `va` for one translation level.
pub fn vpn(level: i32, va: u64) -> (r: u64)
    requires
        0 <= level <= 2,
    ensures
        level == 2 ==> r == vpn2(va),
        level == 1 ==> r == vpn1(va),
        level == 0 ==> r == vpn0(va),
{
    (va >> ((12 + 9 * level) as u64)) & 0x1ff
}

/// Each index field is a valid position in a 512-entry table, and the fields
/// ignore the offset within the page.
pub proof fn lemma_vpn_bounds(va: u64)
    by (bit_vector)
    ensures
        vpn2(va) < 512,
        vpn1(va) < 512,
        vpn0(va) < 512,
        va < MAX_VA ==> vpn2(va) < 256,
        vpn2(spec_page_round_down(va)) == vpn2(va),
        vpn1(spec_page_round_down(va)) == vpn1(va),
        vpn0(spec_page_round_down(va)) == vpn0(va),
{
}

/// Two aligned addresses below `MAX_VA` with the same three index fields are
/// the same address: root-to-leaf paths identify pages uniquely.
pub proof fn lemma_vpn_unique(a: u64, b: u64)
    by (bit_vector)
    requires
        a < MAX_VA,
        b < MAX_VA,
        a % 4096 == 0,
        b % 4096 == 0,
        vpn2(a) == vpn2(b),
        vpn1(a) == vpn1(b),
        vpn0(a) == vpn0(b),
    ensures
        a == b,
{
}

/// Rounding down splits an address into its page base and offset.
pub proof fn lemma_round_down(va: u64)
    by (bit_vector)
    ensures
        spec_page_round_down(va) % 4096 == 0,
        spec_page_round_down(va) == va - (va % 4096),
        va % 4096 < 4096,
        va % 4096 == 0 ==> spec_page_round_down(va) == va,
        spec_page_round_down(va) < MAX_VA <==> va < MAX_VA,
{
}

/// Rounding up lands on the next boundary at or above `a`, less than one page
/// away.
pub proof fn lemma_round_up(a: u64)
    by (bit_vector)
    requires
        a + 4095 <= u64::MAX,
    ensures
        spec_page_round_up(a) % 4096 == 0,
        a <= spec_page_round_up(a) <= a + 4095,
        spec_page_round_up(a) == 4096 * ((a + 4095) as u64 / 4096),
        a % 4096 == 0 ==> spec_page_round_up(a) == a,
{
}

/// Bitwise or of an aligned base with a page offset is plain addition.
pub proof fn lemma_or_is_plus(pa: u64, off: u64)
    by (bit_vector)
    requires
        pa % 4096 == 0,
        off < 4096,
    ensures
        (pa | off) == pa + off,
{
}

/// Two distinct aligned addresses are at least a whole page apart.
pub proof fn lemma_aligned_gap(x: u64, y: u64)
    by (bit_vector)
    requires
        x % 4096 == 0,
        y % 4096 == 0,
        y < x,
    ensures
        y + 4096 <= x,
{
}

/// Stepping one page forward moves the 2 MiB-region number by at most one,
/// and staying in the same region keeps both internal index fields.
pub proof fn lemma_vpn_step(a: u64)
    by (bit_vector)
    requires
        a % 4096 == 0,
        a + 4096 <= u64::MAX,
    ensures
        ((a + 4096) as u64) >> 21 == a >> 21 || ((a + 4096) as u64) >> 21 == (a >> 21) + 1,
        ((a + 4096) as u64) >> 21 == a >> 21 ==> vpn2((a + 4096) as u64) == vpn2(a) && vpn1(
            (a + 4096) as u64,
        ) == vpn1(a),
{
}

/// The 2 MiB-region number grows with the address.
pub proof fn lemma_region_monotone(a: u64, b: u64)
    by (bit_vector)
    requires
        a <= b,
    ensures
        a >> 21 <= b >> 21,
{
}

/// Alignment is preserved by whole-page steps.
pub proof fn lemma_aligned_add(a: u64, b: u64)
    by (bit_vector)
    requires
        a % 4096 == 0,
        b % 4096 == 0,
        a + b <= u64::MAX,
    ensures
        ((a + b) as u64) % 4096 == 0,
{
}

} // verus!
