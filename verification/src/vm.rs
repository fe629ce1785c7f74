//! The virtual memory manager: three-level radix page tables with 512 entries
//! per node and 4 KiB leaves.
//!
//! Page-table nodes are kept in arenas owned by their address space, addressed
//! by checked integer handles: an internal entry's frame-number field holds
//! the handle of its child node, while a leaf entry's frame-number field holds
//! a real physical frame number. Every root-to-leaf path has exactly three
//! levels. Each node also records the physical frame that backs it, so that
//! tearing an address space down returns exactly the frames it consumed.
use vstd::pervasive::VecAdditionalExecFns;
use vstd::prelude::*;

use crate::errors::Fatal;
use crate::errors::MapError;
use crate::kalloc::Kmem;
use crate::riscv::lemma_vpn_bounds;
use crate::riscv::vpn;
use crate::riscv::vpn0;
use crate::riscv::vpn1;
use crate::riscv::vpn2;
use crate::riscv::pa_to_pte;
use crate::riscv::pte_flags;
use crate::riscv::pte_to_pa;
use crate::riscv::spec_pa_to_pte;
use crate::riscv::spec_pte_flags;
use crate::riscv::spec_pte_to_pa;
use crate::riscv::MAX_VA;
use crate::riscv::PAGE_SIZE;
use crate::riscv::PTE_R;
use crate::riscv::PTE_U;
use crate::riscv::PTE_V;
use crate::riscv::PTE_X;

verus! {

/// One page-table node: 512 raw entries, backed by the physical frame `pa`.
pub struct PageTable {
    /// The physical frame this node consumes.
    pub pa: u64,
    /// The 512 page-table entries of the node.
    pub entries: Vec<u64>,
}

/// An address space: a root node and the arenas of level-1 (`mids`) and
/// level-0 (`leaves`) nodes it exclusively owns.
pub struct AddressSpace {
    /// The level-2 node; its frame number is what the translation-control
    /// register is loaded with.
    pub root: PageTable,
    /// Level-1 nodes; valid root entries hold handles into this arena.
    pub mids: Vec<PageTable>,
    /// Level-0 nodes; valid level-1 entries hold handles into this arena.
    pub leaves: Vec<PageTable>,
}

/// An entry translates (or points to a child) only when its validity bit is
/// set.
pub open spec fn pte_valid(e: u64) -> bool {
    e & 1 != 0
}

/// A zero entry is invalid: fresh nodes translate nothing.
pub proof fn lemma_zero_invalid()
    ensures
        !pte_valid(0),
{
    assert(0u64 & 1 == 0) by (bit_vector);
}

/// The handle held in the frame-number field of an internal entry.
pub open spec fn pte_handle(e: u64) -> int {
    (e >> 10) as int
}

/// A valid internal entry carries no permission bits and a handle below `n`.
pub open spec fn internal_ok(e: u64, n: int) -> bool {
    pte_valid(e) ==> (e & 0x3ff) == 1 && pte_handle(e) < n
}

/// Every node has exactly 512 entries.
pub open spec fn table_ok(t: PageTable) -> bool {
    t.entries@.len() == 512
}

/// A frame the pool does not hold, inside the managed range: one the caller
/// may legally hand back.
pub open spec fn frame_owned(km: Kmem, pa: u64) -> bool {
    km.in_range(pa) && !km@.contains(pa)
}

/// How many entries of a node are valid.
pub open spec fn count_valid(s: Seq<u64>) -> int
    decreases s.len(),
{
    if s.len() == 0 {
        0
    } else {
        count_valid(s.drop_last()) + if pte_valid(s.last()) {
            1int
        } else {
            0int
        }
    }
}

/// The total number of valid entries across a whole arena of nodes.
pub open spec fn sum_valid(ts: Seq<PageTable>) -> int
    decreases ts.len(),
{
    if ts.len() == 0 {
        0
    } else {
        sum_valid(ts.drop_last()) + count_valid(ts.last().entries@)
    }
}

proof fn lemma_count_valid_bounds(s: Seq<u64>)
    ensures
        0 <= count_valid(s) <= s.len(),
    decreases s.len(),
{
    if s.len() > 0 {
        lemma_count_valid_bounds(s.drop_last());
    }
}

proof fn lemma_count_valid_zero(s: Seq<u64>)
    requires
        forall|i: int| 0 <= i < s.len() ==> !pte_valid(#[trigger] s[i]),
    ensures
        count_valid(s) == 0,
    decreases s.len(),
{
    if s.len() > 0 {
        assert(!pte_valid(s[s.len() - 1]));
        lemma_count_valid_zero(s.drop_last());
    }
}

proof fn lemma_count_valid_update(s: Seq<u64>, i: int, v: u64)
    requires
        0 <= i < s.len(),
    ensures
        count_valid(s.update(i, v)) == count_valid(s) - (if pte_valid(s[i]) {
            1int
        } else {
            0int
        }) + (if pte_valid(v) {
            1int
        } else {
            0int
        }),
    decreases s.len(),
{
    let s2 = s.update(i, v);
    if i == s.len() - 1 {
        assert(s2.drop_last() =~= s.drop_last());
        assert(s2.last() == v);
    } else {
        lemma_count_valid_update(s.drop_last(), i, v);
        assert(s2.drop_last() =~= s.drop_last().update(i, v));
        assert(s2.last() == s.last());
    }
}

proof fn lemma_sum_valid_bounds(ts: Seq<PageTable>)
    requires
        forall|m: int| 0 <= m < ts.len() ==> table_ok(#[trigger] ts[m]),
    ensures
        0 <= sum_valid(ts) <= 512 * ts.len(),
    decreases ts.len(),
{
    if ts.len() > 0 {
        lemma_sum_valid_bounds(ts.drop_last());
        lemma_count_valid_bounds(ts.last().entries@);
        assert(table_ok(ts[ts.len() - 1]));
    }
}

proof fn lemma_sum_valid_push(ts: Seq<PageTable>, t: PageTable)
    ensures
        sum_valid(ts.push(t)) == sum_valid(ts) + count_valid(t.entries@),
{
    assert(ts.push(t).drop_last() =~= ts);
    assert(ts.push(t).last() == t);
}

proof fn lemma_sum_valid_update(ts: Seq<PageTable>, m: int, t: PageTable)
    requires
        0 <= m < ts.len(),
    ensures
        sum_valid(ts.update(m, t)) == sum_valid(ts) - count_valid(ts[m].entries@) + count_valid(
            t.entries@,
        ),
    decreases ts.len(),
{
    let ts2 = ts.update(m, t);
    if m == ts.len() - 1 {
        assert(ts2.drop_last() =~= ts.drop_last());
        assert(ts2.last() == t);
    } else {
        lemma_sum_valid_update(ts.drop_last(), m, t);
        assert(ts2.drop_last() =~= ts.drop_last().update(m, t));
        assert(ts2.last() == ts.last());
    }
}

/// A pool element survives `drop_last` only if it was already there.
proof fn lemma_drop_last_contains(s: Seq<u64>, p: u64)
    requires
        s.len() > 0,
        s.drop_last().contains(p),
    ensures
        s.contains(p),
{
    let i = choose|i: int| 0 <= i < s.drop_last().len() && s.drop_last()[i] == p;
    assert(s[i] == p);
}

/// Taking a prefix of a prefix is taking the shorter prefix.
proof fn lemma_take_trans(a: Seq<u64>, b: Seq<u64>, c: Seq<u64>)
    requires
        b.len() <= a.len(),
        c.len() <= b.len(),
        b == a.take(b.len() as int),
        c == b.take(c.len() as int),
    ensures
        c == a.take(c.len() as int),
{
    assert(c =~= a.take(c.len() as int));
}

/// Packing a small arena handle into the frame-number field of an internal
/// entry is lossless, and the result is a well-formed internal entry.
proof fn lemma_handle_pack(h: u64)
    by (bit_vector)
    requires
        h < 0x10_0000,
    ensures
        ((h << 10) | 1u64) >> 10 == h,
        ((h << 10) | 1u64) & 0x3ff == 1,
        ((h << 10) | 1u64) & 1 != 0,
{
}

impl AddressSpace {
    /// The root entry on the path of `va`.
    pub open spec fn l1_entry(self, va: u64) -> u64 {
        self.root.entries@[vpn2(va) as int]
    }

    /// The level-1 node on the path of `va`.
    pub open spec fn mid_of(self, va: u64) -> PageTable {
        self.mids@[pte_handle(self.l1_entry(va))]
    }

    /// The level-1 entry on the path of `va`.
    pub open spec fn l0_entry(self, va: u64) -> u64 {
        self.mid_of(va).entries@[vpn1(va) as int]
    }

    /// Both internal levels of the path of `va` are present.
    pub open spec fn path_present(self, va: u64) -> bool {
        pte_valid(self.l1_entry(va)) && pte_valid(self.l0_entry(va))
    }

    /// The leaf node on the path of `va`.
    pub open spec fn leaf_of(self, va: u64) -> PageTable {
        self.leaves@[pte_handle(self.l0_entry(va))]
    }

    /// The leaf entry of `va`: zero (invalid) when the path is incomplete.
    pub open spec fn leaf_pte(self, va: u64) -> u64 {
        if self.path_present(va) {
            self.leaf_of(va).entries@[vpn0(va) as int]
        } else {
            0
        }
    }

    /// `va` currently translates to a physical page.
    pub open spec fn mapped(self, va: u64) -> bool {
        pte_valid(self.leaf_pte(va))
    }

    /// What translation returns for `va`: the mapped frame plus the offset
    /// within the page, or nothing.
    pub open spec fn spec_translate(self, va: u64) -> Option<u64> {
        if self.mapped(va) {
            Some(spec_pte_to_pa(self.leaf_pte(va)) | (va & 0xfff))
        } else {
            None
        }
    }

    /// Structural well-formedness: nodes have 512 entries, internal entries
    /// hold in-bounds handles with no permission bits, and handles are never
    /// duplicated — each node has at most one parent, so distinct paths never
    /// share a child.
    pub open spec fn wf(self) -> bool {
        &&& table_ok(self.root)
        &&& forall|i: int|
            0 <= i < 512 ==> internal_ok(#[trigger] self.root.entries@[i], self.mids@.len() as int)
        &&& forall|i: int, j: int|
            0 <= i < 512 && 0 <= j < 512 && i != j && pte_valid(#[trigger] self.root.entries@[i])
                && pte_valid(#[trigger] self.root.entries@[j]) ==> pte_handle(self.root.entries@[i])
                != pte_handle(self.root.entries@[j])
        &&& forall|m: int| 0 <= m < self.mids@.len() ==> table_ok(#[trigger] self.mids@[m])
        &&& forall|m: int, i: int|
            0 <= m < self.mids@.len() && 0 <= i < 512 ==> internal_ok(
                #[trigger] self.mids@[m].entries@[i],
                self.leaves@.len() as int,
            )
        &&& forall|m1: int, i1: int, m2: int, i2: int|
            0 <= m1 < self.mids@.len() && 0 <= i1 < 512 && 0 <= m2 < self.mids@.len() && 0 <= i2
                < 512 && (m1 != m2 || i1 != i2) && pte_valid(#[trigger] self.mids@[m1].entries@[i1])
                && pte_valid(#[trigger] self.mids@[m2].entries@[i2]) ==> pte_handle(
                self.mids@[m1].entries@[i1],
            ) != pte_handle(self.mids@[m2].entries@[i2])
        &&& forall|l: int| 0 <= l < self.leaves@.len() ==> table_ok(#[trigger] self.leaves@[l])
        &&& self.mids@.len() == count_valid(self.root.entries@)
        &&& self.leaves@.len() == sum_valid(self.mids@)
    }

    /// The arenas stay small: handles always fit the frame-number field.
    pub proof fn lemma_arena_bounds(self)
        requires
            self.wf(),
        ensures
            self.mids@.len() <= 512,
            self.leaves@.len() <= 512 * 512,
    {
        lemma_count_valid_bounds(self.root.entries@);
        lemma_sum_valid_bounds(self.mids@);
    }

    /// Exclusive ownership of the backing frames: every node of this address
    /// space sits on a distinct frame of the managed range that the pool does
    /// not hold.
    pub open spec fn owns(self, km: Kmem) -> bool {
        &&& frame_owned(km, self.root.pa)
        &&& forall|m: int|
            0 <= m < self.mids@.len() ==> frame_owned(km, (#[trigger] self.mids@[m]).pa)
                && self.mids@[m].pa != self.root.pa
        &&& forall|l: int|
            0 <= l < self.leaves@.len() ==> frame_owned(km, (#[trigger] self.leaves@[l]).pa)
                && self.leaves@[l].pa != self.root.pa
        &&& forall|m1: int, m2: int|
            0 <= m1 < m2 < self.mids@.len() ==> (#[trigger] self.mids@[m1]).pa
                != (#[trigger] self.mids@[m2]).pa
        &&& forall|l1: int, l2: int|
            0 <= l1 < l2 < self.leaves@.len() ==> (#[trigger] self.leaves@[l1]).pa
                != (#[trigger] self.leaves@[l2]).pa
        &&& forall|m: int, l: int|
            0 <= m < self.mids@.len() && 0 <= l < self.leaves@.len() ==> (
            #[trigger] self.mids@[m]).pa != (#[trigger] self.leaves@[l]).pa
    }

    /// `pa` backs one of this address space's nodes.
    pub open spec fn is_table_pa(self, pa: u64) -> bool {
        ||| pa == self.root.pa
        ||| exists|m: int| 0 <= m < self.mids@.len() && (#[trigger] self.mids@[m]).pa == pa
        ||| exists|l: int| 0 <= l < self.leaves@.len() && (#[trigger] self.leaves@[l]).pa == pa
    }

    /// How many physical frames the nodes of this address space consume.
    pub open spec fn tables_held(self) -> int {
        1 + self.mids@.len() as int + self.leaves@.len() as int
    }

    /// Build an empty address space from one freshly allocated root frame.
    /// Fails (with the pool left as it was) only on exhaustion.
    pub fn new(km: &mut Kmem) -> (r: Option<AddressSpace>)
        requires
            old(km).wf(),
        ensures
            final(km).wf(),
            final(km).base() == old(km).base(),
            final(km).limit() == old(km).limit(),
            match r {
                None => final(km)@ == old(km)@ && old(km)@.len() == 0,
                Some(a) => {
                    &&& a.wf()
                    &&& a.owns(*final(km))
                    &&& a.tables_held() == 1
                    &&& old(km)@.len() > 0
                    &&& a.root.pa == old(km)@.last()
                    &&& final(km)@ == old(km)@.drop_last()
                    &&& forall|va: u64| !(#[trigger] a.path_present(va)) && a.leaf_pte(va) == 0
                    &&& forall|pa: u64| #[trigger] a.is_table_pa(pa) ==> pa == a.root.pa
                },
            },
    {
        let pa = match km.kalloc() {
            None => {
                return None;
            },
            Some(pa) => pa,
        };
        let a = AddressSpace { root: new_table(pa), mids: Vec::new(), leaves: Vec::new() };
        proof {
            lemma_zero_invalid();
            lemma_count_valid_zero(a.root.entries@);
            assert forall|i: int| 0 <= i < 512 implies internal_ok(
                #[trigger] a.root.entries@[i],
                a.mids@.len() as int,
            ) by {
                assert(a.root.entries@[i] == 0);
            }
            assert forall|va: u64| !(#[trigger] a.path_present(va)) && a.leaf_pte(va) == 0 by {
                lemma_vpn_bounds(va);
                assert(a.root.entries@[vpn2(va) as int] == 0);
            }
        }
        Some(a)
    }
}

/// Taking the whole sequence changes nothing.
pub proof fn lemma_take_all(s: Seq<u64>)
    ensures
        s == s.take(s.len() as int),
{
    assert(s =~= s.take(s.len() as int));
}

/// Low flag bits of a leaf entry built from an aligned frame and permission
/// bits: the entry is valid, reads back exactly, and is never mistaken for an
/// internal node.
pub proof fn lemma_leaf_pte_fields(pa: u64, perm: u64)
    by (bit_vector)
    requires
        pa % 4096 == 0,
        perm & 0x3ff == perm,
        perm & 1 == 0,
        perm & 0xe != 0,
    ensures
        (spec_pa_to_pte(pa) | perm | 1) & 1 != 0,
        spec_pte_to_pa(spec_pa_to_pte(pa) | perm | 1) == pa,
        spec_pte_flags(spec_pa_to_pte(pa) | perm | 1) == (perm | 1),
        spec_pte_flags(spec_pa_to_pte(pa) | perm | 1) != 1,
{
}

/// How every page-table operation relates the address space and the frame
/// pool it draws from, before and after: well-formedness and exclusive frame
/// ownership are kept; the root keeps its frame; any node frame that appears
/// came out of the pool; the pool only shrinks, from its end; and frames are
/// conserved between the pool and the node arenas.
pub open spec fn vm_evolution(a0: AddressSpace, k0: Kmem, a1: AddressSpace, k1: Kmem) -> bool {
    &&& a1.wf()
    &&& k1.wf()
    &&& k1.base() == k0.base()
    &&& k1.limit() == k0.limit()
    &&& a1.owns(k1)
    &&& a1.root.pa == a0.root.pa
    &&& forall|p: u64| #[trigger] a1.is_table_pa(p) ==> a0.is_table_pa(p) || k0@.contains(p)
    &&& forall|p: u64| #[trigger] k1@.contains(p) ==> k0@.contains(p)
    &&& k1@.len() <= k0@.len()
    &&& k1@ == k0@.take(k1@.len() as int)
    &&& k1@.len() + a1.tables_held() == k0@.len() + a0.tables_held()
    &&& a0.tables_held() <= a1.tables_held()
}

/// Evolutions compose.
pub proof fn lemma_vm_evolution_trans(
    a0: AddressSpace,
    k0: Kmem,
    a1: AddressSpace,
    k1: Kmem,
    a2: AddressSpace,
    k2: Kmem,
)
    requires
        vm_evolution(a0, k0, a1, k1),
        vm_evolution(a1, k1, a2, k2),
    ensures
        vm_evolution(a0, k0, a2, k2),
{
    lemma_take_trans(k0@, k1@, k2@);
    assert forall|p: u64| #[trigger] a2.is_table_pa(p) implies a0.is_table_pa(p)
        || k0@.contains(p) by {
        if a1.is_table_pa(p) {
        } else {
            assert(k1@.contains(p));
        }
    }
}

/// A fresh, zero-filled node backed by frame `pa`.
fn new_table(pa: u64) -> (t: PageTable)
    ensures
        t.pa == pa,
        table_ok(t),
        forall|i: int| 0 <= i < 512 ==> t.entries@[i] == 0,
{
    PageTable { pa, entries: vec![0u64; 512] }
}

/// Find the level-1 node on the path of `va`, installing a fresh zero-filled
/// one when the root entry is invalid. Fails only on pool exhaustion, leaving
/// translation untouched either way.
fn ensure_mid(aspace: &mut AddressSpace, km: &mut Kmem, va: u64) -> (r: Option<usize>)
    requires
        old(aspace).wf(),
        old(km).wf(),
        old(aspace).owns(*old(km)),
        va < MAX_VA,
    ensures
        vm_evolution(*old(aspace), *old(km), *final(aspace), *final(km)),
        forall|va2: u64|
            va2 < MAX_VA ==> final(aspace).leaf_pte(va2) == old(aspace).leaf_pte(va2),
        final(aspace).leaves@ == old(aspace).leaves@,
        final(aspace).tables_held() <= old(aspace).tables_held() + 1,
        match r {
            Some(m) => {
                &&& pte_valid(final(aspace).l1_entry(va))
                &&& pte_handle(final(aspace).l1_entry(va)) == m as int
                &&& (m as int) < final(aspace).mids@.len()
                &&& (pte_valid(old(aspace).l1_entry(va)) ==> *final(aspace) == *old(aspace)
                    && *final(km) == *old(km))
            },
            None => {
                &&& final(km)@.len() == 0
                &&& *final(aspace) == *old(aspace)
                &&& !pte_valid(old(aspace).l1_entry(va))
            },
        },
{
    proof {
        lemma_vpn_bounds(va);
        lemma_zero_invalid();
        old(aspace).lemma_arena_bounds();
        lemma_take_all(old(km)@);
    }
    let i2 = vpn(2, va) as usize;
    let e2 = aspace.root.entries[i2];
    proof {
        assert(e2 == aspace.l1_entry(va));
    }
    if e2 & PTE_V != 0 {
        // reading the length pins the arena size as a machine word, so the
        // handle below provably fits a usize
        let _nmids = aspace.mids.len();
        let m = (e2 >> 10) as usize;
        proof {
            assert(internal_ok(e2, aspace.mids@.len() as int));
            assert(m as int == pte_handle(e2));
        }
        return Some(m);
    }
    let pa = match km.kalloc() {
        None => {
            proof {
                lemma_take_all(km@);
            }
            return None;
        },
        Some(pa) => pa,
    };
    let ghost a0 = *old(aspace);
    let ghost k0 = *old(km);
    let m = aspace.mids.len();
    aspace.mids.push(new_table(pa));
    let e2new = ((m as u64) << 10) | PTE_V;
    aspace.root.entries.set(i2, e2new);
    proof {
        lemma_handle_pack(m as u64);
        let a1 = *aspace;
        let k1 = *km;
        assert(k0@.contains(pa)) by {
            assert(k0@[k0@.len() - 1] == pa);
        }
        assert forall|p: u64| #[trigger] k1@.contains(p) implies k0@.contains(p) by {
            lemma_drop_last_contains(k0@, p);
        }
        // structural well-formedness of the grown arena
        assert forall|i: int| 0 <= i < 512 implies internal_ok(
            #[trigger] a1.root.entries@[i],
            a1.mids@.len() as int,
        ) by {
            if i != i2 as int {
                assert(a1.root.entries@[i] == a0.root.entries@[i]);
                assert(internal_ok(a0.root.entries@[i], a0.mids@.len() as int));
            }
        }
        assert forall|i: int, j: int|
            0 <= i < 512 && 0 <= j < 512 && i != j && pte_valid(#[trigger] a1.root.entries@[i])
                && pte_valid(#[trigger] a1.root.entries@[j]) implies pte_handle(
            a1.root.entries@[i],
        ) != pte_handle(a1.root.entries@[j]) by {
            if i != i2 as int && j != i2 as int {
                assert(a1.root.entries@[i] == a0.root.entries@[i]);
                assert(a1.root.entries@[j] == a0.root.entries@[j]);
            } else if i == i2 as int {
                assert(a1.root.entries@[j] == a0.root.entries@[j]);
                assert(internal_ok(a0.root.entries@[j], a0.mids@.len() as int));
            } else {
                assert(a1.root.entries@[i] == a0.root.entries@[i]);
                assert(internal_ok(a0.root.entries@[i], a0.mids@.len() as int));
            }
        }
        let t = a1.mids@[m as int];
        assert(forall|i: int| 0 <= i < 512 ==> t.entries@[i] == 0);
        assert forall|mm: int, i: int|
            0 <= mm < a1.mids@.len() && 0 <= i < 512 implies internal_ok(
            #[trigger] a1.mids@[mm].entries@[i],
            a1.leaves@.len() as int,
        ) by {
            if mm == m as int {
                assert(a1.mids@[mm].entries@[i] == 0);
            } else {
                assert(a1.mids@[mm] == a0.mids@[mm]);
                assert(internal_ok(a0.mids@[mm].entries@[i], a0.leaves@.len() as int));
            }
        }
        assert forall|m1: int, i1: int, m2: int, i2x: int|
            0 <= m1 < a1.mids@.len() && 0 <= i1 < 512 && 0 <= m2 < a1.mids@.len() && 0 <= i2x
                < 512 && (m1 != m2 || i1 != i2x) && pte_valid(#[trigger] a1.mids@[m1].entries@[i1])
                && pte_valid(#[trigger] a1.mids@[m2].entries@[i2x]) implies pte_handle(
            a1.mids@[m1].entries@[i1],
        ) != pte_handle(a1.mids@[m2].entries@[i2x]) by {
            if m1 == m as int {
                assert(a1.mids@[m1].entries@[i1] == 0);
            } else if m2 == m as int {
                assert(a1.mids@[m2].entries@[i2x] == 0);
            } else {
                assert(a1.mids@[m1] == a0.mids@[m1]);
                assert(a1.mids@[m2] == a0.mids@[m2]);
            }
        }
        // counting
        lemma_count_valid_update(a0.root.entries@, i2 as int, e2new);
        lemma_sum_valid_push(a0.mids@, t);
        lemma_count_valid_zero(t.entries@);
        // ownership
        assert forall|mm: int| 0 <= mm < a1.mids@.len() implies frame_owned(
            k1,
            (#[trigger] a1.mids@[mm]).pa,
        ) && a1.mids@[mm].pa != a1.root.pa by {
            if mm == m as int {
            } else {
                assert(a1.mids@[mm] == a0.mids@[mm]);
                assert(frame_owned(k0, a0.mids@[mm].pa));
            }
        }
        assert forall|l: int| 0 <= l < a1.leaves@.len() implies frame_owned(
            k1,
            (#[trigger] a1.leaves@[l]).pa,
        ) && a1.leaves@[l].pa != a1.root.pa by {
            assert(frame_owned(k0, a0.leaves@[l].pa));
        }
        assert forall|m1: int, m2: int| 0 <= m1 < m2 < a1.mids@.len() implies (
        #[trigger] a1.mids@[m1]).pa != (#[trigger] a1.mids@[m2]).pa by {
            assert(a1.mids@[m1] == a0.mids@[m1]);
            if m2 != m as int {
                assert(a1.mids@[m2] == a0.mids@[m2]);
            } else {
                assert(frame_owned(k0, a0.mids@[m1].pa));
            }
        }
        assert forall|mm: int, l: int|
            0 <= mm < a1.mids@.len() && 0 <= l < a1.leaves@.len() implies (
        #[trigger] a1.mids@[mm]).pa != (#[trigger] a1.leaves@[l]).pa by {
            assert(frame_owned(k0, a0.leaves@[l].pa));
            if mm != m as int {
                assert(a1.mids@[mm] == a0.mids@[mm]);
            }
        }
        // node frames are conserved
        assert forall|p: u64| #[trigger] a1.is_table_pa(p) implies a0.is_table_pa(p)
            || k0@.contains(p) by {
            if p != a1.root.pa {
                if exists|mm: int| 0 <= mm < a1.mids@.len() && (#[trigger] a1.mids@[mm]).pa == p {
                    let mm = choose|mm: int|
                        0 <= mm < a1.mids@.len() && (#[trigger] a1.mids@[mm]).pa == p;
                    if mm == m as int {
                    } else {
                        assert(a0.mids@[mm].pa == p);
                    }
                } else {
                    let l = choose|l: int|
                        0 <= l < a1.leaves@.len() && (#[trigger] a1.leaves@[l]).pa == p;
                    assert(a0.leaves@[l].pa == p);
                }
            }
        }
        assert(k1@ == k0@.take(k1@.len() as int)) by {
            assert(k1@ =~= k0@.take(k1@.len() as int));
        }
        // translation is untouched
        assert forall|va2: u64| va2 < MAX_VA implies a1.leaf_pte(va2) == a0.leaf_pte(va2) by {
            lemma_vpn_bounds(va2);
            if vpn2(va2) == i2 as u64 {
                assert(!pte_valid(a0.l1_entry(va2)));
                assert(a1.l1_entry(va2) == e2new);
                assert(a1.mid_of(va2) == t);
                assert(a1.l0_entry(va2) == 0);
                assert(!a1.path_present(va2));
            } else {
                assert(a1.l1_entry(va2) == a0.l1_entry(va2));
                if pte_valid(a0.l1_entry(va2)) {
                    assert(internal_ok(a0.root.entries@[vpn2(va2) as int], a0.mids@.len() as int));
                    assert(a1.mid_of(va2) == a0.mid_of(va2));
                    assert(a1.l0_entry(va2) == a0.l0_entry(va2));
                    if pte_valid(a0.l0_entry(va2)) {
                        assert(internal_ok(
                            a0.mids@[pte_handle(a0.l1_entry(va2))].entries@[vpn1(va2) as int],
                            a0.leaves@.len() as int,
                        ));
                        assert(a1.leaf_of(va2) == a0.leaf_of(va2));
                    }
                }
            }
        }
    }
    Some(m)
}

/// Find the level-0 node on the path of `va` below the level-1 node `m`,
/// installing a fresh zero-filled one when that node's entry is invalid.
/// Fails only on pool exhaustion, leaving translation untouched either way.
fn ensure_leaf(aspace: &mut AddressSpace, km: &mut Kmem, va: u64, m: usize) -> (r: Option<usize>)
    requires
        old(aspace).wf(),
        old(km).wf(),
        old(aspace).owns(*old(km)),
        va < MAX_VA,
        pte_valid(old(aspace).l1_entry(va)),
        pte_handle(old(aspace).l1_entry(va)) == m as int,
        (m as int) < old(aspace).mids@.len(),
    ensures
        vm_evolution(*old(aspace), *old(km), *final(aspace), *final(km)),
        forall|va2: u64|
            va2 < MAX_VA ==> final(aspace).leaf_pte(va2) == old(aspace).leaf_pte(va2),
        final(aspace).root.entries@ == old(aspace).root.entries@,
        final(aspace).tables_held() <= old(aspace).tables_held() + 1,
        final(aspace).mids@.len() == old(aspace).mids@.len(),
        match r {
            Some(l) => {
                &&& pte_valid(final(aspace).l0_entry(va))
                &&& pte_handle(final(aspace).l0_entry(va)) == l as int
                &&& (l as int) < final(aspace).leaves@.len()
                &&& (pte_valid(old(aspace).l0_entry(va)) ==> *final(aspace) == *old(aspace)
                    && *final(km) == *old(km))
            },
            None => {
                &&& final(km)@.len() == 0
                &&& *final(aspace) == *old(aspace)
                &&& !pte_valid(old(aspace).l0_entry(va))
            },
        },
{
    proof {
        lemma_vpn_bounds(va);
        lemma_zero_invalid();
        old(aspace).lemma_arena_bounds();
        lemma_take_all(old(km)@);
    }
    let i1 = vpn(1, va) as usize;
    let e1 = aspace.mids[m].entries[i1];
    proof {
        assert(e1 == aspace.l0_entry(va));
    }
    if e1 & PTE_V != 0 {
        let _nleaves = aspace.leaves.len();
        let l = (e1 >> 10) as usize;
        proof {
            assert(internal_ok(e1, aspace.leaves@.len() as int));
            assert(l as int == pte_handle(e1));
        }
        return Some(l);
    }
    let pa = match km.kalloc() {
        None => {
            proof {
                lemma_take_all(km@);
            }
            return None;
        },
        Some(pa) => pa,
    };
    let ghost a0 = *old(aspace);
    let ghost k0 = *old(km);
    let l = aspace.leaves.len();
    aspace.leaves.push(new_table(pa));
    let e1new = ((l as u64) << 10) | PTE_V;
    let mt = &mut aspace.mids[m];
    mt.entries.set(i1, e1new);
    proof {
        lemma_handle_pack(l as u64);
        let a1 = *aspace;
        let k1 = *km;
        let t = a1.leaves@[l as int];
        assert(forall|i: int| 0 <= i < 512 ==> t.entries@[i] == 0);
        assert(a1.mids@ == a0.mids@.update(m as int, a1.mids@[m as int]));
        assert(a1.mids@[m as int].entries@ == a0.mids@[m as int].entries@.update(
            i1 as int,
            e1new,
        ));
        assert(a1.mids@[m as int].pa == a0.mids@[m as int].pa);
        assert(k0@.contains(pa)) by {
            assert(k0@[k0@.len() - 1] == pa);
        }
        assert forall|p: u64| #[trigger] k1@.contains(p) implies k0@.contains(p) by {
            lemma_drop_last_contains(k0@, p);
        }
        // structural well-formedness
        assert forall|mm: int, i: int|
            0 <= mm < a1.mids@.len() && 0 <= i < 512 implies internal_ok(
            #[trigger] a1.mids@[mm].entries@[i],
            a1.leaves@.len() as int,
        ) by {
            if mm == m as int && i == i1 as int {
            } else {
                assert(a1.mids@[mm].entries@[i] == a0.mids@[mm].entries@[i]);
                assert(internal_ok(a0.mids@[mm].entries@[i], a0.leaves@.len() as int));
            }
        }
        assert forall|m1: int, j1: int, m2: int, j2: int|
            0 <= m1 < a1.mids@.len() && 0 <= j1 < 512 && 0 <= m2 < a1.mids@.len() && 0 <= j2 < 512
                && (m1 != m2 || j1 != j2) && pte_valid(#[trigger] a1.mids@[m1].entries@[j1])
                && pte_valid(#[trigger] a1.mids@[m2].entries@[j2]) implies pte_handle(
            a1.mids@[m1].entries@[j1],
        ) != pte_handle(a1.mids@[m2].entries@[j2]) by {
            if m1 == m as int && j1 == i1 as int {
                assert(a1.mids@[m2].entries@[j2] == a0.mids@[m2].entries@[j2]);
                assert(internal_ok(a0.mids@[m2].entries@[j2], a0.leaves@.len() as int));
            } else if m2 == m as int && j2 == i1 as int {
                assert(a1.mids@[m1].entries@[j1] == a0.mids@[m1].entries@[j1]);
                assert(internal_ok(a0.mids@[m1].entries@[j1], a0.leaves@.len() as int));
            } else {
                assert(a1.mids@[m1].entries@[j1] == a0.mids@[m1].entries@[j1]);
                assert(a1.mids@[m2].entries@[j2] == a0.mids@[m2].entries@[j2]);
            }
        }
        // counting
        lemma_count_valid_update(a0.mids@[m as int].entries@, i1 as int, e1new);
        lemma_sum_valid_update(a0.mids@, m as int, a1.mids@[m as int]);
        // ownership
        assert forall|mm: int| 0 <= mm < a1.mids@.len() implies frame_owned(
            k1,
            (#[trigger] a1.mids@[mm]).pa,
        ) && a1.mids@[mm].pa != a1.root.pa by {
            assert(a1.mids@[mm].pa == a0.mids@[mm].pa);
            assert(frame_owned(k0, a0.mids@[mm].pa));
        }
        assert forall|ll: int| 0 <= ll < a1.leaves@.len() implies frame_owned(
            k1,
            (#[trigger] a1.leaves@[ll]).pa,
        ) && a1.leaves@[ll].pa != a1.root.pa by {
            if ll == l as int {
            } else {
                assert(a1.leaves@[ll] == a0.leaves@[ll]);
                assert(frame_owned(k0, a0.leaves@[ll].pa));
            }
        }
        assert forall|l1: int, l2: int| 0 <= l1 < l2 < a1.leaves@.len() implies (
        #[trigger] a1.leaves@[l1]).pa != (#[trigger] a1.leaves@[l2]).pa by {
            assert(a1.leaves@[l1] == a0.leaves@[l1]);
            if l2 != l as int {
                assert(a1.leaves@[l2] == a0.leaves@[l2]);
            } else {
                assert(frame_owned(k0, a0.leaves@[l1].pa));
            }
        }
        assert forall|mm: int, ll: int|
            0 <= mm < a1.mids@.len() && 0 <= ll < a1.leaves@.len() implies (
        #[trigger] a1.mids@[mm]).pa != (#[trigger] a1.leaves@[ll]).pa by {
            assert(a1.mids@[mm].pa == a0.mids@[mm].pa);
            assert(frame_owned(k0, a0.mids@[mm].pa));
            if ll != l as int {
                assert(a1.leaves@[ll] == a0.leaves@[ll]);
            }
        }
        // node frames are conserved
        assert forall|p: u64| #[trigger] a1.is_table_pa(p) implies a0.is_table_pa(p)
            || k0@.contains(p) by {
            if p != a1.root.pa {
                if exists|mm: int| 0 <= mm < a1.mids@.len() && (#[trigger] a1.mids@[mm]).pa == p {
                    let mm = choose|mm: int|
                        0 <= mm < a1.mids@.len() && (#[trigger] a1.mids@[mm]).pa == p;
                    assert(a0.mids@[mm].pa == p);
                } else {
                    let ll = choose|ll: int|
                        0 <= ll < a1.leaves@.len() && (#[trigger] a1.leaves@[ll]).pa == p;
                    if ll == l as int {
                    } else {
                        assert(a0.leaves@[ll].pa == p);
                    }
                }
            }
        }
        assert(k1@ == k0@.take(k1@.len() as int)) by {
            assert(k1@ =~= k0@.take(k1@.len() as int));
        }
        // translation is untouched
        assert forall|va2: u64| va2 < MAX_VA implies a1.leaf_pte(va2) == a0.leaf_pte(va2) by {
            lemma_vpn_bounds(va2);
            assert(a1.l1_entry(va2) == a0.l1_entry(va2));
            if pte_valid(a0.l1_entry(va2)) {
                assert(internal_ok(a0.root.entries@[vpn2(va2) as int], a0.mids@.len() as int));
                let m2 = pte_handle(a0.l1_entry(va2));
                assert(a1.mid_of(va2).pa == a0.mid_of(va2).pa);
                if m2 == m as int && vpn1(va2) == i1 as u64 {
                    assert(a1.l0_entry(va2) == e1new);
                    assert(a0.l0_entry(va2) == a0.mids@[m as int].entries@[i1 as int]);
                    assert(!pte_valid(a0.l0_entry(va2)));
                    assert(a1.leaf_of(va2) == t);
                    assert(a1.leaf_pte(va2) == 0);
                } else {
                    assert(a1.l0_entry(va2) == a0.l0_entry(va2));
                    if pte_valid(a0.l0_entry(va2)) {
                        assert(internal_ok(
                            a0.mids@[m2].entries@[vpn1(va2) as int],
                            a0.leaves@.len() as int,
                        ));
                        assert(a1.leaf_of(va2) == a0.leaf_of(va2));
                    }
                }
            }
        }
    }
    Some(l)
}

/// Descend the two internal levels for `va`, allocating and installing a
/// zero-filled child node wherever an entry is invalid. Returns the leaf node
/// handle and the leaf index; `None` only on pool exhaustion, with the pool
/// drained and translation untouched.
fn walk_create(aspace: &mut AddressSpace, km: &mut Kmem, va: u64) -> (r: Option<(usize, usize)>)
    requires
        old(aspace).wf(),
        old(km).wf(),
        old(aspace).owns(*old(km)),
        va < MAX_VA,
    ensures
        vm_evolution(*old(aspace), *old(km), *final(aspace), *final(km)),
        forall|va2: u64|
            va2 < MAX_VA ==> final(aspace).leaf_pte(va2) == old(aspace).leaf_pte(va2),
        final(aspace).tables_held() <= old(aspace).tables_held() + 2,
        match r {
            Some((l, i0)) => {
                &&& final(aspace).path_present(va)
                &&& pte_handle(final(aspace).l0_entry(va)) == l as int
                &&& (l as int) < final(aspace).leaves@.len()
                &&& i0 == vpn0(va)
                &&& (old(aspace).path_present(va) ==> *final(aspace) == *old(aspace) && *final(km)
                    == *old(km))
            },
            None => {
                &&& final(km)@.len() == 0
                &&& final(aspace).tables_held() <= old(aspace).tables_held() + 1
                &&& !old(aspace).path_present(va)
            },
        },
{
    let ghost a0 = *old(aspace);
    let ghost k0 = *old(km);
    let m = match ensure_mid(aspace, km, va) {
        None => {
            return None;
        },
        Some(m) => m,
    };
    let ghost a1 = *aspace;
    let ghost k1 = *km;
    let l = match ensure_leaf(aspace, km, va, m) {
        None => {
            proof {
                lemma_vm_evolution_trans(a0, k0, a1, k1, *aspace, *km);
                if a0.path_present(va) {
                    assert(*aspace == a1);
                    assert(a1 == a0);
                    assert(false);
                }
            }
            return None;
        },
        Some(l) => l,
    };
    proof {
        lemma_vm_evolution_trans(a0, k0, a1, k1, *aspace, *km);
        lemma_vpn_bounds(va);
        assert(aspace.l1_entry(va) == a1.l1_entry(va));
        if a0.path_present(va) {
            assert(a1 == a0);
            assert(*aspace == a1);
        }
    }
    let i0 = vpn(0, va) as usize;
    Some((l, i0))
}

/// Install a leaf mapping for the aligned page `va` onto the aligned frame
/// `pa` with permission bits `perm`. Remapping an already-valid page is never
/// silently accepted: it fails with `MapError::Remap` and changes nothing.
pub fn map_page(aspace: &mut AddressSpace, km: &mut Kmem, va: u64, pa: u64, perm: u64) -> (r:
    Result<(), MapError>)
    requires
        old(aspace).wf(),
        old(km).wf(),
        old(aspace).owns(*old(km)),
        va < MAX_VA,
        va % 4096 == 0,
        pa % 4096 == 0,
        perm & 0x3ff == perm,
        perm & 1 == 0,
        perm & 0xe != 0,
    ensures
        vm_evolution(*old(aspace), *old(km), *final(aspace), *final(km)),
        final(aspace).tables_held() <= old(aspace).tables_held() + 2,
        match r {
            Ok(()) => {
                &&& !old(aspace).mapped(va)
                &&& final(aspace).leaf_pte(va) == (spec_pa_to_pte(pa) | perm | 1)
                &&& final(aspace).mapped(va)
                &&& forall|va2: u64|
                    va2 < MAX_VA && crate::riscv::spec_page_round_down(va2) != va
                        ==> final(aspace).leaf_pte(va2) == old(aspace).leaf_pte(va2)
            },
            Err(MapError::Remap) => {
                &&& old(aspace).mapped(va)
                &&& *final(aspace) == *old(aspace)
                &&& *final(km) == *old(km)
            },
            Err(MapError::OutOfFrames) => {
                &&& !old(aspace).mapped(va)
                &&& final(km)@.len() == 0
                &&& forall|va2: u64|
                    va2 < MAX_VA ==> final(aspace).leaf_pte(va2) == old(aspace).leaf_pte(va2)
            },
        },
        !old(aspace).mapped(va) && old(km)@.len() >= 2 ==> r is Ok,
        old(aspace).path_present(va) ==> final(km)@ == old(km)@,
{
    proof {
        lemma_zero_invalid();
        lemma_vpn_bounds(va);
    }
    let ghost a0 = *old(aspace);
    let ghost k0 = *old(km);
    let (l, i0) = match walk_create(aspace, km, va) {
        None => {
            proof {
                if a0.mapped(va) {
                    assert(a0.path_present(va));
                }
            }
            return Err(MapError::OutOfFrames);
        },
        Some(x) => x,
    };
    let ghost a1 = *aspace;
    let ghost k1 = *km;
    let e0 = aspace.leaves[l].entries[i0];
    proof {
        assert(e0 == a1.leaf_pte(va));
        assert(a1.leaf_pte(va) == a0.leaf_pte(va));
    }
    if e0 & PTE_V != 0 {
        proof {
            assert(a0.mapped(va));
            assert(a0.path_present(va));
        }
        return Err(MapError::Remap);
    }
    let newpte = pa_to_pte(pa) | perm | PTE_V;
    let lt = &mut aspace.leaves[l];
    lt.entries.set(i0, newpte);
    proof {
        lemma_leaf_pte_fields(pa, perm);
        let a2 = *aspace;
        assert(a2.leaves@ == a1.leaves@.update(l as int, a2.leaves@[l as int]));
        assert(a2.leaves@[l as int].entries@ == a1.leaves@[l as int].entries@.update(
            i0 as int,
            newpte,
        ));
        assert(a2.leaves@[l as int].pa == a1.leaves@[l as int].pa);
        assert(a2.root == a1.root);
        assert(a2.mids@ == a1.mids@);
        // well-formedness: only one leaf node's contents changed
        assert forall|ll: int| 0 <= ll < a2.leaves@.len() implies table_ok(
            #[trigger] a2.leaves@[ll],
        ) by {
            if ll != l as int {
                assert(a2.leaves@[ll] == a1.leaves@[ll]);
            }
        }
        assert(a2.wf());
        // ownership: every node keeps its frame
        assert forall|ll: int| 0 <= ll < a2.leaves@.len() implies frame_owned(
            *km,
            (#[trigger] a2.leaves@[ll]).pa,
        ) && a2.leaves@[ll].pa != a2.root.pa by {
            if ll != l as int {
                assert(a2.leaves@[ll] == a1.leaves@[ll]);
            }
            assert(frame_owned(k1, a1.leaves@[ll].pa));
        }
        assert forall|l1: int, l2: int| 0 <= l1 < l2 < a2.leaves@.len() implies (
        #[trigger] a2.leaves@[l1]).pa != (#[trigger] a2.leaves@[l2]).pa by {
            assert(a2.leaves@[l1].pa == a1.leaves@[l1].pa);
            assert(a2.leaves@[l2].pa == a1.leaves@[l2].pa);
        }
        assert forall|mm: int, ll: int|
            0 <= mm < a2.mids@.len() && 0 <= ll < a2.leaves@.len() implies (
        #[trigger] a2.mids@[mm]).pa != (#[trigger] a2.leaves@[ll]).pa by {
            assert(a2.leaves@[ll].pa == a1.leaves@[ll].pa);
        }
        assert(a2.owns(*km));
        // conservation
        assert forall|p: u64| #[trigger] a2.is_table_pa(p) implies a1.is_table_pa(p)
            || k1@.contains(p) by {
            if p != a2.root.pa {
                if exists|mm: int| 0 <= mm < a2.mids@.len() && (#[trigger] a2.mids@[mm]).pa == p {
                } else {
                    let ll = choose|ll: int|
                        0 <= ll < a2.leaves@.len() && (#[trigger] a2.leaves@[ll]).pa == p;
                    assert(a1.leaves@[ll].pa == p);
                }
            }
        }
        lemma_take_all(k1@);
        lemma_vm_evolution_trans(a0, k0, a1, k1, a2, *km);
        // the new leaf entry is in place
        assert(a2.l1_entry(va) == a1.l1_entry(va));
        assert(a2.l0_entry(va) == a1.l0_entry(va));
        assert(a2.path_present(va));
        assert(a2.leaf_of(va) == a2.leaves@[l as int]);
        assert(a2.leaf_pte(va) == newpte);
        // every other page translates as before
        assert forall|va2: u64|
            va2 < MAX_VA && crate::riscv::spec_page_round_down(va2) != va implies a2.leaf_pte(va2)
            == a1.leaf_pte(va2) by {
            lemma_vpn_bounds(va2);
            assert(a2.l1_entry(va2) == a1.l1_entry(va2));
            if a1.path_present(va2) {
                assert(internal_ok(a1.root.entries@[vpn2(va2) as int], a1.mids@.len() as int));
                let m2 = pte_handle(a1.l1_entry(va2));
                assert(a2.mid_of(va2) == a1.mid_of(va2));
                assert(a2.l0_entry(va2) == a1.l0_entry(va2));
                assert(internal_ok(
                    a1.mids@[m2].entries@[vpn1(va2) as int],
                    a1.leaves@.len() as int,
                ));
                let l2 = pte_handle(a1.l0_entry(va2));
                if l2 == l as int {
                    // same leaf node: the indices must differ, or the pages
                    // would be the same page
                    if vpn0(va2) == vpn0(va) {
                        let m1 = pte_handle(a1.l1_entry(va));
                        assert(pte_valid(a1.mids@[m2].entries@[vpn1(va2) as int]));
                        assert(pte_valid(a1.mids@[m1].entries@[vpn1(va) as int]));
                        assert(m2 == m1 && vpn1(va2) == vpn1(va));
                        assert(pte_valid(a1.root.entries@[vpn2(va2) as int]));
                        assert(pte_valid(a1.root.entries@[vpn2(va) as int]));
                        assert(vpn2(va2) == vpn2(va));
                        crate::riscv::lemma_round_down(va2);
                        crate::riscv::lemma_round_down(va);
                        lemma_vpn_bounds(va2);
                        crate::riscv::lemma_vpn_unique(
                            crate::riscv::spec_page_round_down(va2),
                            va,
                        );
                        assert(false);
                    } else {
                        assert(a2.leaf_pte(va2) == a1.leaf_of(va2).entries@[vpn0(va2) as int]);
                    }
                } else {
                    assert(a2.leaf_of(va2) == a1.leaf_of(va2));
                }
            } else {
                assert(!a2.path_present(va2));
            }
        }
    }
    Ok(())
}

/// The address of page number `k` of a region starting at `va`.
pub open spec fn page_at(va: u64, k: u64) -> u64 {
    (va + k * 4096) as u64
}

/// Pushing onto the pool adds exactly one membership.
pub proof fn lemma_push_contains(s: Seq<u64>, x: u64, p: u64)
    ensures
        s.push(x).contains(p) <==> (s.contains(p) || p == x),
{
    if s.contains(p) {
        let i = choose|i: int| 0 <= i < s.len() && s[i] == p;
        assert(s.push(x)[i] == p);
    }
    if s.push(x).contains(p) {
        let i = choose|i: int| 0 <= i < s.push(x).len() && s.push(x)[i] == p;
        if i < s.len() {
            assert(s[i] == p);
        }
    }
    assert(s.push(x)[s.len() as int] == x);
}

/// Overwriting one leaf entry changes the translation of exactly that page:
/// distinct handles, and the uniqueness of root-to-leaf paths, keep every
/// other page's entry as it was.
proof fn lemma_leaf_update_effect(a1: AddressSpace, a2: AddressSpace, va: u64, l: int, v: u64)
    requires
        a1.wf(),
        va < MAX_VA,
        va % 4096 == 0,
        a1.path_present(va),
        pte_handle(a1.l0_entry(va)) == l,
        a2.root == a1.root,
        a2.mids@ == a1.mids@,
        0 <= l < a1.leaves@.len(),
        a2.leaves@ == a1.leaves@.update(l, a2.leaves@[l]),
        a2.leaves@[l].entries@ == a1.leaves@[l].entries@.update(vpn0(va) as int, v),
        a2.leaves@[l].pa == a1.leaves@[l].pa,
    ensures
        a2.wf(),
        a2.tables_held() == a1.tables_held(),
        forall|p: u64| a2.is_table_pa(p) <==> a1.is_table_pa(p),
        a2.leaf_pte(va) == v,
        forall|va2: u64|
            va2 < MAX_VA && crate::riscv::spec_page_round_down(va2) != va ==> a2.leaf_pte(va2)
                == a1.leaf_pte(va2),
{
    lemma_vpn_bounds(va);
    assert forall|ll: int| 0 <= ll < a2.leaves@.len() implies table_ok(#[trigger] a2.leaves@[ll]) by {
        if ll != l {
            assert(a2.leaves@[ll] == a1.leaves@[ll]);
        }
    }
    assert forall|p: u64| a2.is_table_pa(p) <==> a1.is_table_pa(p) by {
        assert forall|ll: int| 0 <= ll < a2.leaves@.len() implies (#[trigger] a2.leaves@[ll]).pa
            == a1.leaves@[ll].pa by {
            if ll != l {
                assert(a2.leaves@[ll] == a1.leaves@[ll]);
            }
        }
        if a2.is_table_pa(p) {
            if p != a2.root.pa && !(exists|mm: int|
                0 <= mm < a2.mids@.len() && (#[trigger] a2.mids@[mm]).pa == p) {
                let ll = choose|ll: int|
                    0 <= ll < a2.leaves@.len() && (#[trigger] a2.leaves@[ll]).pa == p;
                assert(a1.leaves@[ll].pa == p);
            }
        }
        if a1.is_table_pa(p) {
            if p != a1.root.pa && !(exists|mm: int|
                0 <= mm < a1.mids@.len() && (#[trigger] a1.mids@[mm]).pa == p) {
                let ll = choose|ll: int|
                    0 <= ll < a1.leaves@.len() && (#[trigger] a1.leaves@[ll]).pa == p;
                assert(a2.leaves@[ll].pa == p);
            }
        }
    }
    assert(a2.l1_entry(va) == a1.l1_entry(va));
    assert(a2.l0_entry(va) == a1.l0_entry(va));
    assert(a2.leaf_of(va) == a2.leaves@[l]);
    assert(a2.leaf_pte(va) == v);
    assert forall|va2: u64|
        va2 < MAX_VA && crate::riscv::spec_page_round_down(va2) != va implies a2.leaf_pte(va2)
        == a1.leaf_pte(va2) by {
        lemma_vpn_bounds(va2);
        assert(a2.l1_entry(va2) == a1.l1_entry(va2));
        if a1.path_present(va2) {
            assert(internal_ok(a1.root.entries@[vpn2(va2) as int], a1.mids@.len() as int));
            let m2 = pte_handle(a1.l1_entry(va2));
            assert(a2.mid_of(va2) == a1.mid_of(va2));
            assert(a2.l0_entry(va2) == a1.l0_entry(va2));
            assert(internal_ok(a1.mids@[m2].entries@[vpn1(va2) as int], a1.leaves@.len() as int));
            let l2 = pte_handle(a1.l0_entry(va2));
            if l2 == l {
                if vpn0(va2) == vpn0(va) {
                    let m1 = pte_handle(a1.l1_entry(va));
                    assert(pte_valid(a1.mids@[m2].entries@[vpn1(va2) as int]));
                    assert(pte_valid(a1.mids@[m1].entries@[vpn1(va) as int]));
                    assert(m2 == m1 && vpn1(va2) == vpn1(va));
                    assert(pte_valid(a1.root.entries@[vpn2(va2) as int]));
                    assert(pte_valid(a1.root.entries@[vpn2(va) as int]));
                    assert(vpn2(va2) == vpn2(va));
                    crate::riscv::lemma_round_down(va2);
                    crate::riscv::lemma_vpn_unique(crate::riscv::spec_page_round_down(va2), va);
                    assert(false);
                } else {
                    assert(a2.leaf_pte(va2) == a1.leaf_of(va2).entries@[vpn0(va2) as int]);
                }
            } else {
                assert(a2.leaf_of(va2) == a1.leaf_of(va2));
            }
        } else {
            assert(!a2.path_present(va2));
        }
    }
}

/// Locate the leaf node handle and leaf index for `va`, without creating
/// anything.
fn find_leaf_slot(aspace: &AddressSpace, va: u64) -> (r: Option<(usize, usize)>)
    requires
        aspace.wf(),
        va < MAX_VA,
    ensures
        match r {
            Some((l, i0)) => {
                &&& aspace.path_present(va)
                &&& pte_handle(aspace.l0_entry(va)) == l as int
                &&& (l as int) < aspace.leaves@.len()
                &&& i0 == vpn0(va)
                &&& i0 < 512
            },
            None => !aspace.path_present(va),
        },
{
    proof {
        lemma_vpn_bounds(va);
    }
    let i2 = vpn(2, va) as usize;
    let e2 = aspace.root.entries[i2];
    proof {
        assert(e2 == aspace.l1_entry(va));
    }
    if e2 & PTE_V == 0 {
        return None;
    }
    // reading the length pins the arena size as a machine word, so the
    // handle below provably fits a usize
    let _nmids = aspace.mids.len();
    let m = (e2 >> 10) as usize;
    proof {
        assert(internal_ok(e2, aspace.mids@.len() as int));
        assert(m as int == pte_handle(e2));
    }
    let i1 = vpn(1, va) as usize;
    let e1 = aspace.mids[m].entries[i1];
    proof {
        assert(e1 == aspace.l0_entry(va));
    }
    if e1 & PTE_V == 0 {
        return None;
    }
    let _nleaves = aspace.leaves.len();
    let l = (e1 >> 10) as usize;
    proof {
        assert(internal_ok(e1, aspace.leaves@.len() as int));
        assert(l as int == pte_handle(e1));
    }
    Some((l, vpn(0, va) as usize))
}

/// The frames behind the mapped pages of `[va, va + npage * 4096)` may all be
/// handed back to the pool: each is a distinct owned frame of the managed
/// range, and none of them backs a page-table node.
pub open spec fn range_frames_owned(a: AddressSpace, km: Kmem, va: u64, npage: u64) -> bool {
    &&& forall|k: u64|
        k < npage && a.mapped(#[trigger] page_at(va, k)) ==> frame_owned(
            km,
            spec_pte_to_pa(a.leaf_pte(page_at(va, k))),
        ) && !a.is_table_pa(spec_pte_to_pa(a.leaf_pte(page_at(va, k))))
    &&& forall|k: u64, j: u64|
        k < npage && j < npage && k != j && a.mapped(#[trigger] page_at(va, k)) && a.mapped(
            #[trigger] page_at(va, j),
        ) ==> spec_pte_to_pa(a.leaf_pte(page_at(va, k))) != spec_pte_to_pa(
            a.leaf_pte(page_at(va, j)),
        )
}

/// A mapped page's path is present, and the path's presence only depends on
/// the two internal index fields: consecutive pages of the same 2 MiB region
/// share it.
pub proof fn lemma_path_present_facts(a: AddressSpace, x: u64, y: u64)
    requires
        vpn2(x) == vpn2(y),
        vpn1(x) == vpn1(y),
    ensures
        a.path_present(x) == a.path_present(y),
        a.mapped(x) ==> a.path_present(x),
{
    assert(a.l1_entry(x) == a.l1_entry(y));
    if pte_valid(a.l1_entry(x)) {
        assert(a.mid_of(x) == a.mid_of(y));
        assert(a.l0_entry(x) == a.l0_entry(y));
    }
    if !a.path_present(x) {
        lemma_zero_invalid();
        assert(a.leaf_pte(x) == 0);
    }
}

/// A page's leaf entry only depends on its index fields, so an address and
/// its page base read the same entry.
pub proof fn lemma_leaf_pte_round_down(a: AddressSpace, va: u64)
    ensures
        a.leaf_pte(crate::riscv::spec_page_round_down(va)) == a.leaf_pte(va),
        a.path_present(crate::riscv::spec_page_round_down(va)) == a.path_present(va),
{
    lemma_vpn_bounds(va);
    let rd = crate::riscv::spec_page_round_down(va);
    assert(a.l1_entry(rd) == a.l1_entry(va));
    if pte_valid(a.l1_entry(va)) {
        assert(a.mid_of(rd) == a.mid_of(va));
        assert(a.l0_entry(rd) == a.l0_entry(va));
        if pte_valid(a.l0_entry(va)) {
            assert(a.leaf_of(rd) == a.leaf_of(va));
        }
    }
}

/// A partial map of the range `[va, ..)`: every page below the aligned
/// boundary `b` was unmapped before and now carries the new leaf entry, and
/// from `b` on every page is as it was — exactly what a caller must unwind
/// after a map that failed midway.
pub open spec fn mapped_prefix(
    a0: AddressSpace,
    a1: AddressSpace,
    va: u64,
    b: u64,
    pa: u64,
    perm: u64,
) -> bool {
    &&& (forall|va2: u64|
        va2 < MAX_VA && va <= #[trigger] crate::riscv::spec_page_round_down(va2) < b ==> !a0.mapped(
            va2,
        ) && a1.leaf_pte(va2) == (spec_pa_to_pte(
            (pa + (crate::riscv::spec_page_round_down(va2) - va)) as u64,
        ) | perm | 1))
    &&& (forall|va2: u64|
        va2 < MAX_VA && b <= #[trigger] crate::riscv::spec_page_round_down(va2) ==> a1.leaf_pte(
            va2,
        ) == a0.leaf_pte(va2))
}

/// Install leaf mappings for the whole range `[va, va + size)` (page aligned,
/// at least one byte) onto consecutive frames starting at the aligned `pa`.
/// Remapping is never silently accepted: a page that is already valid fails
/// the whole call with `MapError::Remap`, and every page that was mapped
/// before the call keeps its old entry whatever the outcome. On exhaustion
/// the pool is drained and earlier pages of the range stay installed, as the
/// caller is expected to unwind.
pub fn map_pages(
    aspace: &mut AddressSpace,
    km: &mut Kmem,
    va: u64,
    size: u64,
    pa: u64,
    perm: u64,
) -> (r: Result<(), MapError>)
    requires
        old(aspace).wf(),
        old(km).wf(),
        old(aspace).owns(*old(km)),
        1 <= size,
        va + size <= MAX_VA,
        va % 4096 == 0,
        pa % 4096 == 0,
        pa + size <= u64::MAX,
        perm & 0x3ff == perm,
        perm & 1 == 0,
        perm & 0xe != 0,
    ensures
        vm_evolution(*old(aspace), *old(km), *final(aspace), *final(km)),
        // pages outside the range translate as before
        forall|va2: u64|
            va2 < MAX_VA && !(va <= crate::riscv::spec_page_round_down(va2) < va + size)
                ==> final(aspace).leaf_pte(va2) == old(aspace).leaf_pte(va2),
        // no silent remap, ever: every page that was mapped keeps its entry
        forall|va2: u64|
            va2 < MAX_VA && old(aspace).mapped(va2) ==> final(aspace).leaf_pte(va2) == old(aspace).leaf_pte(va2),
        match r {
            Ok(()) => forall|va2: u64|
                va2 < MAX_VA && va <= #[trigger] crate::riscv::spec_page_round_down(va2) < va
                    + size ==> !old(aspace).mapped(va2) && final(aspace).leaf_pte(va2) == (
                spec_pa_to_pte((pa + (crate::riscv::spec_page_round_down(va2) - va)) as u64) | perm
                    | 1),
            Err(MapError::Remap) => exists|p: u64|
                p % 4096 == 0 && va <= p < va + size && #[trigger] old(aspace).mapped(p),
            Err(MapError::OutOfFrames) => final(km)@.len() == 0,
        },
        // success is owed when nothing in the range is mapped and the pool
        // holds two frames for every page
        (forall|p: u64| p % 4096 == 0 && va <= p < va + size ==> !(#[trigger] old(aspace).mapped(
            p,
        ))) && 4096 * old(km)@.len() >= 2 * (crate::riscv::spec_page_round_down(
            (va + size - 1) as u64,
        ) - va) + 8192 ==> r is Ok,
        2048 * (old(km)@.len() - final(km)@.len()) < size + 4096,
        size <= 4096 && r is Err ==> forall|va2: u64|
            va2 < MAX_VA ==> final(aspace).leaf_pte(va2) == old(aspace).leaf_pte(va2),
        size <= 4096 ==> final(aspace).tables_held() <= old(aspace).tables_held() + 2,
        // at most two fresh nodes per 2 MiB region the range touches
        old(km)@.len() - final(km)@.len() <= 2 + 2 * ((crate::riscv::spec_page_round_down(
            (va + size - 1) as u64,
        ) >> 21) - (va >> 21)),
        // what a failed map leaves behind: a fully installed page prefix
        r is Err ==> exists|b: u64|
            va <= b <= va + size && b % 4096 == 0 && #[trigger] mapped_prefix(
                *old(aspace),
                *final(aspace),
                va,
                b,
                pa,
                perm,
            ),
{
    proof {
        lemma_zero_invalid();
        lemma_take_all(old(km)@);
        crate::riscv::lemma_round_down((va + size - 1) as u64);
    }
    let last = crate::riscv::page_round_down(va + size - 1);
    let mut a = va;
    let mut pa_cur = pa;
    let ghost a0 = *old(aspace);
    let ghost k0 = *old(km);
    let ghost mut done: int = 0;
    loop
        invariant
            a0 == *old(aspace),
            k0 == *old(km),
            aspace.wf(),
            km.wf(),
            a0.wf(),
            vm_evolution(a0, k0, *aspace, *km),
            va % 4096 == 0,
            pa % 4096 == 0,
            1 <= size,
            va + size <= MAX_VA,
            pa + size <= u64::MAX,
            perm & 0x3ff == perm,
            perm & 1 == 0,
            perm & 0xe != 0,
            last == crate::riscv::spec_page_round_down((va + size - 1) as u64),
            va <= a <= last,
            a % 4096 == 0,
            last % 4096 == 0,
            last < va + size,
            a == va + 4096 * done,
            0 <= done,
            pa_cur == pa + (a - va),
            // what the loop has installed and what it has not touched
            forall|va2: u64|
                va2 < MAX_VA && !(va <= crate::riscv::spec_page_round_down(va2) < a)
                    ==> aspace.leaf_pte(va2) == a0.leaf_pte(va2),
            forall|va2: u64|
                va2 < MAX_VA && va <= #[trigger] crate::riscv::spec_page_round_down(va2) < a
                    ==> !a0.mapped(va2) && aspace.leaf_pte(va2) == (spec_pa_to_pte(
                    (pa + (crate::riscv::spec_page_round_down(va2) - va)) as u64,
                ) | perm | 1),
            // frame consumption stays within two frames per page done
            k0@.len() - km@.len() <= 2 * done,
            aspace.tables_held() <= a0.tables_held() + 2 * done,
            done == 0 ==> km@.len() == k0@.len(),
            done > 0 ==> aspace.path_present((a - 4096) as u64),
            done > 0 ==> k0@.len() - km@.len() <= 2 + 2 * ((((a - 4096) as u64) >> 21) - (va
                >> 21)),
        decreases last - a,
    {
        proof {
            crate::riscv::lemma_round_down(a);
        }
        let ghost a_pre = *aspace;
        let ghost k_pre = *km;
        let res = map_page(aspace, km, a, pa_cur, perm);
        proof {
            lemma_vm_evolution_trans(a0, k0, a_pre, k_pre, *aspace, *km);
            // this step consumed nothing unless it crossed a 2 MiB boundary
            if done > 0 {
                let prev = (a - 4096) as u64;
                crate::riscv::lemma_vpn_step(prev);
                if a >> 21 == prev >> 21 {
                    lemma_path_present_facts(a_pre, a, prev);
                    assert(a_pre.path_present(a));
                }
            }
            assert(k0@.len() - km@.len() <= 2 + 2 * ((a >> 21) - (va >> 21)));
        }
        match res {
            Err(e) => {
                proof {
                    if a_pre.mapped(a) {
                        assert(a0.leaf_pte(a) == a_pre.leaf_pte(a));
                        assert(a0.mapped(a));
                    }
                    match e {
                        MapError::Remap => {
                            assert(a0.mapped(a));
                            assert(a % 4096 == 0 && va <= a < va + size);
                        },
                        MapError::OutOfFrames => {
                            assert(km@.len() == 0);
                        },
                    }
                    // the mapped-pages-keep-their-entries clause
                    assert forall|va2: u64| va2 < MAX_VA && a0.mapped(va2) implies aspace.leaf_pte(
                        va2,
                    ) == a0.leaf_pte(va2) by {
                        let rd = crate::riscv::spec_page_round_down(va2);
                        crate::riscv::lemma_round_down(va2);
                        if va <= rd < a {
                            assert(!a0.mapped(va2));
                        }
                    }
                    // the consumption bound carries to this exit
                    crate::riscv::lemma_region_monotone(a, last);
                    // the installed prefix is exactly the pages before `a`
                    assert(mapped_prefix(a0, *aspace, va, a, pa, perm)) by {
                        assert forall|va2: u64|
                            va2 < MAX_VA && va <= #[trigger] crate::riscv::spec_page_round_down(
                                va2,
                            ) < a implies !a0.mapped(va2) && aspace.leaf_pte(va2) == (
                        spec_pa_to_pte(
                            (pa + (crate::riscv::spec_page_round_down(va2) - va)) as u64,
                        ) | perm | 1) by {
                            assert(aspace.leaf_pte(va2) == a_pre.leaf_pte(va2));
                        }
                        assert forall|va2: u64|
                            va2 < MAX_VA && a <= #[trigger] crate::riscv::spec_page_round_down(
                                va2,
                            ) implies aspace.leaf_pte(va2) == a0.leaf_pte(va2) by {
                            assert(aspace.leaf_pte(va2) == a_pre.leaf_pte(va2));
                        }
                    }
                    assert(va <= a <= va + size && a % 4096 == 0);
                    // under the success-owed hypothesis no failure is possible
                    if (forall|p: u64|
                        p % 4096 == 0 && va <= p < va + size ==> !(#[trigger] a0.mapped(p))) && 4096
                        * k0@.len() >= 2 * (last - va) + 8192 {
                        assert(!a0.mapped(a));
                        assert(!a_pre.mapped(a));
                        assert(4096 * done <= last - va);
                        assert(k0@.len() >= 2 * done + 2);
                        assert(k_pre@.len() >= 2);
                        assert(false);
                    }
                    if size <= 4096 {
                        crate::riscv::lemma_round_down((va + size - 1) as u64);
                        assert(last == va);
                        assert(a == va);
                        assert forall|va2: u64| va2 < MAX_VA implies aspace.leaf_pte(va2)
                            == a0.leaf_pte(va2) by {
                            crate::riscv::lemma_round_down(va2);
                        }
                    }
                }
                return Err(e);
            },
            Ok(()) => {},
        }
        proof {
            // extend the installed-range invariant by one page
            assert forall|va2: u64|
                va2 < MAX_VA && va <= #[trigger] crate::riscv::spec_page_round_down(va2) < a
                    + 4096 implies !a0.mapped(va2) && aspace.leaf_pte(va2) == (spec_pa_to_pte(
                (pa + (crate::riscv::spec_page_round_down(va2) - va)) as u64,
            ) | perm | 1) by {
                let rd = crate::riscv::spec_page_round_down(va2);
                crate::riscv::lemma_round_down(va2);
                if rd < a {
                    assert(aspace.leaf_pte(va2) == a_pre.leaf_pte(va2));
                } else {
                    assert(rd == a);
                    lemma_leaf_pte_round_down(*aspace, va2);
                    lemma_leaf_pte_round_down(a_pre, va2);
                    lemma_leaf_pte_round_down(a0, va2);
                    assert(aspace.leaf_pte(a) == (spec_pa_to_pte(pa_cur) | perm | 1));
                    assert(!a_pre.mapped(a));
                    assert(a_pre.leaf_pte(a) == a0.leaf_pte(a));
                }
            }
            assert forall|va2: u64|
                va2 < MAX_VA && !(va <= crate::riscv::spec_page_round_down(va2) < a
                    + 4096) implies aspace.leaf_pte(va2) == a0.leaf_pte(va2) by {
                crate::riscv::lemma_round_down(va2);
                assert(crate::riscv::spec_page_round_down(va2) != a);
                assert(aspace.leaf_pte(va2) == a_pre.leaf_pte(va2));
            }
        }
        proof {
            // the freshly mapped page keeps its path for the next iteration
            assert(aspace.mapped(a));
            lemma_path_present_facts(*aspace, a, a);
        }
        if a == last {
            proof {
                assert forall|va2: u64|
                    va2 < MAX_VA && !(va <= crate::riscv::spec_page_round_down(va2) < va
                        + size) implies aspace.leaf_pte(va2) == a0.leaf_pte(va2) by {
                    crate::riscv::lemma_round_down(va2);
                }
                assert forall|va2: u64|
                    va2 < MAX_VA && va <= #[trigger] crate::riscv::spec_page_round_down(va2) < va
                        + size implies !a0.mapped(va2) && aspace.leaf_pte(va2) == (spec_pa_to_pte(
                    (pa + (crate::riscv::spec_page_round_down(va2) - va)) as u64,
                ) | perm | 1) by {
                    crate::riscv::lemma_round_down(va2);
                    crate::riscv::lemma_round_down((va + size - 1) as u64);
                    let rd = crate::riscv::spec_page_round_down(va2);
                    if rd > last {
                        crate::riscv::lemma_aligned_gap(rd, last);
                    }
                    assert(rd <= last);
                }
                assert forall|va2: u64| va2 < MAX_VA && a0.mapped(va2) implies aspace.leaf_pte(va2)
                    == a0.leaf_pte(va2) by {
                    crate::riscv::lemma_round_down(va2);
                    if va <= crate::riscv::spec_page_round_down(va2) < va + size {
                        assert(!a0.mapped(va2));
                    }
                }
            }
            return Ok(());
        }
        a = a + PAGE_SIZE;
        pa_cur = pa_cur + PAGE_SIZE;
        proof {
            done = done + 1;
            crate::riscv::lemma_aligned_add((a - 4096) as u64, 4096);
        }
    }
}

/// Clear the leaf entries of `npage` pages starting at the aligned `va`,
/// optionally handing the mapped frames back to the pool. Every page of the
/// range must have a valid leaf entry with real permission bits: a missing or
/// internal entry is a fatal invariant violation, as is an unaligned start.
pub fn uvm_unmap(
    aspace: &mut AddressSpace,
    km: &mut Kmem,
    va: u64,
    npage: u64,
    do_free: bool,
) -> (r: Result<(), Fatal>)
    requires
        old(aspace).wf(),
        old(km).wf(),
        old(aspace).owns(*old(km)),
        va + npage * 4096 <= MAX_VA,
        do_free ==> range_frames_owned(*old(aspace), *old(km), va, npage),
    ensures
        final(aspace).wf(),
        final(km).wf(),
        final(km).base() == old(km).base(),
        final(km).limit() == old(km).limit(),
        final(aspace).owns(*final(km)),
        final(aspace).root.pa == old(aspace).root.pa,
        final(aspace).tables_held() == old(aspace).tables_held(),
        forall|p: u64| final(aspace).is_table_pa(p) <==> old(aspace).is_table_pa(p),
        forall|va2: u64|
            va2 < MAX_VA && !(va <= crate::riscv::spec_page_round_down(va2) < va + npage * 4096)
                ==> final(aspace).leaf_pte(va2) == old(aspace).leaf_pte(va2),
        match r {
            Ok(()) => {
                &&& va % 4096 == 0
                &&& forall|k: u64|
                    k < npage ==> old(aspace).mapped(#[trigger] page_at(va, k)) && spec_pte_flags(
                        old(aspace).leaf_pte(page_at(va, k)),
                    ) != 1
                &&& forall|va2: u64|
                    va2 < MAX_VA && va <= crate::riscv::spec_page_round_down(va2) < va + npage
                        * 4096 ==> !final(aspace).mapped(va2) && final(aspace).leaf_pte(va2) == 0
                &&& (do_free ==> final(km)@.len() == old(km)@.len() + npage && (forall|i: int|
                    0 <= i < old(km)@.len() ==> final(km)@[i] == old(km)@[i]) && (forall|k: u64|
                    k < npage ==> final(km)@[old(km)@.len() + k] == spec_pte_to_pa(
                        old(aspace).leaf_pte(#[trigger] page_at(va, k)),
                    )))
                &&& (!do_free ==> final(km)@ == old(km)@)
            },
            Err(e) => {
                &&& (e == Fatal::UnmapNotAligned ==> va % 4096 != 0 && *final(aspace) == *old(aspace) && *final(km) == *old(km))
                &&& (e == Fatal::UnmapNotMapped ==> exists|k: u64|
                    k < npage && !old(aspace).mapped(#[trigger] page_at(va, k)))
                &&& (e == Fatal::UnmapNotLeaf ==> exists|k: u64|
                    k < npage && old(aspace).mapped(#[trigger] page_at(va, k)) && spec_pte_flags(
                        old(aspace).leaf_pte(page_at(va, k)),
                    ) == 1)
                &&& (e == Fatal::UnmapNotAligned || e == Fatal::UnmapNotMapped || e
                    == Fatal::UnmapNotLeaf)
            },
        },
        va % 4096 == 0 && (forall|k: u64|
            k < npage ==> old(aspace).mapped(#[trigger] page_at(va, k)) && spec_pte_flags(
                old(aspace).leaf_pte(page_at(va, k)),
            ) != 1) ==> r is Ok,
{
    proof {
        lemma_zero_invalid();
    }
    if va % PAGE_SIZE != 0 {
        return Err(Fatal::UnmapNotAligned);
    }
    let ghost a0 = *old(aspace);
    let ghost k0 = *old(km);
    let mut k: u64 = 0;
    let mut a = va;
    while k < npage
        invariant
            a0 == *old(aspace),
            k0 == *old(km),
            aspace.wf(),
            km.wf(),
            a0.wf(),
            km.base() == k0.base(),
            km.limit() == k0.limit(),
            aspace.owns(*km),
            va % 4096 == 0,
            va + npage * 4096 <= MAX_VA,
            do_free ==> range_frames_owned(a0, k0, va, npage),
            k <= npage,
            a == va + k * 4096,
            a % 4096 == 0,
            aspace.root.pa == a0.root.pa,
            aspace.tables_held() == a0.tables_held(),
            forall|p: u64| aspace.is_table_pa(p) <==> a0.is_table_pa(p),
            forall|va2: u64|
                va2 < MAX_VA && !(va <= crate::riscv::spec_page_round_down(va2) < va + npage
                    * 4096) ==> aspace.leaf_pte(va2) == a0.leaf_pte(va2),
            forall|va2: u64|
                va2 < MAX_VA && va <= crate::riscv::spec_page_round_down(va2) < a
                    ==> !aspace.mapped(va2) && aspace.leaf_pte(va2) == 0,
            forall|va2: u64|
                va2 < MAX_VA && a <= crate::riscv::spec_page_round_down(va2) < va + npage * 4096
                    ==> aspace.leaf_pte(va2) == a0.leaf_pte(va2),
            forall|j: u64|
                j < k ==> a0.mapped(#[trigger] page_at(va, j)) && spec_pte_flags(
                    a0.leaf_pte(page_at(va, j)),
                ) != 1,
            do_free ==> km@.len() == k0@.len() + k && (forall|i: int|
                0 <= i < k0@.len() ==> km@[i] == k0@[i]) && (forall|j: u64|
                j < k ==> km@[k0@.len() + j] == spec_pte_to_pa(
                    a0.leaf_pte(#[trigger] page_at(va, j)),
                )),
            !do_free ==> km@ == k0@,
        decreases npage - k,
    {
        proof {
            lemma_zero_invalid();
            crate::riscv::lemma_round_down(a);
            assert(a == page_at(va, k));
        }
        let slot = find_leaf_slot(aspace, a);
        let (l, i0) = match slot {
            None => {
                proof {
                    assert(aspace.leaf_pte(a) == a0.leaf_pte(a));
                    assert(!a0.mapped(page_at(va, k)));
                }
                return Err(Fatal::UnmapNotMapped);
            },
            Some(x) => x,
        };
        let e0 = aspace.leaves[l].entries[i0];
        proof {
            assert(e0 == aspace.leaf_pte(a));
            assert(aspace.leaf_pte(a) == a0.leaf_pte(a));
        }
        if e0 & PTE_V == 0 {
            proof {
                assert(!a0.mapped(page_at(va, k)));
            }
            return Err(Fatal::UnmapNotMapped);
        }
        if pte_flags(e0) == PTE_V {
            proof {
                assert(a0.mapped(page_at(va, k)));
                assert(spec_pte_flags(a0.leaf_pte(page_at(va, k))) == 1);
            }
            return Err(Fatal::UnmapNotLeaf);
        }
        if do_free {
            let pa0 = pte_to_pa(e0);
            proof {
                assert(a0.mapped(page_at(va, k)));
                assert(pa0 == spec_pte_to_pa(a0.leaf_pte(page_at(va, k))));
                assert(frame_owned(k0, pa0));
                if km@.contains(pa0) {
                    let i = choose|i: int| 0 <= i < km@.len() && km@[i] == pa0;
                    if i < k0@.len() {
                        assert(k0@[i] == pa0);
                    } else {
                        let j = (i - k0@.len()) as u64;
                        assert(km@[k0@.len() + j] == spec_pte_to_pa(
                            a0.leaf_pte(page_at(va, j)),
                        ));
                        assert(a0.mapped(page_at(va, j)));
                    }
                    assert(false);
                }
            }
            match km.kfree(pa0) {
                Ok(()) => {},
                Err(_) => {
                    proof {
                        assert(false);
                    }
                    return Err(Fatal::BadFree);
                },
            }
        }
        let ghost a_pre = *aspace;
        let ghost km_cur = *km;
        let lt = &mut aspace.leaves[l];
        lt.entries.set(i0, 0);
        proof {
            lemma_leaf_update_effect(a_pre, *aspace, a, l as int, 0);
            // ownership survives: the pool gained only a data frame
            assert forall|mm: int| 0 <= mm < aspace.mids@.len() implies frame_owned(
                *km,
                (#[trigger] aspace.mids@[mm]).pa,
            ) && aspace.mids@[mm].pa != aspace.root.pa by {
                assert(frame_owned(km_cur, a_pre.mids@[mm].pa));
                if do_free {
                    assert(a_pre.is_table_pa(a_pre.mids@[mm].pa));
                }
            }
            assert forall|ll: int| 0 <= ll < aspace.leaves@.len() implies frame_owned(
                *km,
                (#[trigger] aspace.leaves@[ll]).pa,
            ) && aspace.leaves@[ll].pa != aspace.root.pa by {
                assert(aspace.leaves@[ll].pa == a_pre.leaves@[ll].pa) by {
                    if ll != l as int {
                        assert(aspace.leaves@[ll] == a_pre.leaves@[ll]);
                    }
                }
                assert(frame_owned(km_cur, a_pre.leaves@[ll].pa));
                if do_free {
                    assert(a_pre.is_table_pa(a_pre.leaves@[ll].pa));
                }
            }
            assert forall|l1: int, l2: int| 0 <= l1 < l2 < aspace.leaves@.len() implies (
            #[trigger] aspace.leaves@[l1]).pa != (#[trigger] aspace.leaves@[l2]).pa by {
                assert(aspace.leaves@[l1].pa == a_pre.leaves@[l1].pa) by {
                    if l1 != l as int {
                        assert(aspace.leaves@[l1] == a_pre.leaves@[l1]);
                    }
                }
                assert(aspace.leaves@[l2].pa == a_pre.leaves@[l2].pa) by {
                    if l2 != l as int {
                        assert(aspace.leaves@[l2] == a_pre.leaves@[l2]);
                    }
                }
            }
            assert forall|mm: int, ll: int|
                0 <= mm < aspace.mids@.len() && 0 <= ll < aspace.leaves@.len() implies (
            #[trigger] aspace.mids@[mm]).pa != (#[trigger] aspace.leaves@[ll]).pa by {
                assert(aspace.leaves@[ll].pa == a_pre.leaves@[ll].pa) by {
                    if ll != l as int {
                        assert(aspace.leaves@[ll] == a_pre.leaves@[ll]);
                    }
                }
            }
            assert(frame_owned(*km, aspace.root.pa)) by {
                assert(frame_owned(km_cur, a_pre.root.pa));
                if do_free {
                    assert(a_pre.is_table_pa(a_pre.root.pa));
                }
            }
            // the freshly cleared page, and the rest of the invariant ranges
            assert forall|va2: u64|
                va2 < MAX_VA && va <= crate::riscv::spec_page_round_down(va2) < a
                    + 4096 implies !aspace.mapped(va2) && aspace.leaf_pte(va2) == 0 by {
                crate::riscv::lemma_round_down(va2);
                let rd = crate::riscv::spec_page_round_down(va2);
                if rd < a {
                    assert(aspace.leaf_pte(va2) == a_pre.leaf_pte(va2));
                } else {
                    assert(rd == a);
                    lemma_leaf_pte_round_down(*aspace, va2);
                }
            }
        }
        k = k + 1;
        a = a + PAGE_SIZE;
        proof {
            crate::riscv::lemma_aligned_add((a - 4096) as u64, 4096);
        }
    }
    proof {
        assert forall|va2: u64|
            va2 < MAX_VA && va <= crate::riscv::spec_page_round_down(va2) < va + npage
                * 4096 implies !aspace.mapped(va2) && aspace.leaf_pte(va2) == 0 by {
        }
    }
    Ok(())
}

/// A virtual address reaching the slot `(i2, i1, i0)`: composing the three
/// index fields yields an aligned address below `MAX_VA` that reads them back.
proof fn lemma_va_compose(i2: u64, i1: u64, i0: u64)
    by (bit_vector)
    requires
        i2 < 256,
        i1 < 512,
        i0 < 512,
    ensures
        vpn2((i2 << 30) | (i1 << 21) | (i0 << 12)) == i2,
        vpn1((i2 << 30) | (i1 << 21) | (i0 << 12)) == i1,
        vpn0((i2 << 30) | (i1 << 21) | (i0 << 12)) == i0,
        ((i2 << 30) | (i1 << 21) | (i0 << 12)) < 0x40_0000_0000,
{
}

/// Tear a whole page table down, bottom up: fatal if any reachable leaf entry
/// is still valid (data pages must be unmapped first); otherwise every node
/// frame of the address space goes back to the pool, the root's frame last.
pub fn free_walk(aspace: AddressSpace, km: &mut Kmem) -> (r: Result<(), Fatal>)
    requires
        aspace.wf(),
        old(km).wf(),
        aspace.owns(*old(km)),
    ensures
        final(km).wf(),
        final(km).base() == old(km).base(),
        final(km).limit() == old(km).limit(),
        r is Ok <==> (forall|va2: u64| va2 < MAX_VA ==> !aspace.mapped(va2)),
        r matches Err(e) ==> e == Fatal::LeafRemains && *final(km) == *old(km),
        r is Ok ==> {
            &&& final(km)@.len() == old(km)@.len() + aspace.tables_held()
            &&& final(km)@.last() == aspace.root.pa
            &&& forall|i: int| 0 <= i < old(km)@.len() ==> final(km)@[i] == old(km)@[i]
            &&& forall|p: u64|
                #[trigger] final(km)@.contains(p) ==> old(km)@.contains(p) || aspace.is_table_pa(p)
            &&& forall|p: u64| #[trigger] old(km)@.contains(p) ==> final(km)@.contains(p)
            &&& forall|p: u64| #[trigger] aspace.is_table_pa(p) ==> final(km)@.contains(p)
        },
{
    proof {
        lemma_zero_invalid();
        aspace.lemma_arena_bounds();
    }
    // first pass: any reachable valid leaf entry is fatal, and nothing is
    // freed
    let mut i2: usize = 0;
    while i2 < 256
        invariant
            *km == *old(km),
            old(km).wf(),
            aspace.wf(),
            forall|va2: u64|
                va2 < MAX_VA && vpn2(va2) < i2 ==> !(#[trigger] aspace.mapped(va2)),
            i2 <= 256,
        decreases 256 - i2,
    {
        let e2 = aspace.root.entries[i2];
        if e2 & PTE_V != 0 {
            proof {
                assert(internal_ok(e2, aspace.mids@.len() as int));
            }
            let _nmids = aspace.mids.len();
            let m = (e2 >> 10) as usize;
            let mut i1: usize = 0;
            while i1 < 512
                invariant
                    *km == *old(km),
                    old(km).wf(),
                    aspace.wf(),
                    i2 < 256,
                    i1 <= 512,
                    e2 == aspace.root.entries@[i2 as int],
                    pte_valid(e2),
                    m as int == pte_handle(e2),
                    (m as int) < aspace.mids@.len(),
                    forall|va2: u64|
                        va2 < MAX_VA && vpn2(va2) < i2 ==> !(#[trigger] aspace.mapped(va2)),
                    forall|va2: u64|
                        va2 < MAX_VA && vpn2(va2) == i2 && vpn1(va2) < i1 ==> !(
                        #[trigger] aspace.mapped(va2)),
                decreases 512 - i1,
            {
                let e1 = aspace.mids[m].entries[i1];
                if e1 & PTE_V != 0 {
                    proof {
                        assert(internal_ok(e1, aspace.leaves@.len() as int));
                    }
                    let _nleaves = aspace.leaves.len();
                    let l = (e1 >> 10) as usize;
                    let mut i0: usize = 0;
                    while i0 < 512
                        invariant
                            *km == *old(km),
                            old(km).wf(),
                            aspace.wf(),
                            i2 < 256,
                            i1 < 512,
                            i0 <= 512,
                            e2 == aspace.root.entries@[i2 as int],
                            pte_valid(e2),
                            m as int == pte_handle(e2),
                            (m as int) < aspace.mids@.len(),
                            e1 == aspace.mids@[m as int].entries@[i1 as int],
                            pte_valid(e1),
                            l as int == pte_handle(e1),
                            (l as int) < aspace.leaves@.len(),
                            forall|va2: u64|
                                va2 < MAX_VA && vpn2(va2) == i2 && vpn1(va2) == i1 && vpn0(va2)
                                    < i0 ==> !(#[trigger] aspace.mapped(va2)),
                        decreases 512 - i0,
                    {
                        let e0 = aspace.leaves[l].entries[i0];
                        if e0 & PTE_V != 0 {
                            proof {
                                lemma_va_compose(i2 as u64, i1 as u64, i0 as u64);
                                let w = ((i2 as u64) << 30) | ((i1 as u64) << 21) | ((
                                i0 as u64) << 12);
                                assert(aspace.l1_entry(w) == e2);
                                assert(aspace.l0_entry(w) == e1);
                                assert(aspace.leaf_pte(w) == e0);
                                assert(aspace.mapped(w));
                            }
                            return Err(Fatal::LeafRemains);
                        }
                        i0 = i0 + 1;
                        proof {
                            assert forall|va2: u64|
                                va2 < MAX_VA && vpn2(va2) == i2 && vpn1(va2) == i1 && vpn0(va2)
                                    < i0 implies !(#[trigger] aspace.mapped(va2)) by {
                                lemma_vpn_bounds(va2);
                                if vpn0(va2) == i0 - 1 {
                                    assert(aspace.l1_entry(va2) == e2);
                                    assert(aspace.l0_entry(va2) == e1);
                                    assert(aspace.leaf_pte(va2) == e0);
                                }
                            }
                        }
                    }
                }
                i1 = i1 + 1;
                proof {
                    assert forall|va2: u64|
                        va2 < MAX_VA && vpn2(va2) == i2 && vpn1(va2) < i1 implies !(
                    #[trigger] aspace.mapped(va2)) by {
                        lemma_zero_invalid();
                        lemma_vpn_bounds(va2);
                        if vpn1(va2) == i1 - 1 {
                            assert(aspace.l1_entry(va2) == e2);
                            if pte_valid(e1) {
                            } else {
                                assert(aspace.l0_entry(va2) == e1);
                                assert(!aspace.path_present(va2));
                            }
                        }
                    }
                }
            }
        }
        i2 = i2 + 1;
        proof {
            assert forall|va2: u64| va2 < MAX_VA && vpn2(va2) < i2 implies !(
            #[trigger] aspace.mapped(va2)) by {
                lemma_zero_invalid();
                lemma_vpn_bounds(va2);
                if vpn2(va2) == i2 - 1 {
                    if pte_valid(e2) {
                    } else {
                        assert(aspace.l1_entry(va2) == e2);
                        assert(!aspace.path_present(va2));
                    }
                }
            }
        }
    }
    proof {
        assert forall|va2: u64| va2 < MAX_VA implies !aspace.mapped(va2) by {
            lemma_vpn_bounds(va2);
        }
    }
    // second pass: every node frame goes back, leaves first, the root last
    let ghost k0 = *old(km);
    let nleaves = aspace.leaves.len();
    let mut i: usize = 0;
    while i < nleaves
        invariant
            k0 == *old(km),
            km.wf(),
            km.base() == k0.base(),
            km.limit() == k0.limit(),
            aspace.wf(),
            aspace.owns(k0),
            nleaves == aspace.leaves@.len(),
            i <= nleaves,
            km@.len() == k0@.len() + i,
            forall|idx: int| 0 <= idx < k0@.len() ==> km@[idx] == k0@[idx],
            forall|p: u64|
                #[trigger] km@.contains(p) ==> k0@.contains(p) || aspace.is_table_pa(p),
            forall|p: u64| #[trigger] k0@.contains(p) ==> km@.contains(p),
            forall|j: int|
                i <= j < nleaves ==> !km@.contains((#[trigger] aspace.leaves@[j]).pa),
            forall|j: int| 0 <= j < i ==> km@.contains((#[trigger] aspace.leaves@[j]).pa),
            forall|j: int| 0 <= j < aspace.mids@.len() ==> !km@.contains(
                (#[trigger] aspace.mids@[j]).pa,
            ),
            !km@.contains(aspace.root.pa),
        decreases nleaves - i,
    {
        let pa = aspace.leaves[i].pa;
        let ghost km_pre = *km;
        proof {
            assert(frame_owned(k0, pa));
        }
        match km.kfree(pa) {
            Ok(()) => {},
            Err(_) => {
                proof {
                    assert(false);
                }
                return Err(Fatal::BadFree);
            },
        }
        proof {
            assert(aspace.is_table_pa(pa));
            assert forall|p: u64| #[trigger] km@.contains(p) implies k0@.contains(p)
                || aspace.is_table_pa(p) by {
                lemma_push_contains(km_pre@, pa, p);
            }
            assert forall|p: u64| #[trigger] k0@.contains(p) implies km@.contains(p) by {
                lemma_push_contains(km_pre@, pa, p);
            }
            assert forall|j: int| i + 1 <= j < nleaves implies !km@.contains(
                (#[trigger] aspace.leaves@[j]).pa,
            ) by {
                lemma_push_contains(km_pre@, pa, aspace.leaves@[j].pa);
            }
            assert forall|j: int| 0 <= j < i + 1 implies km@.contains(
                (#[trigger] aspace.leaves@[j]).pa,
            ) by {
                lemma_push_contains(km_pre@, pa, aspace.leaves@[j].pa);
            }
            assert forall|j: int| 0 <= j < aspace.mids@.len() implies !km@.contains(
                (#[trigger] aspace.mids@[j]).pa,
            ) by {
                lemma_push_contains(km_pre@, pa, aspace.mids@[j].pa);
            }
            lemma_push_contains(km_pre@, pa, aspace.root.pa);
        }
        i = i + 1;
    }
    let nmids = aspace.mids.len();
    let mut i: usize = 0;
    while i < nmids
        invariant
            k0 == *old(km),
            km.wf(),
            km.base() == k0.base(),
            km.limit() == k0.limit(),
            aspace.wf(),
            aspace.owns(k0),
            nmids == aspace.mids@.len(),
            i <= nmids,
            km@.len() == k0@.len() + aspace.leaves@.len() + i,
            forall|idx: int| 0 <= idx < k0@.len() ==> km@[idx] == k0@[idx],
            forall|p: u64|
                #[trigger] km@.contains(p) ==> k0@.contains(p) || aspace.is_table_pa(p),
            forall|p: u64| #[trigger] k0@.contains(p) ==> km@.contains(p),
            forall|j: int|
                i <= j < nmids ==> !km@.contains((#[trigger] aspace.mids@[j]).pa),
            forall|j: int| 0 <= j < i ==> km@.contains((#[trigger] aspace.mids@[j]).pa),
            forall|j: int|
                0 <= j < aspace.leaves@.len() ==> km@.contains((#[trigger] aspace.leaves@[j]).pa),
            !km@.contains(aspace.root.pa),
        decreases nmids - i,
    {
        let pa = aspace.mids[i].pa;
        let ghost km_pre = *km;
        proof {
            assert(frame_owned(k0, pa));
        }
        match km.kfree(pa) {
            Ok(()) => {},
            Err(_) => {
                proof {
                    assert(false);
                }
                return Err(Fatal::BadFree);
            },
        }
        proof {
            assert(aspace.is_table_pa(pa));
            assert forall|p: u64| #[trigger] km@.contains(p) implies k0@.contains(p)
                || aspace.is_table_pa(p) by {
                lemma_push_contains(km_pre@, pa, p);
            }
            assert forall|p: u64| #[trigger] k0@.contains(p) implies km@.contains(p) by {
                lemma_push_contains(km_pre@, pa, p);
            }
            assert forall|j: int| i + 1 <= j < nmids implies !km@.contains(
                (#[trigger] aspace.mids@[j]).pa,
            ) by {
                lemma_push_contains(km_pre@, pa, aspace.mids@[j].pa);
            }
            assert forall|j: int| 0 <= j < i + 1 implies km@.contains(
                (#[trigger] aspace.mids@[j]).pa,
            ) by {
                lemma_push_contains(km_pre@, pa, aspace.mids@[j].pa);
            }
            assert forall|j: int| 0 <= j < aspace.leaves@.len() implies km@.contains(
                (#[trigger] aspace.leaves@[j]).pa,
            ) by {
                lemma_push_contains(km_pre@, pa, aspace.leaves@[j].pa);
            }
            lemma_push_contains(km_pre@, pa, aspace.root.pa);
        }
        i = i + 1;
    }
    let ghost km_pre = *km;
    match km.kfree(aspace.root.pa) {
        Ok(()) => {},
        Err(_) => {
            proof {
                assert(false);
            }
            return Err(Fatal::BadFree);
        },
    }
    proof {
        assert forall|p: u64| #[trigger] km@.contains(p) implies k0@.contains(p)
            || aspace.is_table_pa(p) by {
            lemma_push_contains(km_pre@, aspace.root.pa, p);
        }
        assert forall|p: u64| #[trigger] k0@.contains(p) implies km@.contains(p) by {
            lemma_push_contains(km_pre@, aspace.root.pa, p);
        }
        assert forall|p: u64| #[trigger] aspace.is_table_pa(p) implies km@.contains(p) by {
            if p != aspace.root.pa {
                if exists|m: int| 0 <= m < aspace.mids@.len() && (#[trigger] aspace.mids@[m]).pa
                    == p {
                    let m = choose|m: int|
                        0 <= m < aspace.mids@.len() && (#[trigger] aspace.mids@[m]).pa == p;
                    lemma_push_contains(km_pre@, aspace.root.pa, p);
                } else {
                    let l = choose|l: int|
                        0 <= l < aspace.leaves@.len() && (#[trigger] aspace.leaves@[l]).pa == p;
                    lemma_push_contains(km_pre@, aspace.root.pa, p);
                }
            } else {
                lemma_push_contains(km_pre@, aspace.root.pa, p);
            }
        }
    }
    Ok(())
}

/// Law: after a range map succeeds, translation of any address of the range
/// returns the chosen physical base plus that address's distance into the
/// range — for every offset, not just page bases.
pub proof fn lemma_map_then_translate(
    a1: AddressSpace,
    va: u64,
    size: u64,
    pa: u64,
    perm: u64,
    va2: u64,
)
    requires
        1 <= size,
        va + size <= MAX_VA,
        va % 4096 == 0,
        pa % 4096 == 0,
        pa + size <= u64::MAX,
        perm & 0x3ff == perm,
        perm & 1 == 0,
        perm & 0xe != 0,
        forall|w: u64|
            w < MAX_VA && va <= #[trigger] crate::riscv::spec_page_round_down(w) < va + size
                ==> a1.leaf_pte(w) == (spec_pa_to_pte(
                (pa + (crate::riscv::spec_page_round_down(w) - va)) as u64,
            ) | perm | 1),
        va <= va2 < va + size,
    ensures
        a1.spec_translate(va2) == Some((pa + (va2 - va)) as u64),
{
    crate::riscv::lemma_round_down(va2);
    let rd = crate::riscv::spec_page_round_down(va2);
    if rd < va {
        crate::riscv::lemma_aligned_gap(va, rd);
        assert(false);
    }
    assert(va <= rd < va + size);
    let delta = (rd - va) as u64;
    assert(delta % 4096 == 0) by (bit_vector)
        requires
            rd % 4096 == 0,
            va % 4096 == 0,
            va <= rd,
            delta == (rd - va) as u64,
    ;
    crate::riscv::lemma_aligned_add(pa, delta);
    assert(a1.leaf_pte(va2) == (spec_pa_to_pte((pa + delta) as u64) | perm | 1));
    lemma_leaf_pte_fields((pa + delta) as u64, perm);
    assert(va2 & 0xfff == va2 % 4096) by (bit_vector);
    crate::riscv::lemma_or_is_plus((pa + delta) as u64, (va2 & 0xfff) as u64);
}

/// Law: a page that a successful map installed is `mapped` — which is exactly
/// the condition under which [`map_page`]'s contract forces a second map of
/// the same page onto the fatal remap arm, with the tables and the pool left
/// untouched. Remapping is never a silent second mapping.
pub proof fn lemma_installed_page_is_mapped(a1: AddressSpace, va: u64, pa: u64, perm: u64)
    requires
        pa % 4096 == 0,
        perm & 0x3ff == perm,
        perm & 1 == 0,
        perm & 0xe != 0,
        a1.leaf_pte(va) == (spec_pa_to_pte(pa) | perm | 1),
    ensures
        a1.mapped(va),
{
    lemma_leaf_pte_fields(pa, perm);
}

/// Law: a frame just released by an unmap that frees physical pages is the
/// very next frame the allocator hands out.
pub proof fn lemma_released_frame_reallocatable(free0: Seq<u64>, free1: Seq<u64>, pa: u64)
    requires
        free1.len() == free0.len() + 1,
        forall|i: int| 0 <= i < free0.len() ==> free1[i] == free0[i],
        free1[free0.len() as int] == pa,
    ensures
        crate::kalloc::alloc_result(free1) == Some(pa),
{
    assert(free1.last() == pa);
}

/// Ownership of node frames survives the pool shrinking.
pub proof fn lemma_owns_shrink(a: AddressSpace, km0: Kmem, km1: Kmem)
    requires
        a.owns(km0),
        km1.base() == km0.base(),
        km1.limit() == km0.limit(),
        forall|q: u64| #[trigger] km1@.contains(q) ==> km0@.contains(q),
    ensures
        a.owns(km1),
{
    assert forall|m: int| 0 <= m < a.mids@.len() implies frame_owned(
        km1,
        (#[trigger] a.mids@[m]).pa,
    ) && a.mids@[m].pa != a.root.pa by {
        assert(frame_owned(km0, a.mids@[m].pa));
    }
    assert forall|l: int| 0 <= l < a.leaves@.len() implies frame_owned(
        km1,
        (#[trigger] a.leaves@[l]).pa,
    ) && a.leaves@[l].pa != a.root.pa by {
        assert(frame_owned(km0, a.leaves@[l].pa));
    }
}

/// Ownership of data frames survives the pool shrinking.
pub proof fn lemma_range_owned_shrink(a: AddressSpace, km0: Kmem, km1: Kmem, va: u64, npage: u64)
    requires
        range_frames_owned(a, km0, va, npage),
        km1.base() == km0.base(),
        km1.limit() == km0.limit(),
        forall|q: u64| #[trigger] km1@.contains(q) ==> km0@.contains(q),
    ensures
        range_frames_owned(a, km1, va, npage),
{
    assert forall|k: u64| k < npage && a.mapped(#[trigger] page_at(va, k)) implies frame_owned(
        km1,
        spec_pte_to_pa(a.leaf_pte(page_at(va, k))),
    ) && !a.is_table_pa(spec_pte_to_pa(a.leaf_pte(page_at(va, k)))) by {
        assert(frame_owned(km0, spec_pte_to_pa(a.leaf_pte(page_at(va, k)))));
    }
}

/// Node-frame ownership holds against any pool over the same range that
/// holds none of the node frames.
pub proof fn lemma_owns_shrink_facts(a: AddressSpace, km0: Kmem, km1: Kmem)
    requires
        a.owns(km0),
        km1.base() == km0.base(),
        km1.limit() == km0.limit(),
        forall|q: u64| #[trigger] a.is_table_pa(q) ==> !km1@.contains(q),
    ensures
        a.owns(km1),
{
    assert(a.is_table_pa(a.root.pa));
    assert(frame_owned(km1, a.root.pa)) by {
        assert(frame_owned(km0, a.root.pa));
    }
    assert forall|m: int| 0 <= m < a.mids@.len() implies frame_owned(
        km1,
        (#[trigger] a.mids@[m]).pa,
    ) && a.mids@[m].pa != a.root.pa by {
        assert(frame_owned(km0, a.mids@[m].pa));
        assert(a.is_table_pa(a.mids@[m].pa));
    }
    assert forall|l: int| 0 <= l < a.leaves@.len() implies frame_owned(
        km1,
        (#[trigger] a.leaves@[l]).pa,
    ) && a.leaves@[l].pa != a.root.pa by {
        assert(frame_owned(km0, a.leaves@[l].pa));
        assert(a.is_table_pa(a.leaves@[l].pa));
    }
}

/// Every node frame of an owning address space is itself an owned frame.
pub proof fn lemma_table_pa_owned(a: AddressSpace, km: Kmem)
    requires
        a.owns(km),
    ensures
        forall|pa: u64| #[trigger] a.is_table_pa(pa) ==> frame_owned(km, pa),
{
    assert forall|pa: u64| #[trigger] a.is_table_pa(pa) implies frame_owned(km, pa) by {
        if pa != a.root.pa {
            if exists|m: int| 0 <= m < a.mids@.len() && (#[trigger] a.mids@[m]).pa == pa {
                let m = choose|m: int| 0 <= m < a.mids@.len() && (#[trigger] a.mids@[m]).pa == pa;
                assert(frame_owned(km, a.mids@[m].pa));
            } else {
                let l = choose|l: int|
                    0 <= l < a.leaves@.len() && (#[trigger] a.leaves@[l]).pa == pa;
                assert(frame_owned(km, a.leaves@[l].pa));
            }
        }
    }
}

/// Pages of a byte count: how many whole page frames cover `size` bytes.
pub open spec fn pages_of(size: u64) -> u64 {
    crate::riscv::spec_page_round_up(size) / 4096
}

/// A mapping the kernel address space cannot do without: any failure of the
/// underlying range map is fatal.
pub fn kvm_map(
    aspace: &mut AddressSpace,
    km: &mut Kmem,
    va: u64,
    pa: u64,
    size: u64,
    perm: u64,
) -> (r: Result<(), Fatal>)
    requires
        old(aspace).wf(),
        old(km).wf(),
        old(aspace).owns(*old(km)),
        1 <= size,
        va + size <= MAX_VA,
        va % 4096 == 0,
        pa % 4096 == 0,
        pa + size <= u64::MAX,
        perm & 0x3ff == perm,
        perm & 1 == 0,
        perm & 0xe != 0,
    ensures
        vm_evolution(*old(aspace), *old(km), *final(aspace), *final(km)),
        forall|va2: u64|
            va2 < MAX_VA && !(va <= crate::riscv::spec_page_round_down(va2) < va + size)
                ==> final(aspace).leaf_pte(va2) == old(aspace).leaf_pte(va2),
        forall|va2: u64|
            va2 < MAX_VA && old(aspace).mapped(va2) ==> final(aspace).leaf_pte(va2) == old(aspace).leaf_pte(va2),
        match r {
            Ok(()) => forall|va2: u64|
                va2 < MAX_VA && va <= #[trigger] crate::riscv::spec_page_round_down(va2) < va
                    + size ==> !old(aspace).mapped(va2) && final(aspace).leaf_pte(va2) == (
                spec_pa_to_pte((pa + (crate::riscv::spec_page_round_down(va2) - va)) as u64) | perm
                    | 1),
            Err(e) => e == Fatal::KvmMapFailed && ((exists|p: u64|
                p % 4096 == 0 && va <= p < va + size && #[trigger] old(aspace).mapped(p))
                || final(km)@.len() == 0),
        },
        (forall|p: u64| p % 4096 == 0 && va <= p < va + size ==> !(#[trigger] old(aspace).mapped(
            p,
        ))) && 4096 * old(km)@.len() >= 2 * (crate::riscv::spec_page_round_down(
            (va + size - 1) as u64,
        ) - va) + 8192 ==> r is Ok,
        old(km)@.len() - final(km)@.len() <= 2 + 2 * ((crate::riscv::spec_page_round_down(
            (va + size - 1) as u64,
        ) >> 21) - (va >> 21)),
{
    match map_pages(aspace, km, va, size, pa, perm) {
        Ok(()) => Ok(()),
        Err(_) => Err(Fatal::KvmMapFailed),
    }
}

/// Load the first user image: allocate one frame, map it read/execute/user at
/// virtual address zero, and hand the image bytes over to it. An image larger
/// than one page is fatal; the byte copy itself is a memory effect below this
/// model of the tables. Returns the frame that now backs page zero.
pub fn uvm_init(aspace: &mut AddressSpace, km: &mut Kmem, src: &Vec<u8>, size: u64) -> (r: Result<
    u64,
    Fatal,
>)
    requires
        old(aspace).wf(),
        old(km).wf(),
        old(aspace).owns(*old(km)),
        old(km).limit() <= u64::MAX - 4096,
        !old(aspace).mapped(0),
        src@.len() == size,
    ensures
        final(aspace).wf(),
        final(km).wf(),
        final(km).base() == old(km).base(),
        final(km).limit() == old(km).limit(),
        final(aspace).owns(*final(km)),
        final(aspace).root.pa == old(aspace).root.pa,
        forall|p: u64|
            #[trigger] final(aspace).is_table_pa(p) ==> old(aspace).is_table_pa(p) || old(km)@.contains(p),
        forall|p: u64| #[trigger] final(km)@.contains(p) ==> old(km)@.contains(p),
        forall|va2: u64|
            va2 < MAX_VA && crate::riscv::spec_page_round_down(va2) != 0 ==> final(aspace).leaf_pte(va2) == old(aspace).leaf_pte(va2),
        match r {
            Ok(pa) => {
                &&& size <= 4096
                &&& final(aspace).mapped(0)
                &&& final(aspace).leaf_pte(0) == (spec_pa_to_pte(pa) | (crate::riscv::PTE_R
                    | crate::riscv::PTE_X | crate::riscv::PTE_U) | 1)
                &&& frame_owned(*final(km), pa)
                &&& !final(aspace).is_table_pa(pa)
                &&& old(km)@.contains(pa)
                &&& old(km)@.len() - final(km)@.len() <= 4
            },
            Err(e) => {
                &&& (e == Fatal::UvmInitTooLarge || e == Fatal::NoFrame)
                &&& (e == Fatal::UvmInitTooLarge <==> size > 4096)
                &&& *final(aspace) == *old(aspace)
                &&& *final(km) == *old(km)
                &&& !final(aspace).mapped(0)
            },
        },
        size <= 4096 && old(km)@.len() >= 3 ==> r is Ok,
{
    proof {
        lemma_zero_invalid();
    }
    if size > PAGE_SIZE {
        return Err(Fatal::UvmInitTooLarge);
    }
    if km.free_count() < 3 {
        return Err(Fatal::NoFrame);
    }
    let ghost a0 = *old(aspace);
    let ghost k0 = *old(km);
    let mem = match km.kalloc() {
        None => {
            proof {
                assert(false);
            }
            return Err(Fatal::NoFrame);
        },
        Some(pa) => pa,
    };
    proof {
        assert(((crate::riscv::PTE_R | crate::riscv::PTE_X | crate::riscv::PTE_U) & 0x3ffu64 == (
        crate::riscv::PTE_R | crate::riscv::PTE_X | crate::riscv::PTE_U)) && ((crate::riscv::PTE_R
            | crate::riscv::PTE_X | crate::riscv::PTE_U) & 1u64 == 0) && ((crate::riscv::PTE_R
            | crate::riscv::PTE_X | crate::riscv::PTE_U) & 0xeu64 != 0)) by (bit_vector);
    }
    proof {
        assert(k0@.contains(mem)) by {
            assert(k0@[k0@.len() - 1] == mem);
        }
        assert forall|p: u64| #[trigger] km@.contains(p) implies k0@.contains(p) by {
            lemma_drop_last_contains(k0@, p);
        }
    }
    let ghost k1 = *km;
    let res = map_pages(aspace, km, 0, PAGE_SIZE, mem, PTE_R | PTE_X | PTE_U);
    proof {
        crate::riscv::lemma_round_down(0);
        crate::riscv::lemma_round_down(4095);
    }
    proof {
        assert forall|va2: u64|
            va2 < MAX_VA && crate::riscv::spec_page_round_down(va2) != 0 implies aspace.leaf_pte(
            va2,
        ) == a0.leaf_pte(va2) by {
            crate::riscv::lemma_round_down(va2);
            let rd = crate::riscv::spec_page_round_down(va2);
            if rd < 4096 {
                crate::riscv::lemma_aligned_gap(rd, 0);
            }
        }
    }
    match res {
        Ok(()) => {
            proof {
                lemma_leaf_pte_fields(mem, PTE_R | PTE_X | PTE_U);
                assert(aspace.leaf_pte(0) == (spec_pa_to_pte(mem) | (crate::riscv::PTE_R
                    | crate::riscv::PTE_X | crate::riscv::PTE_U) | 1));
                assert(frame_owned(*km, mem)) by {
                    if km@.contains(mem) {
                        assert(k1@.contains(mem));
                    }
                }
                assert(!aspace.is_table_pa(mem)) by {
                    if aspace.is_table_pa(mem) {
                        if a0.is_table_pa(mem) {
                            assert(frame_owned(k0, a0.root.pa));
                        } else {
                            assert(k1@.contains(mem));
                            lemma_drop_last_contains(k0@, mem);
                        }
                    }
                }
            }
            Ok(mem)
        },
        Err(e) => {
            proof {
                match e {
                    MapError::Remap => {
                        let q = choose|q: u64|
                            q % 4096 == 0 && 0 <= q < 0 + 4096 && #[trigger] a0.mapped(q);
                        assert(q == 0);
                        assert(false);
                    },
                    MapError::OutOfFrames => {
                        assert(4096 * k1@.len() >= 2 * (crate::riscv::spec_page_round_down(4095)
                            - 0) + 8192);
                        assert(false);
                    },
                }
            }
            Err(Fatal::NoFrame)
        },
    }
}

/// Tear down a whole user address space: clear and free the data region of
/// `size` bytes starting at virtual address zero, then free every page-table
/// node. Fatal if a data page is missing, or if anything else is still mapped
/// when the nodes are freed.
pub fn uvm_free(aspace: AddressSpace, km: &mut Kmem, size: u64) -> (r: Result<(), Fatal>)
    requires
        aspace.wf(),
        old(km).wf(),
        aspace.owns(*old(km)),
        size + 4096 <= MAX_VA,
        range_frames_owned(aspace, *old(km), 0, pages_of(size)),
    ensures
        final(km).wf(),
        final(km).base() == old(km).base(),
        final(km).limit() == old(km).limit(),
        r is Ok <==> (forall|k: u64|
            k < pages_of(size) ==> aspace.mapped(#[trigger] page_at(0, k)) && spec_pte_flags(
                aspace.leaf_pte(page_at(0, k)),
            ) != 1) && (forall|va2: u64|
            va2 < MAX_VA && #[trigger] aspace.mapped(va2) ==> crate::riscv::spec_page_round_down(
                va2,
            ) < crate::riscv::spec_page_round_up(size)),
        r is Ok ==> {
            &&& final(km)@.len() == old(km)@.len() + pages_of(size) + aspace.tables_held()
            &&& forall|i: int| 0 <= i < old(km)@.len() ==> final(km)@[i] == old(km)@[i]
            &&& forall|p: u64|
                #[trigger] final(km)@.contains(p) ==> old(km)@.contains(p) || aspace.is_table_pa(p)
                    || (exists|k: u64|
                    k < pages_of(size) && p == spec_pte_to_pa(
                        aspace.leaf_pte(#[trigger] page_at(0, k)),
                    ))
            &&& forall|p: u64| #[trigger] old(km)@.contains(p) ==> final(km)@.contains(p)
            &&& forall|p: u64| #[trigger] aspace.is_table_pa(p) ==> final(km)@.contains(p)
            &&& forall|k: u64|
                k < pages_of(size) ==> final(km)@.contains(
                    spec_pte_to_pa(aspace.leaf_pte(#[trigger] page_at(0, k))),
                )
        },
{
    proof {
        crate::riscv::lemma_round_up(size);
    }
    let mut aspace = aspace;
    let ghost a0 = aspace;
    let ghost k0 = *old(km);
    let npage = if size > 0 {
        crate::riscv::page_round_up(size) / PAGE_SIZE
    } else {
        0
    };
    proof {
        assert(npage == pages_of(size));
        assert(4096 * npage == crate::riscv::spec_page_round_up(size));
    }
    if npage > 0 {
        match uvm_unmap(&mut aspace, km, 0, npage, true) {
            Ok(()) => {},
            Err(e) => {
                return Err(e);
            },
        }
    }
    let ghost a1 = aspace;
    let ghost k1 = *km;
    let res = free_walk(aspace, km);
    proof {
        if res is Ok {
            assert forall|va2: u64|
                va2 < MAX_VA && #[trigger] a0.mapped(va2) implies crate::riscv::spec_page_round_down(
                va2,
            ) < crate::riscv::spec_page_round_up(size) by {
                crate::riscv::lemma_round_down(va2);
                if crate::riscv::spec_page_round_down(va2) >= crate::riscv::spec_page_round_up(
                    size,
                ) {
                    assert(a1.leaf_pte(va2) == a0.leaf_pte(va2));
                    assert(a1.mapped(va2));
                }
            }
            assert forall|p: u64| #[trigger] km@.contains(p) implies k0@.contains(p)
                || a0.is_table_pa(p) || (exists|k: u64|
                k < pages_of(size) && p == spec_pte_to_pa(
                    a0.leaf_pte(#[trigger] page_at(0, k)),
                )) by {
                if !k0@.contains(p) && !a0.is_table_pa(p) {
                    assert(k1@.contains(p));
                    if npage > 0 {
                        let i = choose|i: int| 0 <= i < k1@.len() && k1@[i] == p;
                        if i < k0@.len() {
                            assert(k0@[i] == p);
                        } else {
                            let k = (i - k0@.len()) as u64;
                            assert(k1@[k0@.len() + k] == spec_pte_to_pa(
                                a0.leaf_pte(page_at(0, k)),
                            ));
                        }
                    }
                }
            }
        } else {
            if npage > 0 {
                // the unmap succeeded, so the data region was whole; the
                // failure means something outside it was still mapped
                let w = choose|va2: u64| va2 < MAX_VA && #[trigger] a1.mapped(va2);
                crate::riscv::lemma_round_down(w);
                assert(a0.mapped(w));
            } else {
                let w = choose|va2: u64| va2 < MAX_VA && #[trigger] a1.mapped(va2);
                assert(a0.mapped(w));
            }
        }
    }
    match res {
        Ok(()) => Ok(()),
        Err(e) => Err(e),
    }
}

/// Build the kernel's own address space: identity mappings for the console,
/// block-device and interrupt-controller register windows, the kernel code
/// (read/execute) and the rest of physical RAM (read/write), the trampoline
/// page at its fixed high address, and one stack page per process slot. Any
/// failure here is fatal: the kernel cannot run without these mappings.
pub fn kvm_make(km: &mut Kmem, boot: &crate::proc::BootInfo) -> (r: Result<AddressSpace, Fatal>)
    requires
        old(km).wf(),
        old(km).limit() + 4096 <= u64::MAX,
        boot.text_end % 4096 == 0,
        boot.phy_stop % 4096 == 0,
        crate::mem_layout::KERN_BASE < boot.text_end,
        boot.text_end < boot.phy_stop,
        boot.phy_stop <= crate::mem_layout::TRAMPOLINE - 64 * 2 * 4096,
        boot.trampoline % 4096 == 0,
        boot.trampoline + 4096 <= u64::MAX,
    ensures
        final(km).wf(),
        final(km).base() == old(km).base(),
        final(km).limit() == old(km).limit(),
        forall|p: u64| #[trigger] final(km)@.contains(p) ==> old(km)@.contains(p),
        match r {
            Ok(a) => {
                &&& a.wf()
                &&& a.owns(*final(km))
                &&& (forall|p: u64| #[trigger] a.is_table_pa(p) ==> old(km)@.contains(p))
                &&& (forall|va2: u64|
                    crate::mem_layout::UART <= va2 < crate::mem_layout::UART + 4096
                        ==> #[trigger] a.spec_translate(va2) == Some(va2))
                &&& (forall|va2: u64|
                    crate::mem_layout::VIRTIO <= va2 < crate::mem_layout::VIRTIO + 4096
                        ==> #[trigger] a.spec_translate(va2) == Some(va2))
                &&& (forall|va2: u64|
                    crate::mem_layout::PLIC <= va2 < crate::mem_layout::PLIC + 0x40_0000
                        ==> #[trigger] a.spec_translate(va2) == Some(va2))
                &&& (forall|va2: u64|
                    crate::mem_layout::KERN_BASE <= va2 < boot.phy_stop ==> #[trigger] a.spec_translate(
                        va2,
                    ) == Some(va2))
                &&& (forall|va2: u64|
                    crate::mem_layout::TRAMPOLINE <= va2 < MAX_VA ==> #[trigger] a.spec_translate(
                        va2,
                    ) == Some((boot.trampoline + (va2 - crate::mem_layout::TRAMPOLINE)) as u64))
                &&& (forall|j: int|
                    0 <= j < 64 ==> a.mapped(#[trigger] crate::proc::kstack_va(j))
                        && crate::riscv::spec_pte_flags(a.leaf_pte(crate::proc::kstack_va(j)))
                        == ((crate::riscv::PTE_R | crate::riscv::PTE_W) | 1) && old(km)@.contains(
                        spec_pte_to_pa(a.leaf_pte(crate::proc::kstack_va(j))),
                    ))
                &&& (forall|j1: int, j2: int|
                    0 <= j1 < j2 < 64 ==> spec_pte_to_pa(
                        a.leaf_pte(#[trigger] crate::proc::kstack_va(j1)),
                    ) != spec_pte_to_pa(a.leaf_pte(#[trigger] crate::proc::kstack_va(j2))))
                // the device windows and RAM are mapped read/write, the kernel
                // code and the trampoline read/execute
                &&& (forall|va2: u64|
                    va2 < MAX_VA && crate::mem_layout::UART
                        <= #[trigger] crate::riscv::spec_page_round_down(va2)
                        < crate::mem_layout::UART + 4096 ==> a.leaf_pte(va2) == (spec_pa_to_pte(
                        crate::riscv::spec_page_round_down(va2),
                    ) | (crate::riscv::PTE_R | crate::riscv::PTE_W) | 1))
                &&& (forall|va2: u64|
                    va2 < MAX_VA && crate::mem_layout::VIRTIO
                        <= #[trigger] crate::riscv::spec_page_round_down(va2)
                        < crate::mem_layout::VIRTIO + 4096 ==> a.leaf_pte(va2) == (spec_pa_to_pte(
                        crate::riscv::spec_page_round_down(va2),
                    ) | (crate::riscv::PTE_R | crate::riscv::PTE_W) | 1))
                &&& (forall|va2: u64|
                    va2 < MAX_VA && crate::mem_layout::PLIC
                        <= #[trigger] crate::riscv::spec_page_round_down(va2)
                        < crate::mem_layout::PLIC + 0x40_0000 ==> a.leaf_pte(va2) == (
                    spec_pa_to_pte(crate::riscv::spec_page_round_down(va2)) | (crate::riscv::PTE_R | crate::riscv::PTE_W) | 1))
                &&& (forall|va2: u64|
                    va2 < MAX_VA && crate::mem_layout::KERN_BASE
                        <= #[trigger] crate::riscv::spec_page_round_down(va2) < boot.text_end
                        ==> a.leaf_pte(va2) == (spec_pa_to_pte(
                        crate::riscv::spec_page_round_down(va2),
                    ) | (crate::riscv::PTE_R | crate::riscv::PTE_X) | 1))
                &&& (forall|va2: u64|
                    va2 < MAX_VA && boot.text_end
                        <= #[trigger] crate::riscv::spec_page_round_down(va2) < boot.phy_stop
                        ==> a.leaf_pte(va2) == (spec_pa_to_pte(
                        crate::riscv::spec_page_round_down(va2),
                    ) | (crate::riscv::PTE_R | crate::riscv::PTE_W) | 1))
                &&& (forall|va2: u64|
                    va2 < MAX_VA && #[trigger] crate::riscv::spec_page_round_down(va2)
                        == crate::mem_layout::TRAMPOLINE ==> a.leaf_pte(va2) == (spec_pa_to_pte(
                        boot.trampoline,
                    ) | (crate::riscv::PTE_R | crate::riscv::PTE_X) | 1))
            },
            Err(e) => (e == Fatal::KvmMapFailed || e == Fatal::NoFrame) && final(km)@.len()
                == 0,
        },
        // the whole build takes at most two nodes per 2 MiB region of each
        // range, a fixed count for the small windows, and three frames per
        // process stack
        old(km)@.len() - final(km)@.len() <= 207 + 2 * ((crate::riscv::spec_page_round_down((boot.text_end - 1) as u64) >> 21) - (
            crate::mem_layout::KERN_BASE >> 21)) + 2 * ((crate::riscv::spec_page_round_down((boot.phy_stop - 1) as u64) >> 21) - (boot.text_end
            >> 21)),
        old(km)@.len() > 207 + 2 * ((crate::riscv::spec_page_round_down((boot.text_end - 1) as u64) >> 21) - (
            crate::mem_layout::KERN_BASE >> 21)) + 2 * ((crate::riscv::spec_page_round_down((boot.phy_stop - 1) as u64) >> 21) - (boot.text_end
            >> 21)) ==> r is Ok,
{
    proof {
        lemma_zero_invalid();
        assert(((crate::riscv::PTE_R | crate::riscv::PTE_W) & 0x3ffu64 == (crate::riscv::PTE_R
            | crate::riscv::PTE_W)) && ((crate::riscv::PTE_R | crate::riscv::PTE_W) & 1u64 == 0)
            && ((crate::riscv::PTE_R | crate::riscv::PTE_W) & 0xeu64 != 0)) by (bit_vector);
        assert(((crate::riscv::PTE_R | crate::riscv::PTE_X) & 0x3ffu64 == (crate::riscv::PTE_R
            | crate::riscv::PTE_X)) && ((crate::riscv::PTE_R | crate::riscv::PTE_X) & 1u64 == 0)
            && ((crate::riscv::PTE_R | crate::riscv::PTE_X) & 0xeu64 != 0)) by (bit_vector);
    }
    let ghost k0 = *old(km);
    proof {
        // page bases of the range ends, and the region counts they pin down
        crate::riscv::lemma_round_down(0x1000_0fff);
        crate::riscv::lemma_round_down(0x1000_1fff);
        crate::riscv::lemma_round_down(0x0c3f_ffff);
        crate::riscv::lemma_round_down((boot.text_end - 1) as u64);
        crate::riscv::lemma_round_down((boot.phy_stop - 1) as u64);
        crate::riscv::lemma_round_down((crate::mem_layout::TRAMPOLINE + 4095) as u64);
        assert(0x0c3f_f000u64 >> 21 == 97 && 0x0c00_0000u64 >> 21 == 96) by (bit_vector);
        crate::riscv::lemma_region_monotone(
            crate::mem_layout::KERN_BASE,
            (boot.text_end - 4096) as u64,
        );
        crate::riscv::lemma_region_monotone(boot.text_end, (boot.phy_stop - 4096) as u64);
    }
    let rw = PTE_R | crate::riscv::PTE_W;
    let rx = PTE_R | PTE_X;
    let mut a = match AddressSpace::new(km) {
        None => {
            return Err(Fatal::NoFrame);
        },
        Some(a) => a,
    };
    let ghost s0 = a;
    let ghost m0 = *km;
    // console registers
    match kvm_map(&mut a, km, crate::mem_layout::UART, crate::mem_layout::UART, 4096, rw) {
        Ok(()) => {},
        Err(e) => {
            proof {
                assert(km@.len() == 0);
            }
            return Err(e);
        },
    }
    let ghost s1 = a;
    let ghost m1 = *km;
    proof {
        assert forall|va2: u64| va2 < MAX_VA && #[trigger] s1.mapped(va2) implies (crate::mem_layout::UART <= crate::riscv::spec_page_round_down(va2) && crate::riscv::spec_page_round_down(va2) < crate::mem_layout::UART + 4096) by {
            let rd2 = crate::riscv::spec_page_round_down(va2);
            crate::riscv::lemma_round_down(va2);
            if !(crate::mem_layout::UART <= rd2 && rd2 < crate::mem_layout::UART + 4096) {
                assert(s1.leaf_pte(va2) == s0.leaf_pte(va2));
                assert(s0.mapped(va2));
            }
        }
    }

    // block-device registers
    match kvm_map(&mut a, km, crate::mem_layout::VIRTIO, crate::mem_layout::VIRTIO, 4096, rw) {
        Ok(()) => {},
        Err(e) => {
                proof {
                    if exists|p: u64|
                        p % 4096 == 0 && crate::mem_layout::VIRTIO <= p < crate::mem_layout::VIRTIO + 4096 && #[trigger] s1.mapped(p) {
                        let p = choose|p: u64|
                            p % 4096 == 0 && crate::mem_layout::VIRTIO <= p < crate::mem_layout::VIRTIO + 4096 && #[trigger] s1.mapped(p);
                        crate::riscv::lemma_round_down(p);
                        assert(false);
                    }
                    assert(km@.len() == 0);
                }
                return Err(e);
        },
    }
    let ghost s2 = a;
    let ghost m2 = *km;
    proof {
        assert forall|va2: u64| va2 < MAX_VA && #[trigger] s2.mapped(va2) implies (crate::mem_layout::UART <= crate::riscv::spec_page_round_down(va2) && crate::riscv::spec_page_round_down(va2) < crate::mem_layout::UART + 4096) || (crate::mem_layout::VIRTIO <= crate::riscv::spec_page_round_down(va2) && crate::riscv::spec_page_round_down(va2) < crate::mem_layout::VIRTIO + 4096) by {
            let rd2 = crate::riscv::spec_page_round_down(va2);
            crate::riscv::lemma_round_down(va2);
            if !(crate::mem_layout::VIRTIO <= rd2 && rd2 < crate::mem_layout::VIRTIO + 4096) {
                assert(s2.leaf_pte(va2) == s1.leaf_pte(va2));
                assert(s1.mapped(va2));
            }
        }
    }

    // interrupt-controller registers
    match kvm_map(
        &mut a,
        km,
        crate::mem_layout::PLIC,
        crate::mem_layout::PLIC,
        0x40_0000,
        rw,
    ) {
        Ok(()) => {},
        Err(e) => {
                proof {
                    if exists|p: u64|
                        p % 4096 == 0 && crate::mem_layout::PLIC <= p < crate::mem_layout::PLIC + 0x40_0000 && #[trigger] s2.mapped(p) {
                        let p = choose|p: u64|
                            p % 4096 == 0 && crate::mem_layout::PLIC <= p < crate::mem_layout::PLIC + 0x40_0000 && #[trigger] s2.mapped(p);
                        crate::riscv::lemma_round_down(p);
                        assert(false);
                    }
                    assert(km@.len() == 0);
                }
                return Err(e);
        },
    }
    let ghost s3 = a;
    let ghost m3 = *km;
    proof {
        assert forall|va2: u64| va2 < MAX_VA && #[trigger] s3.mapped(va2) implies (crate::mem_layout::UART <= crate::riscv::spec_page_round_down(va2) && crate::riscv::spec_page_round_down(va2) < crate::mem_layout::UART + 4096) || (crate::mem_layout::VIRTIO <= crate::riscv::spec_page_round_down(va2) && crate::riscv::spec_page_round_down(va2) < crate::mem_layout::VIRTIO + 4096) || (crate::mem_layout::PLIC <= crate::riscv::spec_page_round_down(va2) && crate::riscv::spec_page_round_down(va2) < crate::mem_layout::PLIC + 0x40_0000) by {
            let rd2 = crate::riscv::spec_page_round_down(va2);
            crate::riscv::lemma_round_down(va2);
            if !(crate::mem_layout::PLIC <= rd2 && rd2 < crate::mem_layout::PLIC + 0x40_0000) {
                assert(s3.leaf_pte(va2) == s2.leaf_pte(va2));
                assert(s2.mapped(va2));
            }
        }
    }

    // kernel code, read-only and executable
    match kvm_map(
        &mut a,
        km,
        crate::mem_layout::KERN_BASE,
        crate::mem_layout::KERN_BASE,
        boot.text_end - crate::mem_layout::KERN_BASE,
        rx,
    ) {
        Ok(()) => {},
        Err(e) => {
                proof {
                    if exists|p: u64|
                        p % 4096 == 0 && crate::mem_layout::KERN_BASE <= p < boot.text_end && #[trigger] s3.mapped(p) {
                        let p = choose|p: u64|
                            p % 4096 == 0 && crate::mem_layout::KERN_BASE <= p < boot.text_end && #[trigger] s3.mapped(p);
                        crate::riscv::lemma_round_down(p);
                        assert(false);
                    }
                    assert(km@.len() == 0);
                }
                return Err(e);
        },
    }
    let ghost s4 = a;
    let ghost m4 = *km;
    proof {
        assert forall|va2: u64| va2 < MAX_VA && #[trigger] s4.mapped(va2) implies (crate::mem_layout::UART <= crate::riscv::spec_page_round_down(va2) && crate::riscv::spec_page_round_down(va2) < crate::mem_layout::UART + 4096) || (crate::mem_layout::VIRTIO <= crate::riscv::spec_page_round_down(va2) && crate::riscv::spec_page_round_down(va2) < crate::mem_layout::VIRTIO + 4096) || (crate::mem_layout::PLIC <= crate::riscv::spec_page_round_down(va2) && crate::riscv::spec_page_round_down(va2) < crate::mem_layout::PLIC + 0x40_0000) || (crate::mem_layout::KERN_BASE <= crate::riscv::spec_page_round_down(va2) && crate::riscv::spec_page_round_down(va2) < boot.text_end) by {
            let rd2 = crate::riscv::spec_page_round_down(va2);
            crate::riscv::lemma_round_down(va2);
            if !(crate::mem_layout::KERN_BASE <= rd2 && rd2 < boot.text_end) {
                assert(s4.leaf_pte(va2) == s3.leaf_pte(va2));
                assert(s3.mapped(va2));
            }
        }
    }

    // kernel data and the rest of physical RAM
    match kvm_map(&mut a, km, boot.text_end, boot.text_end, boot.phy_stop - boot.text_end, rw) {
        Ok(()) => {},
        Err(e) => {
                proof {
                    if exists|p: u64|
                        p % 4096 == 0 && boot.text_end <= p < boot.phy_stop && #[trigger] s4.mapped(p) {
                        let p = choose|p: u64|
                            p % 4096 == 0 && boot.text_end <= p < boot.phy_stop && #[trigger] s4.mapped(p);
                        crate::riscv::lemma_round_down(p);
                        assert(false);
                    }
                    assert(km@.len() == 0);
                }
                return Err(e);
        },
    }
    let ghost s5 = a;
    let ghost m5 = *km;
    proof {
        assert forall|va2: u64| va2 < MAX_VA && #[trigger] s5.mapped(va2) implies (crate::mem_layout::UART <= crate::riscv::spec_page_round_down(va2) && crate::riscv::spec_page_round_down(va2) < crate::mem_layout::UART + 4096) || (crate::mem_layout::VIRTIO <= crate::riscv::spec_page_round_down(va2) && crate::riscv::spec_page_round_down(va2) < crate::mem_layout::VIRTIO + 4096) || (crate::mem_layout::PLIC <= crate::riscv::spec_page_round_down(va2) && crate::riscv::spec_page_round_down(va2) < crate::mem_layout::PLIC + 0x40_0000) || (crate::mem_layout::KERN_BASE <= crate::riscv::spec_page_round_down(va2) && crate::riscv::spec_page_round_down(va2) < boot.text_end) || (boot.text_end <= crate::riscv::spec_page_round_down(va2) && crate::riscv::spec_page_round_down(va2) < boot.phy_stop) by {
            let rd2 = crate::riscv::spec_page_round_down(va2);
            crate::riscv::lemma_round_down(va2);
            if !(boot.text_end <= rd2 && rd2 < boot.phy_stop) {
                assert(s5.leaf_pte(va2) == s4.leaf_pte(va2));
                assert(s4.mapped(va2));
            }
        }
    }

    // the trampoline page at its fixed high address
    match kvm_map(
        &mut a,
        km,
        crate::mem_layout::TRAMPOLINE,
        boot.trampoline,
        4096,
        rx,
    ) {
        Ok(()) => {},
        Err(e) => {
                proof {
                    if exists|p: u64|
                        p % 4096 == 0 && crate::mem_layout::TRAMPOLINE <= p < MAX_VA && #[trigger] s5.mapped(p) {
                        let p = choose|p: u64|
                            p % 4096 == 0 && crate::mem_layout::TRAMPOLINE <= p < MAX_VA && #[trigger] s5.mapped(p);
                        crate::riscv::lemma_round_down(p);
                        assert(false);
                    }
                    assert(km@.len() == 0);
                }
                return Err(e);
        },
    }
    let ghost s6 = a;
    let ghost m6 = *km;
    proof {
        assert forall|va2: u64| va2 < MAX_VA && #[trigger] s6.mapped(va2) implies (crate::mem_layout::UART <= crate::riscv::spec_page_round_down(va2) && crate::riscv::spec_page_round_down(va2) < crate::mem_layout::UART + 4096) || (crate::mem_layout::VIRTIO <= crate::riscv::spec_page_round_down(va2) && crate::riscv::spec_page_round_down(va2) < crate::mem_layout::VIRTIO + 4096) || (crate::mem_layout::PLIC <= crate::riscv::spec_page_round_down(va2) && crate::riscv::spec_page_round_down(va2) < crate::mem_layout::PLIC + 0x40_0000) || (crate::mem_layout::KERN_BASE <= crate::riscv::spec_page_round_down(va2) && crate::riscv::spec_page_round_down(va2) < boot.text_end) || (boot.text_end <= crate::riscv::spec_page_round_down(va2) && crate::riscv::spec_page_round_down(va2) < boot.phy_stop) || (crate::mem_layout::TRAMPOLINE <= crate::riscv::spec_page_round_down(va2) && crate::riscv::spec_page_round_down(va2) < MAX_VA) by {
            let rd2 = crate::riscv::spec_page_round_down(va2);
            crate::riscv::lemma_round_down(va2);
            if !(crate::mem_layout::TRAMPOLINE <= rd2 && rd2 < MAX_VA) {
                assert(s6.leaf_pte(va2) == s5.leaf_pte(va2));
                assert(s5.mapped(va2));
            }
        }
    }

    // one kernel stack per process slot: the region below the trampoline is
    // still untouched
    proof {
        assert forall|va2: u64|
            va2 < MAX_VA && crate::mem_layout::TRAMPOLINE - 64 * 2 * 4096
                <= crate::riscv::spec_page_round_down(va2)
                < crate::mem_layout::TRAMPOLINE implies !(#[trigger] s6.mapped(va2)) by {
            crate::riscv::lemma_round_down(va2);
        }
    }
    match crate::proc::proc_map_stacks(&mut a, km) {
        Ok(()) => {},
        Err(e) => {
            return Err(e);
        },
    }
    proof {
        let sf = a;
        // pool membership and node frames chain back to the start
        assert forall|p: u64| #[trigger] km@.contains(p) implies k0@.contains(p) by {
            assert(m6@.contains(p));
            assert(m5@.contains(p));
            assert(m4@.contains(p));
            assert(m3@.contains(p));
            assert(m2@.contains(p));
            assert(m1@.contains(p));
            assert(m0@.contains(p));
            crate::kalloc::lemma_alloc_next_contains(k0@, p);
        }
        assert forall|p: u64| #[trigger] sf.is_table_pa(p) implies k0@.contains(p) by {
            if !s6.is_table_pa(p) {
                assert(m6@.contains(p));
            } else if !s5.is_table_pa(p) {
                assert(m5@.contains(p));
            } else if !s4.is_table_pa(p) {
                assert(m4@.contains(p));
            } else if !s3.is_table_pa(p) {
                assert(m3@.contains(p));
            } else if !s2.is_table_pa(p) {
                assert(m2@.contains(p));
            } else if !s1.is_table_pa(p) {
                assert(m1@.contains(p));
            } else if !s0.is_table_pa(p) {
                assert(m0@.contains(p));
            } else {
                assert(p == s0.root.pa);
                assert(k0@[k0@.len() - 1] == p);
            }
            if m6@.contains(p) || m5@.contains(p) || m4@.contains(p) || m3@.contains(p)
                || m2@.contains(p) || m1@.contains(p) || m0@.contains(p) {
                assert(m0@.contains(p)) by {
                    if !m0@.contains(p) {
                        assert(false);
                    }
                }
                crate::kalloc::lemma_alloc_next_contains(k0@, p);
            }
        }
        // each earlier range keeps its entries through every later call
        assert forall|va2: u64|
            va2 < MAX_VA && crate::mem_layout::UART
                <= #[trigger] crate::riscv::spec_page_round_down(va2) < crate::mem_layout::UART
                + 4096 implies sf.leaf_pte(va2) == s1.leaf_pte(va2) by {
            crate::riscv::lemma_round_down(va2);
        }
        assert forall|va2: u64|
            va2 < MAX_VA && crate::mem_layout::VIRTIO
                <= #[trigger] crate::riscv::spec_page_round_down(va2) < crate::mem_layout::VIRTIO
                + 4096 implies sf.leaf_pte(va2) == s2.leaf_pte(va2) by {
            crate::riscv::lemma_round_down(va2);
        }
        assert forall|va2: u64|
            va2 < MAX_VA && crate::mem_layout::PLIC
                <= #[trigger] crate::riscv::spec_page_round_down(va2) < crate::mem_layout::PLIC
                + 0x40_0000 implies sf.leaf_pte(va2) == s3.leaf_pte(va2) by {
            crate::riscv::lemma_round_down(va2);
        }
        assert forall|va2: u64|
            va2 < MAX_VA && crate::mem_layout::KERN_BASE
                <= #[trigger] crate::riscv::spec_page_round_down(va2) < boot.text_end implies
            sf.leaf_pte(va2) == s4.leaf_pte(va2) by {
            crate::riscv::lemma_round_down(va2);
        }
        assert forall|va2: u64|
            va2 < MAX_VA && boot.text_end <= #[trigger] crate::riscv::spec_page_round_down(va2)
                < boot.phy_stop implies sf.leaf_pte(va2) == s5.leaf_pte(va2) by {
            crate::riscv::lemma_round_down(va2);
        }
        assert forall|va2: u64|
            va2 < MAX_VA && crate::mem_layout::TRAMPOLINE
                <= #[trigger] crate::riscv::spec_page_round_down(va2) < MAX_VA implies sf.leaf_pte(
            va2,
        ) == s6.leaf_pte(va2) by {
            crate::riscv::lemma_round_down(va2);
        }
        // and therefore translates as installed
        assert forall|va2: u64|
            crate::mem_layout::UART <= va2 < crate::mem_layout::UART + 4096 implies
            #[trigger] sf.spec_translate(va2) == Some(va2) by {
            crate::riscv::lemma_round_down(va2);
            lemma_map_then_translate(
                sf,
                crate::mem_layout::UART,
                4096,
                crate::mem_layout::UART,
                (PTE_R | crate::riscv::PTE_W) as u64,
                va2,
            );
        }
        assert forall|va2: u64|
            crate::mem_layout::VIRTIO <= va2 < crate::mem_layout::VIRTIO + 4096 implies
            #[trigger] sf.spec_translate(va2) == Some(va2) by {
            crate::riscv::lemma_round_down(va2);
            lemma_map_then_translate(
                sf,
                crate::mem_layout::VIRTIO,
                4096,
                crate::mem_layout::VIRTIO,
                (PTE_R | crate::riscv::PTE_W) as u64,
                va2,
            );
        }
        assert forall|va2: u64|
            crate::mem_layout::PLIC <= va2 < crate::mem_layout::PLIC + 0x40_0000 implies
            #[trigger] sf.spec_translate(va2) == Some(va2) by {
            crate::riscv::lemma_round_down(va2);
            lemma_map_then_translate(
                sf,
                crate::mem_layout::PLIC,
                0x40_0000,
                crate::mem_layout::PLIC,
                (PTE_R | crate::riscv::PTE_W) as u64,
                va2,
            );
        }
        assert forall|va2: u64|
            crate::mem_layout::KERN_BASE <= va2 < boot.phy_stop implies
            #[trigger] sf.spec_translate(va2) == Some(va2) by {
            crate::riscv::lemma_round_down(va2);
            if va2 < boot.text_end {
                lemma_map_then_translate(
                    sf,
                    crate::mem_layout::KERN_BASE,
                    (boot.text_end - crate::mem_layout::KERN_BASE) as u64,
                    crate::mem_layout::KERN_BASE,
                    (PTE_R | PTE_X) as u64,
                    va2,
                );
            } else {
                if crate::riscv::spec_page_round_down(va2) < boot.text_end {
                    crate::riscv::lemma_aligned_gap(
                        boot.text_end,
                        crate::riscv::spec_page_round_down(va2),
                    );
                }
                lemma_map_then_translate(
                    sf,
                    boot.text_end,
                    (boot.phy_stop - boot.text_end) as u64,
                    boot.text_end,
                    (PTE_R | crate::riscv::PTE_W) as u64,
                    va2,
                );
            }
        }
        assert forall|va2: u64|
            crate::mem_layout::TRAMPOLINE <= va2 < MAX_VA implies #[trigger] sf.spec_translate(va2)
            == Some((boot.trampoline + (va2 - crate::mem_layout::TRAMPOLINE)) as u64) by {
            crate::riscv::lemma_round_down(va2);
            lemma_map_then_translate(
                sf,
                crate::mem_layout::TRAMPOLINE,
                4096,
                boot.trampoline,
                (PTE_R | PTE_X) as u64,
                va2,
            );
        }
    }
    Ok(a)
}

/// Look up the leaf entry for `va` without creating anything; the walk
/// descends the two internal levels through the handle arenas.
pub fn walk(aspace: &AddressSpace, va: u64) -> (r: Option<u64>)
    requires
        aspace.wf(),
        va < MAX_VA,
    ensures
        r == Some(aspace.leaf_pte(va)) <==> aspace.path_present(va),
        r is None <==> !aspace.path_present(va),
{
    proof {
        lemma_vpn_bounds(va);
    }
    let i2 = vpn(2, va) as usize;
    let e2 = aspace.root.entries[i2];
    proof {
        assert(e2 == aspace.l1_entry(va));
    }
    if e2 & PTE_V == 0 {
        return None;
    }
    // reading the length pins the arena size as a machine word, so the
    // handle below provably fits a usize
    let _nmids = aspace.mids.len();
    let m = (e2 >> 10) as usize;
    proof {
        assert(internal_ok(e2, aspace.mids@.len() as int));
        assert(m as int == pte_handle(e2));
    }
    let i1 = vpn(1, va) as usize;
    let e1 = aspace.mids[m].entries[i1];
    proof {
        assert(e1 == aspace.l0_entry(va));
    }
    if e1 & PTE_V == 0 {
        return None;
    }
    let _nleaves = aspace.leaves.len();
    let l = (e1 >> 10) as usize;
    proof {
        assert(internal_ok(e1, aspace.leaves@.len() as int));
        assert(l as int == pte_handle(e1));
    }
    let i0 = vpn(0, va) as usize;
    let e0 = aspace.leaves[l].entries[i0];
    proof {
        assert(e0 == aspace.leaf_pte(va));
    }
    Some(e0)
}

/// Translate `va` through the tables: the mapped physical address plus the
/// page offset, or none when no valid leaf covers it.
pub fn translate(aspace: &AddressSpace, va: u64) -> (r: Option<u64>)
    requires
        aspace.wf(),
        va < MAX_VA,
    ensures
        r == aspace.spec_translate(va),
{
    proof {
        lemma_zero_invalid();
    }
    match walk(aspace, va) {
        None => None,
        Some(pte) => {
            if pte & PTE_V == 0 {
                None
            } else {
                Some(pte_to_pa(pte) | (va & 0xfff))
            }
        },
    }
}

/// Translate `va` to the base of its physical page, with zero standing for
/// "not mapped" (or for an address beyond the largest representable one).
pub fn walk_addr(aspace: &AddressSpace, va: u64) -> (r: u64)
    requires
        aspace.wf(),
    ensures
        va < MAX_VA && aspace.mapped(va) ==> r == spec_pte_to_pa(aspace.leaf_pte(va)),
        !(va < MAX_VA && aspace.mapped(va)) ==> r == 0,
{
    proof {
        lemma_zero_invalid();
    }
    if va >= MAX_VA {
        return 0;
    }
    match walk(aspace, va) {
        None => 0,
        Some(pte) => {
            if pte & PTE_V == 0 {
                0
            } else {
                pte_to_pa(pte)
            }
        },
    }
}

} // verus!
