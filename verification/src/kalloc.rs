//! Physical page-frame allocator: a statically bounded range of page frames,
//! held as a pool of frame addresses. `kalloc` pops the most recently freed
//! frame; `kfree` returns a frame to the pool. A frame has exactly one owner
//! at a time: the pool, or whoever `kalloc` handed it to; handing a frame back
//! while the pool already holds it is the one misuse the model rules out by
//! precondition rather than by a runtime diagnostic.
use vstd::prelude::*;

use crate::errors::Fatal;
use crate::riscv::PAGE_SIZE;

verus! {

/// The free pool together with the boundaries of the managed range.
pub struct Kmem {
    base: u64,
    limit: u64,
    free: Vec<u64>,
}

/// What `kalloc` returns from a given pool.
pub open spec fn alloc_result(free: Seq<u64>) -> Option<u64> {
    if free.len() == 0 {
        None
    } else {
        Some(free.last())
    }
}

/// The pool after one `kalloc`.
pub open spec fn alloc_next(free: Seq<u64>) -> Seq<u64> {
    if free.len() == 0 {
        free
    } else {
        free.drop_last()
    }
}

impl Kmem {
    /// The pool of free frames, most recently freed last.
    pub closed spec fn view(&self) -> Seq<u64> {
        self.free@
    }

    pub closed spec fn base(&self) -> u64 {
        self.base
    }

    pub closed spec fn limit(&self) -> u64 {
        self.limit
    }

    /// `pa` is a frame address the managed range could contain.
    pub open spec fn in_range(&self, pa: u64) -> bool {
        &&& pa % 4096 == 0
        &&& self.base() <= pa < self.limit()
    }

    /// Every pooled frame is a distinct, aligned address of the managed range.
    pub closed spec fn wf(&self) -> bool {
        &&& self.base % 4096 == 0
        &&& forall|i: int| 0 <= i < self.free@.len() ==> self.in_range(#[trigger] self.free@[i])
        &&& self.free@.no_duplicates()
    }

    /// A frame address outside the managed range (or unaligned) is never in
    /// the pool, so a caller holding an arbitrary address can discharge
    /// `kfree`'s ownership premise and reach the bad-free diagnostic.
    pub proof fn lemma_out_of_range_not_pooled(&self, pa: u64)
        requires
            self.wf(),
            !self.in_range(pa),
        ensures
            !self@.contains(pa),
    {
        if self@.contains(pa) {
            let i = choose|i: int| 0 <= i < self@.len() && self@[i] == pa;
            assert(self.in_range(self@[i]));
        }
    }

    /// Number of frames currently in the pool.
    pub fn free_count(&self) -> (r: usize)
        ensures
            r == self@.len(),
    {
        self.free.len()
    }

    /// Build the allocator over `[heap_start, phy_stop)`: every whole page
    /// frame above the rounded-up start goes into the pool, in ascending
    /// order.
    pub fn km_init(heap_start: u64, phy_stop: u64) -> (r: Kmem)
        requires
            heap_start + 4095 <= u64::MAX,
        ensures
            r.wf(),
            r.base() == crate::riscv::spec_page_round_up(heap_start),
            r.limit() == phy_stop,
            forall|i: int| 0 <= i < r@.len() ==> #[trigger] r@[i] == r.base() + 4096 * i,
            r.base() + 4096 * r@.len() <= phy_stop || r@.len() == 0,
            phy_stop < r.base() + 4096 * r@.len() + 4096,
    {
        let base = page_round_up_checked(heap_start);
        let mut free: Vec<u64> = Vec::new();
        let mut p = base;
        proof {
            crate::riscv::lemma_round_up(heap_start);
        }
        if phy_stop >= PAGE_SIZE {
            while p <= phy_stop - PAGE_SIZE
                invariant
                    phy_stop >= PAGE_SIZE,
                    base % 4096 == 0,
                    p % 4096 == 0,
                    base <= p,
                    p == base + 4096 * free@.len(),
                    forall|i: int| 0 <= i < free@.len() ==> #[trigger] free@[i] == base + 4096 * i,
                    forall|i: int|
                        0 <= i < free@.len() ==> (#[trigger] free@[i]) % 4096 == 0
                            && base <= free@[i] && free@[i] + 4096 <= phy_stop,
                    free@.no_duplicates(),
                decreases phy_stop - p,
            {
                free.push(p);
                proof {
                    crate::riscv::lemma_aligned_add(p, 4096);
                }
                p = p + PAGE_SIZE;
            }
        }
        proof {
            if free@.len() > 0 {
                assert(free@[free@.len() - 1] + 4096 <= phy_stop);
            }
        }
        Kmem { base, limit: phy_stop, free }
    }

    /// Pop a frame from the pool; `None` on exhaustion. The returned frame is
    /// no longer in the pool: it has exactly one owner, the caller.
    pub fn kalloc(&mut self) -> (r: Option<u64>)
        requires
            old(self).wf(),
        ensures
            final(self).wf(),
            final(self).base() == old(self).base(),
            final(self).limit() == old(self).limit(),
            r == alloc_result(old(self)@),
            final(self)@ == alloc_next(old(self)@),
            r matches Some(f) ==> old(self).in_range(f) && !final(self)@.contains(f),
    {
        let r = self.free.pop();
        proof {
            if old(self)@.len() > 0 {
                assert(self@ == old(self)@.drop_last());
                assert forall|i: int| 0 <= i < self@.len() implies self.in_range(
                    #[trigger] self@[i],
                ) by {
                    assert(self@[i] == old(self)@[i]);
                }
                if self@.contains(old(self)@.last()) {
                    let i = choose|i: int|
                        0 <= i < self@.len() && self@[i] == old(self)@.last();
                    assert(old(self)@[i] == old(self)@[old(self)@.len() - 1]);
                    assert(false);
                }
            }
        }
        r
    }

    /// Push a frame back onto the pool. Fails fatally when the frame is not
    /// page aligned or lies outside the managed range — programming-error
    /// detection, not a user-facing condition. The caller must own the frame:
    /// a frame the pool already holds may not be freed again.
    pub fn kfree(&mut self, pa: u64) -> (r: Result<(), Fatal>)
        requires
            old(self).wf(),
            !old(self)@.contains(pa),
        ensures
            final(self).wf(),
            final(self).base() == old(self).base(),
            final(self).limit() == old(self).limit(),
            r == Ok::<(), Fatal>(()) <==> old(self).in_range(pa),
            r matches Ok(_) ==> final(self)@ == old(self)@.push(pa),
            r matches Err(e) ==> final(self)@ == old(self)@ && e == Fatal::BadFree,
    {
        if pa % PAGE_SIZE != 0 || pa < self.base || pa >= self.limit {
            return Err(Fatal::BadFree);
        }
        self.free.push(pa);
        proof {
            assert forall|i: int| 0 <= i < self@.len() implies self.in_range(
                #[trigger] self@[i],
            ) by {
                if i < old(self)@.len() {
                    assert(self@[i] == old(self)@[i]);
                }
            }
        }
        Ok(())
    }
}

/// `page_round_up` behind an explicit overflow guard for the initializer.
fn page_round_up_checked(a: u64) -> (r: u64)
    requires
        a + 4095 <= u64::MAX,
    ensures
        r == crate::riscv::spec_page_round_up(a),
        r % 4096 == 0,
        a <= r,
{
    proof {
        crate::riscv::lemma_round_up(a);
    }
    crate::riscv::page_round_up(a)
}

/// One request made of the allocator, for stating laws about whole call
/// sequences.
pub enum AllocOp {
    /// A `kalloc` call.
    Allocate,
    /// A `kfree` of the named frame.
    Free(u64),
}

/// A request is legal in a state where frees hand back only frames that are
/// currently held (allocated and not yet freed).
pub open spec fn op_ok(held: Set<u64>, op: AllocOp) -> bool {
    match op {
        AllocOp::Allocate => true,
        AllocOp::Free(f) => held.contains(f),
    }
}

/// The pool after one request.
pub open spec fn step_free(free: Seq<u64>, op: AllocOp) -> Seq<u64> {
    match op {
        AllocOp::Allocate => alloc_next(free),
        AllocOp::Free(f) => free.push(f),
    }
}

/// The held set after one request.
pub open spec fn step_held(free: Seq<u64>, held: Set<u64>, op: AllocOp) -> Set<u64> {
    match op {
        AllocOp::Allocate => if free.len() == 0 {
            held
        } else {
            held.insert(free.last())
        },
        AllocOp::Free(f) => held.remove(f),
    }
}

/// The allocator invariant: the pool holds no duplicates and no frame that is
/// currently held by a caller.
pub open spec fn pool_inv(free: Seq<u64>, held: Set<u64>) -> bool {
    &&& free.no_duplicates()
    &&& forall|i: int| 0 <= i < free.len() ==> !held.contains(#[trigger] free[i])
}

/// One legal request preserves the allocator invariant.
pub proof fn lemma_step_preserves_inv(free: Seq<u64>, held: Set<u64>, op: AllocOp)
    requires
        pool_inv(free, held),
        op_ok(held, op),
    ensures
        pool_inv(step_free(free, op), step_held(free, held, op)),
{
    match op {
        AllocOp::Allocate => {
            if free.len() > 0 {
                let f1 = free.drop_last();
                assert forall|i: int| 0 <= i < f1.len() implies !step_held(
                    free,
                    held,
                    op,
                ).contains(#[trigger] f1[i]) by {
                    assert(f1[i] == free[i]);
                    assert(free[i] != free[free.len() - 1]);
                }
            }
        },
        AllocOp::Free(f) => {
            let f1 = free.push(f);
            if f1.contains(f) {
            }
            assert forall|i: int| 0 <= i < f1.len() implies !step_held(free, held, op).contains(
                #[trigger] f1[i],
            ) by {
                if i < free.len() {
                    assert(f1[i] == free[i]);
                }
            }
            assert(f1.no_duplicates()) by {
                assert forall|i: int, j: int|
                    0 <= i < f1.len() && 0 <= j < f1.len() && i != j implies f1[i] != f1[j] by {
                    if i < free.len() && j < free.len() {
                    } else if i < free.len() {
                        assert(!held.contains(free[i]));
                    } else if j < free.len() {
                        assert(!held.contains(free[j]));
                    }
                }
            }
        },
    }
}

/// Run a whole sequence of requests against the pool.
pub open spec fn run_free(free: Seq<u64>, ops: Seq<AllocOp>) -> Seq<u64>
    decreases ops.len(),
{
    if ops.len() == 0 {
        free
    } else {
        run_free(step_free(free, ops[0]), ops.subrange(1, ops.len() as int))
    }
}

/// Run a whole sequence of requests against the held set.
pub open spec fn run_held(free: Seq<u64>, held: Set<u64>, ops: Seq<AllocOp>) -> Set<u64>
    decreases ops.len(),
{
    if ops.len() == 0 {
        held
    } else {
        run_held(
            step_free(free, ops[0]),
            step_held(free, held, ops[0]),
            ops.subrange(1, ops.len() as int),
        )
    }
}

/// Every request in the sequence is legal in the state it runs in.
pub open spec fn ops_ok(free: Seq<u64>, held: Set<u64>, ops: Seq<AllocOp>) -> bool
    decreases ops.len(),
{
    if ops.len() == 0 {
        true
    } else {
        op_ok(held, ops[0]) && ops_ok(
            step_free(free, ops[0]),
            step_held(free, held, ops[0]),
            ops.subrange(1, ops.len() as int),
        )
    }
}

/// For any sequence of allocate/free requests that frees only held frames,
/// the allocator never hands out a frame that is still held: no frame is
/// double-allocated, however the calls interleave.
pub proof fn lemma_no_double_allocation(free: Seq<u64>, held: Set<u64>, ops: Seq<AllocOp>)
    requires
        pool_inv(free, held),
        ops_ok(free, held, ops),
    ensures
        pool_inv(run_free(free, ops), run_held(free, held, ops)),
        alloc_result(run_free(free, ops)) matches Some(f) ==> !run_held(
            free,
            held,
            ops,
        ).contains(f),
    decreases ops.len(),
{
    if ops.len() > 0 {
        lemma_step_preserves_inv(free, held, ops[0]);
        lemma_no_double_allocation(
            step_free(free, ops[0]),
            step_held(free, held, ops[0]),
            ops.subrange(1, ops.len() as int),
        );
    } else {
        let f2 = run_free(free, ops);
        if f2.len() > 0 {
            assert(!held.contains(f2[f2.len() - 1]));
        }
    }
}

/// A frame in the pool after a `kalloc` was in the pool before it.
pub proof fn lemma_alloc_next_contains(s: Seq<u64>, p: u64)
    requires
        alloc_next(s).contains(p),
    ensures
        s.contains(p),
{
    let i = choose|i: int| 0 <= i < alloc_next(s).len() && alloc_next(s)[i] == p;
    assert(s[i] == p);
}

/// A freed frame becomes allocatable again: directly after `kfree(f)` the
/// next `kalloc` returns exactly `f`.
pub proof fn lemma_freed_frame_allocatable(free: Seq<u64>, f: u64)
    ensures
        alloc_result(step_free(free, AllocOp::Free(f))) == Some(f),
{
    assert(free.push(f).last() == f);
}

} // verus!
