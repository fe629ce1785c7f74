//! Byte-buffer primitives of the kernel: fill, copy, and compare. On bare
//! metal these run over raw memory; here source and destination are distinct
//! borrows, so the overlap that a raw copy must reject cannot arise.
use vstd::pervasive::VecAdditionalExecFns;
use vstd::prelude::*;

verus! {

/// Fill the first `n` bytes of `dst` with the low byte of `c`.
pub fn mem_set(dst: &mut Vec<u8>, c: i32, n: u64) -> (r: u64)
    requires
        n <= old(dst)@.len(),
    ensures
        final(dst)@.len() == old(dst)@.len(),
        forall|i: int| 0 <= i < n ==> final(dst)@[i] == c as u8,
        forall|i: int| n <= i < old(dst)@.len() ==> final(dst)@[i] == old(dst)@[i],
        r == n,
{
    let b = c as u8;
    let mut i: u64 = 0;
    while i < n
        invariant
            n <= dst@.len(),
            dst@.len() == old(dst)@.len(),
            i <= n,
            b == c as u8,
            forall|j: int| 0 <= j < i ==> dst@[j] == b,
            forall|j: int| i <= j < old(dst)@.len() ==> dst@[j] == old(dst)@[j],
        decreases n - i,
    {
        dst.set(i as usize, b);
        i = i + 1;
    }
    n
}

/// Copy the first `size` bytes of `src` over the front of `dst`.
pub fn mem_copy(dst: &mut Vec<u8>, src: &Vec<u8>, size: u64)
    requires
        size <= old(dst)@.len(),
        size <= src@.len(),
    ensures
        final(dst)@.len() == old(dst)@.len(),
        forall|i: int| 0 <= i < size ==> final(dst)@[i] == src@[i],
        forall|i: int| size <= i < old(dst)@.len() ==> final(dst)@[i] == old(dst)@[i],
{
    let mut i: u64 = 0;
    while i < size
        invariant
            size <= dst@.len(),
            size <= src@.len(),
            dst@.len() == old(dst)@.len(),
            i <= size,
            forall|j: int| 0 <= j < i ==> dst@[j] == src@[j],
            forall|j: int| i <= j < old(dst)@.len() ==> dst@[j] == old(dst)@[j],
        decreases size - i,
    {
        let b = src[i as usize];
        dst.set(i as usize, b);
        i = i + 1;
    }
}

/// Compare the first `size` bytes: zero when they agree, otherwise the byte
/// of `s1` at the first position where they differ.
pub fn str_cmp(s1: &Vec<u8>, s2: &Vec<u8>, size: u32) -> (r: u8)
    requires
        size <= s1@.len(),
        size <= s2@.len(),
    ensures
        (forall|i: int| 0 <= i < size ==> s1@[i] == s2@[i]) ==> r == 0,
        (exists|i: int| 0 <= i < size && s1@[i] != s2@[i]) ==> (exists|j: int|
            0 <= j < size && s1@[j] != s2@[j] && r == s1@[j] && (forall|i: int|
                0 <= i < j ==> s1@[i] == s2@[i])),
{
    let mut i: u32 = 0;
    while i < size
        invariant
            size <= s1@.len(),
            size <= s2@.len(),
            i <= size,
            forall|j: int| 0 <= j < i ==> s1@[j] == s2@[j],
        decreases size - i,
    {
        if s1[i as usize] != s2[i as usize] {
            return s1[i as usize];
        }
        i = i + 1;
    }
    0
}

} // verus!
