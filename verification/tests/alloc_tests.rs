use rvkern::errors::Fatal;
use rvkern::kalloc::Kmem;

const BASE: u64 = 0x8000_0000;

fn small_pool(frames: u64) -> Kmem {
    Kmem::km_init(BASE, BASE + frames * 4096)
}

#[test]
fn init_counts_whole_frames() {
    let km = small_pool(8);
    assert_eq!(km.free_count(), 8);
    // a range shorter than one page holds no frame
    let km2 = Kmem::km_init(BASE, BASE + 100);
    assert_eq!(km2.free_count(), 0);
    // an unaligned start is rounded up before counting
    let km3 = Kmem::km_init(BASE + 1, BASE + 2 * 4096);
    assert_eq!(km3.free_count(), 1);
}

#[test]
fn kalloc_pops_most_recently_freed() {
    let mut km = small_pool(4);
    let a = km.kalloc().unwrap();
    let b = km.kalloc().unwrap();
    // no double allocation: two live frames are distinct
    assert_ne!(a, b);
    assert_eq!(a, BASE + 3 * 4096);
    assert_eq!(b, BASE + 2 * 4096);
    // a freed frame becomes allocatable again, and is the next one out
    assert_eq!(km.kfree(a), Ok(()));
    assert_eq!(km.kalloc(), Some(a));
}

#[test]
fn kalloc_exhaustion_returns_none() {
    let mut km = small_pool(2);
    assert!(km.kalloc().is_some());
    assert!(km.kalloc().is_some());
    assert_eq!(km.kalloc(), None);
    assert_eq!(km.free_count(), 0);
}

#[test]
fn kfree_rejects_bad_frames() {
    let mut km = small_pool(2);
    let a = km.kalloc().unwrap();
    // not page aligned
    assert_eq!(km.kfree(a + 1), Err(Fatal::BadFree));
    // below the managed range
    assert_eq!(km.kfree(BASE - 4096), Err(Fatal::BadFree));
    // past the managed range
    assert_eq!(km.kfree(BASE + 100 * 4096), Err(Fatal::BadFree));
    // the frame itself is fine
    assert_eq!(km.kfree(a), Ok(()));
}

#[test]
fn alloc_free_cycles_never_duplicate() {
    // a longer interleaving: every allocated frame is distinct from every
    // other currently held frame
    let mut km = small_pool(6);
    let mut held = Vec::new();
    for _ in 0..6 {
        held.push(km.kalloc().unwrap());
    }
    for i in 0..held.len() {
        for j in 0..held.len() {
            if i != j {
                assert_ne!(held[i], held[j]);
            }
        }
    }
    assert_eq!(km.kalloc(), None);
    let f = held.pop().unwrap();
    assert_eq!(km.kfree(f), Ok(()));
    let g = km.kalloc().unwrap();
    assert_eq!(f, g);
    for h in &held {
        assert_ne!(g, *h);
    }
}
