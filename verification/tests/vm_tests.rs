use rvkern::errors::Fatal;
use rvkern::errors::MapError;
use rvkern::kalloc::Kmem;
use rvkern::riscv::{PTE_R, PTE_W};
use rvkern::vm::{
    free_walk, map_pages, translate, uvm_free, uvm_init, uvm_unmap, walk, walk_addr, AddressSpace,
};

const BASE: u64 = 0x8000_0000;

fn pool(frames: u64) -> Kmem {
    Kmem::km_init(BASE, BASE + frames * 4096)
}

#[test]
fn map_then_translate_returns_pa_plus_offset() {
    let mut km = pool(16);
    let mut a = AddressSpace::new(&mut km).unwrap();
    let va = 0x40_0000u64;
    let pa = 0x8765_0000u64;
    // two pages, read/write
    assert_eq!(map_pages(&mut a, &mut km, va, 2 * 4096, pa, PTE_R | PTE_W), Ok(()));
    // every offset in range translates to pa + offset
    for off in [0u64, 1, 7, 4095, 4096, 5000, 8191] {
        assert_eq!(translate(&a, va + off), Some(pa + off));
    }
    // outside the range nothing translates
    assert_eq!(translate(&a, va - 1), None);
    assert_eq!(translate(&a, va + 2 * 4096), None);
    assert_eq!(translate(&a, 0), None);
}

#[test]
fn remap_is_fatal_not_silent() {
    let mut km = pool(16);
    let mut a = AddressSpace::new(&mut km).unwrap();
    let va = 0x40_0000u64;
    assert_eq!(map_pages(&mut a, &mut km, va, 4096, 0x9000_0000, PTE_R | PTE_W), Ok(()));
    // the second map of the same page reaches the fatal remap path
    assert_eq!(
        map_pages(&mut a, &mut km, va, 4096, 0xa000_0000, PTE_R | PTE_W),
        Err(MapError::Remap)
    );
    // and the first mapping is untouched: no silent second mapping
    assert_eq!(translate(&a, va), Some(0x9000_0000));
}

#[test]
fn unmap_releases_frame_for_reuse() {
    let mut km = pool(16);
    let mut a = AddressSpace::new(&mut km).unwrap();
    // take a data frame out of the pool and map it
    let data = km.kalloc().unwrap();
    let va = 0x20_0000u64;
    assert_eq!(map_pages(&mut a, &mut km, va, 4096, data, PTE_R | PTE_W), Ok(()));
    assert_eq!(translate(&a, va), Some(data));
    // unmap with release: the very next allocation returns that frame
    assert_eq!(uvm_unmap(&mut a, &mut km, va, 1, true), Ok(()));
    assert_eq!(km.kalloc(), Some(data));
    // and the address no longer translates
    assert_eq!(translate(&a, va), None);
}

#[test]
fn unmap_missing_page_is_fatal() {
    let mut km = pool(8);
    let mut a = AddressSpace::new(&mut km).unwrap();
    assert_eq!(uvm_unmap(&mut a, &mut km, 0x1000, 1, false), Err(Fatal::UnmapNotMapped));
    assert_eq!(uvm_unmap(&mut a, &mut km, 0x1001, 1, false), Err(Fatal::UnmapNotAligned));
}

#[test]
fn map_pages_out_of_frames_drains_pool() {
    let mut km = pool(1);
    let mut a = AddressSpace::new(&mut km).unwrap();
    // the root consumed the only frame: the walk cannot build its path
    assert_eq!(
        map_pages(&mut a, &mut km, 0x40_0000, 4096, 0x9000_0000, PTE_R | PTE_W),
        Err(MapError::OutOfFrames)
    );
    assert_eq!(km.free_count(), 0);
}

#[test]
fn failed_map_leaves_an_installed_prefix_to_unwind() {
    // enough frames for the path of the first page, not for the second
    // page's fresh 2 MiB region
    let mut km = pool(3);
    let mut a = AddressSpace::new(&mut km).unwrap();
    let va = 0x40_0000u64;
    // two pages straddling a 2 MiB boundary: page one maps, page two cannot
    assert_eq!(
        map_pages(&mut a, &mut km, va + 0x20_0000 - 4096, 2 * 4096, 0x9000_0000, PTE_R | PTE_W),
        Err(MapError::OutOfFrames)
    );
    // the prefix a caller must unwind: the first page is installed...
    assert_eq!(translate(&a, va + 0x20_0000 - 4096), Some(0x9000_0000));
    // ...and the failing page is untouched
    assert_eq!(translate(&a, va + 0x20_0000), None);
    assert_eq!(km.free_count(), 0);
}

#[test]
fn walk_and_walk_addr_see_the_leaf() {
    let mut km = pool(8);
    let mut a = AddressSpace::new(&mut km).unwrap();
    let va = 0x40_0000u64;
    assert_eq!(walk(&a, va), None);
    assert_eq!(walk_addr(&a, va), 0);
    assert_eq!(map_pages(&mut a, &mut km, va, 4096, 0x9000_0000, PTE_R | PTE_W), Ok(()));
    // the leaf entry packs the frame number and the permission bits
    let pte = walk(&a, va).unwrap();
    assert_eq!(pte, (0x9000_0000u64 >> 12) << 10 | (PTE_R | PTE_W) | 1);
    // walk_addr gives the page base, ignoring the offset
    assert_eq!(walk_addr(&a, va + 123), 0x9000_0000);
    // beyond the highest representable address it reports nothing
    assert_eq!(walk_addr(&a, 1 << 62), 0);
}

#[test]
fn free_walk_requires_cleared_leaves() {
    let mut km = pool(8);
    let mut a = AddressSpace::new(&mut km).unwrap();
    let va = 0x40_0000u64;
    assert_eq!(map_pages(&mut a, &mut km, va, 4096, 0x9000_0000, PTE_R | PTE_W), Ok(()));
    // a mapped leaf makes the teardown fatal
    assert_eq!(free_walk(a, &mut km), Err(Fatal::LeafRemains));
    // a clean table hands every node frame back
    let mut b = AddressSpace::new(&mut km).unwrap();
    assert_eq!(map_pages(&mut b, &mut km, va, 4096, 0x9000_0000, PTE_R | PTE_W), Ok(()));
    assert_eq!(uvm_unmap(&mut b, &mut km, va, 1, false), Ok(()));
    let mid = km.free_count();
    assert_eq!(free_walk(b, &mut km), Ok(()));
    assert_eq!(km.free_count(), mid + 3);
}

#[test]
fn uvm_init_loads_one_page_at_zero() {
    let mut km = pool(8);
    let before = km.free_count();
    let mut a = AddressSpace::new(&mut km).unwrap();
    let image = vec![0x13u8; 4096];
    let data = uvm_init(&mut a, &mut km, &image, 4096).unwrap();
    assert_eq!(translate(&a, 0), Some(data));
    assert_eq!(translate(&a, 100), Some(data + 100));
    // one root, one mid, one leaf node, one data frame
    assert_eq!(km.free_count(), before - 4);
    // an image over one page is fatal
    let mut b = AddressSpace::new(&mut km).unwrap();
    let big = vec![0u8; 5000];
    assert_eq!(uvm_init(&mut b, &mut km, &big, 5000), Err(Fatal::UvmInitTooLarge));
}

#[test]
fn uvm_free_returns_data_and_nodes() {
    let mut km = pool(8);
    let before = km.free_count();
    let mut a = AddressSpace::new(&mut km).unwrap();
    let image = vec![0u8; 4096];
    uvm_init(&mut a, &mut km, &image, 4096).unwrap();
    assert_eq!(uvm_free(a, &mut km, 4096), Ok(()));
    assert_eq!(km.free_count(), before);
}
