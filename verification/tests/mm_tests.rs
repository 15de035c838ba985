use aquila::bitmap::{bitmap_size, BitMap};
use aquila::buddy::{boot_alloc, BuddyAllocator, BUDDY_ZONE_DMA, BUDDY_ZONE_NORMAL};
use aquila::kvmem::{Kvmem, MallocType, TaggedAllocator, KVMEM_BASE, M_ZERO};
use aquila::mm::{mm_setup, page_align, page_round, BootMemoryMap, BootModule, PAGE_SIZE};

#[test]
fn page_align_rounds_down() {
    assert_eq!(page_align(0x1234), 0x1000);
    assert_eq!(page_align(0x2000), 0x2000);
    assert_eq!(page_align(0xfff), 0);
}

#[test]
fn page_round_rounds_up() {
    assert_eq!(page_round(0x1234), 0x2000);
    assert_eq!(page_round(0x2000), 0x2000);
    assert_eq!(page_round(0), 0);
    assert_eq!(page_round(1), PAGE_SIZE);
}

#[test]
fn bitmap_set_clear_check() {
    let mut bm = BitMap::new(100);
    assert!(!bm.check(37));
    bm.set(37);
    assert!(bm.check(37));
    assert!(!bm.check(36));
    bm.clear(37);
    assert!(!bm.check(37));
    bm.set_range(10, 20);
    assert!(bm.check(10));
    assert!(bm.check(20));
    assert!(!bm.check(21));
    assert!(!bm.check(9));
    bm.clear_range(12, 20);
    assert!(bm.check(11));
    assert!(!bm.check(12));
    assert_eq!(bitmap_size(33), 8);
    assert_eq!(bitmap_size(32), 4);
}

#[test]
fn boot_alloc_aligns_and_moves_mark() {
    let mut mark: usize = 0x1003;
    let r = boot_alloc(&mut mark, 0x20, 0x10);
    assert_eq!(r, 0x1010);
    assert_eq!(mark, 0x1030);
}

fn setup() -> BuddyAllocator {
    BuddyAllocator::buddy_setup(0x2000000, 0x100000, 0x200000)
}

#[test]
fn buddy_setup_accounts_kernel() {
    let b = setup();
    assert_eq!(b.k_total_mem, 0x2000000);
    assert!(b.k_used_mem >= 0x100000);
}

#[test]
fn buddy_alloc_then_free_gives_back_same_block() {
    let mut b = setup();
    assert!(b.buddy_has_free(BUDDY_ZONE_NORMAL, PAGE_SIZE));
    let used = b.k_used_mem;
    let a = b.buddy_alloc(BUDDY_ZONE_NORMAL, PAGE_SIZE);
    assert!(a >= 0x1000000);
    assert_eq!(a % PAGE_SIZE, 0);
    assert_eq!(b.k_used_mem, used + PAGE_SIZE);
    b.buddy_free(BUDDY_ZONE_NORMAL, a, PAGE_SIZE);
    assert_eq!(b.k_used_mem, used);
    let a2 = b.buddy_alloc(BUDDY_ZONE_NORMAL, PAGE_SIZE);
    assert_eq!(a, a2);
}

#[test]
fn buddy_alloc_avoids_kernel_image() {
    let mut b = setup();
    let a = b.buddy_alloc(BUDDY_ZONE_DMA, PAGE_SIZE);
    assert!(a < 0x1000000);
    assert!(!(0x100000 <= a && a < 0x200000));
    let c = b.buddy_alloc(BUDDY_ZONE_DMA, PAGE_SIZE);
    assert_ne!(a, c);
}

#[test]
fn kmalloc_first_fit_and_stats() {
    let mut k = Kvmem::kvmem_setup();
    let t = k.malloc_define("test".to_string(), "test objects".to_string());
    let r = k.kmalloc(10, t, 0);
    assert_eq!(r.addr, KVMEM_BASE);
    assert_eq!(r.map, Some((KVMEM_BASE, 4096)));
    assert!(!r.zero);
    assert_eq!(k.kvmem_used, 12);
    assert_eq!(k.kvmem_obj_cnt, 1);
    let r2 = k.kmalloc(100, t, M_ZERO);
    assert_eq!(r2.addr, KVMEM_BASE + 12);
    assert!(r2.zero);
    assert_eq!(k.kvmem_used, 112);
    assert_eq!(k.types[t].nr, 2);
    assert_eq!(k.types[t].total, 112);
}

#[test]
fn kfree_then_kmalloc_reuses_block() {
    let mut k = Kvmem::kvmem_setup();
    let t = k.malloc_define("test".to_string(), "test objects".to_string());
    let r = k.kmalloc(10, t, 0);
    let _r2 = k.kmalloc(100, t, 0);
    k.kfree(r.addr);
    assert_eq!(k.kvmem_used, 100);
    assert_eq!(k.kvmem_obj_cnt, 1);
    assert_eq!(k.types[t].nr, 1);
    let r3 = k.kmalloc(8, t, 0);
    assert_eq!(r3.addr, KVMEM_BASE);
    assert!(k.kmalloc_check(4, t));
    assert!(!k.kmalloc_check(0, t));
    assert!(!k.kmalloc_check(4, 99));
}

#[test]
fn tagged_box_holds_object() {
    let tag = MallocType { name: "buffer".to_string(), desc: "buffers".to_string(), nr: 0, total: 0, qnode: None };
    let b: Box<u32> = <Box<u32> as TaggedAllocator<u32>>::new_tagged(&tag, 5);
    assert_eq!(*b, 5);
}

#[test]
fn mm_setup_reserves_regions_and_modules() {
    let mmap = vec![
        BootMemoryMap { start: 0, end: 0x9f000, reserved: false },
        BootMemoryMap { start: 0x1400000, end: 0x1800000, reserved: true },
        BootMemoryMap { start: 0x1800000, end: 0x1900000, reserved: false },
    ];
    let mods = vec![BootModule { addr: 0x1c00000, size: 0x1000 }];
    let mut b = mm_setup(0x8000, 0x100000, 0x200000, &mmap, &mods);
    let mut expect = setup();
    expect.buddy_set_unusable(0x1400000, 0x400000);
    expect.buddy_set_unusable(0x1c00000, 0x1000);
    assert_eq!(b.k_total_mem, 0x2000000);
    assert_eq!(b.k_used_mem, expect.k_used_mem);
    assert_eq!(b.k_used_mem, setup().k_used_mem + 0x400000 + 0x1000);
    for _ in 0..4 {
        let a = b.buddy_alloc(BUDDY_ZONE_NORMAL, PAGE_SIZE);
        assert_eq!(a, expect.buddy_alloc(BUDDY_ZONE_NORMAL, PAGE_SIZE));
        assert!(!(0x1400000 <= a && a < 0x1800000));
        assert!(!(0x1c00000 <= a && a < 0x2000000));
    }
}
