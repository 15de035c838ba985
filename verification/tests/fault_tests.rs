use aquila::buddy::BuddyAllocator;
use aquila::fault::{FaultResult, Mm, PmapOp};
use aquila::mm::{PF_PRESENT, PF_READ, PF_WRITE};
use aquila::pages::{
    mm_map, mm_page_alloc, mm_page_dealloc, mm_unmap, mm_unmap_full, vm_map, vm_unmap, vm_unmap_full, PageTable,
    VmPage,
};
use aquila::vm::{VmAnon, VmAref, VmEntry, VmObject, VM_COPY, VM_KW, VM_SHARED, VM_UR, VM_UW};
use aquila::vm_space::VmSpace;

fn mm() -> Mm {
    Mm {
        buddy: BuddyAllocator::buddy_setup(0x2000000, 0x100000, 0x200000),
        pages: PageTable::new(0x2000),
        anons: vec![],
        arefs: vec![],
        objects: vec![],
    }
}

fn region(base: usize, size: usize, flags: usize) -> VmEntry {
    VmEntry { paddr: 0, base, size, flags, vm_anon: None, vm_object: None, off: 0 }
}

fn handled(r: FaultResult) -> Vec<PmapOp> {
    match r {
        FaultResult::Handled(ops) => ops,
        FaultResult::Segv => panic!("unexpected segv"),
        FaultResult::PageIn { .. } => panic!("unexpected page-in"),
    }
}

#[test]
fn page_table_refcounts() {
    let mut t = PageTable::new(4);
    t.mm_page_incref(0x2000);
    t.mm_page_incref(0x2fff);
    assert_eq!(t.mm_page_ref(0x2000), 2);
    t.mm_page_decref(0x2000);
    assert_eq!(t.mm_page(0x2000).refcnt, 1);
    assert_eq!(t.mm_page(0x1000).refcnt, 0);
}

#[test]
fn page_alloc_and_dealloc() {
    let mut m = mm();
    let used = m.buddy.k_used_mem;
    let p = mm_page_alloc(&mut m.buddy, &mut m.pages);
    assert!(p >= 0x1000000 && p < 0x2000000);
    assert_eq!(p % 4096, 0);
    assert_eq!(m.pages.mm_page(p), VmPage { paddr: p, vm_object: None, off: 0, refcnt: 0 });
    assert_eq!(m.buddy.k_used_mem, used + 4096);
    mm_page_dealloc(&mut m.buddy, p);
    assert_eq!(m.buddy.k_used_mem, used);
    let q = mm_page_alloc(&mut m.buddy, &mut m.pages);
    assert_eq!(p, q);
}

#[test]
fn unmap_page_lists() {
    assert_eq!(mm_unmap(0x1234, 0x3000), vec![0x2000, 0x3000]);
    assert_eq!(mm_unmap(0x1000, 0x800), Vec::<usize>::new());
    assert_eq!(mm_unmap_full(0x1234, 0x3000), vec![0x1000, 0x2000, 0x3000, 0x4000]);
    let s = VmSpace { pmap: 1, vm_entries: vec![] };
    assert_eq!(vm_unmap(&s, &region(0x1000, 0x2000, VM_UR)), vec![0x1000, 0x2000]);
    assert_eq!(vm_unmap(&s, &region(0x1000, 0x2000, VM_UR | VM_SHARED)), Vec::<usize>::new());
    assert_eq!(vm_unmap_full(&s, &region(0x1800, 0x1000, VM_UR)), vec![0x1000, 0x2000]);
}

#[test]
fn fault_outside_regions_is_segv() {
    let mut m = mm();
    let mut s = VmSpace { pmap: 1, vm_entries: vec![region(0x1000, 0x2000, VM_UR)] };
    assert!(matches!(m.mm_page_fault(&mut s, 0x9000, PF_READ, None), FaultResult::Segv));
    assert!(matches!(m.mm_page_fault(&mut s, 0x1000, PF_WRITE, None), FaultResult::Segv));
    assert!(m.anons.is_empty());
}

#[test]
fn fault_zero_fills_then_maps_owned_page() {
    let mut m = mm();
    let mut s = VmSpace { pmap: 1, vm_entries: vec![region(0x1000, 0x2000, VM_UR | VM_UW)] };
    let ops = handled(m.mm_page_fault(&mut s, 0x1234, PF_WRITE, None));
    let np = match ops[0] {
        PmapOp::MapPage { vaddr, paddr, flags } => {
            assert_eq!(vaddr, 0x1000);
            assert_eq!(flags, VM_KW);
            paddr
        }
        _ => panic!("expected a mapping"),
    };
    assert_eq!(ops[1], PmapOp::ZeroPage { vaddr: 0x1000 });
    assert_eq!(ops[2], PmapOp::ProtectRange { sva: 0x1000, eva: 0x2000, flags: VM_UR | VM_UW });
    assert_eq!(s.vm_entries[0].vm_anon, Some(0));
    assert_eq!(m.anons[0].refcnt, 1);
    assert_eq!(m.anons[0].arefs, Some(vec![(0, 0)]));
    assert_eq!(m.arefs, vec![VmAref { vm_page: Some(np), refcnt: 1, flags: 0 }]);
    assert_eq!(m.pages.mm_page(np), VmPage { paddr: np, vm_object: None, off: 0, refcnt: 1 });
    let ops2 = handled(m.mm_page_fault(&mut s, 0x1000, PF_WRITE, None));
    assert_eq!(ops2, vec![PmapOp::MapPage { vaddr: 0x1000, paddr: np, flags: VM_UR | VM_UW }]);
    assert_eq!(m.pages.mm_page_ref(np), 2);
    let ops3 = handled(m.mm_page_fault(&mut s, 0x1000, PF_READ | PF_PRESENT, None));
    assert_eq!(ops3, vec![PmapOp::ProtectRange { sva: 0x1000, eva: 0x2000, flags: VM_UR | VM_UW }]);
}

#[test]
fn fault_copies_shared_anon_on_write() {
    let mut m = mm();
    let p = mm_page_alloc(&mut m.buddy, &mut m.pages);
    m.pages.mm_page_incref(p);
    m.arefs.push(VmAref { vm_page: Some(p), refcnt: 1, flags: 0 });
    m.anons.push(VmAnon { arefs: Some(vec![(0, 0)]), refcnt: 2, flags: VM_COPY });
    let mut e = region(0x4000, 0x1000, VM_UR | VM_UW);
    e.vm_anon = Some(0);
    let mut s = VmSpace { pmap: 1, vm_entries: vec![e] };
    let ops = handled(m.mm_page_fault(&mut s, 0x4000, PF_WRITE, None));
    assert_eq!(m.anons.len(), 2);
    assert_eq!(m.anons[0].refcnt, 1);
    assert_eq!(m.anons[1].refcnt, 1);
    assert_eq!(m.anons[1].flags, 0);
    assert_eq!(s.vm_entries[0].vm_anon, Some(1));
    assert_eq!(m.arefs[0].refcnt, 1);
    let np = m.arefs[1].vm_page.unwrap();
    assert_ne!(np, p);
    assert_eq!(m.arefs[1].refcnt, 1);
    assert_eq!(m.anons[1].arefs, Some(vec![(0, 1)]));
    assert_eq!(m.anons[0].arefs, Some(vec![(0, 0)]));
    assert_eq!(ops, vec![
        PmapOp::CopyPage { src: p, dst: np },
        PmapOp::MapPage { vaddr: 0x4000, paddr: np, flags: VM_UR | VM_UW },
    ]);
}

#[test]
fn fault_maps_object_page_or_asks_pager() {
    let mut m = mm();
    let mut o = VmObject::new(0);
    o.insert(0, 0x500000);
    m.objects.push(o);
    let mut e = region(0x10000, 0x2000, VM_UR);
    e.vm_object = Some(0);
    let mut s = VmSpace { pmap: 1, vm_entries: vec![e] };
    let ops = handled(m.mm_page_fault(&mut s, 0x10000, PF_READ, None));
    assert_eq!(ops, vec![PmapOp::MapPage { vaddr: 0x10000, paddr: 0x500000, flags: VM_UR }]);
    assert_eq!(m.pages.mm_page_ref(0x500000), 1);
    match m.mm_page_fault(&mut s, 0x11000, PF_READ, None) {
        FaultResult::PageIn { object, off } => {
            assert_eq!(object, 0);
            assert_eq!(off, 0x1000);
        }
        _ => panic!("expected a page-in request"),
    }
    let ops2 = handled(m.mm_page_fault(&mut s, 0x11000, PF_READ, Some(0x600000)));
    assert_eq!(ops2, vec![PmapOp::MapPage { vaddr: 0x11000, paddr: 0x600000, flags: VM_UR }]);
}

#[test]
fn fault_write_to_object_copies_page() {
    let mut m = mm();
    let mut o = VmObject::new(0);
    o.insert(0, 0x500000);
    m.objects.push(o);
    let mut e = region(0x10000, 0x1000, VM_UR | VM_UW);
    e.vm_object = Some(0);
    let mut s = VmSpace { pmap: 1, vm_entries: vec![e] };
    let ops = handled(m.mm_page_fault(&mut s, 0x10000, PF_WRITE, None));
    let np = m.arefs[0].vm_page.unwrap();
    assert_eq!(ops, vec![
        PmapOp::CopyPage { src: 0x500000, dst: np },
        PmapOp::MapPage { vaddr: 0x10000, paddr: np, flags: VM_UR | VM_UW },
    ]);
    assert_eq!(s.vm_entries[0].vm_anon, Some(0));
    assert_eq!(m.anons[0].arefs, Some(vec![(0, 0)]));
}

#[test]
fn entry_destroy_releases_last_reference() {
    let mut m = mm();
    m.arefs = vec![
        VmAref { vm_page: Some(0x5000), refcnt: 1, flags: 0 },
        VmAref { vm_page: Some(0x6000), refcnt: 2, flags: 0 },
    ];
    m.anons = vec![VmAnon { arefs: Some(vec![(0, 0), (0x1000, 1)]), refcnt: 1, flags: 0 }];
    m.objects = vec![VmObject { pages: vec![], objtype: 0, refcnt: 2, pager: None }];
    let mut e = region(0x1000, 0x2000, VM_UR);
    e.vm_anon = Some(0);
    e.vm_object = Some(0);
    let freed = e.destroy(&mut m);
    assert_eq!(freed, vec![0x5000]);
    assert_eq!(m.anons[0].refcnt, 0);
    assert!(m.anons[0].arefs.is_none());
    assert_eq!(m.arefs[0].refcnt, 0);
    assert_eq!(m.arefs[1].refcnt, 1);
    assert_eq!(m.objects[0].refcnt, 1);
}

#[test]
fn entry_destroy_shared_anon_keeps_table() {
    let mut m = mm();
    m.arefs = vec![VmAref { vm_page: Some(0x5000), refcnt: 1, flags: 0 }];
    m.anons = vec![VmAnon { arefs: Some(vec![(0, 0)]), refcnt: 2, flags: 0 }];
    let mut e = region(0x1000, 0x1000, VM_UR);
    e.vm_anon = Some(0);
    let freed = e.destroy(&mut m);
    assert!(freed.is_empty());
    assert_eq!(m.anons[0].refcnt, 1);
    assert_eq!(m.anons[0].arefs, Some(vec![(0, 0)]));
    assert_eq!(m.arefs[0].refcnt, 1);
}

#[test]
fn object_page_found_or_paged_in() {
    let mut m = mm();
    m.objects = vec![VmObject { pages: vec![(0, 0x7000), (0x1000, 0x8000)], objtype: 0, refcnt: 1, pager: Some(1) }];
    assert_eq!(m.vm_object_page(0, 0x1000, None), Some(0x8000));
    assert_eq!(m.vm_object_page(0, 0x1000, Some(0x9000)), Some(0x8000));
    assert_eq!(m.vm_object_page(0, 0x2000, Some(0x9000)), Some(0x9000));
    assert_eq!(m.vm_object_page(0, 0x2000, None), None);
}

#[test]
fn map_given_pages_skips_mapped() {
    let mut m = mm();
    let used = m.buddy.k_used_mem;
    let ops = mm_map(&mut m.buddy, &mut m.pages, 0x80123, 0x1234, 0x2000, 7, &vec![0, 0x5000, 0]);
    assert_eq!(
        ops,
        vec![
            PmapOp::MapPage { vaddr: 0x1000, paddr: 0x80000, flags: 7 },
            PmapOp::MapPage { vaddr: 0x3000, paddr: 0x82000, flags: 7 },
        ]
    );
    assert_eq!(m.buddy.k_used_mem, used);
}

#[test]
fn map_allocates_fresh_pages() {
    let mut expect = mm();
    let p1 = mm_page_alloc(&mut expect.buddy, &mut expect.pages);
    let p2 = mm_page_alloc(&mut expect.buddy, &mut expect.pages);
    let mut m = mm();
    let used = m.buddy.k_used_mem;
    let e = VmEntry { paddr: 0, base: 0x4000, size: 0x3000, flags: VM_UR, vm_anon: None, vm_object: None, off: 0 };
    let s = VmSpace { pmap: 1, vm_entries: vec![e] };
    let ops = vm_map(&s, &e, &mut m.buddy, &mut m.pages, &vec![0, 0x9000, 0]);
    assert_eq!(
        ops,
        vec![
            PmapOp::MapPage { vaddr: 0x4000, paddr: p1, flags: VM_UR },
            PmapOp::MapPage { vaddr: 0x6000, paddr: p2, flags: VM_UR },
        ]
    );
    assert_eq!(m.buddy.k_used_mem, used + 2 * 4096);
    assert_eq!(m.pages.mm_page(p2), VmPage { paddr: p2, vm_object: None, off: 0, refcnt: 0 });
}

#[test]
fn space_destroy_releases_every_region() {
    let mut m = mm();
    m.arefs = vec![
        VmAref { vm_page: Some(0x5000), refcnt: 1, flags: 0 },
        VmAref { vm_page: Some(0x6000), refcnt: 2, flags: 0 },
    ];
    m.anons = vec![VmAnon { arefs: Some(vec![(0, 0), (0x1000, 1)]), refcnt: 2, flags: 0 }];
    m.objects = vec![VmObject { pages: vec![], objtype: 3, refcnt: 3, pager: Some(2) }];
    let mut a = region(0x1000, 0x2000, VM_UR);
    a.vm_anon = Some(0);
    let mut b = region(0x8000, 0x1000, VM_UR);
    b.vm_anon = Some(0);
    b.vm_object = Some(0);
    let mut c = region(0x9000, 0x1000, VM_UR);
    c.vm_object = Some(0);
    let mut s = VmSpace { pmap: 4, vm_entries: vec![a, b, c] };
    let freed = s.destroy(&mut m);
    assert_eq!(freed, vec![0x5000]);
    assert!(s.vm_entries.is_empty());
    assert_eq!(s.pmap, 4);
    assert_eq!(m.anons[0].refcnt, 0);
    assert!(m.anons[0].arefs.is_none());
    assert_eq!(m.arefs[0].refcnt, 0);
    assert_eq!(m.arefs[1].refcnt, 1);
    assert_eq!(m.objects[0].refcnt, 1);
    assert_eq!(m.objects[0].objtype, 3);
}
