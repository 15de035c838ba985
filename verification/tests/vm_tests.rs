use aquila::mm::{PF_EXEC, PF_READ, PF_WRITE};
use aquila::vm::{VmAnon, VmAref, VmEntry, VmObject, VM_COPY, VM_SHARED, VM_UR, VM_UW, VM_UX};
use aquila::vm_space::{check_violation, PmapProtect, VmSpace};

fn entry(base: usize, size: usize) -> VmEntry {
    VmEntry { paddr: 0, base, size, flags: VM_UR, vm_anon: None, vm_object: None, off: 0 }
}

fn space() -> VmSpace {
    VmSpace { pmap: 1, vm_entries: vec![entry(0x1000, 0x1000), entry(0x5000, 0x1000)] }
}

#[test]
fn vm_entry_none_is_zero() {
    let e = VmEntry::none();
    assert_eq!(e, VmEntry { paddr: 0, base: 0, size: 0, flags: 0, vm_anon: None, vm_object: None, off: 0 });
}

#[test]
fn aref_refcounts() {
    let mut a = VmAref::new();
    assert_eq!(a.refcnt(), 0);
    a.incref();
    a.incref();
    assert_eq!(a.refcnt(), 2);
    a.decref();
    assert_eq!(a.refcnt(), 1);
    let b = VmAref::new_boxed(a);
    assert_eq!(*b, a);
    let mut c = a;
    c.destroy();
    assert_eq!(c, a);
}

#[test]
fn object_refcounts_and_pages() {
    let mut o = VmObject::new(3);
    assert_eq!(o.refcnt(), 0);
    o.incref();
    assert_eq!(o.refcnt(), 1);
    o.decref();
    assert_eq!(o.refcnt(), 0);
    o.insert(0, 0x1000);
    o.insert(4096, 0x2000);
    o.insert(0, 0x3000);
    assert_eq!(o.pages, vec![(0, 0x3000), (4096, 0x2000)]);
}

fn table() -> Vec<VmAref> {
    vec![
        VmAref { vm_page: Some(0x1000), refcnt: 1, flags: 0 },
        VmAref { vm_page: Some(0x2000), refcnt: 2, flags: 0 },
        VmAref { vm_page: None, refcnt: 1, flags: 0 },
    ]
}

#[test]
fn anon_destroy_frees_last_references() {
    let mut t = table();
    let mut a = VmAnon { arefs: Some(vec![(0, 0), (4096, 1), (8192, 2)]), refcnt: 1, flags: 0 };
    let freed = a.destroy(&mut t);
    assert_eq!(freed, vec![0x1000]);
    assert!(a.arefs.is_none());
    assert_eq!(t[0].refcnt, 0);
    assert_eq!(t[1].refcnt, 1);
    assert_eq!(t[2].refcnt, 0);
}

#[test]
fn anon_decref_destroys_at_zero() {
    let mut t = table();
    let mut a = VmAnon { arefs: Some(vec![(0, 0)]), refcnt: 2, flags: 0 };
    a.incref();
    assert_eq!(a.refcnt(), 3);
    assert!(a.decref(&mut t).is_empty());
    assert!(a.decref(&mut t).is_empty());
    assert_eq!(t[0].refcnt, 1);
    let freed = a.decref(&mut t);
    assert_eq!(freed, vec![0x1000]);
    assert_eq!(a.refcnt(), 0);
    assert!(a.arefs.is_none());
}

#[test]
fn anon_copy_shares_arefs() {
    let mut t = table();
    let a = VmAnon { arefs: Some(vec![(0, 0), (4096, 1)]), refcnt: 2, flags: VM_COPY | 5 };
    let n = a.copy(&mut t).unwrap();
    assert_eq!(n.refcnt, 1);
    assert_eq!(n.flags, 5);
    assert_eq!(n.arefs, Some(vec![(0, 0), (4096, 1)]));
    assert_eq!(t[0].refcnt, 2);
    assert_eq!(t[1].refcnt, 3);
    assert!(VmAnon::empty().copy(&mut t).is_none());
    assert_eq!(VmAnon::new().arefs, Some(vec![]));
    assert_eq!(VmAnon::new_boxed(VmAnon::new()).refcnt, 0);
}

#[test]
fn space_find_page() {
    let s = space();
    assert_eq!(s.find(0x5123), Some(&entry(0x5000, 0x1000)));
    assert_eq!(s.find(0x1fff), Some(&entry(0x1000, 0x1000)));
    assert_eq!(s.find(0x3000), None);
    assert_eq!(s.find(0x6000), None);
}

#[test]
fn space_insert_fixed() {
    let mut s = space();
    let mut e = entry(0x3000, 0x1000);
    assert_eq!(s.insert(&mut e), 0);
    assert_eq!(s.vm_entries, vec![entry(0x1000, 0x1000), entry(0x3000, 0x1000), entry(0x5000, 0x1000)]);
    let mut f = entry(0x1800, 0x1000);
    assert_eq!(s.insert(&mut f), -1);
    assert_eq!(s.vm_entries.len(), 3);
}

#[test]
fn space_insert_anywhere() {
    let mut s = space();
    let mut e = entry(0, 0x1000);
    assert_eq!(s.insert(&mut e), 0);
    assert_eq!(e.base, 0x4000);
    assert_eq!(s.vm_entries, vec![entry(0x1000, 0x1000), entry(0x4000, 0x1000), entry(0x5000, 0x1000)]);
    let mut empty = VmSpace { pmap: 1, vm_entries: vec![] };
    let mut g = entry(0, 0x1000);
    assert_eq!(empty.insert(&mut g), -1);
}

#[test]
fn space_fork_counts_references() {
    let e1 = VmEntry { paddr: 0, base: 0x1000, size: 0x2000, flags: VM_UR | VM_UW, vm_anon: Some(0), vm_object: Some(0), off: 0 };
    let e2 = VmEntry { paddr: 0, base: 0x4000, size: 0x1000, flags: VM_UR, vm_anon: Some(0), vm_object: None, off: 0 };
    let e3 = VmEntry { paddr: 0, base: 0x8000, size: 0x1000, flags: VM_UR | VM_UW | VM_SHARED, vm_anon: None, vm_object: None, off: 0 };
    let s = VmSpace { pmap: 1, vm_entries: vec![e1, e2, e3] };
    let mut d = VmSpace { pmap: 2, vm_entries: vec![] };
    let mut anons = vec![VmAnon { arefs: Some(vec![]), refcnt: 1, flags: 0 }];
    let mut o = VmObject::new(0);
    o.incref();
    let mut objects = vec![o];
    let p = s.fork(&mut d, &mut anons, &mut objects);
    assert_eq!(d.vm_entries, vec![e1, e2, e3]);
    assert_eq!(d.pmap, 2);
    assert_eq!(anons[0].refcnt, 3);
    assert_eq!(anons[0].flags, VM_COPY);
    assert_eq!(objects[0].refcnt, 2);
    assert_eq!(p, vec![PmapProtect { sva: 0x1000, eva: 0x3000, flags: VM_UR }]);
}

#[test]
fn violation_checks() {
    assert_eq!(check_violation(PF_READ, VM_UR), 0);
    assert_eq!(check_violation(PF_WRITE, VM_UR), 1);
    assert_eq!(check_violation(PF_EXEC, VM_UR | VM_UX), 0);
    assert_eq!(check_violation(PF_EXEC | PF_READ, VM_UX), 1);
    assert_eq!(check_violation(0, 0), 0);
}

#[test]
fn anon_copy_then_destroy_restores_counts() {
    let t0 = table();
    let mut t = table();
    let a = VmAnon { arefs: Some(vec![(0, 0), (4096, 1), (8192, 2)]), refcnt: 2, flags: VM_COPY };
    let mut n = a.copy(&mut t).unwrap();
    assert_eq!(t[0].refcnt, 2);
    let freed = n.destroy(&mut t);
    assert!(freed.is_empty());
    assert_eq!(t, t0);
}

#[test]
fn insert_then_find_gives_new_region() {
    let mut s = space();
    let mut e = entry(0, 0x2000);
    assert_eq!(s.insert(&mut e), 0);
    assert_eq!(e.base, 0x3000);
    assert_eq!(s.find(e.base), Some(&e));
    assert_eq!(s.find(e.base + 0x1fff), Some(&e));
}

#[test]
fn anon_copy_arefs_merges_tables() {
    let mut t = table();
    let a = VmAnon { arefs: Some(vec![(0, 0), (4096, 1)]), refcnt: 1, flags: 0 };
    let mut d = VmAnon { arefs: Some(vec![(4096, 0), (8192, 1)]), refcnt: 3, flags: 7 };
    assert_eq!(a.copy_arefs(&mut d, &mut t), 0);
    assert_eq!(d.arefs, Some(vec![(4096, 1), (8192, 1), (0, 0)]));
    assert_eq!(d.refcnt, 3);
    assert_eq!(d.flags, 7);
    assert_eq!(t[0].refcnt, 2);
    assert_eq!(t[1].refcnt, 3);
    let mut e = VmAnon::empty();
    assert_eq!(a.copy_arefs(&mut e, &mut t), -22);
    assert!(e.arefs.is_none());
    assert_eq!(VmAnon::empty().copy_arefs(&mut d, &mut t), -22);
    assert_eq!(t[0].refcnt, 2);
}

#[test]
fn refcounts_follow_calls() {
    let mut r = VmAref::new();
    r.incref();
    r.incref();
    r.incref();
    r.decref();
    assert_eq!(r.refcnt(), 2);
    let mut a = VmAnon::empty();
    for _ in 0..4 {
        a.incref();
    }
    assert_eq!(a.refcnt(), 4);
    let mut o = VmObject::new(0);
    o.incref();
    o.incref();
    o.decref();
    assert_eq!(o.refcnt(), 1);
}

#[test]
fn inserts_keep_regions_ordered() {
    let mut s = space();
    for (base, size) in [(0x3000, 0x800), (0, 0x400), (0x7000, 0x1000), (0x3800, 0x800), (0x2800, 0x1000)] {
        let mut e = entry(base, size);
        let r = s.insert(&mut e);
        if r == 0 {
            assert!(e.base != 0);
            if base != 0 {
                assert_eq!(e.base, base);
            }
        }
        for w in s.vm_entries.windows(2) {
            assert!(w[0].base + w[0].size <= w[1].base);
        }
    }
    assert_eq!(s.vm_entries.len(), 5);
}
