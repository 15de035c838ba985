use vstd::prelude::*;

use crate::buddy::{
    alloc_spec, block_size, free_spec, has_capacity, lemma_alloc, lemma_block_addr_bound,
    lemma_order_of_unique, order_of, spec_zone_offset, zone_inv, BuddyAllocator, Level,
    BUDDY_MIN_BS, BUDDY_ZONE_NORMAL, BUDDY_ZONE_NR,
};
use crate::fault::PmapOp;
use crate::mm::{page_align, page_round, spec_page_align, spec_page_round, PAGE_SIZE};
use crate::vm::{VmEntry, VM_SHARED};
use crate::vm_space::VmSpace;

verus! {

/// A physical page: its address, the object and offset it caches, by
/// handle, and its reference count.
#[derive(Clone, Copy, Debug, PartialEq, Eq, Structural)]
pub struct VmPage {
    pub paddr: usize,
    pub vm_object: Option<usize>,
    pub off: usize,
    pub refcnt: usize,
}

/// The page structures, one per physical page, by page number.
pub struct PageTable {
    pub pages: Vec<VmPage>,
}

/// The page structure of a freshly allocated page at `paddr`.
pub open spec fn fresh_page(paddr: usize) -> VmPage {
    VmPage { paddr, vm_object: None, off: 0, refcnt: 0 }
}

/// The page number of `paddr`.
pub open spec fn page_no(paddr: usize) -> int {
    paddr as int / PAGE_SIZE as int
}

impl PageTable {
    /// Whether the table holds the page of `paddr`.
    pub open spec fn covers(&self, paddr: usize) -> bool {
        page_no(paddr) < self.pages@.len()
    }

    /// A table of `n` pages, all zero.
    pub fn new(n: usize) -> (t: PageTable)
        ensures
            t.pages@ == Seq::new(n as nat, |i: int| VmPage { paddr: 0, vm_object: None, off: 0, refcnt: 0 }),
    {
        let mut pages: Vec<VmPage> = Vec::new();
        let mut i: usize = 0;
        while i < n
            invariant
                i <= n,
                pages@ == Seq::new(i as nat, |k: int| VmPage { paddr: 0, vm_object: None, off: 0, refcnt: 0 }),
            decreases n - i,
        {
            pages.push(VmPage { paddr: 0, vm_object: None, off: 0, refcnt: 0 });
            i = i + 1;
            assert(pages@ =~= Seq::new(i as nat, |k: int| VmPage { paddr: 0, vm_object: None, off: 0, refcnt: 0 }));
        }
        PageTable { pages }
    }

    /// Adds a reference to the page at `paddr`.
    pub fn mm_page_incref(&mut self, paddr: usize)
        requires
            old(self).covers(paddr),
            old(self).pages@[page_no(paddr)].refcnt < usize::MAX,
        ensures
            final(self).pages@ == old(self).pages@.update(
                page_no(paddr),
                VmPage { refcnt: (old(self).pages@[page_no(paddr)].refcnt + 1) as usize, ..old(self).pages@[page_no(paddr)] },
            ),
    {
        let i = paddr / PAGE_SIZE;
        self.pages[i].refcnt = self.pages[i].refcnt + 1;
    }

    /// Drops a reference to the page at `paddr`.
    pub fn mm_page_decref(&mut self, paddr: usize)
        requires
            old(self).covers(paddr),
            old(self).pages@[page_no(paddr)].refcnt > 0,
        ensures
            final(self).pages@ == old(self).pages@.update(
                page_no(paddr),
                VmPage { refcnt: (old(self).pages@[page_no(paddr)].refcnt - 1) as usize, ..old(self).pages@[page_no(paddr)] },
            ),
    {
        let i = paddr / PAGE_SIZE;
        self.pages[i].refcnt = self.pages[i].refcnt - 1;
    }

    /// Number of references to the page at `paddr`.
    pub fn mm_page_ref(&self, paddr: usize) -> (r: usize)
        requires
            self.covers(paddr),
        ensures
            r == self.pages@[page_no(paddr)].refcnt,
    {
        self.pages[paddr / PAGE_SIZE].refcnt
    }

    /// The page structure of the page at `paddr`.
    pub fn mm_page(&self, paddr: usize) -> (r: VmPage)
        requires
            self.covers(paddr),
        ensures
            r == self.pages@[page_no(paddr)],
    {
        self.pages[paddr / PAGE_SIZE]
    }
}

/// The buddy allocator can hand out one page of the normal zone, and the
/// page table holds every page of that zone.
pub open spec fn can_alloc_page(buddy: BuddyAllocator, pages: PageTable) -> bool {
    &&& buddy.inv()
    &&& has_capacity(buddy.zone_view(BUDDY_ZONE_NORMAL as int), 0)
    &&& buddy.k_used_mem + PAGE_SIZE <= usize::MAX
    &&& spec_zone_offset(BUDDY_ZONE_NORMAL as int) + buddy.zone_view(BUDDY_ZONE_NORMAL as int)[0].bits.len() * BUDDY_MIN_BS
        <= pages.pages@.len() * PAGE_SIZE
}

/// The address of the page the buddy allocator hands out next.
pub open spec fn next_page(buddy: BuddyAllocator) -> usize {
    (spec_zone_offset(BUDDY_ZONE_NORMAL as int) + alloc_spec(buddy.zone_view(BUDDY_ZONE_NORMAL as int), 0).1.unwrap()
        * BUDDY_MIN_BS) as usize
}

/// Allocates a page of the normal zone and resets its page structure.
pub fn mm_page_alloc(buddy: &mut BuddyAllocator, pages: &mut PageTable) -> (paddr: usize)
    requires
        can_alloc_page(*old(buddy), *old(pages)),
    ensures
        paddr == next_page(*old(buddy)),
        page_no(paddr) < old(pages).pages@.len(),
        final(pages).pages@ == old(pages).pages@.update(page_no(paddr), fresh_page(paddr)),
        final(buddy).inv(),
        final(buddy).zone_view(BUDDY_ZONE_NORMAL as int) == alloc_spec(
            old(buddy).zone_view(BUDDY_ZONE_NORMAL as int),
            0,
        ).0,
        forall|z: int|
            0 <= z < BUDDY_ZONE_NR && z != BUDDY_ZONE_NORMAL ==> #[trigger] final(buddy).zone_view(z)
                == old(buddy).zone_view(z),
        final(buddy).k_used_mem == old(buddy).k_used_mem + PAGE_SIZE,
        final(buddy).k_total_mem == old(buddy).k_total_mem,
        final(buddy).kstart == old(buddy).kstart,
        final(buddy).kend == old(buddy).kend,
{
    proof {
        lemma_order_of_unique(PAGE_SIZE as int, 0);
        let z = old(buddy).zone_view(BUDDY_ZONE_NORMAL as int);
        assert(zone_inv(z));
        lemma_alloc(z, 0);
        let idx = alloc_spec(z, 0).1.unwrap();
        lemma_block_addr_bound(z, BUDDY_ZONE_NORMAL as int, 0, idx);
    }
    let paddr = buddy.buddy_alloc(BUDDY_ZONE_NORMAL, PAGE_SIZE);
    proof {
        let n = old(pages).pages@.len() as int;
        let z = old(buddy).zone_view(BUDDY_ZONE_NORMAL as int);
        let idx = alloc_spec(z, 0).1.unwrap();
        let bits = z[0].bits.len() as int;
        assert(block_size(0) == 4096);
        assert(paddr == 0x1000000 + idx * 4096);
        assert(idx * 4096 + 4096 <= bits * 4096) by (nonlinear_arith)
            requires
                0 <= idx < bits,
        ;
        assert(paddr + PAGE_SIZE <= n * PAGE_SIZE);
        assert((paddr as int) / 4096 < n) by (nonlinear_arith)
            requires
                paddr + 4096 <= n * 4096,
                paddr >= 0,
        ;
    }
    let i = paddr / PAGE_SIZE;
    pages.pages.set(i, VmPage { paddr, vm_object: None, off: 0, refcnt: 0 });
    paddr
}

/// Gives the page at `paddr` back to the normal zone.
pub fn mm_page_dealloc(buddy: &mut BuddyAllocator, paddr: usize)
    requires
        old(buddy).inv(),
        !(old(buddy).kstart <= paddr < old(buddy).kend),
        paddr >= spec_zone_offset(BUDDY_ZONE_NORMAL as int),
        old(buddy).k_used_mem >= PAGE_SIZE,
    ensures
        final(buddy).inv(),
        final(buddy).zone_view(BUDDY_ZONE_NORMAL as int) == free_spec(
            old(buddy).zone_view(BUDDY_ZONE_NORMAL as int),
            0,
            (paddr - spec_zone_offset(BUDDY_ZONE_NORMAL as int)) / PAGE_SIZE as int,
        ),
        final(buddy).k_used_mem == old(buddy).k_used_mem - PAGE_SIZE,
{
    proof {
        lemma_order_of_unique(PAGE_SIZE as int, 0);
    }
    buddy.buddy_free(BUDDY_ZONE_NORMAL, paddr, PAGE_SIZE);
}

/// The `n` page addresses from `start` on.
pub open spec fn page_run(start: int, n: int) -> Seq<usize> {
    Seq::new(n as nat, |i: int| (start + i * PAGE_SIZE) as usize)
}

/// Lists the pages from `start` up to `end`, both page aligned.
fn pages_between(start: usize, end: usize) -> (r: Vec<usize>)
    requires
        start <= end,
        start % PAGE_SIZE == 0,
        end % PAGE_SIZE == 0,
    ensures
        r@ == page_run(start as int, (end - start) / PAGE_SIZE as int),
{
    let mut r: Vec<usize> = Vec::new();
    let nr = (end - start) / PAGE_SIZE;
    let mut va = start;
    let mut i: usize = 0;
    while i < nr
        invariant
            i <= nr,
            nr == (end - start) / PAGE_SIZE as int,
            va == start + i * PAGE_SIZE,
            start + nr * PAGE_SIZE <= end,
            r@ == page_run(start as int, i as int),
        decreases nr - i,
    {
        proof {
            assert(start + nr * PAGE_SIZE <= end) by (nonlinear_arith)
                requires
                    nr == (end - start) / 4096,
                    start <= end,
            ;
            assert(va + PAGE_SIZE <= end) by (nonlinear_arith)
                requires
                    va == start + i * 4096,
                    i < nr,
                    start + nr * 4096 <= end,
            ;
        }
        r.push(va);
        i = i + 1;
        va = va + PAGE_SIZE;
        assert(r@ =~= page_run(start as int, i as int));
    }
    r
}

/// The pages `mm_unmap` removes from a map for `size` bytes at `vaddr`:
/// none when the range is smaller than a page, else the whole pages inside
/// the range.
pub open spec fn unmap_pages(vaddr: int, size: int) -> Seq<usize> {
    if size < PAGE_SIZE {
        seq![]
    } else {
        let s = spec_page_round(vaddr);
        page_run(s, (spec_page_align(vaddr + size) - s) / PAGE_SIZE as int)
    }
}

/// The pages `mm_unmap_full` removes from a map for `size` bytes at
/// `vaddr`: every page the range touches.
pub open spec fn unmap_full_pages(vaddr: int, size: int) -> Seq<usize> {
    let s = spec_page_align(vaddr);
    page_run(s, (spec_page_round(vaddr + size) - s) / PAGE_SIZE as int)
}

/// The pages to unmap for `size` bytes at `vaddr`: the whole pages inside
/// the range, none when it is smaller than a page.
pub fn mm_unmap(vaddr: usize, size: usize) -> (r: Vec<usize>)
    requires
        vaddr + size + PAGE_SIZE <= usize::MAX,
    ensures
        r@ == unmap_pages(vaddr as int, size as int),
{
    if size < PAGE_SIZE {
        return Vec::new();
    }
    let sva = page_round(vaddr);
    let eva = page_align(vaddr + size);
    pages_between(sva, eva)
}

/// The pages to unmap for `size` bytes at `vaddr`: every page the range
/// touches.
pub fn mm_unmap_full(vaddr: usize, size: usize) -> (r: Vec<usize>)
    requires
        vaddr + size + PAGE_SIZE <= usize::MAX,
    ensures
        r@ == unmap_full_pages(vaddr as int, size as int),
{
    let start = page_align(vaddr);
    let end = page_round(vaddr + size);
    pages_between(start, end)
}

/// The pages to unmap when region `e` of `space` goes: none for a shared
/// region, else those of `mm_unmap` over the region.
pub fn vm_unmap(space: &VmSpace, e: &VmEntry) -> (r: Vec<usize>)
    requires
        e.base + e.size + PAGE_SIZE <= usize::MAX,
    ensures
        e.flags & VM_SHARED != 0 ==> r@.len() == 0,
        e.flags & VM_SHARED == 0 ==> r@ == unmap_pages(e.base as int, e.size as int),
{
    if e.flags & VM_SHARED != 0 {
        Vec::new()
    } else {
        mm_unmap(e.base, e.size)
    }
}

/// The pages to unmap when region `e` of `space` goes for good: none for a
/// shared region, else those of `mm_unmap_full` over the region.
pub fn vm_unmap_full(space: &VmSpace, e: &VmEntry) -> (r: Vec<usize>)
    requires
        e.base + e.size + PAGE_SIZE <= usize::MAX,
    ensures
        e.flags & VM_SHARED != 0 ==> r@.len() == 0,
        e.flags & VM_SHARED == 0 ==> r@ == unmap_full_pages(e.base as int, e.size as int),
{
    if e.flags & VM_SHARED != 0 {
        Vec::new()
    } else {
        mm_unmap_full(e.base, e.size)
    }
}

/// The address of the page the normal zone `z` hands out next.
pub open spec fn zone_next_page(z: Seq<Level>) -> usize {
    (spec_zone_offset(BUDDY_ZONE_NORMAL as int) + alloc_spec(z, 0).1.unwrap() * BUDDY_MIN_BS) as usize
}

/// How many entries of `mapped` are 0, pages with no mapping.
pub open spec fn count_unmapped(mapped: Seq<usize>) -> nat
    decreases mapped.len(),
{
    if mapped.len() == 0 {
        0
    } else {
        (if mapped[0] == 0 {
            1nat
        } else {
            0nat
        }) + count_unmapped(mapped.drop_first())
    }
}

/// Whether `n` pages can be allocated one after the other from the normal
/// zone `z`.
pub open spec fn can_alloc_pages(z: Seq<Level>, n: nat) -> bool
    decreases n,
{
    n == 0 || (has_capacity(z, 0) && can_alloc_pages(alloc_spec(z, 0).0, (n - 1) as nat))
}

/// The normal zone `z` after `n` page allocations.
pub open spec fn zone_after_allocs(z: Seq<Level>, n: nat) -> Seq<Level>
    decreases n,
{
    if n == 0 {
        z
    } else {
        zone_after_allocs(alloc_spec(z, 0).0, (n - 1) as nat)
    }
}

/// The page structures `t` after `n` pages were allocated from the normal
/// zone `z`, each getting a fresh structure.
pub open spec fn table_after_allocs(t: Seq<VmPage>, z: Seq<Level>, n: nat) -> Seq<VmPage>
    decreases n,
{
    if n == 0 {
        t
    } else {
        let p = zone_next_page(z);
        table_after_allocs(t.update(page_no(p), fresh_page(p)), alloc_spec(z, 0).0, (n - 1) as nat)
    }
}

/// The mappings asked for the pages from `va` on, whose current physical
/// pages are `mapped`: every page with none (0) is mapped with `flags`, to
/// the next page allocated from the normal zone `z` when `alloc`, else to
/// the page at the same distance from `pa`.
pub open spec fn map_ops(z: Seq<Level>, alloc: bool, va: int, pa: int, flags: usize, mapped: Seq<usize>) -> Seq<
    PmapOp,
>
    decreases mapped.len(),
{
    if mapped.len() == 0 {
        seq![]
    } else if mapped[0] != 0 {
        map_ops(z, alloc, va + PAGE_SIZE, pa + PAGE_SIZE, flags, mapped.drop_first())
    } else if alloc {
        seq![PmapOp::MapPage { vaddr: va as usize, paddr: zone_next_page(z), flags }] + map_ops(
            alloc_spec(z, 0).0,
            alloc,
            va + PAGE_SIZE,
            pa + PAGE_SIZE,
            flags,
            mapped.drop_first(),
        )
    } else {
        seq![PmapOp::MapPage { vaddr: va as usize, paddr: pa as usize, flags }] + map_ops(
            z,
            alloc,
            va + PAGE_SIZE,
            pa + PAGE_SIZE,
            flags,
            mapped.drop_first(),
        )
    }
}

/// Whether `op` maps a page with `flags`.
pub open spec fn maps_with(op: PmapOp, flags: usize) -> bool {
    op matches PmapOp::MapPage { flags: f, .. } && f == flags
}

/// The address `op` maps at, when it maps a page.
pub open spec fn mapped_vaddr(op: PmapOp) -> usize {
    match op {
        PmapOp::MapPage { vaddr, .. } => vaddr,
        _ => 0,
    }
}

/// `mm_map` asks for one mapping per page that has none, and none for the
/// pages already mapped: each mapping is of an unmapped page, at its
/// address, with the flags given.
pub proof fn lemma_map_ops_unmapped(z: Seq<Level>, alloc: bool, va: int, pa: int, flags: usize, mapped: Seq<usize>)
    ensures
        map_ops(z, alloc, va, pa, flags, mapped).len() == count_unmapped(mapped),
        forall|k: int|
            0 <= k < map_ops(z, alloc, va, pa, flags, mapped).len() ==> maps_with(
                #[trigger] map_ops(z, alloc, va, pa, flags, mapped)[k],
                flags,
            ) && exists|i: int|
                0 <= i < mapped.len() && mapped[i] == 0 && mapped_vaddr(map_ops(z, alloc, va, pa, flags, mapped)[k])
                    == (va + i * PAGE_SIZE) as usize,
    decreases mapped.len(),
{
    if mapped.len() > 0 {
        let z2 = if mapped[0] == 0 && alloc {
            alloc_spec(z, 0).0
        } else {
            z
        };
        let rest = mapped.drop_first();
        lemma_map_ops_unmapped(z2, alloc, va + PAGE_SIZE, pa + PAGE_SIZE, flags, rest);
        let tail = map_ops(z2, alloc, va + PAGE_SIZE, pa + PAGE_SIZE, flags, rest);
        let all = map_ops(z, alloc, va, pa, flags, mapped);
        assert forall|k: int| 0 <= k < all.len() implies maps_with(#[trigger] all[k], flags) && exists|i: int|
            0 <= i < mapped.len() && mapped[i] == 0 && mapped_vaddr(all[k]) == (va + i * PAGE_SIZE) as usize by {
            let t = if mapped[0] != 0 { k } else { k - 1 };
            if mapped[0] == 0 && k == 0 {
                assert(mapped_vaddr(all[0]) == (va + 0 * PAGE_SIZE) as usize);
            } else {
                assert(all[k] == tail[t]);
                assert(maps_with(tail[t], flags));
                let i = choose|i: int|
                    0 <= i < rest.len() && rest[i] == 0 && mapped_vaddr(tail[t]) == (va + PAGE_SIZE + i * PAGE_SIZE) as usize;
                assert(mapped[i + 1] == 0);
                assert(va + PAGE_SIZE + i * PAGE_SIZE == va + (i + 1) * PAGE_SIZE);
            }
        }
    }
}

/// The number of pages `mm_map` walks for `size` bytes at `vaddr`: every
/// page the range touches.
pub open spec fn map_page_count(vaddr: int, size: int) -> int {
    (spec_page_round(vaddr + size) - spec_page_align(vaddr)) / PAGE_SIZE as int
}

/// Maps `size` bytes at `vaddr` to the physical pages from `paddr`, or to
/// newly allocated pages when `paddr` is 0, with `flags`; `mapped` holds
/// the physical page each page of the range is mapped to now, 0 for none.
/// Pages already mapped are left as they are. Returns the mappings to make,
/// in order; the allocated pages get fresh page structures.
pub fn mm_map(
    buddy: &mut BuddyAllocator,
    pages: &mut PageTable,
    paddr: usize,
    vaddr: usize,
    size: usize,
    flags: usize,
    mapped: &Vec<usize>,
) -> (ops: Vec<PmapOp>)
    requires
        vaddr + size + PAGE_SIZE <= usize::MAX,
        mapped@.len() == map_page_count(vaddr as int, size as int),
        paddr != 0 ==> spec_page_align(paddr as int) + map_page_count(vaddr as int, size as int)
            * PAGE_SIZE <= usize::MAX,
        paddr == 0 ==> {
            let z = old(buddy).zone_view(BUDDY_ZONE_NORMAL as int);
            let n = count_unmapped(mapped@);
            &&& old(buddy).inv()
            &&& can_alloc_pages(z, n)
            &&& old(buddy).k_used_mem + n * PAGE_SIZE <= usize::MAX
            &&& spec_zone_offset(BUDDY_ZONE_NORMAL as int) + z[0].bits.len() * BUDDY_MIN_BS
                <= old(pages).pages@.len() * PAGE_SIZE
        },
    ensures
        ({
            let z = old(buddy).zone_view(BUDDY_ZONE_NORMAL as int);
            let n = count_unmapped(mapped@);
            &&& ops@ == map_ops(
                z,
                paddr == 0,
                spec_page_align(vaddr as int),
                spec_page_align(paddr as int),
                flags,
                mapped@,
            )
            &&& paddr != 0 ==> *final(buddy) == *old(buddy) && final(pages).pages@ == old(pages).pages@
            &&& paddr == 0 ==> final(buddy).inv() && final(buddy).zone_view(BUDDY_ZONE_NORMAL as int)
                == zone_after_allocs(z, n) && final(buddy).k_used_mem == old(buddy).k_used_mem + n
                * PAGE_SIZE && final(pages).pages@ == table_after_allocs(old(pages).pages@, z, n)
        }),
{
    let alloc = paddr == 0;
    let endaddr = page_round(vaddr + size);
    let va0 = page_align(vaddr);
    let pa0 = page_align(paddr);
    let nr = (endaddr - va0) / PAGE_SIZE;
    let ghost z0 = buddy.zone_view(BUDDY_ZONE_NORMAL as int);
    let ghost t0 = pages.pages@;
    let ghost n0 = count_unmapped(mapped@);
    let ghost k0 = buddy.k_used_mem;
    let mut ops: Vec<PmapOp> = Vec::new();
    let mut va = va0;
    let mut i: usize = 0;
    proof {
        assert(mapped@.skip(0) == mapped@);
        assert(endaddr >= va0);
        assert(va0 + nr * PAGE_SIZE <= endaddr) by (nonlinear_arith)
            requires
                nr == (endaddr - va0) / 4096,
                va0 <= endaddr,
        ;
    }
    while i < nr
        invariant
            i <= nr,
            nr == mapped@.len(),
            alloc == (paddr == 0),
            va == va0 + i * PAGE_SIZE,
            va0 + nr * PAGE_SIZE <= usize::MAX,
            !alloc ==> pa0 + nr * PAGE_SIZE <= usize::MAX,
            va0 == spec_page_align(vaddr as int),
            pa0 == spec_page_align(paddr as int),
            ops@ + map_ops(
                buddy.zone_view(BUDDY_ZONE_NORMAL as int),
                alloc,
                va as int,
                pa0 + i * PAGE_SIZE,
                flags,
                mapped@.skip(i as int),
            ) == map_ops(z0, alloc, va0 as int, pa0 as int, flags, mapped@),
            !alloc ==> *buddy == *old(buddy) && pages.pages@ == old(pages).pages@,
            alloc ==> {
                let z = buddy.zone_view(BUDDY_ZONE_NORMAL as int);
                let rem = count_unmapped(mapped@.skip(i as int));
                &&& buddy.inv()
                &&& can_alloc_pages(z, rem)
                &&& buddy.k_used_mem + rem * PAGE_SIZE <= usize::MAX
                &&& buddy.k_used_mem + rem * PAGE_SIZE == k0 + n0 * PAGE_SIZE
                &&& spec_zone_offset(BUDDY_ZONE_NORMAL as int) + z[0].bits.len() * BUDDY_MIN_BS
                    <= pages.pages@.len() * PAGE_SIZE
                &&& zone_after_allocs(z, rem) == zone_after_allocs(z0, n0)
                &&& table_after_allocs(pages.pages@, z, rem) == table_after_allocs(t0, z0, n0)
            },
        decreases nr - i,
    {
        let ghost z = buddy.zone_view(BUDDY_ZONE_NORMAL as int);
        let ghost rest = mapped@.skip(i as int);
        proof {
            assert(rest.drop_first() == mapped@.skip(i as int + 1));
            assert(rest[0] == mapped@[i as int]);
        }
        if mapped[i] == 0 {
            let target = if alloc {
                proof {
                    assert(zone_inv(z));
                    lemma_alloc(z, 0);
                }
                mm_page_alloc(buddy, pages)
            } else {
                pa0 + i * PAGE_SIZE
            };
            ops.push(PmapOp::MapPage { vaddr: va, paddr: target, flags });
            proof {
                assert(ops@ + map_ops(
                    buddy.zone_view(BUDDY_ZONE_NORMAL as int),
                    alloc,
                    va + PAGE_SIZE,
                    pa0 + (i + 1) * PAGE_SIZE,
                    flags,
                    mapped@.skip(i as int + 1),
                ) =~= map_ops(z0, alloc, va0 as int, pa0 as int, flags, mapped@));
            }
        } else {
            proof {
                assert(map_ops(z, alloc, va as int, pa0 + i * PAGE_SIZE, flags, rest) == map_ops(
                    z,
                    alloc,
                    va + PAGE_SIZE,
                    pa0 + (i + 1) * PAGE_SIZE,
                    flags,
                    mapped@.skip(i as int + 1),
                ));
            }
        }
        va = va + PAGE_SIZE;
        i = i + 1;
    }
    proof {
        assert(mapped@.skip(nr as int).len() == 0);
        assert(ops@ + map_ops(
            buddy.zone_view(BUDDY_ZONE_NORMAL as int),
            alloc,
            va as int,
            pa0 + nr * PAGE_SIZE,
            flags,
            mapped@.skip(nr as int),
        ) == ops@);
    }
    ops
}

/// Maps region `e` of `space`: `mm_map` over the region, from its physical
/// address and with its flags.
pub fn vm_map(
    space: &VmSpace,
    e: &VmEntry,
    buddy: &mut BuddyAllocator,
    pages: &mut PageTable,
    mapped: &Vec<usize>,
) -> (ops: Vec<PmapOp>)
    requires
        e.base + e.size + PAGE_SIZE <= usize::MAX,
        mapped@.len() == map_page_count(e.base as int, e.size as int),
        e.paddr != 0 ==> spec_page_align(e.paddr as int) + map_page_count(e.base as int, e.size as int)
            * PAGE_SIZE <= usize::MAX,
        e.paddr == 0 ==> {
            let z = old(buddy).zone_view(BUDDY_ZONE_NORMAL as int);
            let n = count_unmapped(mapped@);
            &&& old(buddy).inv()
            &&& can_alloc_pages(z, n)
            &&& old(buddy).k_used_mem + n * PAGE_SIZE <= usize::MAX
            &&& spec_zone_offset(BUDDY_ZONE_NORMAL as int) + z[0].bits.len() * BUDDY_MIN_BS
                <= old(pages).pages@.len() * PAGE_SIZE
        },
    ensures
        ({
            let z = old(buddy).zone_view(BUDDY_ZONE_NORMAL as int);
            let n = count_unmapped(mapped@);
            &&& ops@ == map_ops(
                z,
                e.paddr == 0,
                spec_page_align(e.base as int),
                spec_page_align(e.paddr as int),
                e.flags,
                mapped@,
            )
            &&& e.paddr != 0 ==> *final(buddy) == *old(buddy) && final(pages).pages@ == old(pages).pages@
            &&& e.paddr == 0 ==> final(buddy).inv() && final(buddy).zone_view(BUDDY_ZONE_NORMAL as int)
                == zone_after_allocs(z, n) && final(buddy).k_used_mem == old(buddy).k_used_mem + n
                * PAGE_SIZE && final(pages).pages@ == table_after_allocs(old(pages).pages@, z, n)
        }),
{
    mm_map(buddy, pages, e.paddr, e.base, e.size, e.flags, mapped)
}

} // verus!
