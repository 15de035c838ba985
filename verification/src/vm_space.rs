use vstd::prelude::*;

use crate::mm::{page_align, spec_page_align, PF_EXEC, PF_READ, PF_WRITE};
use crate::vm::{VmAnon, VmEntry, VmObject, VM_COPY, VM_KW, VM_SHARED, VM_UR, VM_UW, VM_UX};

verus! {

/// A virtual memory space: its physical map, by handle, and its regions in
/// address order.
pub struct VmSpace {
    /// Physical memory mapper.
    pub pmap: usize,
    /// The regions of the space.
    pub vm_entries: Vec<VmEntry>,
}

/// Whether the region `e` holds the address `a`.
pub open spec fn entry_contains(e: VmEntry, a: int) -> bool {
    e.base <= a < e.base + e.size
}

/// The first region from `i` on that holds `a`, or the number of regions.
pub open spec fn find_from(es: Seq<VmEntry>, a: int, i: int) -> int
    decreases es.len() - i,
{
    if i < 0 || i >= es.len() {
        es.len() as int
    } else if entry_contains(es[i], a) {
        i
    } else {
        find_from(es, a, i + 1)
    }
}

/// The end of region `e`, in machine arithmetic.
pub open spec fn ent_end(e: VmEntry) -> usize {
    e.base.wrapping_add(e.size)
}

/// The base chosen for a region of `size` bytes after looking at the first
/// `k` regions: the start of the last gap seen that holds it, placed at the
/// gap's top; 0 when none does.
pub open spec fn alloc_scan(es: Seq<VmEntry>, size: usize, k: nat) -> usize
    decreases k,
{
    if k == 0 || k > es.len() {
        0
    } else {
        let prev: usize = if k == 1 { 0 } else { ent_end(es[k - 2]) };
        let cur = es[k - 1];
        if cur.base.wrapping_sub(prev) >= size {
            cur.base.wrapping_sub(size)
        } else {
            alloc_scan(es, size, (k - 1) as nat)
        }
    }
}

/// The end of the region before position `k`, `p0` before the first.
pub open spec fn prev_at(es: Seq<VmEntry>, k: int, p0: usize) -> usize {
    if k == 0 {
        p0
    } else {
        ent_end(es[k - 1])
    }
}

/// Whether a region `[base, end)` goes before the region at `k`.
pub open spec fn fits_before(es: Seq<VmEntry>, base: usize, end: usize, p0: usize, k: int) -> bool {
    base != 0 && es[k].base >= end && prev_at(es, k, p0) <= base
}

/// The first position from `k` on before which `[base, end)` goes, or the
/// number of regions.
pub open spec fn insert_pos(es: Seq<VmEntry>, base: usize, end: usize, p0: usize, k: int) -> int
    decreases es.len() - k,
{
    if k < 0 || k >= es.len() {
        es.len() as int
    } else if fits_before(es, base, end, p0, k) {
        k
    } else {
        insert_pos(es, base, end, p0, k + 1)
    }
}

/// The base a region of `e` gets in a space with regions `es`: its own, or
/// the one the gap scan chooses when its own is 0.
pub open spec fn insert_base(es: Seq<VmEntry>, e: VmEntry) -> usize {
    if e.base == 0 {
        alloc_scan(es, e.size, es.len())
    } else {
        e.base
    }
}

/// The end of the region before the first, as the insertion scan starts.
pub open spec fn insert_p0(es: Seq<VmEntry>, e: VmEntry) -> usize {
    if e.base == 0 && es.len() > 0 {
        ent_end(es.last())
    } else {
        0
    }
}

/// A request to drop write permission from the pages in `[sva, eva)`,
/// leaving `flags`.
#[derive(Clone, Copy, Debug, PartialEq, Eq, Structural)]
pub struct PmapProtect {
    pub sva: usize,
    pub eva: usize,
    pub flags: usize,
}

/// Whether a region is writable and private, so that a fork makes its
/// pages read-only.
pub open spec fn cow_entry(e: VmEntry) -> bool {
    e.flags & (VM_UW | VM_KW) != 0 && e.flags & VM_SHARED == 0
}

/// The protection requests a fork makes for the regions `es`, in order.
pub open spec fn fork_protects(es: Seq<VmEntry>) -> Seq<PmapProtect>
    decreases es.len(),
{
    if es.len() == 0 {
        seq![]
    } else {
        let e = es.last();
        fork_protects(es.drop_last()) + (if cow_entry(e) {
            seq![PmapProtect { sva: e.base, eva: ent_end(e), flags: e.flags & !(VM_UW | VM_KW) }]
        } else {
            seq![]
        })
    }
}

/// How many of the regions `es` use anon `a`.
pub open spec fn count_anon(es: Seq<VmEntry>, a: int) -> nat
    decreases es.len(),
{
    if es.len() == 0 {
        0
    } else {
        count_anon(es.drop_last(), a) + if es.last().vm_anon matches Some(h) && h == a {
            1nat
        } else {
            0nat
        }
    }
}

/// How many of the regions `es` use object `o`.
pub open spec fn count_object(es: Seq<VmEntry>, o: int) -> nat
    decreases es.len(),
{
    if es.len() == 0 {
        0
    } else {
        count_object(es.drop_last(), o) + if es.last().vm_object matches Some(h) && h == o {
            1nat
        } else {
            0nat
        }
    }
}

/// The handles of the regions `es` name entries of tables of `na` anons and
/// `no` objects.
pub open spec fn handles_in(es: Seq<VmEntry>, na: int, no: int) -> bool {
    forall|i: int|
        0 <= i < es.len() ==> (#[trigger] es[i].vm_anon matches Some(a) ==> a < na) && (
        es[i].vm_object matches Some(o) ==> o < no)
}

/// Anon `x` after the fork of the regions `es`: one more reference per
/// region that uses it, and marked copy-on-write when any does.
pub open spec fn forked_anon_ok(n: VmAnon, o: VmAnon, es: Seq<VmEntry>, x: int) -> bool {
    &&& n.refcnt == o.refcnt + count_anon(es, x)
    &&& n.flags == (if count_anon(es, x) > 0 { o.flags | VM_COPY } else { o.flags })
    &&& n.arefs == o.arefs
}

/// Object `x` after the fork of the regions `es`: one more reference per
/// region that uses it.
pub open spec fn forked_object_ok(n: VmObject, o: VmObject, es: Seq<VmEntry>, x: int) -> bool {
    &&& n.refcnt == o.refcnt + count_object(es, x)
    &&& n.pages@ == o.pages@
    &&& n.objtype == o.objtype
    &&& n.pager == o.pager
}

proof fn lemma_copy_flag_idem(f: usize)
    ensures
        (f | VM_COPY) | VM_COPY == f | VM_COPY,
{
    assert((f | 0x200usize) | 0x200usize == f | 0x200usize) by (bit_vector);
}

impl VmSpace {
    /// The region holding the page of `vaddr`: the first region whose range
    /// holds the page-aligned address.
    pub fn find(&self, vaddr: usize) -> (r: Option<&VmEntry>)
        ensures
            ({
                let k = find_from(self.vm_entries@, spec_page_align(vaddr as int), 0);
                &&& (k == self.vm_entries.len()) <==> r is None
                &&& r matches Some(e) ==> *e == self.vm_entries@[k]
            }),
    {
        let a = page_align(vaddr);
        let mut i: usize = 0;
        while i < self.vm_entries.len()
            invariant
                i <= self.vm_entries.len(),
                a == spec_page_align(vaddr as int),
                find_from(self.vm_entries@, a as int, 0) == find_from(
                    self.vm_entries@,
                    a as int,
                    i as int,
                ),
            decreases self.vm_entries.len() - i,
        {
            let e = &self.vm_entries[i];
            if a >= e.base && a - e.base < e.size {
                return Some(e);
            }
            i = i + 1;
        }
        None
    }

    /// Inserts the region `vm_entry` in the space; 0 on success, -1 when no
    /// place is found.
    ///
    /// A region with base 0 is placed: each region in turn whose gap from
    /// the previous region's end holds the size moves the base to the top of
    /// that gap, so the last such gap wins. The region then goes before the
    /// first region that starts at or after its end and whose predecessor
    /// ends at or before its base; for the first region the predecessor's
    /// end is 0, or, for a placed region, the end of the last region. With
    /// no such region, or a base that is still 0, nothing is inserted. The
    /// chosen base is written back to `vm_entry` either way.
    pub fn insert(&mut self, vm_entry: &mut VmEntry) -> (r: isize)
        ensures
            ({
                let es = old(self).vm_entries@;
                let e = *old(vm_entry);
                let base = insert_base(es, e);
                let ne = VmEntry { base, ..e };
                let pos = insert_pos(es, base, base.wrapping_add(e.size), insert_p0(es, e), 0);
                &&& *final(vm_entry) == ne
                &&& final(self).pmap == old(self).pmap
                &&& pos == es.len() ==> r == -1 && final(self).vm_entries@ == es
                &&& pos < es.len() ==> r == 0 && final(self).vm_entries@ == es.insert(pos, ne)
                &&& r == 0 && space_wf(es) && base + e.size <= usize::MAX ==> space_wf(
                    final(self).vm_entries@,
                ) && base != 0
            }),
    {
        let ghost es = self.vm_entries@;
        let ghost e0 = *vm_entry;
        let len = self.vm_entries.len();
        let alloc = vm_entry.base == 0;
        let size = vm_entry.size;
        let mut prev_end: usize = 0;
        if alloc {
            let mut i: usize = 0;
            while i < len
                invariant
                    len == es.len(),
                    self.vm_entries@ == es,
                    i <= len,
                    vm_entry.size == size,
                    *vm_entry == (VmEntry { base: alloc_scan(es, size, i as nat), ..e0 }),
                    prev_end == (if i == 0 { 0 } else { ent_end(es[i - 1]) }),
                decreases len - i,
            {
                let cur = self.vm_entries[i];
                if cur.base.wrapping_sub(prev_end) >= size {
                    vm_entry.base = cur.base.wrapping_sub(size);
                }
                prev_end = cur.base.wrapping_add(cur.size);
                i = i + 1;
            }
        }
        let base = vm_entry.base;
        let end = base.wrapping_add(size);
        let ghost p0 = prev_end;
        assert(p0 == insert_p0(es, e0));
        assert(base == insert_base(es, e0));
        let mut pos = len;
        let mut i: usize = 0;
        while i < len
            invariant_except_break
                pos == len,
            invariant
                len == es.len(),
                self.vm_entries@ == es,
                i <= len,
                prev_end == prev_at(es, i as int, p0),
                insert_pos(es, base, end, p0, 0) == insert_pos(es, base, end, p0, i as int),
            ensures
                self.vm_entries@ == es,
                pos == insert_pos(es, base, end, p0, 0),
            decreases len - i,
        {
            let cur = self.vm_entries[i];
            if base != 0 && cur.base >= end && prev_end <= base {
                pos = i;
                break;
            }
            prev_end = cur.base.wrapping_add(cur.size);
            i = i + 1;
        }
        if pos == len {
            return -1;
        }
        proof {
            lemma_insert_pos_range(es, base, end, p0, 0);
            if space_wf(es) && base + size <= usize::MAX {
                lemma_insert_keeps_order(es, e0);
            }
        }
        self.vm_entries.insert(pos, *vm_entry);
        0
    }

    /// Copies the regions of the space into `dst` for a forked process.
    ///
    /// Each anon and object that a region uses gains a reference per such
    /// region, and each such anon is marked copy-on-write. The protection
    /// requests that make the writable private regions read-only are
    /// returned, in region order.
    pub fn fork(
        &self,
        dst: &mut VmSpace,
        anons: &mut Vec<VmAnon>,
        objects: &mut Vec<VmObject>,
    ) -> (protects: Vec<PmapProtect>)
        requires
            handles_in(self.vm_entries@, old(anons)@.len() as int, old(objects)@.len() as int),
            forall|x: int|
                0 <= x < old(anons)@.len() ==> #[trigger] old(anons)@[x].refcnt + count_anon(
                    self.vm_entries@,
                    x,
                ) <= usize::MAX,
            forall|x: int|
                0 <= x < old(objects)@.len() ==> #[trigger] old(objects)@[x].refcnt
                    + count_object(self.vm_entries@, x) <= usize::MAX,
        ensures
            final(dst).vm_entries@ == old(dst).vm_entries@ + self.vm_entries@,
            final(dst).pmap == old(dst).pmap,
            final(anons)@.len() == old(anons)@.len(),
            forall|x: int|
                0 <= x < old(anons)@.len() ==> forked_anon_ok(
                    #[trigger] final(anons)@[x],
                    old(anons)@[x],
                    self.vm_entries@,
                    x,
                ),
            final(objects)@.len() == old(objects)@.len(),
            forall|x: int|
                0 <= x < old(objects)@.len() ==> forked_object_ok(
                    #[trigger] final(objects)@[x],
                    old(objects)@[x],
                    self.vm_entries@,
                    x,
                ),
            protects@ == fork_protects(self.vm_entries@),
    {
        let ghost es = self.vm_entries@;
        let ghost a0 = anons@;
        let ghost o0 = objects@;
        let ghost d0 = dst.vm_entries@;
        let mut protects: Vec<PmapProtect> = Vec::new();
        let mut i: usize = 0;
        while i < self.vm_entries.len()
            invariant
                es == self.vm_entries@,
                i <= es.len(),
                handles_in(es, a0.len() as int, o0.len() as int),
                forall|x: int|
                    0 <= x < a0.len() ==> #[trigger] a0[x].refcnt + count_anon(es, x) <= usize::MAX,
                forall|x: int|
                    0 <= x < o0.len() ==> #[trigger] o0[x].refcnt + count_object(es, x)
                        <= usize::MAX,
                dst.vm_entries@ == d0 + es.take(i as int),
                dst.pmap == old(dst).pmap,
                anons@.len() == a0.len(),
                forall|x: int|
                    0 <= x < a0.len() ==> forked_anon_ok(
                        #[trigger] anons@[x],
                        a0[x],
                        es.take(i as int),
                        x,
                    ),
                objects@.len() == o0.len(),
                forall|x: int|
                    0 <= x < o0.len() ==> forked_object_ok(
                        #[trigger] objects@[x],
                        o0[x],
                        es.take(i as int),
                        x,
                    ),
                protects@ == fork_protects(es.take(i as int)),
            decreases es.len() - i,
        {
            let e = self.vm_entries[i];
            let ghost pre = es.take(i as int);
            proof {
                assert(es.take(i as int + 1).drop_last() == pre);
                assert(es.take(i as int + 1).last() == e);
                if let Some(a) = e.vm_anon {
                    lemma_count_le(es, i as int + 1, a as int);
                }
                if let Some(o) = e.vm_object {
                    lemma_count_le(es, i as int + 1, o as int);
                }
            }
            dst.vm_entries.push(e);
            let ghost an_pre = anons@;
            let ghost ob_pre = objects@;
            match e.vm_anon {
                Some(a) => {
                    let ghost prev = anons@[a as int];
                    proof {
                        lemma_copy_flag_idem(prev.flags);
                    }
                    anons[a].flags = anons[a].flags | VM_COPY;
                    anons[a].incref();
                },
                None => {},
            }
            match e.vm_object {
                Some(o) => {
                    objects[o].incref();
                },
                None => {},
            }
            proof {
                let t1 = es.take(i as int + 1);
                assert forall|x: int| 0 <= x < a0.len() implies forked_anon_ok(
                    #[trigger] anons@[x],
                    a0[x],
                    t1,
                    x,
                ) by {
                    assert(forked_anon_ok(an_pre[x], a0[x], pre, x));
                    assert(count_anon(t1, x) == count_anon(pre, x) + if t1.last().vm_anon matches Some(
                        h,
                    ) && h == x {
                        1nat
                    } else {
                        0nat
                    });
                    lemma_copy_flag_idem(a0[x].flags);
                    if e.vm_anon matches Some(h) && h == x {
                        assert(anons@[x].refcnt == an_pre[x].refcnt + 1);
                    } else {
                        assert(anons@[x] == an_pre[x]);
                    }
                }
                assert forall|x: int| 0 <= x < o0.len() implies forked_object_ok(
                    #[trigger] objects@[x],
                    o0[x],
                    t1,
                    x,
                ) by {
                    assert(forked_object_ok(ob_pre[x], o0[x], pre, x));
                    assert(count_object(t1, x) == count_object(pre, x) + if t1.last().vm_object
                        matches Some(h) && h == x {
                        1nat
                    } else {
                        0nat
                    });
                    if e.vm_object matches Some(h) && h == x {
                        assert(objects@[x].refcnt == ob_pre[x].refcnt + 1);
                    } else {
                        assert(objects@[x] == ob_pre[x]);
                    }
                }
            }
            if e.flags & (VM_UW | VM_KW) != 0 && e.flags & VM_SHARED == 0 {
                protects.push(
                    PmapProtect {
                        sva: e.base,
                        eva: e.base.wrapping_add(e.size),
                        flags: e.flags & !(VM_UW | VM_KW),
                    },
                );
            }
            i = i + 1;
            proof {
                assert(dst.vm_entries@ == d0 + es.take(i as int));
            }
        }
        proof {
            assert(es.take(es.len() as int) == es);
        }
        protects
    }
}

proof fn lemma_insert_pos_range(es: Seq<VmEntry>, base: usize, end: usize, p0: usize, k: int)
    requires
        0 <= k,
    ensures
        insert_pos(es, base, end, p0, k) <= es.len(),
    decreases es.len() - k,
{
    if k < es.len() && !fits_before(es, base, end, p0, k) {
        lemma_insert_pos_range(es, base, end, p0, k + 1);
    }
}

/// The uses of anon or object `x` counted over a prefix of the regions are
/// at most those over all of them.
proof fn lemma_count_le(es: Seq<VmEntry>, k: int, x: int)
    requires
        0 <= k <= es.len(),
    ensures
        count_anon(es.take(k), x) <= count_anon(es, x),
        count_object(es.take(k), x) <= count_object(es, x),
    decreases es.len() - k,
{
    if k < es.len() {
        lemma_count_le(es, k + 1, x);
        assert(es.take(k + 1).drop_last() == es.take(k));
    } else {
        assert(es.take(k) == es);
    }
}

/// The regions are sorted by base and pairwise disjoint as ranges
/// `[base, base + size)`, and none runs past the end of the address space.
pub open spec fn space_wf(es: Seq<VmEntry>) -> bool {
    &&& forall|i: int| 0 <= i < es.len() ==> #[trigger] es[i].base + es[i].size <= usize::MAX
    &&& forall|i: int, j: int|
        0 <= i < j < es.len() ==> #[trigger] es[i].base + es[i].size <= #[trigger] es[j].base
}

proof fn lemma_insert_pos_fits(es: Seq<VmEntry>, base: usize, end: usize, p0: usize, k: int)
    requires
        0 <= k,
        insert_pos(es, base, end, p0, k) < es.len(),
    ensures
        k <= insert_pos(es, base, end, p0, k),
        fits_before(es, base, end, p0, insert_pos(es, base, end, p0, k)),
    decreases es.len() - k,
{
    if k < es.len() && !fits_before(es, base, end, p0, k) {
        lemma_insert_pos_fits(es, base, end, p0, k + 1);
    }
}

proof fn lemma_find_from_at(es: Seq<VmEntry>, a: int, i: int, k: int)
    requires
        0 <= i <= k < es.len(),
        entry_contains(es[k], a),
        forall|j: int| i <= j < k ==> !entry_contains(#[trigger] es[j], a),
    ensures
        find_from(es, a, i) == k,
    decreases k - i,
{
    if i < k {
        lemma_find_from_at(es, a, i + 1, k);
    }
}

/// Inserting a region into a space whose regions are sorted by base and
/// pairwise disjoint keeps them so, when the region fits in the address
/// space: the region lands at a nonzero base, its own when it had one,
/// between the regions that end before it and those that start after it.
pub proof fn lemma_insert_keeps_order(es: Seq<VmEntry>, e: VmEntry)
    requires
        space_wf(es),
        insert_base(es, e) + e.size <= usize::MAX,
        insert_pos(
            es,
            insert_base(es, e),
            insert_base(es, e).wrapping_add(e.size),
            insert_p0(es, e),
            0,
        ) < es.len(),
    ensures
        ({
            let base = insert_base(es, e);
            let pos = insert_pos(es, base, base.wrapping_add(e.size), insert_p0(es, e), 0);
            let es2 = es.insert(pos, VmEntry { base, ..e });
            &&& base != 0
            &&& e.base != 0 ==> base == e.base
            &&& forall|i: int| 0 <= i < pos ==> #[trigger] es[i].base + es[i].size <= base
            &&& forall|i: int| pos <= i < es.len() ==> base + e.size <= #[trigger] es[i].base
            &&& space_wf(es2)
        }),
{
    let base = insert_base(es, e);
    let end = base.wrapping_add(e.size);
    let p0 = insert_p0(es, e);
    let pos = insert_pos(es, base, end, p0, 0);
    let ne = VmEntry { base, ..e };
    let es2 = es.insert(pos, ne);
    lemma_insert_pos_fits(es, base, end, p0, 0);
    assert(end == base + e.size);
    assert(es[pos].base >= base + e.size);
    assert(pos > 0 ==> es[pos - 1].base + es[pos - 1].size <= base);
    assert forall|i: int| 0 <= i < pos implies #[trigger] es[i].base + es[i].size <= base by {
        if i < pos - 1 {
            assert(es[i].base + es[i].size <= es[pos - 1].base);
        }
    }
    assert forall|i: int| pos <= i < es.len() implies base + e.size <= #[trigger] es[i].base by {
        if i > pos {
            assert(es[pos].base + es[pos].size <= es[i].base);
        }
    }
    assert forall|i: int| 0 <= i < es2.len() implies #[trigger] es2[i].base + es2[i].size <= usize::MAX by {
        if i < pos {
            assert(es2[i] == es[i]);
        } else if i > pos {
            assert(es2[i] == es[i - 1]);
        }
    }
    assert forall|i: int, j: int| 0 <= i < j < es2.len() implies #[trigger] es2[i].base + es2[i].size
        <= #[trigger] es2[j].base by {
        if j < pos {
            assert(es2[i] == es[i] && es2[j] == es[j]);
        } else if j == pos {
            assert(es2[i] == es[i]);
        } else if i > pos {
            assert(es2[i] == es[i - 1] && es2[j] == es[j - 1]);
        } else if i == pos {
            assert(es2[j] == es[j - 1]);
        } else {
            assert(es2[i] == es[i] && es2[j] == es[j - 1]);
        }
    }
}

/// In a well-formed space, a region of positive size that `insert` places
/// leaves the space well formed, and looking up its base finds it.
pub proof fn lemma_insert_find(es: Seq<VmEntry>, e: VmEntry)
    requires
        space_wf(es),
        e.size > 0,
        insert_base(es, e) + e.size <= usize::MAX,
        insert_pos(
            es,
            insert_base(es, e),
            insert_base(es, e).wrapping_add(e.size),
            insert_p0(es, e),
            0,
        ) < es.len(),
    ensures
        ({
            let base = insert_base(es, e);
            let pos = insert_pos(es, base, base.wrapping_add(e.size), insert_p0(es, e), 0);
            let es2 = es.insert(pos, VmEntry { base, ..e });
            &&& space_wf(es2)
            &&& find_from(es2, base as int, 0) == pos
        }),
{
    let base = insert_base(es, e);
    let end = base.wrapping_add(e.size);
    let p0 = insert_p0(es, e);
    let pos = insert_pos(es, base, end, p0, 0);
    let es2 = es.insert(pos, VmEntry { base, ..e });
    lemma_insert_keeps_order(es, e);
    assert forall|j: int| 0 <= j < pos implies !entry_contains(#[trigger] es2[j], base as int) by {
        assert(es2[j] == es[j]);
        assert(es[j].base + es[j].size <= base);
    }
    lemma_insert_pos_fits(es, base, end, p0, 0);
    lemma_find_from_at(es2, base as int, 0, pos);
}

/// 1 when an access with fault flags `flags` breaks the user permissions
/// `vm_flags` (a read, write or execute the region does not allow), 0
/// otherwise.
pub fn check_violation(flags: usize, vm_flags: usize) -> (r: isize)
    ensures
        r == (if (flags & PF_READ != 0 && vm_flags & VM_UR == 0) || (flags & PF_WRITE != 0
            && vm_flags & VM_UW == 0) || (flags & PF_EXEC != 0 && vm_flags & VM_UX == 0) {
            1isize
        } else {
            0isize
        }),
{
    if (flags & PF_READ != 0 && vm_flags & VM_UR == 0) || (flags & PF_WRITE != 0 && vm_flags & VM_UW
        == 0) || (flags & PF_EXEC != 0 && vm_flags & VM_UX == 0) {
        1
    } else {
        0
    }
}

} // verus!
