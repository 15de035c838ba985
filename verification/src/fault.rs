use vstd::prelude::*;

use crate::buddy::{alloc_spec, lemma_alloc, zone_inv, BuddyAllocator, BUDDY_ZONE_NORMAL};
use crate::mm::PAGE_SIZE;
use crate::pages::{can_alloc_page, mm_page_alloc, next_page, page_no, PageTable, VmPage};
use crate::vm::{
    acquire, arefs_in, arefs_seq, VM_UR, distinct_offsets, pages_map, pairs_insert, pairs_lookup, VmAnon,
    VmAref, VmEntry, VmObject, VM_COPY, VM_KW, VM_PERM, VM_UW,
};
use crate::mm::PF_WRITE;
use crate::vm_space::{
    check_violation, count_anon, count_object, entry_contains, find_from, forked_anon_ok, forked_object_ok,
    VmSpace,
};
use crate::mm::{page_align, spec_page_align, PF_EXEC, PF_PRESENT, PF_READ};
use crate::vm::VM_UX;

verus! {

/// The memory state the fault handlers work on: the page allocator, the
/// page structures, and the tables of anons, arefs and objects.
pub struct Mm {
    pub buddy: BuddyAllocator,
    pub pages: PageTable,
    pub anons: Vec<VmAnon>,
    pub arefs: Vec<VmAref>,
    pub objects: Vec<VmObject>,
}

/// An operation on the physical map that a fault handler asks for.
#[derive(Clone, Copy, Debug, PartialEq, Eq, Structural)]
pub enum PmapOp {
    /// Map the page `paddr` at `vaddr` with `flags`.
    MapPage { vaddr: usize, paddr: usize, flags: usize },
    /// Set the permissions of `[sva, eva)` to `flags`.
    ProtectRange { sva: usize, eva: usize, flags: usize },
    /// Copy the page `src` into the page `dst`.
    CopyPage { src: usize, dst: usize },
    /// Fill the page mapped at `vaddr` with zeroes.
    ZeroPage { vaddr: usize },
}

impl VmEntry {
    /// Releases what region `self` holds: its anon and its object each lose
    /// a reference; an anon losing its last one is destroyed, and the pages
    /// of its arefs that lose their last reference are returned, to be
    /// freed.
    pub fn destroy(&self, mm: &mut Mm) -> (freed: Vec<usize>)
        requires
            self.vm_anon matches Some(a) ==> a < old(mm).anons@.len() && old(mm).anons@[a as int].refcnt > 0
                && (old(mm).anons@[a as int].refcnt == 1 ==> arefs_in(old(mm).arefs@, arefs_seq(old(mm).anons@[a as int].arefs))
                && forall|k: int| 0 <= k < arefs_seq(old(mm).anons@[a as int].arefs).len()
                    ==> old(mm).arefs@[#[trigger] arefs_seq(old(mm).anons@[a as int].arefs)[k].1 as int].refcnt >= 1),
            self.vm_object matches Some(o) ==> o < old(mm).objects@.len() && old(mm).objects@[o as int].refcnt > 0,
        ensures
            final(mm).anons@.len() == old(mm).anons@.len(),
            final(mm).objects@.len() == old(mm).objects@.len(),
            final(mm).pages.pages@ == old(mm).pages.pages@,
            final(mm).buddy == old(mm).buddy,
            match self.vm_anon {
                None => final(mm).anons@ == old(mm).anons@ && final(mm).arefs@ == old(mm).arefs@ && freed@.len() == 0,
                Some(a) => {
                    let an = old(mm).anons@[a as int];
                    &&& forall|x: int| 0 <= x < old(mm).anons@.len() && x != a ==> #[trigger] final(mm).anons@[x] == old(mm).anons@[x]
                    &&& final(mm).anons@[a as int].refcnt == an.refcnt - 1
                    &&& final(mm).anons@[a as int].flags == an.flags
                    &&& an.refcnt > 1 ==> final(mm).anons@[a as int].arefs == an.arefs && final(mm).arefs@ == old(mm).arefs@
                        && freed@.len() == 0
                    &&& an.refcnt == 1 ==> final(mm).anons@[a as int].arefs is None
                        && final(mm).arefs@ == crate::vm::release(old(mm).arefs@, arefs_seq(an.arefs))
                        && freed@ == crate::vm::freed_pages(old(mm).arefs@, arefs_seq(an.arefs))
                },
            },
            match self.vm_object {
                None => final(mm).objects@ == old(mm).objects@,
                Some(o) => {
                    &&& forall|x: int| 0 <= x < old(mm).objects@.len() && x != o ==> #[trigger] final(mm).objects@[x] == old(mm).objects@[x]
                    &&& final(mm).objects@[o as int].refcnt == old(mm).objects@[o as int].refcnt - 1
                    &&& final(mm).objects@[o as int].pages@ == old(mm).objects@[o as int].pages@
                    &&& final(mm).objects@[o as int].objtype == old(mm).objects@[o as int].objtype
                    &&& final(mm).objects@[o as int].pager == old(mm).objects@[o as int].pager
                },
            },
    {
        let mut freed: Vec<usize> = Vec::new();
        match self.vm_anon {
            Some(a) => {
                freed = mm.anons[a].decref(&mut mm.arefs);
            },
            None => {},
        }
        match self.vm_object {
            Some(o) => {
                mm.objects[o].decref();
            },
            None => {},
        }
        freed
    }
}

/// The anons and arefs after region `e` gives up its anon, with the pages
/// freed: the anon loses a reference; losing its last, it drops its table
/// and its arefs lose one each, the pages of those losing their last being
/// freed.
pub open spec fn release_anon(anons: Seq<VmAnon>, arefs: Seq<VmAref>, e: VmEntry) -> (Seq<VmAnon>, Seq<VmAref>, Seq<usize>) {
    match e.vm_anon {
        None => (anons, arefs, seq![]),
        Some(a) => {
            let an = anons[a as int];
            if an.refcnt > 1 {
                (anons.update(a as int, VmAnon { refcnt: (an.refcnt - 1) as usize, ..an }), arefs, seq![])
            } else {
                (
                    anons.update(a as int, VmAnon { refcnt: (an.refcnt - 1) as usize, arefs: None, ..an }),
                    crate::vm::release(arefs, arefs_seq(an.arefs)),
                    crate::vm::freed_pages(arefs, arefs_seq(an.arefs)),
                )
            }
        },
    }
}

/// Whether region `e` can give up its anon: the anon exists and is
/// referenced, and when this is its last reference its arefs are distinct
/// entries of the table, each referenced.
pub open spec fn anon_releasable(anons: Seq<VmAnon>, arefs: Seq<VmAref>, e: VmEntry) -> bool {
    e.vm_anon matches Some(a) ==> {
        let an = anons[a as int];
        &&& a < anons.len()
        &&& an.refcnt > 0
        &&& an.refcnt == 1 ==> arefs_in(arefs, arefs_seq(an.arefs)) && forall|k: int|
            0 <= k < arefs_seq(an.arefs).len() ==> arefs[#[trigger] arefs_seq(an.arefs)[k].1 as int].refcnt >= 1
    }
}

/// The anons, the arefs and the freed pages after the regions `es` give up
/// their anons in turn.
pub open spec fn release_all(anons: Seq<VmAnon>, arefs: Seq<VmAref>, es: Seq<VmEntry>) -> (Seq<VmAnon>, Seq<VmAref>, Seq<usize>)
    decreases es.len(),
{
    if es.len() == 0 {
        (anons, arefs, seq![])
    } else {
        let s1 = release_anon(anons, arefs, es[0]);
        let s2 = release_all(s1.0, s1.1, es.drop_first());
        (s2.0, s2.1, s1.2 + s2.2)
    }
}

/// Whether the regions `es` can give up their anons in turn.
pub open spec fn all_releasable(anons: Seq<VmAnon>, arefs: Seq<VmAref>, es: Seq<VmEntry>) -> bool
    decreases es.len(),
{
    es.len() == 0 || {
        let s1 = release_anon(anons, arefs, es[0]);
        anon_releasable(anons, arefs, es[0]) && all_releasable(s1.0, s1.1, es.drop_first())
    }
}

/// Whether the regions `es` can be released in turn from `m`: their anons
/// can give up a reference each in turn, and their objects exist with a
/// reference for each region that uses them.
pub open spec fn regions_releasable(m: Mm, es: Seq<VmEntry>) -> bool {
    &&& all_releasable(m.anons@, m.arefs@, es)
    &&& forall|i: int|
        0 <= i < es.len() ==> (#[trigger] es[i].vm_object matches Some(o) ==> o < m.objects@.len())
    &&& forall|x: int| 0 <= x < m.objects@.len() ==> #[trigger] m.objects@[x].refcnt >= count_object(es, x)
}

impl VmSpace {
    /// Destroys every region of the space, in order, each giving up its
    /// anon and its object; the space is left with no region. Returns the
    /// pages to free, in order; the physical map is for the caller to clear.
    pub fn destroy(&mut self, mm: &mut Mm) -> (freed: Vec<usize>)
        requires
            regions_releasable(*old(mm), old(self).vm_entries@),
        ensures
            ({
                let r = release_all(old(mm).anons@, old(mm).arefs@, old(self).vm_entries@);
                &&& final(mm).anons@ == r.0
                &&& final(mm).arefs@ == r.1
                &&& freed@ == r.2
            }),
            final(mm).objects@.len() == old(mm).objects@.len(),
            forall|x: int|
                0 <= x < old(mm).objects@.len() ==> (#[trigger] final(mm).objects@[x]).refcnt == old(mm).objects@[x].refcnt
                    - count_object(old(self).vm_entries@, x) && final(mm).objects@[x].pages@ == old(mm).objects@[x].pages@
                    && final(mm).objects@[x].objtype == old(mm).objects@[x].objtype
                    && final(mm).objects@[x].pager == old(mm).objects@[x].pager,
            final(mm).pages.pages@ == old(mm).pages.pages@,
            final(mm).buddy == old(mm).buddy,
            final(self).vm_entries@.len() == 0,
            final(self).pmap == old(self).pmap,
    {
        let ghost es = self.vm_entries@;
        let ghost a0 = mm.anons@;
        let ghost r0 = mm.arefs@;
        let ghost o0 = mm.objects@;
        let mut freed: Vec<usize> = Vec::new();
        let mut i: usize = 0;
        proof {
            assert(es.skip(0) == es);
            assert(es.take(0) =~= Seq::<VmEntry>::empty());
        }
        while i < self.vm_entries.len()
            invariant
                i <= es.len(),
                self.vm_entries@ == es,
                self.pmap == old(self).pmap,
                all_releasable(mm.anons@, mm.arefs@, es.skip(i as int)),
                ({
                    let rc = release_all(mm.anons@, mm.arefs@, es.skip(i as int));
                    let r = release_all(a0, r0, es);
                    &&& rc.0 == r.0
                    &&& rc.1 == r.1
                    &&& freed@ + rc.2 == r.2
                }),
                forall|k: int|
                    0 <= k < es.len() ==> (#[trigger] es[k].vm_object matches Some(o) ==> o < o0.len()),
                mm.objects@.len() == o0.len(),
                forall|x: int|
                    0 <= x < o0.len() ==> #[trigger] o0[x].refcnt >= count_object(es, x),
                forall|x: int|
                    0 <= x < o0.len() ==> (#[trigger] mm.objects@[x]).refcnt == o0[x].refcnt - count_object(
                        es.take(i as int),
                        x,
                    ) && mm.objects@[x].pages@ == o0[x].pages@ && mm.objects@[x].objtype == o0[x].objtype
                        && mm.objects@[x].pager == o0[x].pager,
                mm.pages.pages@ == old(mm).pages.pages@,
                mm.buddy == old(mm).buddy,
            decreases es.len() - i,
        {
            let e = self.vm_entries[i];
            let ghost rest = es.skip(i as int);
            let ghost ma = mm.anons@;
            let ghost mr = mm.arefs@;
            let ghost mo = mm.objects@;
            proof {
                match e.vm_object {
                    Some(o) => {
                        lemma_count_object_mono(es, i as int + 1, o as int);
                        lemma_count_object_prefix(es, i as int + 1, o as int);
                    },
                    None => {},
                }
                assert(rest[0] == e);
                assert(rest.drop_first() == es.skip(i as int + 1));
                assert(es.take(i as int + 1).drop_last() == es.take(i as int));
                assert(es.take(i as int + 1).last() == e);
                match e.vm_object {
                    Some(o) => {
                        lemma_count_object_prefix(es, i as int + 1, o as int);
                        assert(count_object(es.take(i as int + 1), o as int) == count_object(es.take(i as int), o as int) + 1);
                    },
                    None => {},
                }
            }
            let f = e.destroy(mm);
            proof {
                let s1 = release_anon(ma, mr, e);
                assert(mm.anons@ =~= s1.0);
                assert(mm.arefs@ =~= s1.1);
                assert(f@ =~= s1.2);
                assert forall|x: int| 0 <= x < o0.len() implies (#[trigger] mm.objects@[x]).refcnt == o0[x].refcnt - count_object(
                    es.take(i as int + 1),
                    x,
                ) && mm.objects@[x].pages@ == o0[x].pages@ && mm.objects@[x].objtype == o0[x].objtype
                    && mm.objects@[x].pager == o0[x].pager by {
                    assert(es.take(i as int + 1).drop_last() == es.take(i as int));
                }
            }
            let ghost fr = freed@;
            freed.append(&mut f.clone());
            proof {
                assert(freed@ =~= fr + f@);
                assert((fr + f@) + release_all(mm.anons@, mm.arefs@, es.skip(i as int + 1)).2 =~= fr + release_all(ma, mr, rest).2);
            }
            i = i + 1;
        }
        self.vm_entries = Vec::new();
        freed
    }
}

/// A prefix of `es` has no more regions using object `o` than `es`.
proof fn lemma_count_object_mono(es: Seq<VmEntry>, n: int, o: int)
    requires
        0 <= n <= es.len(),
    ensures
        count_object(es.take(n), o) <= count_object(es, o),
    decreases es.len(),
{
    if n < es.len() {
        assert(es.take(n) == es.drop_last().take(n));
        lemma_count_object_mono(es.drop_last(), n, o);
    } else {
        assert(es.take(n) == es);
    }
}

/// Counting from the front: the first region, then the others.
proof fn lemma_count_anon_front(es: Seq<VmEntry>, x: int)
    requires
        es.len() > 0,
    ensures
        count_anon(es, x) == (if es[0].vm_anon matches Some(h) && h == x {
            1nat
        } else {
            0nat
        }) + count_anon(es.drop_first(), x),
    decreases es.len(),
{
    let ind = |e: VmEntry| if e.vm_anon matches Some(h) && h == x {
        1nat
    } else {
        0nat
    };
    assert(count_anon(es, x) == count_anon(es.drop_last(), x) + ind(es.last()));
    if es.len() > 1 {
        lemma_count_anon_front(es.drop_last(), x);
        assert(es.drop_first().drop_last() == es.drop_last().drop_first());
        assert(es.drop_first().last() == es.last());
        assert(es.drop_last()[0] == es[0]);
        assert(count_anon(es.drop_first(), x) == count_anon(es.drop_first().drop_last(), x) + ind(
            es.drop_first().last(),
        ));
    } else {
        assert(es.drop_first().len() == 0);
        assert(es.drop_last().len() == 0);
        assert(count_anon(es.drop_last(), x) == 0);
        assert(count_anon(es.drop_first(), x) == 0);
        assert(es.last() == es[0]);
    }
}

/// Regions whose anons hold, besides theirs, references that stay give up
/// their anons without any anon dropping its table: each anon ends with the
/// references that stay, the arefs are untouched and no page is freed.
proof fn lemma_release_kept(anons: Seq<VmAnon>, arefs: Seq<VmAref>, es: Seq<VmEntry>, base: Seq<int>)
    requires
        base.len() == anons.len(),
        forall|i: int| 0 <= i < es.len() ==> (#[trigger] es[i].vm_anon matches Some(a) ==> a < anons.len()),
        forall|x: int| 0 <= x < anons.len() ==> (#[trigger] anons[x]).refcnt == base[x] + count_anon(es, x),
        forall|x: int| 0 <= x < anons.len() && count_anon(es, x) > 0 ==> #[trigger] base[x] >= 1,
    ensures
        all_releasable(anons, arefs, es),
        release_all(anons, arefs, es).0 == Seq::new(
            anons.len(),
            |x: int| VmAnon { refcnt: base[x] as usize, ..anons[x] },
        ),
        release_all(anons, arefs, es).1 == arefs,
        release_all(anons, arefs, es).2.len() == 0,
    decreases es.len(),
{
    if es.len() == 0 {
        assert(release_all(anons, arefs, es).0 =~= Seq::new(
            anons.len(),
            |x: int| VmAnon { refcnt: base[x] as usize, ..anons[x] },
        ));
    } else {
        let e = es[0];
        let rest = es.drop_first();
        assert forall|x: int| 0 <= x < anons.len() implies count_anon(es, x) == (if e.vm_anon matches Some(h) && h == x {
            1nat
        } else {
            0nat
        }) + count_anon(rest, x) by {
            lemma_count_anon_front(es, x);
        }
        let s1 = release_anon(anons, arefs, e);
        assert forall|i: int| 0 <= i < rest.len() implies (#[trigger] rest[i].vm_anon matches Some(a) ==> a < s1.0.len()) by {
            assert(rest[i] == es[i + 1]);
        }
        match e.vm_anon {
            Some(a) => {
                assert(es[0].vm_anon == Some(a));
                assert(anons[a as int].refcnt == base[a as int] + count_anon(es, a as int));
                assert(anons[a as int].refcnt > 1);
                assert(s1.0 == anons.update(a as int, VmAnon { refcnt: (anons[a as int].refcnt - 1) as usize, ..anons[a as int] }));
            },
            None => {
                assert(s1.0 == anons);
            },
        }
        assert forall|x: int| 0 <= x < s1.0.len() implies (#[trigger] s1.0[x]).refcnt == base[x] + count_anon(rest, x) by {
        }
        assert forall|x: int| 0 <= x < s1.0.len() && count_anon(rest, x) > 0 implies #[trigger] base[x] >= 1 by {
        }
        lemma_release_kept(s1.0, s1.1, rest, base);
        assert(Seq::new(s1.0.len(), |x: int| VmAnon { refcnt: base[x] as usize, ..s1.0[x] }) =~= Seq::new(
            anons.len(),
            |x: int| VmAnon { refcnt: base[x] as usize, ..anons[x] },
        ));
    }
}

/// Destroying the regions a fork copied gives back the references the fork
/// took: from the anons and objects as `VmSpace::fork` leaves them, the
/// copied regions give up their anons and objects with every anon and every
/// object back to the references it had before the fork, no aref touched
/// and no page freed, as long as each anon the regions use held a reference
/// before.
pub proof fn lemma_fork_then_destroy(
    anons: Seq<VmAnon>,
    forked: Seq<VmAnon>,
    arefs: Seq<VmAref>,
    objects: Seq<VmObject>,
    forked_objects: Seq<VmObject>,
    es: Seq<VmEntry>,
)
    requires
        forked.len() == anons.len(),
        forked_objects.len() == objects.len(),
        forall|x: int| 0 <= x < objects.len() ==> forked_object_ok(#[trigger] forked_objects[x], objects[x], es, x),
        forall|i: int| 0 <= i < es.len() ==> (#[trigger] es[i].vm_anon matches Some(a) ==> a < anons.len()),
        forall|x: int| 0 <= x < anons.len() ==> forked_anon_ok(#[trigger] forked[x], anons[x], es, x),
        forall|x: int| 0 <= x < anons.len() && count_anon(es, x) > 0 ==> #[trigger] anons[x].refcnt >= 1,
    ensures
        all_releasable(forked, arefs, es),
        forall|x: int|
            0 <= x < anons.len() ==> (#[trigger] release_all(forked, arefs, es).0[x]).refcnt == anons[x].refcnt
                && release_all(forked, arefs, es).0[x].arefs == anons[x].arefs,
        release_all(forked, arefs, es).0.len() == anons.len(),
        release_all(forked, arefs, es).1 == arefs,
        release_all(forked, arefs, es).2.len() == 0,
        forall|x: int|
            0 <= x < objects.len() ==> (#[trigger] forked_objects[x]).refcnt - count_object(es, x) == objects[x].refcnt
                && forked_objects[x].pages@ == objects[x].pages@,
{
    let base = Seq::new(anons.len(), |x: int| anons[x].refcnt as int);
    assert forall|x: int| 0 <= x < forked.len() && count_anon(es, x) > 0 implies #[trigger] base[x] >= 1 by {
        assert(anons[x].refcnt >= 1);
    }
    assert forall|x: int| 0 <= x < forked.len() implies (#[trigger] forked[x]).refcnt == base[x] + count_anon(es, x) by {
        assert(forked_anon_ok(forked[x], anons[x], es, x));
    }
    lemma_release_kept(forked, arefs, es, base);
    assert forall|x: int| 0 <= x < anons.len() implies (#[trigger] release_all(forked, arefs, es).0[x]).refcnt == anons[x].refcnt
        && release_all(forked, arefs, es).0[x].arefs == anons[x].arefs by {
        assert(forked_anon_ok(forked[x], anons[x], es, x));
    }
}

/// Counting the regions that use object `o` over a longer prefix of `es`
/// counts the new region too.
proof fn lemma_count_object_prefix(es: Seq<VmEntry>, n: int, o: int)
    requires
        0 < n <= es.len(),
    ensures
        count_object(es.take(n), o) == count_object(es.take(n - 1), o) + (if es[n - 1].vm_object
            matches Some(h) && h == o {
            1nat
        } else {
            0nat
        }),
{
    assert(es.take(n).drop_last() == es.take(n - 1));
}

/// The aref table of anon `a` as a map from offset to aref handle.
pub open spec fn anon_map(m: Mm, a: int) -> Map<usize, usize> {
    pages_map(arefs_seq(m.anons@[a].arefs))
}

impl Mm {
    /// Every aref table of an anon has distinct offsets and names arefs of
    /// the table, and every page of an aref is in the page table.
    pub open spec fn wf(&self) -> bool {
        &&& forall|a: int|
            0 <= a < self.anons@.len() ==> ((#[trigger] self.anons@[a]).arefs matches Some(v) ==> {
                &&& distinct_offsets(v@)
                &&& forall|k: int| 0 <= k < v@.len() ==> #[trigger] v@[k].1 < self.arefs@.len()
            })
        &&& forall|h: int|
            0 <= h < self.arefs@.len() ==> ((#[trigger] self.arefs@[h]).vm_page matches Some(p)
                ==> self.pages.covers(p))
    }
}

/// The page structure of a page just allocated for offset `off`, with one
/// reference.
pub open spec fn owned_page(paddr: usize, off: usize) -> VmPage {
    VmPage { paddr, vm_object: None, off, refcnt: 1 }
}

proof fn lemma_map_values_in(v: Seq<(usize, usize)>, n: int, key: usize)
    requires
        distinct_offsets(v),
        forall|k: int| 0 <= k < v.len() ==> #[trigger] v[k].1 < n,
        pages_map(v).dom().contains(key),
    ensures
        pages_map(v)[key] < n,
    decreases v.len(),
{
    if v.len() > 0 {
        if v.last().0 == key {
        } else {
            assert(distinct_offsets(v.drop_last()));
            assert forall|k: int| 0 <= k < v.drop_last().len() implies #[trigger] v.drop_last()[k].1
                < n by {
                assert(v.drop_last()[k] == v[k]);
            }
            lemma_map_values_in(v.drop_last(), n, key);
        }
    }
}

proof fn lemma_map_values_all(v: Seq<(usize, usize)>, n: int)
    requires
        distinct_offsets(v),
        forall|key: usize| #[trigger] pages_map(v).dom().contains(key) ==> pages_map(v)[key] < n,
    ensures
        forall|k: int| 0 <= k < v.len() ==> #[trigger] v[k].1 < n,
{
    assert forall|k: int| 0 <= k < v.len() implies #[trigger] v[k].1 < n by {
        crate::vm::lemma_pages_map_at(v, k);
    }
}

impl Mm {
    /// Handles a fault at `addr`, offset `off` of region `e` of `space`, by
    /// backing the page with a fresh zeroed page.
    ///
    /// The region gets a new anon with one reference when it has none; a
    /// page is allocated for offset `off` with one reference, a new aref
    /// with one reference holds it, and the anon maps `off` to that aref.
    /// The page is mapped kernel-writable at `addr`, zeroed, then given the
    /// region's permissions.
    pub fn pf_zero(&mut self, space: &mut VmSpace, e: usize, addr: usize, off: usize) -> (ops: Vec<PmapOp>)
        requires
            old(self).wf(),
            e < old(space).vm_entries.len(),
            can_alloc_page(old(self).buddy, old(self).pages),
            old(space).vm_entries@[e as int].vm_anon matches Some(a) ==> a < old(self).anons@.len()
                && old(self).anons@[a as int].arefs is Some,
            old(self).anons@.len() < usize::MAX,
            old(self).arefs@.len() < usize::MAX,
            addr + PAGE_SIZE <= usize::MAX,
        ensures
            final(self).wf(),
            ({
                let en = old(space).vm_entries@[e as int];
                let a = match en.vm_anon {
                    Some(a) => a as int,
                    None => old(self).anons@.len() as int,
                };
                let np = next_page(old(self).buddy);
                let h = old(self).arefs@.len();
                &&& en.vm_anon is None ==> final(self).anons@.len() == old(self).anons@.len() + 1
                    && final(self).anons@[a].refcnt == 1 && final(self).anons@[a].flags == 0
                    && pages_map(arefs_seq(final(self).anons@[a].arefs)) == Map::<usize, usize>::empty().insert(off, h as usize)
                    && final(self).anons@.take(a) == old(self).anons@
                &&& en.vm_anon is Some ==> final(self).anons@.len() == old(self).anons@.len()
                    && final(self).anons@[a].refcnt == old(self).anons@[a].refcnt
                    && final(self).anons@[a].flags == old(self).anons@[a].flags
                    && pages_map(arefs_seq(final(self).anons@[a].arefs)) == anon_map(*old(self), a).insert(off, h as usize)
                    && forall|x: int| 0 <= x < old(self).anons@.len() && x != a ==> #[trigger] final(self).anons@[x] == old(self).anons@[x]
                &&& final(self).anons@[a].arefs is Some
                &&& final(space).vm_entries@ == old(space).vm_entries@.update(e as int, VmEntry { vm_anon: Some(a as usize), ..en })
                &&& final(space).pmap == old(space).pmap
                &&& final(self).arefs@ == old(self).arefs@.push(VmAref { vm_page: Some(np), refcnt: 1, flags: 0 })
                &&& final(self).pages.pages@ == old(self).pages.pages@.update(page_no(np), owned_page(np, off))
                &&& final(self).buddy.zone_view(BUDDY_ZONE_NORMAL as int) == alloc_spec(old(self).buddy.zone_view(BUDDY_ZONE_NORMAL as int), 0).0
                &&& final(self).buddy.k_used_mem == old(self).buddy.k_used_mem + PAGE_SIZE
                &&& final(self).objects@ == old(self).objects@
                &&& ops@ == seq![
                    PmapOp::MapPage { vaddr: addr, paddr: np, flags: VM_KW },
                    PmapOp::ZeroPage { vaddr: addr },
                    PmapOp::ProtectRange { sva: addr, eva: (addr + PAGE_SIZE) as usize, flags: en.flags & VM_PERM },
                ]
            }),
    {
        let ghost old_m = *self;
        let en = space.vm_entries[e];
        let a = match en.vm_anon {
            Some(a) => a,
            None => {
                let mut n = VmAnon::new();
                n.refcnt = 1;
                self.anons.push(n);
                self.anons.len() - 1
            },
        };
        space.vm_entries[e].vm_anon = Some(a);
        let np = mm_page_alloc(&mut self.buddy, &mut self.pages);
        self.pages.pages.set(np / PAGE_SIZE, VmPage { paddr: np, vm_object: None, off, refcnt: 1 });
        let h = self.arefs.len();
        self.arefs.push(VmAref { vm_page: Some(np), refcnt: 1, flags: 0 });
        let ghost before = self.anons@[a as int];
        let mut v = match self.anons[a].arefs.take() {
            Some(v) => v,
            None => Vec::new(),
        };
        pairs_insert(&mut v, off, h);
        self.anons[a].arefs = Some(v);
        proof {
            assert(self.pages.covers(np));
            assert forall|x: int| 0 <= x < self.anons@.len() implies ((#[trigger] self.anons@[x]).arefs matches Some(w) ==> {
                &&& distinct_offsets(w@)
                &&& forall|k: int| 0 <= k < w@.len() ==> #[trigger] w@[k].1 < self.arefs@.len()
            }) by {
                if x == a as int {
                    let w = self.anons@[x].arefs.unwrap();
                    assert forall|key: usize| #[trigger] pages_map(w@).dom().contains(key) implies pages_map(w@)[key] < self.arefs@.len() by {
                        if key != off {
                            let ow = arefs_seq(before.arefs);
                            if before.arefs is Some {
                                lemma_map_values_in(ow, old_m.arefs@.len() as int, key);
                            }
                        }
                    }
                    lemma_map_values_all(w@, self.arefs@.len() as int);
                } else {
                    assert(self.anons@[x] == old_m.anons@[x]);
                }
            }
            assert forall|g: int| 0 <= g < self.arefs@.len() implies ((#[trigger] self.arefs@[g]).vm_page matches Some(p) ==> self.pages.covers(p)) by {
                if g < old_m.arefs@.len() {
                    assert(self.arefs@[g] == old_m.arefs@[g]);
                }
            }
        }
        let mut ops: Vec<PmapOp> = Vec::new();
        ops.push(PmapOp::MapPage { vaddr: addr, paddr: np, flags: VM_KW });
        ops.push(PmapOp::ZeroPage { vaddr: addr });
        ops.push(PmapOp::ProtectRange { sva: addr, eva: addr + PAGE_SIZE, flags: en.flags & VM_PERM });
        ops
    }
}

/// The aref that anon `a` holds at offset `off`, if any.
pub open spec fn aref_at(m: Mm, a: int, off: usize) -> Option<usize> {
    if anon_map(m, a).dom().contains(off) {
        Some(anon_map(m, a)[off])
    } else {
        None
    }
}

proof fn lemma_wf_lookup(m: Mm, a: int, off: usize)
    requires
        m.wf(),
        0 <= a < m.anons@.len(),
        m.anons@[a].arefs is Some,
    ensures
        aref_at(m, a, off) matches Some(h) ==> h < m.arefs@.len(),
{
    if aref_at(m, a, off) is Some {
        lemma_map_values_in(arefs_seq(m.anons@[a].arefs), m.arefs@.len() as int, off);
    }
}

impl Mm {
    /// Handles a fault on a page that is mapped but lacks a permission, at
    /// `addr`, offset `off` of region `e` of `space`.
    ///
    /// Only a region whose anon has one reference, and whose aref at `off`
    /// has one reference, is handled (1); otherwise nothing happens (0). An
    /// aref marked copy-on-write gets a fresh copy of its page, mapped with
    /// the region's permissions, and loses the mark, the old page losing a
    /// reference; otherwise the page just gets the region's permissions.
    pub fn pf_present(&mut self, space: &VmSpace, e: usize, addr: usize, off: usize) -> (r: (isize, Vec<PmapOp>))
        requires
            old(self).wf(),
            e < space.vm_entries.len(),
            present_allocates(*old(self), space.vm_entries@[e as int], off) ==> can_alloc_page(old(self).buddy, old(self).pages),
            space.vm_entries@[e as int].vm_anon matches Some(a) ==> a < old(self).anons@.len()
                && old(self).anons@[a as int].arefs is Some
                && (aref_at(*old(self), a as int, off) matches Some(h) ==> (old(self).arefs@[h as int].vm_page matches Some(p)
                    && old(self).pages.pages@[page_no(p)].refcnt > 0)),
            addr + PAGE_SIZE <= usize::MAX,
        ensures
            final(self).wf(),
            ({
                let en = space.vm_entries@[e as int];
                let m = *old(self);
                let a = en.vm_anon.unwrap() as int;
                let h = aref_at(m, a, off).unwrap() as int;
                let handled = en.vm_anon is Some && m.anons@[a].refcnt == 1 && aref_at(m, a, off) is Some
                    && m.arefs@[h].refcnt == 1;
                let ar = m.arefs@[h];
                let p = ar.vm_page.unwrap();
                let np = next_page(m.buddy);
                &&& !handled ==> r.0 == 0 && r.1@.len() == 0 && final(self).arefs@ == m.arefs@
                    && final(self).pages.pages@ == m.pages.pages@ && final(self).buddy == m.buddy
                &&& handled && ar.flags & VM_COPY == 0 ==> r.0 == 1 && r.1@ == seq![PmapOp::ProtectRange {
                    sva: addr,
                    eva: (addr + PAGE_SIZE) as usize,
                    flags: en.flags & VM_PERM,
                }] && final(self).arefs@ == m.arefs@ && final(self).pages.pages@ == m.pages.pages@
                    && final(self).buddy == m.buddy
                &&& handled && ar.flags & VM_COPY != 0 ==> {
                    let pg = m.pages.pages@.update(page_no(np), crate::pages::fresh_page(np));
                    let pg2 = pg.update(page_no(np), owned_page(np, pg[page_no(p)].off));
                    &&& r.0 == 1
                    &&& r.1@ == seq![
                        PmapOp::CopyPage { src: p, dst: np },
                        PmapOp::MapPage { vaddr: addr, paddr: np, flags: en.flags & VM_PERM },
                    ]
                    &&& final(self).pages.pages@ == pg2.update(page_no(p), VmPage { refcnt: (pg2[page_no(p)].refcnt - 1) as usize, ..pg2[page_no(p)] })
                    &&& final(self).arefs@ == m.arefs@.update(h, VmAref { vm_page: Some(np), flags: ar.flags & !VM_COPY, ..ar })
                    &&& final(self).buddy.zone_view(BUDDY_ZONE_NORMAL as int) == alloc_spec(m.buddy.zone_view(BUDDY_ZONE_NORMAL as int), 0).0
                    &&& final(self).buddy.k_used_mem == m.buddy.k_used_mem + PAGE_SIZE
                }
                &&& final(self).anons@ == m.anons@
                &&& final(self).objects@ == m.objects@
            }),
    {
        let en = space.vm_entries[e];
        let a = match en.vm_anon {
            None => {
                return (0, Vec::new());
            },
            Some(a) => a,
        };
        if self.anons[a].refcnt != 1 {
            return (0, Vec::new());
        }
        proof {
            lemma_wf_lookup(*self, a as int, off);
        }
        let h = match &self.anons[a].arefs {
            Some(v) => pairs_lookup(v, off),
            None => None,
        };
        let h = match h {
            None => {
                return (0, Vec::new());
            },
            Some(h) => h,
        };
        if self.arefs[h].refcnt != 1 {
            return (0, Vec::new());
        }
        let mut ops: Vec<PmapOp> = Vec::new();
        let ar = self.arefs[h];
        if ar.flags & VM_COPY != 0 {
            let p = match ar.vm_page {
                Some(p) => p,
                None => {
                    return (0, Vec::new());
                },
            };
            let ghost old_m = *self;
            let np = mm_page_alloc(&mut self.buddy, &mut self.pages);
            proof {
                assert(self.pages.covers(p));
            }
            let poff = self.pages.pages[p / PAGE_SIZE].off;
            self.pages.pages.set(np / PAGE_SIZE, VmPage { paddr: np, vm_object: None, off: poff, refcnt: 1 });
            ops.push(PmapOp::CopyPage { src: p, dst: np });
            self.pages.mm_page_decref(p);
            self.arefs.set(h, VmAref { vm_page: Some(np), flags: ar.flags & !VM_COPY, ..ar });
            ops.push(PmapOp::MapPage { vaddr: addr, paddr: np, flags: en.flags & VM_PERM });
            proof {
                assert forall|g: int| 0 <= g < self.arefs@.len() implies ((#[trigger] self.arefs@[g]).vm_page matches Some(q) ==> self.pages.covers(q)) by {
                    if g != h as int {
                        assert(self.arefs@[g] == old_m.arefs@[g]);
                    }
                }
            }
        } else {
            ops.push(PmapOp::ProtectRange { sva: addr, eva: addr + PAGE_SIZE, flags: en.flags & VM_PERM });
        }
        (1, ops)
    }
}

proof fn lemma_acquire_fields(t: Seq<VmAref>, s: Seq<(usize, usize)>)
    requires
        arefs_in(t, s),
        forall|k: int| 0 <= k < s.len() ==> t[#[trigger] s[k].1 as int].refcnt < usize::MAX,
    ensures
        acquire(t, s).len() == t.len(),
        forall|g: int|
            0 <= g < t.len() ==> (#[trigger] acquire(t, s)[g]).vm_page == t[g].vm_page
                && acquire(t, s)[g].flags == t[g].flags && acquire(t, s)[g].refcnt >= t[g].refcnt,
    decreases s.len(),
{
    if s.len() > 0 {
        assert(arefs_in(t, s.drop_last()));
        lemma_acquire_fields(t, s.drop_last());
        let t1 = acquire(t, s.drop_last());
        let h = s.last().1 as int;
        assert(0 <= h < t1.len());
        assert forall|k: int| 0 <= k < s.drop_last().len() implies s.drop_last()[k].1 != h by {
            assert(s[k].1 != s[s.len() - 1].1);
        }
        crate::vm::lemma_acquire_frame(t, s.drop_last(), h);
        assert(t1[h] == t[h]);
        assert forall|g: int| 0 <= g < t.len() implies (#[trigger] acquire(t, s)[g]).vm_page == t[g].vm_page
            && acquire(t, s)[g].flags == t[g].flags && acquire(t, s)[g].refcnt >= t[g].refcnt by {
            assert(acquire(t, s) == crate::vm::inc_at(t1, h));
            if g == h {
                assert(acquire(t, s)[g].refcnt == t1[g].refcnt + 1);
            } else {
                assert(acquire(t, s)[g] == t1[g]);
            }
        }
    }
}

proof fn lemma_clear_copy(f: usize)
    ensures
        (f & !VM_COPY) & !VM_COPY == f & !VM_COPY,
        f & VM_COPY == 0 ==> f & !VM_COPY == f,
{
    assert((f & !0x200usize) & !0x200usize == f & !0x200usize) by (bit_vector);
    assert(f & 0x200usize == 0 ==> f & !0x200usize == f) by (bit_vector);
}

/// Whether anon `a` must be copied before a fault on it is handled: it is
/// marked copy-on-write and shared.
pub open spec fn anon_shared_copy(m: Mm, a: int) -> bool {
    m.anons@[a].flags & VM_COPY != 0 && m.anons@[a].refcnt > 1
}

impl Mm {
    /// Handles a fault at `addr`, offset `off` of region `e` of `space`,
    /// from the region's anon; `flags` are the fault's flags.
    ///
    /// An anon marked copy-on-write is first copied when shared (the copy,
    /// with the same arefs each gaining a reference, replaces it in the
    /// region, and the old anon loses a reference), and loses the mark.
    /// Without an aref at `off`, nothing more happens (0). A read maps the
    /// aref's page without write permission; a write maps it with the
    /// region's permissions when the aref has one reference; otherwise the
    /// aref loses a reference and the page is copied into a fresh page held
    /// by a new aref, which the anon maps at `off`, and the copy is mapped.
    /// A mapped page gains a reference. Handled faults give 1.
    pub fn pf_anon(&mut self, space: &mut VmSpace, e: usize, flags: usize, addr: usize, off: usize) -> (r: (isize, Vec<PmapOp>))
        requires
            old(self).wf(),
            e < old(space).vm_entries.len(),
            anon_allocates(*old(self), old(space).vm_entries@[e as int], flags, off) ==> can_alloc_page(old(self).buddy, old(self).pages),
            old(space).vm_entries@[e as int].vm_anon matches Some(a) && a < old(self).anons@.len()
                && old(self).anons@[a as int].arefs is Some
                && old(self).anons@[a as int].refcnt > 0
                && arefs_in(old(self).arefs@, arefs_seq(old(self).anons@[a as int].arefs))
                && (forall|k: int| 0 <= k < arefs_seq(old(self).anons@[a as int].arefs).len()
                    ==> old(self).arefs@[#[trigger] arefs_seq(old(self).anons@[a as int].arefs)[k].1 as int].refcnt < usize::MAX - 1)
                && (aref_at(*old(self), a as int, off) matches Some(h) ==> (old(self).arefs@[h as int].vm_page matches Some(p)
                    && old(self).pages.pages@[page_no(p)].refcnt < usize::MAX
                    && old(self).arefs@[h as int].refcnt >= 1)),
            old(self).anons@.len() < usize::MAX,
            old(self).arefs@.len() < usize::MAX,
        ensures
            final(self).wf(),
            final(self).objects@ == old(self).objects@,
            final(space).pmap == old(space).pmap,
            r.0 == 0 ==> final(self).arefs@.len() == old(self).arefs@.len() && final(self).buddy == old(self).buddy
                && final(self).pages.pages@ == old(self).pages.pages@
                && final(self).anons@.len() <= old(self).anons@.len() + 1
                && final(space).vm_entries@.len() == old(space).vm_entries@.len(),
            r.0 == 0 || r.0 == 1,
            ({
                let m = *old(self);
                let en = old(space).vm_entries@[e as int];
                let a0 = en.vm_anon.unwrap() as int;
                let s0 = arefs_seq(m.anons@[a0].arefs);
                let shared = anon_shared_copy(m, a0);
                let a1 = if shared { m.anons@.len() as int } else { a0 };
                let t1 = if shared { acquire(m.arefs@, s0) } else { m.arefs@ };
                let ha = aref_at(m, a0, off);
                let h = ha.unwrap() as int;
                let ar = t1[h];
                let p = ar.vm_page.unwrap();
                let np = next_page(m.buddy);
                let perm = en.flags & VM_PERM;
                &&& shared ==> final(self).anons@.len() == m.anons@.len() + 1
                    && final(self).anons@[a0].refcnt == m.anons@[a0].refcnt - 1
                    && final(self).anons@[a0].flags == m.anons@[a0].flags
                    && final(self).anons@[a0].arefs == m.anons@[a0].arefs
                    && final(self).anons@[a1].refcnt == 1
                    && final(self).anons@[a1].flags == m.anons@[a0].flags & !VM_COPY
                    && final(space).vm_entries@ == old(space).vm_entries@.update(e as int, VmEntry { vm_anon: Some(a1 as usize), ..en })
                &&& !shared ==> final(self).anons@.len() == m.anons@.len()
                    && final(self).anons@[a0].refcnt == m.anons@[a0].refcnt
                    && final(self).anons@[a0].flags == m.anons@[a0].flags & !VM_COPY
                    && final(space).vm_entries@ == old(space).vm_entries@
                &&& forall|x: int| 0 <= x < m.anons@.len() && x != a0 ==> #[trigger] final(self).anons@[x] == m.anons@[x]
                &&& final(self).anons@[a1].arefs is Some
                &&& ha is None ==> r.0 == 0 && r.1@.len() == 0 && final(self).arefs@ == t1
                    && pages_map(arefs_seq(final(self).anons@[a1].arefs)) == pages_map(s0)
                    && final(self).pages.pages@ == m.pages.pages@ && final(self).buddy == m.buddy
                &&& ha is Some && flags & PF_WRITE == 0 ==> r.0 == 1 && r.1@ == seq![PmapOp::MapPage {
                    vaddr: addr,
                    paddr: p,
                    flags: perm & !(VM_UW | VM_KW),
                }] && final(self).arefs@ == t1
                    && pages_map(arefs_seq(final(self).anons@[a1].arefs)) == pages_map(s0)
                    && final(self).pages.pages@ == m.pages.pages@.update(page_no(p), VmPage { refcnt: (m.pages.pages@[page_no(p)].refcnt + 1) as usize, ..m.pages.pages@[page_no(p)] })
                    && final(self).buddy == m.buddy
                &&& ha is Some && flags & PF_WRITE != 0 && ar.refcnt == 1 ==> r.0 == 1 && r.1@ == seq![PmapOp::MapPage {
                    vaddr: addr,
                    paddr: p,
                    flags: perm,
                }] && final(self).arefs@ == t1
                    && pages_map(arefs_seq(final(self).anons@[a1].arefs)) == pages_map(s0)
                    && final(self).pages.pages@ == m.pages.pages@.update(page_no(p), VmPage { refcnt: (m.pages.pages@[page_no(p)].refcnt + 1) as usize, ..m.pages.pages@[page_no(p)] })
                    && final(self).buddy == m.buddy
                &&& ha is Some && flags & PF_WRITE != 0 && ar.refcnt != 1 ==> {
                    let pg = m.pages.pages@.update(page_no(np), crate::pages::fresh_page(np));
                    let nh = m.arefs@.len();
                    &&& r.0 == 1
                    &&& r.1@ == seq![
                        PmapOp::CopyPage { src: p, dst: np },
                        PmapOp::MapPage { vaddr: addr, paddr: np, flags: perm },
                    ]
                    &&& final(self).arefs@ == t1.update(h, VmAref { refcnt: (ar.refcnt - 1) as usize, ..ar }).push(
                        VmAref { vm_page: Some(np), refcnt: 1, flags: ar.flags },
                    )
                    &&& pages_map(arefs_seq(final(self).anons@[a1].arefs)) == pages_map(s0).insert(off, nh as usize)
                    &&& final(self).pages.pages@ == pg.update(page_no(np), owned_page(np, pg[page_no(p)].off))
                    &&& final(self).buddy.zone_view(BUDDY_ZONE_NORMAL as int) == alloc_spec(m.buddy.zone_view(BUDDY_ZONE_NORMAL as int), 0).0
                    &&& final(self).buddy.k_used_mem == m.buddy.k_used_mem + PAGE_SIZE
                }
            }),
    {
        let ghost m = *self;
        let en = space.vm_entries[e];
        let a0 = en.vm_anon.unwrap();
        let mut a = a0;
        let ghost s0 = arefs_seq(self.anons@[a0 as int].arefs);
        proof {
            lemma_acquire_fields(m.arefs@, s0);
            lemma_clear_copy(m.anons@[a0 as int].flags);
        }
        if self.anons[a].flags & VM_COPY != 0 {
            if self.anons[a].refcnt > 1 {
                let n = self.anons[a].copy(&mut self.arefs).unwrap();
                let na = self.anons.len();
                self.anons.push(n);
                let _freed = self.anons[a0].decref(&mut self.arefs);
                space.vm_entries[e].vm_anon = Some(na);
                a = na;
            }
            self.anons[a].flags = self.anons[a].flags & !VM_COPY;
        }
        let ghost m1 = *self;
        proof {
            assert(arefs_seq(self.anons@[a as int].arefs) == s0);
            assert forall|x: int| 0 <= x < self.anons@.len() implies ((#[trigger] self.anons@[x]).arefs matches Some(w) ==> {
                &&& distinct_offsets(w@)
                &&& forall|k: int| 0 <= k < w@.len() ==> #[trigger] w@[k].1 < self.arefs@.len()
            }) by {
                if x < m.anons@.len() {
                    assert(self.anons@[x].arefs == m.anons@[x].arefs);
                } else {
                    assert(arefs_seq(self.anons@[x].arefs) == s0);
                }
            }
            assert forall|g: int| 0 <= g < self.arefs@.len() implies ((#[trigger] self.arefs@[g]).vm_page matches Some(q) ==> self.pages.covers(q)) by {
                assert(self.arefs@[g].vm_page == m.arefs@[g].vm_page);
            }
            assert(self.wf());
            lemma_wf_lookup(*self, a as int, off);
            assert(aref_at(*self, a as int, off) == aref_at(m, a0 as int, off));
        }
        let h = match &self.anons[a].arefs {
            Some(v) => pairs_lookup(v, off),
            None => None,
        };
        let h = match h {
            None => {
                return (0, Vec::new());
            },
            Some(h) => h,
        };
        let ar = self.arefs[h];
        let p = ar.vm_page.unwrap();
        let perm = en.flags & VM_PERM;
        let mut ops: Vec<PmapOp> = Vec::new();
        if flags & PF_WRITE == 0 {
            ops.push(PmapOp::MapPage { vaddr: addr, paddr: p, flags: perm & !(VM_UW | VM_KW) });
            self.pages.mm_page_incref(p);
            return (1, ops);
        }
        if ar.refcnt == 1 {
            ops.push(PmapOp::MapPage { vaddr: addr, paddr: p, flags: perm });
            self.pages.mm_page_incref(p);
            return (1, ops);
        }
        self.arefs[h].decref();
        let np = mm_page_alloc(&mut self.buddy, &mut self.pages);
        let poff = self.pages.pages[p / PAGE_SIZE].off;
        self.pages.pages.set(np / PAGE_SIZE, VmPage { paddr: np, vm_object: None, off: poff, refcnt: 1 });
        ops.push(PmapOp::CopyPage { src: p, dst: np });
        let nh = self.arefs.len();
        self.arefs.push(VmAref { vm_page: Some(np), refcnt: 1, flags: ar.flags });
        let ghost before = self.anons@[a as int];
        let mut v = match self.anons[a].arefs.take() {
            Some(v) => v,
            None => Vec::new(),
        };
        pairs_insert(&mut v, off, nh);
        self.anons[a].arefs = Some(v);
        ops.push(PmapOp::MapPage { vaddr: addr, paddr: np, flags: perm });
        proof {
            assert forall|x: int| 0 <= x < self.anons@.len() implies ((#[trigger] self.anons@[x]).arefs matches Some(w) ==> {
                &&& distinct_offsets(w@)
                &&& forall|k: int| 0 <= k < w@.len() ==> #[trigger] w@[k].1 < self.arefs@.len()
            }) by {
                if x == a as int {
                    let w = self.anons@[x].arefs.unwrap();
                    assert forall|key: usize| #[trigger] pages_map(w@).dom().contains(key) implies pages_map(w@)[key] < self.arefs@.len() by {
                        if key != off {
                            lemma_map_values_in(arefs_seq(before.arefs), m1.arefs@.len() as int, key);
                        }
                    }
                    lemma_map_values_all(w@, self.arefs@.len() as int);
                } else {
                    assert(self.anons@[x] == m1.anons@[x]);
                }
            }
            assert forall|g: int| 0 <= g < self.arefs@.len() implies ((#[trigger] self.arefs@[g]).vm_page matches Some(q) ==> self.pages.covers(q)) by {
                if g < m1.arefs@.len() {
                    assert(self.arefs@[g].vm_page == m1.arefs@[g].vm_page);
                }
            }
        }
        (1, ops)
    }
}

/// The page that object `o` holds at offset `off`, if any.
pub open spec fn object_page(m: Mm, o: int, off: usize) -> Option<usize> {
    if m.objects@[o].view_pages().dom().contains(off) {
        Some(m.objects@[o].view_pages()[off])
    } else {
        None
    }
}

/// What a fault handler or the whole fault handling gives.
pub enum FaultResult {
    /// The access is not allowed: the process gets `SIGSEGV`.
    Segv,
    /// The fault was handled with these operations on the physical map.
    Handled(Vec<PmapOp>),
    /// Object `object` must page in its page at offset `off` first; the
    /// fault is to be handled again with that page.
    PageIn { object: usize, off: usize },
}

impl Mm {
    /// The page of object `o` at offset `off`: the one the object holds,
    /// else `paged`, the page its pager brought in when asked for it.
    pub fn vm_object_page(&self, o: usize, off: usize, paged: Option<usize>) -> (r: Option<usize>)
        requires
            o < self.objects.len(),
            crate::vm::distinct_offsets(self.objects@[o as int].pages@),
        ensures
            r == (match object_page(*self, o as int, off) {
                Some(q) => Some(q),
                None => paged,
            }),
    {
        match pairs_lookup(&self.objects[o].pages, off) {
            Some(q) => Some(q),
            None => paged,
        }
    }

    /// Handles a fault at `addr`, offset `off` of region `e` of `space`,
    /// from the region's object; `paged` is the page the object's pager
    /// brought in for `off`, when it was asked to.
    ///
    /// The page is the object's page at `off`, else `paged`; with neither,
    /// the pager is asked for it. A read-only region maps the page with its
    /// permissions, the page gaining a reference. A writable region gets a
    /// new anon with one reference when it has none; the page is copied into
    /// a fresh page held by a new aref with one reference, which the anon
    /// maps at `off`, and the copy is mapped.
    pub fn pf_object(&mut self, space: &mut VmSpace, e: usize, addr: usize, off: usize, paged: Option<usize>) -> (r: FaultResult)
        requires
            old(self).wf(),
            e < old(space).vm_entries.len(),
            object_allocates(*old(self), old(space).vm_entries@[e as int], off, paged) ==> can_alloc_page(old(self).buddy, old(self).pages),
            old(space).vm_entries@[e as int].vm_object matches Some(o) && o < old(self).objects@.len()
                && crate::vm::distinct_offsets(old(self).objects@[o as int].pages@),
            ({
                let o = old(space).vm_entries@[e as int].vm_object.unwrap() as int;
                let pg = match object_page(*old(self), o, off) {
                    Some(q) => Some(q),
                    None => paged,
                };
                pg matches Some(q) ==> old(self).pages.covers(q) && old(self).pages.pages@[page_no(q)].refcnt < usize::MAX
            }),
            old(space).vm_entries@[e as int].vm_anon matches Some(a) ==> a < old(self).anons@.len()
                && old(self).anons@[a as int].arefs is Some,
            old(self).anons@.len() < usize::MAX,
            old(self).arefs@.len() < usize::MAX,
        ensures
            final(self).wf(),
            final(self).objects@ == old(self).objects@,
            final(space).pmap == old(space).pmap,
            ({
                let m = *old(self);
                let en = old(space).vm_entries@[e as int];
                let o = en.vm_object.unwrap() as int;
                let pg = match object_page(m, o, off) {
                    Some(q) => Some(q),
                    None => paged,
                };
                let q = pg.unwrap();
                let perm = en.flags & VM_PERM;
                let np = next_page(m.buddy);
                let a = match en.vm_anon {
                    Some(a) => a as int,
                    None => m.anons@.len() as int,
                };
                &&& pg is None ==> (r matches FaultResult::PageIn { object, off: o2 } && object == o && o2 == off)
                    && final(self).anons@ == m.anons@ && final(self).arefs@ == m.arefs@
                    && final(self).pages.pages@ == m.pages.pages@ && final(self).buddy == m.buddy
                    && final(space).vm_entries@ == old(space).vm_entries@
                &&& pg is Some && en.flags & VM_UW == 0 ==> (r matches FaultResult::Handled(ops) && ops@ == seq![
                    PmapOp::MapPage { vaddr: addr, paddr: q, flags: perm },
                ]) && final(self).anons@ == m.anons@ && final(self).arefs@ == m.arefs@
                    && final(self).pages.pages@ == m.pages.pages@.update(page_no(q), VmPage { refcnt: (m.pages.pages@[page_no(q)].refcnt + 1) as usize, ..m.pages.pages@[page_no(q)] })
                    && final(self).buddy == m.buddy && final(space).vm_entries@ == old(space).vm_entries@
                &&& pg is Some && en.flags & VM_UW != 0 ==> {
                    let pgs = m.pages.pages@.update(page_no(np), crate::pages::fresh_page(np));
                    let nh = m.arefs@.len();
                    &&& r matches FaultResult::Handled(ops) && ops@ == seq![
                        PmapOp::CopyPage { src: q, dst: np },
                        PmapOp::MapPage { vaddr: addr, paddr: np, flags: perm },
                    ]
                    &&& final(self).arefs@ == m.arefs@.push(VmAref { vm_page: Some(np), refcnt: 1, flags: 0 })
                    &&& final(self).pages.pages@ == pgs.update(page_no(np), owned_page(np, pgs[page_no(q)].off))
                    &&& final(self).buddy.zone_view(BUDDY_ZONE_NORMAL as int) == alloc_spec(m.buddy.zone_view(BUDDY_ZONE_NORMAL as int), 0).0
                    &&& final(self).buddy.k_used_mem == m.buddy.k_used_mem + PAGE_SIZE
                    &&& final(space).vm_entries@ == old(space).vm_entries@.update(e as int, VmEntry { vm_anon: Some(a as usize), ..en })
                    &&& en.vm_anon is None ==> final(self).anons@.len() == m.anons@.len() + 1
                        && final(self).anons@[a].refcnt == 1 && final(self).anons@[a].flags == 0
                        && pages_map(arefs_seq(final(self).anons@[a].arefs)) == Map::<usize, usize>::empty().insert(off, nh as usize)
                        && final(self).anons@.take(a) == m.anons@
                    &&& en.vm_anon is Some ==> final(self).anons@.len() == m.anons@.len()
                        && final(self).anons@[a].refcnt == m.anons@[a].refcnt
                        && final(self).anons@[a].flags == m.anons@[a].flags
                        && pages_map(arefs_seq(final(self).anons@[a].arefs)) == anon_map(m, a).insert(off, nh as usize)
                        && forall|x: int| 0 <= x < m.anons@.len() && x != a ==> #[trigger] final(self).anons@[x] == m.anons@[x]
                }
            }),
    {
        let ghost m = *self;
        let en = space.vm_entries[e];
        let o = en.vm_object.unwrap();
        let q = match self.vm_object_page(o, off, paged) {
            Some(q) => q,
            None => {
                return FaultResult::PageIn { object: o, off };
            },
        };
        let perm = en.flags & VM_PERM;
        let mut ops: Vec<PmapOp> = Vec::new();
        if en.flags & VM_UW == 0 {
            self.pages.mm_page_incref(q);
            ops.push(PmapOp::MapPage { vaddr: addr, paddr: q, flags: perm });
            return FaultResult::Handled(ops);
        }
        let a = match en.vm_anon {
            Some(a) => a,
            None => {
                let mut n = VmAnon::new();
                n.refcnt = 1;
                self.anons.push(n);
                self.anons.len() - 1
            },
        };
        space.vm_entries[e].vm_anon = Some(a);
        let np = mm_page_alloc(&mut self.buddy, &mut self.pages);
        let qoff = self.pages.pages[q / PAGE_SIZE].off;
        self.pages.pages.set(np / PAGE_SIZE, VmPage { paddr: np, vm_object: None, off: qoff, refcnt: 1 });
        ops.push(PmapOp::CopyPage { src: q, dst: np });
        let nh = self.arefs.len();
        self.arefs.push(VmAref { vm_page: Some(np), refcnt: 1, flags: 0 });
        let ghost before = self.anons@[a as int];
        let ghost m1 = m;
        let mut v = match self.anons[a].arefs.take() {
            Some(v) => v,
            None => Vec::new(),
        };
        pairs_insert(&mut v, off, nh);
        self.anons[a].arefs = Some(v);
        ops.push(PmapOp::MapPage { vaddr: addr, paddr: np, flags: perm });
        proof {
            assert forall|x: int| 0 <= x < self.anons@.len() implies ((#[trigger] self.anons@[x]).arefs matches Some(w) ==> {
                &&& distinct_offsets(w@)
                &&& forall|k: int| 0 <= k < w@.len() ==> #[trigger] w@[k].1 < self.arefs@.len()
            }) by {
                if x == a as int {
                    let w = self.anons@[x].arefs.unwrap();
                    assert forall|key: usize| #[trigger] pages_map(w@).dom().contains(key) implies pages_map(w@)[key] < self.arefs@.len() by {
                        if key != off && before.arefs is Some {
                            lemma_map_values_in(arefs_seq(before.arefs), m1.arefs@.len() as int, key);
                        }
                    }
                    lemma_map_values_all(w@, self.arefs@.len() as int);
                } else {
                    assert(self.anons@[x] == m1.anons@[x]);
                }
            }
            assert forall|g: int| 0 <= g < self.arefs@.len() implies ((#[trigger] self.arefs@[g]).vm_page matches Some(z) ==> self.pages.covers(z)) by {
                if g < m1.arefs@.len() {
                    assert(self.arefs@[g] == m1.arefs@[g]);
                }
            }
        }
        FaultResult::Handled(ops)
    }
}

/// Whether an access with fault flags `flags` breaks the user permissions
/// `vm_flags`.
pub open spec fn violates(flags: usize, vm_flags: usize) -> bool {
    (flags & PF_READ != 0 && vm_flags & VM_UR == 0) || (flags & PF_WRITE != 0 && vm_flags & VM_UW
        == 0) || (flags & PF_EXEC != 0 && vm_flags & VM_UX == 0)
}

/// The offset in the region's object of the page at `addr` of region `en`.
pub open spec fn fault_off(en: VmEntry, addr: usize) -> usize {
    ((addr - en.base) as usize).wrapping_add(en.off)
}

/// What the fault handlers need of the memory state to handle a fault at
/// offset `off` of region `en`: the anon, if any, holds a table of distinct
/// arefs whose counts can grow, and its aref at `off` has a page with a
/// reference, whose count can grow; the object, if any, has distinct
/// offsets, and its page at `off`, or else `paged`, is in the page table
/// with a count that can grow.
pub open spec fn fault_ready(m: Mm, en: VmEntry, off: usize, paged: Option<usize>) -> bool {
    &&& en.vm_anon matches Some(a) ==> {
        &&& a < m.anons@.len()
        &&& m.anons@[a as int].arefs is Some
        &&& m.anons@[a as int].refcnt > 0
        &&& arefs_in(m.arefs@, arefs_seq(m.anons@[a as int].arefs))
        &&& forall|k: int| 0 <= k < arefs_seq(m.anons@[a as int].arefs).len()
            ==> m.arefs@[#[trigger] arefs_seq(m.anons@[a as int].arefs)[k].1 as int].refcnt < usize::MAX - 1
        &&& aref_at(m, a as int, off) matches Some(h) ==> (m.arefs@[h as int].vm_page matches Some(p)
            && 0 < m.pages.pages@[page_no(p)].refcnt < usize::MAX
            && m.arefs@[h as int].refcnt >= 1)
    }
    &&& en.vm_object matches Some(o) ==> {
        &&& o < m.objects@.len()
        &&& distinct_offsets(m.objects@[o as int].pages@)
        &&& (match object_page(m, o as int, off) {
            Some(q) => Some(q),
            None => paged,
        }) matches Some(q) ==> m.pages.covers(q) && m.pages.pages@[page_no(q)].refcnt < usize::MAX
    }
}

proof fn lemma_find_from(es: Seq<VmEntry>, a: int, i: int)
    requires
        0 <= i <= es.len(),
    ensures
        i <= find_from(es, a, i) <= es.len(),
        find_from(es, a, i) < es.len() ==> entry_contains(es[find_from(es, a, i)], a),
    decreases es.len() - i,
{
    if i < es.len() && !entry_contains(es[i], a) {
        lemma_find_from(es, a, i + 1);
    }
}

/// Whether the present-page handler takes a new page for a fault at offset
/// `off` of region `en`: it handles the fault and the aref is marked
/// copy-on-write.
pub open spec fn present_allocates(m: Mm, en: VmEntry, off: usize) -> bool {
    &&& present_handles(m, en, off)
    &&& m.arefs@[aref_at(m, en.vm_anon.unwrap() as int, off).unwrap() as int].flags & VM_COPY != 0
}

/// Whether the anon handler takes a new page for a fault with flags
/// `flags` at offset `off` of region `en`: the anon holds an aref there,
/// the access writes, and the aref, once the anon is copied when shared
/// and copy-on-write, is referenced more than once.
pub open spec fn anon_allocates(m: Mm, en: VmEntry, flags: usize, off: usize) -> bool {
    let a0 = en.vm_anon.unwrap() as int;
    let t1 = if anon_shared_copy(m, a0) {
        acquire(m.arefs@, arefs_seq(m.anons@[a0].arefs))
    } else {
        m.arefs@
    };
    &&& en.vm_anon is Some
    &&& aref_at(m, a0, off) is Some
    &&& flags & PF_WRITE != 0
    &&& t1[aref_at(m, a0, off).unwrap() as int].refcnt != 1
}

/// Whether the object handler takes a new page for a fault at offset `off`
/// of region `en`, `paged` being the page a pager brought in: the region
/// has an object whose page, or else `paged`, is there, and the region is
/// writable.
pub open spec fn object_allocates(m: Mm, en: VmEntry, off: usize, paged: Option<usize>) -> bool {
    &&& en.vm_object is Some
    &&& (match object_page(m, en.vm_object.unwrap() as int, off) {
        Some(q) => Some(q),
        None => paged,
    }) is Some
    &&& en.flags & VM_UW != 0
}

/// Whether handling a fault with flags `flags` at offset `off` of region
/// `en` takes a new page: the zero-fill handler always does, the others as
/// above.
pub open spec fn fault_allocates(m: Mm, en: VmEntry, flags: usize, off: usize, paged: Option<usize>) -> bool {
    match fault_handler(m, en, flags, off) {
        FaultHandler::Present => present_allocates(m, en, off),
        FaultHandler::Anon => anon_allocates(m, en, flags, off),
        FaultHandler::Object => object_allocates(m, en, off, paged),
        FaultHandler::Zero => true,
    }
}

/// The fault handler that decides a fault.
#[derive(Clone, Copy, Debug, PartialEq, Eq, Structural)]
pub enum FaultHandler {
    /// The present-page handler.
    Present,
    /// The anon handler.
    Anon,
    /// The object handler.
    Object,
    /// The zero-fill handler.
    Zero,
}

/// Whether the present-page handler handles a fault at offset `off` of
/// region `en`: the region's anon is referenced once and holds an aref at
/// `off` that is referenced once.
pub open spec fn present_handles(m: Mm, en: VmEntry, off: usize) -> bool {
    let a = en.vm_anon.unwrap() as int;
    &&& en.vm_anon is Some
    &&& m.anons@[a].refcnt == 1
    &&& aref_at(m, a, off) is Some
    &&& m.arefs@[aref_at(m, a, off).unwrap() as int].refcnt == 1
}

/// The handler that decides a fault with flags `flags` at offset `off` of
/// region `en`: the present-page handler for a present page it handles,
/// else the anon handler when the region's anon holds an aref at `off`,
/// else the object handler when the region has an object, else the
/// zero-fill handler.
pub open spec fn fault_handler(m: Mm, en: VmEntry, flags: usize, off: usize) -> FaultHandler {
    if flags & PF_PRESENT != 0 && present_handles(m, en, off) {
        FaultHandler::Present
    } else if en.vm_anon is Some && aref_at(m, en.vm_anon.unwrap() as int, off) is Some {
        FaultHandler::Anon
    } else if en.vm_object is Some {
        FaultHandler::Object
    } else {
        FaultHandler::Zero
    }
}

impl Mm {
    /// Handles a page fault at `vaddr` with fault flags `flags` in `space`;
    /// `paged` is the page a pager brought in when an earlier call asked for
    /// one.
    ///
    /// Without a region holding the page, or when the access breaks the
    /// region's permissions, the process gets `SIGSEGV` and nothing
    /// changes. Otherwise the handlers are tried in turn, at the page's
    /// offset in the region's object: the present-page handler when the
    /// page is present, then the anon handler when the region has an anon,
    /// then the object handler when it has an object, and last the zero-fill
    /// handler; `fault_handler` names the one that decides, and the result
    /// is that handler's. A page must be free to take only where the
    /// handler takes one (`fault_allocates`).
    pub fn mm_page_fault(&mut self, space: &mut VmSpace, vaddr: usize, flags: usize, paged: Option<usize>) -> (r: FaultResult)
        requires
            old(self).wf(),
            ({
                let es = old(space).vm_entries@;
                let addr = spec_page_align(vaddr as int);
                let k = find_from(es, addr, 0);
                k < es.len() && !violates(flags, es[k].flags) && fault_allocates(
                    *old(self),
                    es[k],
                    flags,
                    fault_off(es[k], addr as usize),
                    paged,
                ) ==> can_alloc_page(old(self).buddy, old(self).pages)
            }),
            spec_page_align(vaddr as int) + PAGE_SIZE <= usize::MAX,
            old(self).anons@.len() < usize::MAX - 1,
            old(self).arefs@.len() < usize::MAX,
            ({
                let es = old(space).vm_entries@;
                let addr = spec_page_align(vaddr as int);
                let k = find_from(es, addr, 0);
                k < es.len() ==> fault_ready(*old(self), es[k], fault_off(es[k], addr as usize), paged)
            }),
        ensures
            ({
                let es = old(space).vm_entries@;
                let addr = spec_page_align(vaddr as int);
                let k = find_from(es, addr, 0);
                let segv = k == es.len() || violates(flags, es[k].flags);
                &&& segv ==> r is Segv && *final(self) == *old(self) && *final(space) == *old(space)
                &&& !segv ==> !(r is Segv) && final(self).wf() && final(space).pmap == old(space).pmap
                    && final(space).vm_entries@.len() == es.len()
                &&& !segv ==> {
                    let m = *old(self);
                    let en = es[k];
                    let a = addr as usize;
                    let off = fault_off(en, a);
                    let o = en.vm_object.unwrap();
                    let pg = match object_page(m, o as int, off) {
                        Some(q) => Some(q),
                        None => paged,
                    };
                    let perm = en.flags & VM_PERM;
                    let np = next_page(m.buddy);
                    match fault_handler(m, en, flags, off) {
                        FaultHandler::Present => {
                            let ar = m.arefs@[aref_at(m, en.vm_anon.unwrap() as int, off).unwrap() as int];
                            let p = ar.vm_page.unwrap();
                            &&& ar.flags & VM_COPY == 0 ==> (r matches FaultResult::Handled(ops) && ops@ == seq![
                                PmapOp::ProtectRange { sva: a, eva: (a + PAGE_SIZE) as usize, flags: perm },
                            ])
                            &&& ar.flags & VM_COPY != 0 ==> (r matches FaultResult::Handled(ops) && ops@ == seq![
                                PmapOp::CopyPage { src: p, dst: np },
                                PmapOp::MapPage { vaddr: a, paddr: np, flags: perm },
                            ])
                        },
                        FaultHandler::Anon => {
                            let a0 = en.vm_anon.unwrap() as int;
                            let t1 = if anon_shared_copy(m, a0) {
                                acquire(m.arefs@, arefs_seq(m.anons@[a0].arefs))
                            } else {
                                m.arefs@
                            };
                            let ar = t1[aref_at(m, a0, off).unwrap() as int];
                            let p = ar.vm_page.unwrap();
                            &&& flags & PF_WRITE == 0 ==> (r matches FaultResult::Handled(ops) && ops@ == seq![
                                PmapOp::MapPage { vaddr: a, paddr: p, flags: perm & !(VM_UW | VM_KW) },
                            ])
                            &&& flags & PF_WRITE != 0 && ar.refcnt == 1 ==> (r matches FaultResult::Handled(ops)
                                && ops@ == seq![PmapOp::MapPage { vaddr: a, paddr: p, flags: perm }])
                            &&& flags & PF_WRITE != 0 && ar.refcnt != 1 ==> (r matches FaultResult::Handled(ops)
                                && ops@ == seq![
                                    PmapOp::CopyPage { src: p, dst: np },
                                    PmapOp::MapPage { vaddr: a, paddr: np, flags: perm },
                                ])
                        },
                        FaultHandler::Object => {
                            &&& pg is None ==> r == (FaultResult::PageIn { object: o, off })
                            &&& pg is Some && en.flags & VM_UW == 0 ==> (r matches FaultResult::Handled(ops)
                                && ops@ == seq![PmapOp::MapPage { vaddr: a, paddr: pg.unwrap(), flags: perm }])
                            &&& pg is Some && en.flags & VM_UW != 0 ==> (r matches FaultResult::Handled(ops)
                                && ops@ == seq![
                                    PmapOp::CopyPage { src: pg.unwrap(), dst: np },
                                    PmapOp::MapPage { vaddr: a, paddr: np, flags: perm },
                                ])
                        },
                        FaultHandler::Zero => r matches FaultResult::Handled(ops) && ops@ == seq![
                            PmapOp::MapPage { vaddr: a, paddr: np, flags: VM_KW },
                            PmapOp::ZeroPage { vaddr: a },
                            PmapOp::ProtectRange { sva: a, eva: (a + PAGE_SIZE) as usize, flags: perm },
                        ],
                    }
                }
            }),
    {
        let addr = page_align(vaddr);
        let mut k: usize = 0;
        while k < space.vm_entries.len()
            invariant
                k <= space.vm_entries.len(),
                find_from(space.vm_entries@, addr as int, 0) == find_from(space.vm_entries@, addr as int, k as int),
            ensures
                k == find_from(space.vm_entries@, addr as int, 0),
            decreases space.vm_entries.len() - k,
        {
            let en = &space.vm_entries[k];
            if addr >= en.base && addr - en.base < en.size {
                break;
            }
            k = k + 1;
        }
        if k == space.vm_entries.len() {
            return FaultResult::Segv;
        }
        proof {
            lemma_find_from(space.vm_entries@, addr as int, 0);
        }
        let en = space.vm_entries[k];
        if check_violation(flags, en.flags) != 0 {
            return FaultResult::Segv;
        }
        let off = (addr - en.base).wrapping_add(en.off);
        if flags & PF_PRESENT != 0 {
            let (rp, ops) = self.pf_present(space, k, addr, off);
            if rp != 0 {
                return FaultResult::Handled(ops);
            }
        }
        if space.vm_entries[k].vm_anon.is_some() {
            let (ra, ops) = self.pf_anon(space, k, flags, addr, off);
            if ra != 0 {
                return FaultResult::Handled(ops);
            }
        }
        if space.vm_entries[k].vm_object.is_some() {
            return self.pf_object(space, k, addr, off, paged);
        }
        FaultResult::Handled(self.pf_zero(space, k, addr, off))
    }
}

} // verus!
