use vstd::prelude::*;

use crate::errno::EINVAL;

verus! {

/// Kernel read permission.
pub const VM_KR: usize = 0x0001;

/// Kernel write permission.
pub const VM_KW: usize = 0x0002;

/// Kernel execute permission.
pub const VM_KX: usize = 0x0004;

/// User read permission.
pub const VM_UR: usize = 0x0010;

/// User write permission.
pub const VM_UW: usize = 0x0020;

/// User execute permission.
pub const VM_UX: usize = 0x0040;

/// Mask of the permission bits.
pub const VM_PERM: usize = 0x00FF;

/// Shared mapping.
pub const VM_SHARED: usize = 0x0100;

/// Needs to be copied on write.
pub const VM_COPY: usize = 0x0200;

/// User read and write.
pub const VM_URW: usize = 0x0030;

/// A region of a virtual memory space.
///
/// The anon layer and the backing object are named by handles (their index
/// in the tables that own them); `None` stands for no object.
#[derive(Clone, Copy, Debug, PartialEq, Eq, Structural)]
pub struct VmEntry {
    /// Physical address, 0 means anywhere.
    pub paddr: usize,
    /// Address of the entry inside its space.
    pub base: usize,
    /// Size of the entry.
    pub size: usize,
    /// Permission flags.
    pub flags: usize,
    /// Anon layer object.
    pub vm_anon: Option<usize>,
    /// Backing object.
    pub vm_object: Option<usize>,
    /// Offset inside the object.
    pub off: usize,
}

impl VmEntry {
    /// The entry with every field zero and no objects.
    pub open spec fn spec_none() -> VmEntry {
        VmEntry { paddr: 0, base: 0, size: 0, flags: 0, vm_anon: None, vm_object: None, off: 0 }
    }

    /// An entry with every field zero and no objects.
    pub fn none() -> (r: VmEntry)
        ensures
            r == VmEntry::spec_none(),
    {
        VmEntry { paddr: 0, base: 0, size: 0, flags: 0, vm_anon: None, vm_object: None, off: 0 }
    }
}

/// A reference to an anonymous page, shared by the anons that map it.
#[derive(Clone, Copy, Debug, PartialEq, Eq, Structural)]
pub struct VmAref {
    /// Physical address of the page, if it has one.
    pub vm_page: Option<usize>,
    /// Number of references to the aref.
    pub refcnt: usize,
    /// Flags of the aref.
    pub flags: usize,
}

impl VmAref {
    /// An aref with no page, no references and no flags.
    pub fn new() -> (r: VmAref)
        ensures
            r.vm_page is None,
            r.refcnt == 0,
            r.flags == 0,
    {
        VmAref { vm_page: None, refcnt: 0, flags: 0 }
    }

    /// `val`, boxed.
    pub fn new_boxed(val: VmAref) -> (r: Box<VmAref>)
        ensures
            *r == val,
    {
        Box::new(val)
    }

    /// Releases what the aref holds: nothing.
    pub fn destroy(&mut self)
        ensures
            *final(self) == *old(self),
    {
    }

    /// Number of references to the aref.
    pub fn refcnt(&self) -> (r: usize)
        ensures
            r == self.refcnt,
    {
        self.refcnt
    }

    /// Adds a reference.
    pub fn incref(&mut self)
        requires
            old(self).refcnt < usize::MAX,
        ensures
            final(self).refcnt == old(self).refcnt + 1,
            final(self).vm_page == old(self).vm_page,
            final(self).flags == old(self).flags,
    {
        self.refcnt = self.refcnt + 1;
    }

    /// Drops a reference.
    pub fn decref(&mut self)
        requires
            old(self).refcnt > 0,
        ensures
            final(self).refcnt == old(self).refcnt - 1,
            final(self).vm_page == old(self).vm_page,
            final(self).flags == old(self).flags,
    {
        self.refcnt = self.refcnt - 1;
    }
}

/// A cached object: the pages of a file, by offset.
pub struct VmObject {
    /// The pages loaded in the object, as (offset, physical address) pairs
    /// with distinct offsets.
    pub pages: Vec<(usize, usize)>,
    /// Type of the object.
    pub objtype: isize,
    /// Number of regions referencing the object.
    pub refcnt: usize,
    /// Pager of the object, by handle.
    pub pager: Option<usize>,
}

/// The map from offset to page that a list of distinct-offset pairs holds.
pub open spec fn pages_map(p: Seq<(usize, usize)>) -> Map<usize, usize>
    decreases p.len(),
{
    if p.len() == 0 {
        Map::empty()
    } else {
        pages_map(p.drop_last()).insert(p.last().0, p.last().1)
    }
}

/// No offset occurs twice in `p`.
pub open spec fn distinct_offsets(p: Seq<(usize, usize)>) -> bool {
    forall|i: int, j: int| 0 <= i < j < p.len() ==> #[trigger] p[i].0 != #[trigger] p[j].0
}

proof fn lemma_pages_map_update(p: Seq<(usize, usize)>, k: int, v: (usize, usize))
    requires
        0 <= k < p.len(),
        p[k].0 == v.0,
        distinct_offsets(p),
    ensures
        pages_map(p.update(k, v)) == pages_map(p).insert(v.0, v.1),
    decreases p.len(),
{
    let q = p.update(k, v);
    if k == p.len() - 1 {
        assert(q.drop_last() == p.drop_last());
    } else {
        assert(q.drop_last() == p.drop_last().update(k, v));
        lemma_pages_map_update(p.drop_last(), k, v);
        assert(p.last().0 != v.0);
        assert(pages_map(q) == pages_map(p.drop_last()).insert(v.0, v.1).insert(p.last().0, p.last().1));
        assert(pages_map(q) =~= pages_map(p).insert(v.0, v.1));
    }
}

impl VmObject {
    /// The pages of the object, by offset.
    pub open spec fn view_pages(&self) -> Map<usize, usize> {
        pages_map(self.pages@)
    }

    /// An object of type `objtype` with no pages, no references and no
    /// pager.
    pub fn new(objtype: isize) -> (r: VmObject)
        ensures
            r.pages@ == Seq::<(usize, usize)>::empty(),
            r.objtype == objtype,
            r.refcnt == 0,
            r.pager is None,
    {
        VmObject { pages: Vec::new(), objtype, refcnt: 0, pager: None }
    }

    /// Adds a reference.
    pub fn incref(&mut self)
        requires
            old(self).refcnt < usize::MAX,
        ensures
            final(self).refcnt == old(self).refcnt + 1,
            final(self).pages@ == old(self).pages@,
            final(self).objtype == old(self).objtype,
            final(self).pager == old(self).pager,
    {
        self.refcnt = self.refcnt + 1;
    }

    /// Drops a reference.
    pub fn decref(&mut self)
        requires
            old(self).refcnt > 0,
        ensures
            final(self).refcnt == old(self).refcnt - 1,
            final(self).pages@ == old(self).pages@,
            final(self).objtype == old(self).objtype,
            final(self).pager == old(self).pager,
    {
        self.refcnt = self.refcnt - 1;
    }

    /// Number of regions referencing the object.
    pub fn refcnt(&self) -> (r: usize)
        ensures
            r == self.refcnt,
    {
        self.refcnt
    }

    /// Records the page at physical address `paddr` as the object's page at
    /// offset `off`, replacing the page held there.
    pub fn insert(&mut self, off: usize, paddr: usize)
        requires
            distinct_offsets(old(self).pages@),
        ensures
            distinct_offsets(final(self).pages@),
            final(self).view_pages() == old(self).view_pages().insert(off, paddr),
            final(self).refcnt == old(self).refcnt,
            final(self).objtype == old(self).objtype,
            final(self).pager == old(self).pager,
    {
        pairs_insert(&mut self.pages, off, paddr);
    }
}

/// Sets the value of key `key` in the list of distinct-key pairs `v` to
/// `val`: in place when the key is there, at the end otherwise.
pub fn pairs_insert(v: &mut Vec<(usize, usize)>, key: usize, val: usize)
    requires
        distinct_offsets(old(v)@),
    ensures
        distinct_offsets(final(v)@),
        pages_map(final(v)@) == pages_map(old(v)@).insert(key, val),
        (forall|j: int| 0 <= j < old(v)@.len() ==> #[trigger] old(v)@[j].0 != key) ==> final(v)@
            == old(v)@.push((key, val)),
{
    let mut i: usize = 0;
    while i < v.len()
        invariant
            i <= v.len(),
            v@ == old(v)@,
            distinct_offsets(v@),
            forall|j: int| 0 <= j < i ==> #[trigger] v@[j].0 != key,
        decreases v.len() - i,
    {
        if v[i].0 == key {
            proof {
                lemma_pages_map_update(v@, i as int, (key, val));
            }
            v.set(i, (key, val));
            assert(distinct_offsets(v@));
            return;
        }
        i = i + 1;
    }
    let ghost p = v@;
    v.push((key, val));
    proof {
        assert(v@.drop_last() == p);
    }
}

/// The value of key `key` in the list of distinct-key pairs `v`.
pub fn pairs_lookup(v: &Vec<(usize, usize)>, key: usize) -> (r: Option<usize>)
    requires
        distinct_offsets(v@),
    ensures
        r == (if pages_map(v@).dom().contains(key) {
            Some(pages_map(v@)[key])
        } else {
            None
        }),
{
    let mut i: usize = 0;
    while i < v.len()
        invariant
            i <= v.len(),
            distinct_offsets(v@),
            forall|j: int| 0 <= j < i ==> #[trigger] v@[j].0 != key,
        decreases v.len() - i,
    {
        if v[i].0 == key {
            proof {
                lemma_pages_map_at(v@, i as int);
            }
            return Some(v[i].1);
        }
        i = i + 1;
    }
    proof {
        lemma_pages_map_absent(v@, key);
    }
    None
}

/// In a list of distinct-key pairs, each pair is the map's entry for its
/// key.
pub proof fn lemma_pages_map_at(p: Seq<(usize, usize)>, i: int)
    requires
        distinct_offsets(p),
        0 <= i < p.len(),
    ensures
        pages_map(p).dom().contains(p[i].0),
        pages_map(p)[p[i].0] == p[i].1,
    decreases p.len(),
{
    if i < p.len() - 1 {
        lemma_pages_map_at(p.drop_last(), i);
        assert(p.last().0 != p[i].0);
    }
}

/// A key no pair holds is not in the map.
pub proof fn lemma_pages_map_absent(p: Seq<(usize, usize)>, key: usize)
    requires
        forall|j: int| 0 <= j < p.len() ==> #[trigger] p[j].0 != key,
    ensures
        !pages_map(p).dom().contains(key),
    decreases p.len(),
{
    if p.len() > 0 {
        lemma_pages_map_absent(p.drop_last(), key);
        assert(p.last().0 != key);
    }
}

/// `t` with the aref `h` holding one reference less.
pub open spec fn dec_at(t: Seq<VmAref>, h: int) -> Seq<VmAref> {
    t.update(h, VmAref { refcnt: (t[h].refcnt - 1) as usize, ..t[h] })
}

/// `t` with the aref `h` holding one reference more.
pub open spec fn inc_at(t: Seq<VmAref>, h: int) -> Seq<VmAref> {
    t.update(h, VmAref { refcnt: (t[h].refcnt + 1) as usize, ..t[h] })
}

/// `t` after one reference to each aref of `a` is dropped.
pub open spec fn release(t: Seq<VmAref>, a: Seq<(usize, usize)>) -> Seq<VmAref>
    decreases a.len(),
{
    if a.len() == 0 {
        t
    } else {
        dec_at(release(t, a.drop_last()), a.last().1 as int)
    }
}

/// `t` after one reference to each aref of `a` is added.
pub open spec fn acquire(t: Seq<VmAref>, a: Seq<(usize, usize)>) -> Seq<VmAref>
    decreases a.len(),
{
    if a.len() == 0 {
        t
    } else {
        inc_at(acquire(t, a.drop_last()), a.last().1 as int)
    }
}

/// The pages of the arefs of `a` that lose their last reference, in order.
pub open spec fn freed_pages(t: Seq<VmAref>, a: Seq<(usize, usize)>) -> Seq<usize>
    decreases a.len(),
{
    if a.len() == 0 {
        seq![]
    } else {
        let r = t[a.last().1 as int];
        freed_pages(t, a.drop_last()) + (if r.refcnt == 1 && r.vm_page is Some {
            seq![r.vm_page.unwrap()]
        } else {
            seq![]
        })
    }
}

/// The arefs of `a` are distinct entries of `t`.
pub open spec fn arefs_in(t: Seq<VmAref>, a: Seq<(usize, usize)>) -> bool {
    &&& forall|k: int| 0 <= k < a.len() ==> #[trigger] a[k].1 < t.len()
    &&& forall|k: int, l: int| 0 <= k < l < a.len() ==> #[trigger] a[k].1 != #[trigger] a[l].1
}

proof fn lemma_release_frame(t: Seq<VmAref>, a: Seq<(usize, usize)>, h: int)
    requires
        arefs_in(t, a),
        0 <= h < t.len(),
        forall|k: int| 0 <= k < a.len() ==> a[k].1 != h,
    ensures
        release(t, a).len() == t.len(),
        release(t, a)[h] == t[h],
    decreases a.len(),
{
    if a.len() > 0 {
        assert(arefs_in(t, a.drop_last()));
        lemma_release_frame(t, a.drop_last(), h);
        lemma_release_len(t, a.drop_last());
    }
}

proof fn lemma_release_len(t: Seq<VmAref>, a: Seq<(usize, usize)>)
    requires
        arefs_in(t, a),
    ensures
        release(t, a).len() == t.len(),
        acquire(t, a).len() == t.len(),
    decreases a.len(),
{
    if a.len() > 0 {
        assert(arefs_in(t, a.drop_last()));
        lemma_release_len(t, a.drop_last());
    }
}

pub proof fn lemma_acquire_frame(t: Seq<VmAref>, a: Seq<(usize, usize)>, h: int)
    requires
        arefs_in(t, a),
        0 <= h < t.len(),
        forall|k: int| 0 <= k < a.len() ==> a[k].1 != h,
    ensures
        acquire(t, a)[h] == t[h],
    decreases a.len(),
{
    if a.len() > 0 {
        assert(arefs_in(t, a.drop_last()));
        lemma_acquire_frame(t, a.drop_last(), h);
        lemma_release_len(t, a.drop_last());
    }
}

proof fn lemma_release_inc_commute(x: Seq<VmAref>, s: Seq<(usize, usize)>, h: int)
    requires
        arefs_in(x, s),
        0 <= h < x.len(),
        forall|k: int| 0 <= k < s.len() ==> s[k].1 != h,
    ensures
        release(inc_at(x, h), s) == inc_at(release(x, s), h),
    decreases s.len(),
{
    lemma_release_len(x, s);
    if s.len() > 0 {
        let s1 = s.drop_last();
        assert(arefs_in(x, s1));
        lemma_release_inc_commute(x, s1, h);
        lemma_release_len(x, s1);
        assert(arefs_in(inc_at(x, h), s1));
        let g = s.last().1 as int;
        let y = release(x, s1);
        assert(release(inc_at(x, h), s) == dec_at(inc_at(y, h), g));
        assert(dec_at(inc_at(y, h), g) =~= inc_at(dec_at(y, g), h));
    }
}

/// Copying an anon and then destroying the copy leaves the aref counts as
/// they were: the copy's references are given back one for one.
pub proof fn lemma_copy_destroy_roundtrip(t: Seq<VmAref>, s: Seq<(usize, usize)>)
    requires
        arefs_in(t, s),
        forall|k: int| 0 <= k < s.len() ==> t[#[trigger] s[k].1 as int].refcnt < usize::MAX,
    ensures
        release(acquire(t, s), s) == t,
    decreases s.len(),
{
    if s.len() > 0 {
        let s1 = s.drop_last();
        let h = s.last().1 as int;
        assert(arefs_in(t, s1));
        assert forall|k: int| 0 <= k < s1.len() implies s1[k].1 != h by {
            assert(s[k].1 != s[s.len() - 1].1);
        }
        lemma_copy_destroy_roundtrip(t, s1);
        lemma_release_len(t, s1);
        lemma_acquire_frame(t, s1, h);
        let a1 = acquire(t, s1);
        assert(arefs_in(a1, s1));
        lemma_release_inc_commute(a1, s1, h);
        assert(release(acquire(t, s), s) == dec_at(inc_at(release(a1, s1), h), h));
        assert(dec_at(inc_at(t, h), h) =~= t);
    }
}

/// A reference count after the calls `ops` from the count `r`, each
/// `true` an `incref` (one more) and each `false` a `decref` (one less), as
/// the `incref` and `decref` of `VmAref`, `VmAnon` and `VmObject` state.
pub open spec fn refcnt_after(r: int, ops: Seq<bool>) -> int
    decreases ops.len(),
{
    if ops.len() == 0 {
        r
    } else {
        refcnt_after(r, ops.drop_last()) + if ops.last() {
            1int
        } else {
            -1int
        }
    }
}

/// How many of the calls `ops` are `inc`.
pub open spec fn count_calls(ops: Seq<bool>, inc: bool) -> nat
    decreases ops.len(),
{
    if ops.len() == 0 {
        0
    } else {
        count_calls(ops.drop_last(), inc) + if ops.last() == inc {
            1nat
        } else {
            0nat
        }
    }
}

/// A reference count of an aref, an anon or an object is the count it
/// started from plus the `incref` calls made since, less the `decref`
/// calls; from a new one (count 0), `k` calls of `incref` give `k`.
pub proof fn lemma_refcnt_calls(r: int, ops: Seq<bool>)
    ensures
        refcnt_after(r, ops) == r + count_calls(ops, true) - count_calls(ops, false),
        (forall|i: int| 0 <= i < ops.len() ==> #[trigger] ops[i]) ==> refcnt_after(r, ops) == r + ops.len(),
    decreases ops.len(),
{
    if ops.len() > 0 {
        lemma_refcnt_calls(r, ops.drop_last());
        if forall|i: int| 0 <= i < ops.len() ==> #[trigger] ops[i] {
            assert forall|i: int| 0 <= i < ops.drop_last().len() implies #[trigger] ops.drop_last()[i] by {
                assert(ops.drop_last()[i] == ops[i]);
            }
            assert(ops.last() == ops[ops.len() - 1]);
        }
    }
}

/// An anonymous memory object: the arefs of its pages, by offset.
pub struct VmAnon {
    /// The arefs held, as (offset, aref handle) pairs; `None` when the anon
    /// holds no table.
    pub arefs: Option<Vec<(usize, usize)>>,
    /// Number of regions referencing the anon.
    pub refcnt: usize,
    /// Flags of the anon.
    pub flags: usize,
}

/// The arefs held by an anon, as a sequence.
pub open spec fn arefs_seq(a: Option<Vec<(usize, usize)>>) -> Seq<(usize, usize)> {
    match a {
        Some(v) => v@,
        None => seq![],
    }
}

impl VmAnon {
    /// An anon with no aref table, no references and no flags.
    pub fn empty() -> (r: VmAnon)
        ensures
            r.arefs is None,
            r.refcnt == 0,
            r.flags == 0,
    {
        VmAnon { arefs: None, refcnt: 0, flags: 0 }
    }

    /// An anon with an empty aref table, no references and no flags.
    pub fn new() -> (r: VmAnon)
        ensures
            r.arefs matches Some(v) && v@ == Seq::<(usize, usize)>::empty(),
            r.refcnt == 0,
            r.flags == 0,
    {
        VmAnon { arefs: Some(Vec::new()), ..VmAnon::empty() }
    }

    /// `val`, boxed.
    pub fn new_boxed(val: VmAnon) -> (r: Box<VmAnon>)
        ensures
            r.arefs == val.arefs,
            r.refcnt == val.refcnt,
            r.flags == val.flags,
    {
        Box::new(val)
    }

    /// Adds a reference.
    pub fn incref(&mut self)
        requires
            old(self).refcnt < usize::MAX,
        ensures
            final(self).refcnt == old(self).refcnt + 1,
            final(self).arefs == old(self).arefs,
            final(self).flags == old(self).flags,
    {
        self.refcnt = self.refcnt + 1;
    }

    /// Number of regions referencing the anon.
    pub fn refcnt(&self) -> (r: usize)
        ensures
            r == self.refcnt,
    {
        self.refcnt
    }

    /// Releases the arefs of the anon, whose arefs live in `table`: each
    /// loses a reference, and the pages of those that lose their last one
    /// are returned, to be freed. The anon is left with no table.
    pub fn destroy(&mut self, table: &mut Vec<VmAref>) -> (freed: Vec<usize>)
        requires
            arefs_in(old(table)@, arefs_seq(old(self).arefs)),
            forall|k: int|
                0 <= k < arefs_seq(old(self).arefs).len() ==> old(table)@[#[trigger] arefs_seq(
                    old(self).arefs,
                )[k].1 as int].refcnt >= 1,
        ensures
            final(self).arefs is None,
            final(self).refcnt == old(self).refcnt,
            final(self).flags == old(self).flags,
            final(table)@ == release(old(table)@, arefs_seq(old(self).arefs)),
            freed@ == freed_pages(old(table)@, arefs_seq(old(self).arefs)),
    {
        let mut freed: Vec<usize> = Vec::new();
        let arefs = self.arefs.take();
        match arefs {
            None => {
                assert(freed@ == freed_pages(old(table)@, seq![]));
            },
            Some(a) => {
                let ghost t0 = table@;
                let mut k: usize = 0;
                while k < a.len()
                    invariant
                        k <= a.len(),
                        arefs_in(t0, a@),
                        forall|j: int| 0 <= j < a@.len() ==> t0[#[trigger] a@[j].1 as int].refcnt >= 1,
                        table@ == release(t0, a@.take(k as int)),
                        freed@ == freed_pages(t0, a@.take(k as int)),
                    decreases a.len() - k,
                {
                    let h = a[k].1;
                    proof {
                        assert(arefs_in(t0, a@.take(k as int)));
                        assert forall|j: int| 0 <= j < a@.take(k as int).len() implies a@.take(
                            k as int,
                        )[j].1 != h by {
                            assert(a@[j].1 != a@[k as int].1);
                        }
                        lemma_release_frame(t0, a@.take(k as int), h as int);
                        assert(a@.take(k as int + 1).drop_last() == a@.take(k as int));
                    }
                    let mut r = table[h];
                    r.decref();
                    if r.refcnt == 0 {
                        match r.vm_page {
                            Some(p) => {
                                freed.push(p);
                            },
                            None => {},
                        }
                    }
                    table.set(h, r);
                    k = k + 1;
                }
                proof {
                    assert(a@.take(a@.len() as int) == a@);
                }
            },
        }
        freed
    }

    /// Drops a reference; when the last goes, the anon is destroyed and the
    /// pages to free are returned.
    pub fn decref(&mut self, table: &mut Vec<VmAref>) -> (freed: Vec<usize>)
        requires
            old(self).refcnt > 0,
            old(self).refcnt == 1 ==> arefs_in(old(table)@, arefs_seq(old(self).arefs)),
            old(self).refcnt == 1 ==> forall|k: int|
                0 <= k < arefs_seq(old(self).arefs).len() ==> old(table)@[#[trigger] arefs_seq(
                    old(self).arefs,
                )[k].1 as int].refcnt >= 1,
        ensures
            final(self).refcnt == old(self).refcnt - 1,
            final(self).flags == old(self).flags,
            old(self).refcnt > 1 ==> final(self).arefs == old(self).arefs && final(table)@ == old(table)@ && freed@ == Seq::<usize>::empty(),
            old(self).refcnt == 1 ==> final(self).arefs is None && final(table)@ == release(
                old(table)@,
                arefs_seq(old(self).arefs),
            ) && freed@ == freed_pages(old(table)@, arefs_seq(old(self).arefs)),
    {
        self.refcnt = self.refcnt - 1;
        if self.refcnt == 0 {
            self.destroy(table)
        } else {
            Vec::new()
        }
    }

    /// Adds the arefs of this anon to those of `dst`, each gaining a
    /// reference; an offset `dst` already holds takes this anon's aref.
    /// `-EINVAL` when either anon holds no aref table.
    pub fn copy_arefs(&self, dst: &mut VmAnon, table: &mut Vec<VmAref>) -> (r: isize)
        requires
            arefs_in(old(table)@, arefs_seq(self.arefs)),
            forall|k: int|
                0 <= k < arefs_seq(self.arefs).len() ==> old(table)@[#[trigger] arefs_seq(
                    self.arefs,
                )[k].1 as int].refcnt < usize::MAX,
            distinct_offsets(arefs_seq(old(dst).arefs)),
        ensures
            self.arefs is None || old(dst).arefs is None ==> r == -EINVAL && *final(dst) == *old(dst)
                && final(table)@ == old(table)@,
            self.arefs is Some && old(dst).arefs is Some ==> ({
                let d0 = arefs_seq(old(dst).arefs);
                let a = arefs_seq(self.arefs);
                &&& r == 0
                &&& final(dst).refcnt == old(dst).refcnt
                &&& final(dst).flags == old(dst).flags
                &&& final(dst).arefs is Some
                &&& distinct_offsets(arefs_seq(final(dst).arefs))
                &&& pages_map(arefs_seq(final(dst).arefs)) == pages_map(d0).union_prefer_right(pages_map(a))
                &&& d0.len() == 0 && distinct_offsets(a) ==> arefs_seq(final(dst).arefs) == a
                &&& final(table)@ == acquire(old(table)@, a)
            }),
    {
        if dst.arefs.is_none() {
            return -EINVAL;
        }
        match &self.arefs {
            None => -EINVAL,
            Some(a) => {
                let mut d = dst.arefs.take().unwrap();
                let ghost d0 = d@;
                let ghost t0 = table@;
                let mut k: usize = 0;
                while k < a.len()
                    invariant
                        k <= a.len(),
                        self.arefs == Some(*a),
                        arefs_in(t0, a@),
                        forall|j: int|
                            0 <= j < a@.len() ==> t0[#[trigger] a@[j].1 as int].refcnt < usize::MAX,
                        table@ == acquire(t0, a@.take(k as int)),
                        distinct_offsets(d@),
                        pages_map(d@) == pages_map(d0).union_prefer_right(pages_map(a@.take(k as int))),
                        d0.len() == 0 && distinct_offsets(a@) ==> d@ == a@.take(k as int),
                    decreases a.len() - k,
                {
                    let h = a[k].1;
                    proof {
                        assert(arefs_in(t0, a@.take(k as int)));
                        assert forall|j: int| 0 <= j < a@.take(k as int).len() implies a@.take(
                            k as int,
                        )[j].1 != h by {
                            assert(a@[j].1 != a@[k as int].1);
                        }
                        lemma_acquire_frame(t0, a@.take(k as int), h as int);
                        lemma_release_len(t0, a@.take(k as int));
                        assert(a@.take(k as int + 1).drop_last() == a@.take(k as int));
                        assert(pages_map(a@.take(k as int + 1)) == pages_map(a@.take(k as int)).insert(
                            a@[k as int].0,
                            a@[k as int].1,
                        ));
                        assert(pages_map(d0).union_prefer_right(pages_map(a@.take(k as int + 1)))
                            =~= pages_map(d0).union_prefer_right(pages_map(a@.take(k as int))).insert(
                            a@[k as int].0,
                            a@[k as int].1,
                        ));
                        if d0.len() == 0 && distinct_offsets(a@) {
                            assert forall|j: int| 0 <= j < d@.len() implies #[trigger] d@[j].0 != a@[k as int].0 by {
                                assert(d@[j] == a@[j]);
                            }
                            assert(a@.take(k as int + 1) == a@.take(k as int).push(a@[k as int]));
                        }
                    }
                    let mut r = table[h];
                    r.incref();
                    table.set(h, r);
                    pairs_insert(&mut d, a[k].0, h);
                    k = k + 1;
                }
                proof {
                    assert(a@.take(a@.len() as int) == a@);
                }
                dst.arefs = Some(d);
                0
            },
        }
    }

    /// A copy of the anon for a region that must no longer share it: the
    /// same arefs, each gaining a reference, one reference, and the flags
    /// without `VM_COPY`. `None` when the anon holds no aref table.
    pub fn copy(&self, table: &mut Vec<VmAref>) -> (r: Option<VmAnon>)
        requires
            arefs_in(old(table)@, arefs_seq(self.arefs)),
            forall|k: int|
                0 <= k < arefs_seq(self.arefs).len() ==> old(table)@[#[trigger] arefs_seq(
                    self.arefs,
                )[k].1 as int].refcnt < usize::MAX,
            distinct_offsets(arefs_seq(self.arefs)),
        ensures
            self.arefs is None ==> r is None && final(table)@ == old(table)@,
            self.arefs is Some ==> (r matches Some(n) && n.arefs is Some && arefs_seq(n.arefs)
                == arefs_seq(self.arefs) && n.refcnt == 1
                && n.flags == self.flags & !VM_COPY && final(table)@ == acquire(
                old(table)@,
                arefs_seq(self.arefs),
            )),
    {
        let mut n = VmAnon::new();
        n.flags = self.flags & !VM_COPY;
        n.refcnt = 1;
        if self.copy_arefs(&mut n, table) != 0 {
            return None;
        }
        Some(n)
    }
}

} // verus!
