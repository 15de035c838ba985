use vstd::prelude::*;

use crate::mm::{page_align, page_round, spec_page_align, spec_page_round, PAGE_SIZE};

verus! {

/// Base of the kernel virtual memory area handed out by `kmalloc`.
pub const KVMEM_BASE: usize = 0xD0000000;

/// Number of nodes; also the `next` value of the last node of the list.
pub const LAST_NODE_INDEX: usize = 100000;

/// Largest node, in 4-byte units, that merging may produce.
pub const MAX_NODE_SIZE: usize = 67108863;

/* malloc flags */
pub const M_ZERO: usize = 0x0001;

/// Statistics of one kind of kernel object.
pub struct MallocType {
    pub name: String,
    pub desc: String,
    /// Number of live objects of this kind.
    pub nr: usize,
    /// Bytes held by live objects of this kind.
    pub total: usize,
    /// Position in the list of registered kinds, once registered.
    pub qnode: Option<usize>,
}

/// Boxes that record the kind of kernel object they hold.
pub trait TaggedAllocator<T> {
    /// `obj`, boxed, as an object of kind `tag`.
    fn new_tagged(tag: &MallocType, obj: T) -> (r: Box<T>)
        ensures
            *r == obj,
    ;
}

impl<T> TaggedAllocator<T> for Box<T> {
    fn new_tagged(tag: &MallocType, obj: T) -> (r: Box<T>) {
        Box::new(obj)
    }
}

/// One node of the kernel allocator: a run of 4-byte units, free or used.
#[derive(Copy, Clone)]
pub struct ObjectNode {
    /// Offset of the run, in 4-byte units from `KVMEM_BASE`.
    pub addr: usize,
    /// Free or not.
    pub free: bool,
    /// Length of the run in 4-byte units; 0 marks an unused node.
    pub size: usize,
    /// Index of the next node of the list.
    pub next: usize,
    /// Kind of the object held by a used node.
    pub objtype: Option<usize>,
}

impl ObjectNode {
    pub fn empty() -> (r: Self)
        ensures
            r.addr == 0 && !r.free && r.size == 0 && r.next == 0 && r.objtype is None,
    {
        Self { addr: 0, free: false, size: 0, next: 0, objtype: None }
    }
}

/// A node of the list seen abstractly.
pub ghost struct Block {
    pub addr: int,
    pub size: int,
    pub free: bool,
    pub objtype: Option<int>,
}

pub open spec fn block_of(n: ObjectNode) -> Block {
    Block {
        addr: n.addr as int,
        size: n.size as int,
        free: n.free,
        objtype: match n.objtype {
            Some(t) => Some(t as int),
            None => None,
        },
    }
}

/// Address of the first byte of a block (`node_addr`).
pub open spec fn block_addr(b: Block) -> int {
    KVMEM_BASE + b.addr * 4
}

/// Sum of `f` over the blocks.
pub open spec fn sum_blocks(s: Seq<Block>, f: spec_fn(Block) -> int) -> int
    decreases s.len(),
{
    if s.len() == 0 {
        0
    } else {
        sum_blocks(s.drop_last(), f) + f(s.last())
    }
}

/// Bytes held by a used block.
pub open spec fn used_bytes() -> spec_fn(Block) -> int {
    |b: Block| if b.free { 0 } else { b.size * 4 }
}

/// One per used block.
pub open spec fn used_count() -> spec_fn(Block) -> int {
    |b: Block| if b.free { 0 } else { 1 }
}

/// Bytes held by a used block of kind `t`.
pub open spec fn type_bytes(t: int) -> spec_fn(Block) -> int {
    |b: Block| if !b.free && b.objtype == Some(t) { b.size * 4 } else { 0 }
}

/// One per used block of kind `t`.
pub open spec fn type_count(t: int) -> spec_fn(Block) -> int {
    |b: Block| if !b.free && b.objtype == Some(t) { 1 } else { 0 }
}

/// The used blocks, by address: their size in bytes and their kind.
pub open spec fn allocated(s: Seq<Block>) -> Map<int, (int, int)> {
    Map::new(
        |a: int| exists|k: int| 0 <= k < s.len() && !s[k].free && #[trigger] block_addr(s[k]) == a,
        |a: int|
            {
                let k = choose|k: int|
                    0 <= k < s.len() && !s[k].free && #[trigger] block_addr(s[k]) == a;
                (s[k].size * 4, s[k].objtype.unwrap_or(0))
            },
    )
}

/// The list of blocks tiles the unit range `0..usize::MAX`, in order.
pub open spec fn blocks_tile(s: Seq<Block>) -> bool {
    &&& s.len() >= 1
    &&& s[0].addr == 0
    &&& forall|k: int| 0 <= k < s.len() ==> (#[trigger] s[k]).size >= 1
    &&& forall|k: int| 0 <= k < s.len() - 1 ==> #[trigger] s[k + 1].addr == s[k].addr + s[k].size
    &&& s[s.len() - 1].addr + s[s.len() - 1].size == usize::MAX
}

pub proof fn lemma_sum_update(s: Seq<Block>, k: int, b: Block, f: spec_fn(Block) -> int)
    requires
        0 <= k < s.len(),
    ensures
        sum_blocks(s.update(k, b), f) == sum_blocks(s, f) - f(s[k]) + f(b),
    decreases s.len(),
{
    if k == s.len() - 1 {
        assert(s.update(k, b).drop_last() =~= s.drop_last());
    } else {
        lemma_sum_update(s.drop_last(), k, b, f);
        assert(s.update(k, b).drop_last() =~= s.drop_last().update(k, b));
    }
}

pub proof fn lemma_sum_insert(s: Seq<Block>, k: int, b: Block, f: spec_fn(Block) -> int)
    requires
        0 <= k <= s.len(),
    ensures
        sum_blocks(s.insert(k, b), f) == sum_blocks(s, f) + f(b),
    decreases s.len(),
{
    if k == s.len() {
        assert(s.insert(k, b).drop_last() =~= s);
    } else {
        lemma_sum_insert(s.drop_last(), k, b, f);
        assert(s.insert(k, b).drop_last() =~= s.drop_last().insert(k, b));
    }
}

pub proof fn lemma_sum_remove(s: Seq<Block>, k: int, f: spec_fn(Block) -> int)
    requires
        0 <= k < s.len(),
    ensures
        sum_blocks(s.remove(k), f) == sum_blocks(s, f) - f(s[k]),
    decreases s.len(),
{
    if k == s.len() - 1 {
        assert(s.remove(k) =~= s.drop_last());
    } else {
        lemma_sum_remove(s.drop_last(), k, f);
        assert(s.remove(k).drop_last() =~= s.drop_last().remove(k));
    }
}

/// Sums of non-negative terms are non-negative.
pub proof fn lemma_sum_nonneg(s: Seq<Block>, f: spec_fn(Block) -> int)
    requires
        forall|k: int| 0 <= k < s.len() ==> #[trigger] f(s[k]) >= 0,
    ensures
        sum_blocks(s, f) >= 0,
    decreases s.len(),
{
    if s.len() > 0 {
        assert(f(s[s.len() - 1]) >= 0);
        assert forall|k: int| 0 <= k < s.drop_last().len() implies #[trigger] f(s.drop_last()[k]) >= 0 by {
            assert(f(s[k]) >= 0);
        }
        lemma_sum_nonneg(s.drop_last(), f);
    }
}

/// A term of a sum of non-negative terms is at most the sum.
pub proof fn lemma_sum_term(s: Seq<Block>, k: int, f: spec_fn(Block) -> int)
    requires
        0 <= k < s.len(),
        forall|j: int| 0 <= j < s.len() ==> #[trigger] f(s[j]) >= 0,
    ensures
        f(s[k]) <= sum_blocks(s, f),
    decreases s.len(),
{
    assert forall|j: int| 0 <= j < s.drop_last().len() implies #[trigger] f(s.drop_last()[j]) >= 0 by {
        assert(f(s[j]) >= 0);
    }
    lemma_sum_nonneg(s.drop_last(), f);
    if k < s.len() - 1 {
        lemma_sum_term(s.drop_last(), k, f);
    }
}

} // verus!

verus! {

/// Position of the first free block at or after position `k` that holds
/// `size` units; `s.len()` when there is none.
pub open spec fn first_fit_from(s: Seq<Block>, size: int, k: int) -> int
    decreases s.len() - k,
{
    if k < 0 || k >= s.len() {
        s.len() as int
    } else if s[k].free && s[k].size >= size {
        k
    } else {
        first_fit_from(s, size, k + 1)
    }
}

/// Position of the first free block holding `size` units.
pub open spec fn first_fit(s: Seq<Block>, size: int) -> int {
    first_fit_from(s, size, 0)
}

pub proof fn lemma_first_fit_from(s: Seq<Block>, size: int, k: int)
    requires
        0 <= k <= s.len(),
    ensures
        k <= first_fit_from(s, size, k) <= s.len(),
        first_fit_from(s, size, k) < s.len() ==> s[first_fit_from(s, size, k)].free && s[first_fit_from(
            s,
            size,
            k,
        )].size >= size,
        forall|j: int|
            k <= j < first_fit_from(s, size, k) ==> !(#[trigger] s[j].free && s[j].size >= size),
    decreases s.len() - k,
{
    if k < s.len() && !(s[k].free && s[k].size >= size) {
        lemma_first_fit_from(s, size, k + 1);
    }
}

/// First unused node at or after index `i`; `LAST_NODE_INDEX` when none.
pub open spec fn first_unused_from(nodes: Seq<ObjectNode>, i: int) -> int
    decreases LAST_NODE_INDEX - i,
{
    if i < 0 || i >= LAST_NODE_INDEX {
        LAST_NODE_INDEX as int
    } else if nodes[i].size == 0 {
        i
    } else {
        first_unused_from(nodes, i + 1)
    }
}

pub proof fn lemma_first_unused_from(nodes: Seq<ObjectNode>, i: int)
    requires
        0 <= i <= LAST_NODE_INDEX,
    ensures
        i <= first_unused_from(nodes, i) <= LAST_NODE_INDEX,
        first_unused_from(nodes, i) < LAST_NODE_INDEX ==> nodes[first_unused_from(
            nodes,
            i,
        )].size == 0,
        forall|j: int| i <= j < first_unused_from(nodes, i) ==> #[trigger] nodes[j].size != 0,
    decreases LAST_NODE_INDEX - i,
{
    if i < LAST_NODE_INDEX && nodes[i].size != 0 {
        lemma_first_unused_from(nodes, i + 1);
    }
}

/// The nodes of the list `c`, as blocks, in list order.
pub open spec fn blocks_of(nodes: Seq<ObjectNode>, c: Seq<int>) -> Seq<Block> {
    Seq::new(c.len(), |k: int| block_of(nodes[c[k]]))
}

/// `c` lists distinct nodes linked by `next` from node 0 to the end marker;
/// every node off the list is unused.
pub open spec fn chain_links(nodes: Seq<ObjectNode>, c: Seq<int>) -> bool {
    &&& c.len() >= 1
    &&& c[0] == 0
    &&& forall|k: int| 0 <= k < c.len() ==> 0 <= #[trigger] c[k] < LAST_NODE_INDEX
    &&& forall|k1: int, k2: int|
        0 <= k1 < c.len() && 0 <= k2 < c.len() && k1 != k2 ==> #[trigger] c[k1] != #[trigger] c[k2]
    &&& forall|k: int| 0 <= k < c.len() - 1 ==> #[trigger] nodes[c[k]].next == c[k + 1]
    &&& nodes[c[c.len() - 1]].next == LAST_NODE_INDEX
    &&& forall|i: int|
        0 <= i < LAST_NODE_INDEX && !c.contains(i) ==> #[trigger] nodes[i].size == 0
            && nodes[i].objtype is None
}

/// Splitting node `c[k]`: it now links to the formerly unused node `n`,
/// which takes over its link.
pub proof fn lemma_chain_split(
    nodes0: Seq<ObjectNode>,
    nodes1: Seq<ObjectNode>,
    c0: Seq<int>,
    k: int,
    n: int,
)
    requires
        chain_links(nodes0, c0),
        nodes0.len() == nodes1.len() == LAST_NODE_INDEX,
        0 <= k < c0.len(),
        0 <= n < LAST_NODE_INDEX,
        !c0.contains(n),
        nodes1[c0[k]].next == n,
        nodes1[n].next == nodes0[c0[k]].next,
        forall|x: int| 0 <= x < LAST_NODE_INDEX && x != n && x != c0[k] ==> #[trigger] nodes1[x] == nodes0[x],
    ensures
        chain_links(nodes1, c0.insert(k + 1, n)),
        forall|j: int| 0 <= j < k + 1 ==> #[trigger] c0.insert(k + 1, n)[j] == c0[j],
        forall|j: int| k + 1 < j < c0.len() + 1 ==> #[trigger] c0.insert(k + 1, n)[j] == c0[j - 1],
        c0.insert(k + 1, n)[k + 1] == n,
        c0.insert(k + 1, n).len() == c0.len() + 1,
{
    let c = c0.insert(k + 1, n);
    c0.insert_ensures(k + 1, n);
    let i = c0[k];
    assert(n != i) by {
        assert(c0.contains(i));
    }
    assert forall|j: int| 0 <= j < c.len() implies 0 <= #[trigger] c[j] < LAST_NODE_INDEX by {
        if j < k + 1 {
            assert(c[j] == c0[j]);
        } else if j > k + 1 {
            assert(c[j] == c0[j - 1]);
        }
    }
    assert forall|j: int| 0 <= j < c.len() - 1 implies #[trigger] nodes1[c[j]].next == c[j + 1] by {
        if j < k {
            assert(c0[j] != c0[k]);
            assert(c0[j] != n) by {
                assert(c0.contains(c0[j]));
            }
            assert(c[j + 1] == c0[j + 1]);
        } else if j > k + 1 {
            assert(c0[j - 1] != c0[k]);
            assert(c0[j - 1] != n) by {
                assert(c0.contains(c0[j - 1]));
            }
            assert(c[j + 1] == c0[j]);
            assert(nodes0[c0[j - 1]].next == c0[j]);
        } else if j == k + 1 {
            assert(c[j + 1] == c0[k + 1]);
            assert(nodes0[c0[k]].next == c0[k + 1]);
        }
    }
    assert forall|k1: int, k2: int|
        0 <= k1 < c.len() && 0 <= k2 < c.len() && k1 != k2 implies #[trigger] c[k1] != #[trigger] c[k2] by {
        if k1 != k + 1 && k2 != k + 1 {
            let a = if k1 < k + 1 { k1 } else { k1 - 1 };
            let b = if k2 < k + 1 { k2 } else { k2 - 1 };
            assert(c[k1] == c0[a]);
            assert(c[k2] == c0[b]);
        } else if k1 == k + 1 {
            let b = if k2 < k + 1 { k2 } else { k2 - 1 };
            assert(c[k2] == c0[b]);
            assert(c0.contains(c0[b]));
        } else {
            let a = if k1 < k + 1 { k1 } else { k1 - 1 };
            assert(c[k1] == c0[a]);
            assert(c0.contains(c0[a]));
        }
    }
    assert(nodes1[c[c.len() - 1]].next == LAST_NODE_INDEX) by {
        if k == c0.len() - 1 {
            assert(c[c.len() - 1] == n);
        } else {
            assert(c[c.len() - 1] == c0[c0.len() - 1]);
            assert(c0[c0.len() - 1] != c0[k]);
            assert(c0[c0.len() - 1] != n) by {
                assert(c0.contains(c0[c0.len() - 1]));
            }
        }
    }
    assert forall|x: int| 0 <= x < LAST_NODE_INDEX && !c.contains(x) implies #[trigger] nodes1[x].size
        == 0 && nodes1[x].objtype is None by {
        assert(x != n) by {
            if x == n {
                assert(c[k + 1] == x);
                assert(c.contains(x));
            }
        }
        assert(!c0.contains(x)) by {
            if c0.contains(x) {
                let j = choose|j: int| 0 <= j < c0.len() && c0[j] == x;
                if j <= k {
                    assert(c[j] == x);
                } else {
                    assert(c[j + 1] == x);
                }
            }
        }
        assert(x != i) by {
            assert(c0.contains(i));
        }
        assert(nodes0[x].size == 0);
    }
}

/// Changing the fields of a listed node other than its link keeps the list.
pub proof fn lemma_chain_update(nodes0: Seq<ObjectNode>, nodes1: Seq<ObjectNode>, c0: Seq<int>, k: int)
    requires
        chain_links(nodes0, c0),
        nodes0.len() == nodes1.len() == LAST_NODE_INDEX,
        0 <= k < c0.len(),
        nodes1[c0[k]].next == nodes0[c0[k]].next,
        forall|x: int| 0 <= x < LAST_NODE_INDEX && x != c0[k] ==> #[trigger] nodes1[x] == nodes0[x],
    ensures
        chain_links(nodes1, c0),
{
    assert forall|j: int| 0 <= j < c0.len() - 1 implies #[trigger] nodes1[c0[j]].next == c0[j + 1] by {
        assert(nodes0[c0[j]].next == c0[j + 1]);
    }
    assert forall|x: int| 0 <= x < LAST_NODE_INDEX && !c0.contains(x) implies #[trigger] nodes1[x].size
        == 0 && nodes1[x].objtype is None by {
        assert(x != c0[k]) by {
            assert(c0.contains(c0[k]));
        }
        assert(nodes0[x].size == 0);
    }
}

/// What `kmalloc` hands back: the object's address, the page range to map
/// for it (start and length in bytes) when it spans a page, and whether the
/// object has to be zeroed.
pub struct KmallocResult {
    pub addr: usize,
    pub map: Option<(usize, usize)>,
    pub zero: bool,
}

/// The kernel object allocator: a list of nodes tiling the kernel virtual
/// memory area in 4-byte units, allocated first-fit, split on allocation
/// and merged on release; with the statistics it keeps.
pub struct Kvmem {
    pub nodes: Vec<ObjectNode>,
    /// Indices of the nodes of the list, in list order.
    pub chain: Ghost<Seq<int>>,
    pub first_free_node: usize,
    /// Bytes held by used nodes.
    pub kvmem_used: usize,
    /// Number of used nodes.
    pub kvmem_obj_cnt: usize,
    /// Known object kinds.
    pub types: Vec<MallocType>,
    /// Registered object kinds, in order of registration.
    pub malloc_types: Vec<usize>,
}

impl Kvmem {
    /// The list of nodes as blocks, in list order.
    pub open spec fn blocks(&self) -> Seq<Block> {
        blocks_of(self.nodes@, self.chain@)
    }

    /// The list links the nodes of `chain` from node 0 to the end marker.
    pub open spec fn chain_wf(&self) -> bool {
        chain_links(self.nodes@, self.chain@)
    }

    /// The statistics agree with the used blocks.
    pub open spec fn stats_wf(&self) -> bool {
        let s = self.blocks();
        &&& self.kvmem_used == sum_blocks(s, used_bytes())
        &&& self.kvmem_obj_cnt == sum_blocks(s, used_count())
        &&& forall|t: int|
            0 <= t < self.types@.len() ==> (#[trigger] self.types@[t]).nr == sum_blocks(
                s,
                type_count(t),
            ) && self.types@[t].total == sum_blocks(s, type_bytes(t))
    }

    /// Every registered kind is recorded at its place in the registry.
    pub open spec fn registry_wf(&self) -> bool {
        &&& self.malloc_types@.len() <= self.types@.len()
        &&& forall|t: int|
            0 <= t < self.types@.len() ==> ((#[trigger] self.types@[t]).qnode matches Some(q) ==> q
                < self.malloc_types@.len() && self.malloc_types@[q as int] == t)
        &&& forall|q: int|
            0 <= q < self.malloc_types@.len() ==> #[trigger] self.malloc_types@[q]
                < self.types@.len() && self.types@[self.malloc_types@[q] as int].qnode == Some(
                q as usize,
            )
    }

    /// Invariant of the allocator.
    pub open spec fn inv(&self) -> bool {
        let s = self.blocks();
        &&& self.nodes@.len() == LAST_NODE_INDEX
        &&& self.first_free_node == 0
        &&& self.chain_wf()
        &&& blocks_tile(s)
        &&& forall|k: int| 0 <= k < s.len() ==> KVMEM_BASE + (#[trigger] s[k]).addr * 4 <= usize::MAX
        &&& forall|k: int|
            0 <= k < s.len() ==> ((#[trigger] s[k]).free <==> s[k].objtype is None)
        &&& forall|k: int|
            0 <= k < s.len() && !(#[trigger] s[k]).free ==> KVMEM_BASE + (s[k].addr + s[k].size) * 4
                <= usize::MAX && 0 <= s[k].objtype.unwrap() < self.types@.len()
        &&& self.stats_wf()
        &&& self.registry_wf()
    }

    /// Whether some node of the array is unused.
    pub open spec fn has_unused(&self) -> bool {
        first_unused_from(self.nodes@, 0) < LAST_NODE_INDEX
    }

    /// Whether `kmalloc(size, objtype, _)` can run: the kind is known, a free
    /// node holds the request, a spare node exists when that node is split,
    /// and no address or counter leaves the machine range.
    pub open spec fn kmalloc_ok(&self, size: int, objtype: int) -> bool {
        let s = self.blocks();
        let units = (size + 3) / 4;
        let k = first_fit(s, units);
        &&& 1 <= size
        &&& size + 3 <= usize::MAX
        &&& 0 <= objtype < self.types@.len()
        &&& k < s.len()
        &&& s[k].size > units ==> self.has_unused()
        &&& KVMEM_BASE + (s[k].addr + units) * 4 + PAGE_SIZE <= usize::MAX
        &&& self.kvmem_used + units * 4 <= usize::MAX
        &&& self.kvmem_obj_cnt + 1 <= usize::MAX
        &&& self.types@[objtype].nr + 1 <= usize::MAX
        &&& self.types@[objtype].total + units * 4 <= usize::MAX
    }
}

/// The blocks after `kmalloc` of `units` units of kind `t`.
pub open spec fn kmalloc_blocks(s: Seq<Block>, units: int, t: int) -> Seq<Block> {
    let k = first_fit(s, units);
    let b = s[k];
    let used = Block { addr: b.addr, size: units, free: false, objtype: Some(t) };
    if b.size > units {
        s.update(k, used).insert(
            k + 1,
            Block { addr: b.addr + units, size: b.size - units, free: true, objtype: None },
        )
    } else {
        s.update(k, Block { addr: b.addr, size: b.size, free: false, objtype: Some(t) })
    }
}

} // verus!

verus! {

impl Kvmem {
    /// Sets up the allocator: one free node spanning the whole area, and the
    /// kind of queue nodes registered first.
    pub fn kvmem_setup() -> (k: Kvmem)
        ensures
            k.inv(),
            k.blocks() == seq![Block { addr: 0, size: usize::MAX as int, free: true, objtype: None }],
            k.kvmem_used == 0,
            k.kvmem_obj_cnt == 0,
            k.types@.len() == 1,
            k.types@[0].nr == 0 && k.types@[0].total == 0 && k.types@[0].qnode == Some(0usize),
            k.malloc_types@ == seq![0usize],
    {
        let mut nodes: Vec<ObjectNode> = Vec::new();
        let mut i: usize = 0;
        while i < LAST_NODE_INDEX
            invariant
                i <= LAST_NODE_INDEX,
                nodes@.len() == i,
                forall|j: int| 0 <= j < i ==> (#[trigger] nodes@[j]).size == 0 && nodes@[j].objtype is None,
            decreases LAST_NODE_INDEX - i,
        {
            nodes.push(ObjectNode::empty());
            i = i + 1;
        }
        /* setting up initial node */
        nodes.set(0, ObjectNode { addr: 0, free: true, size: usize::MAX, next: LAST_NODE_INDEX, objtype: None });
        let mut types: Vec<MallocType> = Vec::new();
        types.push(MallocType {
            name: String::from_str("qnode"),
            desc: String::from_str("queue node"),
            nr: 0,
            total: 0,
            qnode: Some(0),
        });
        let mut malloc_types: Vec<usize> = Vec::new();
        malloc_types.push(0);
        let ghost c: Seq<int> = seq![0int];
        let k = Kvmem {
            nodes,
            chain: Ghost(c),
            first_free_node: 0,
            kvmem_used: 0,
            kvmem_obj_cnt: 0,
            types,
            malloc_types,
        };
        proof {
            let s = k.blocks();
            assert(s =~= seq![Block { addr: 0, size: usize::MAX as int, free: true, objtype: None }]);
            assert(s.drop_last() =~= Seq::<Block>::empty());
            assert(k.chain_wf());
            assert(blocks_tile(s));
            assert(s.last().free);
            assert(sum_blocks(s.drop_last(), used_bytes()) == 0);
            assert(sum_blocks(s.drop_last(), used_count()) == 0);
            assert(sum_blocks(s, used_bytes()) == 0);
            assert(sum_blocks(s, used_count()) == 0);
            lemma_sum_zero_kind(s, 0);
            assert(k.stats_wf());
            assert(k.registry_wf());
            assert forall|i: int| 0 <= i < LAST_NODE_INDEX && !k.chain@.contains(i) implies #[trigger] k.nodes@[i].size == 0 && k.nodes@[i].objtype is None by {
                assert(i != 0) by {
                    if i == 0 {
                        assert(k.chain@[0] == 0);
                    }
                }
            }
        }
        k
    }

    /// Registers a new kind of object; returns its number.
    pub fn malloc_define(&mut self, name: String, desc: String) -> (t: usize)
        requires
            old(self).inv(),
        ensures
            final(self).inv(),
            t == old(self).types@.len(),
            final(self).types@.len() == old(self).types@.len() + 1,
            forall|u: int| 0 <= u < t ==> #[trigger] final(self).types@[u] == old(self).types@[u],
            final(self).types@[t as int].nr == 0 && final(self).types@[t as int].total == 0
                && final(self).types@[t as int].qnode is None,
            final(self).blocks() == old(self).blocks(),
            final(self).kvmem_used == old(self).kvmem_used,
            final(self).kvmem_obj_cnt == old(self).kvmem_obj_cnt,
            final(self).malloc_types@ == old(self).malloc_types@,
    {
        let t = self.types.len();
        self.types.push(MallocType { name, desc, nr: 0, total: 0, qnode: None });
        proof {
            let s = self.blocks();
            lemma_sum_zero_kind(s, t as int);
        }
        t
    }

    /// First free node, from the list head, that holds `size` units.
    fn get_first_fit_free_node(&self, size: usize) -> (i: usize)
        requires
            self.inv(),
            first_fit(self.blocks(), size as int) < self.blocks().len(),
        ensures
            i == self.chain@[first_fit(self.blocks(), size as int)],
    {
        let ghost s = self.blocks();
        let ghost mut k: int = 0;
        let mut i = self.first_free_node;
        proof {
            lemma_first_fit_from(s, size as int, 0);
        }
        while !self.nodes[i].free || self.nodes[i].size < size
            invariant
                self.inv(),
                s == self.blocks(),
                0 <= k <= first_fit(s, size as int) < s.len(),
                i == self.chain@[k],
                first_fit_from(s, size as int, k) == first_fit(s, size as int),
            decreases s.len() - k,
        {
            proof {
                assert(s[k] == block_of(self.nodes@[i as int]));
                assert(k != first_fit(s, size as int)) by {
                    lemma_first_fit_from(s, size as int, k);
                }
            }
            if self.nodes[i].next == LAST_NODE_INDEX {
                proof {
                    assert(k == s.len() - 1) by {
                        if k < s.len() - 1 {
                            assert(self.nodes@[self.chain@[k]].next == self.chain@[k + 1]);
                        }
                    }
                }
                /* cannot find a free node: ruled out by the precondition */
                return i;
            }
            proof {
                assert(k < s.len() - 1) by {
                    if k == s.len() - 1 {
                        assert(self.nodes@[self.chain@[k]].next == LAST_NODE_INDEX);
                    }
                }
                assert(self.nodes@[self.chain@[k]].next == self.chain@[k + 1]);
                k = k + 1;
            }
            i = self.nodes[i].next;
        }
        proof {
            assert(s[k] == block_of(self.nodes@[i as int]));
            lemma_first_fit_from(s, size as int, k);
        }
        i
    }

    /// First unused node of the array.
    fn get_node(&self) -> (n: usize)
        requires
            self.nodes@.len() == LAST_NODE_INDEX,
            self.first_free_node == 0,
            self.has_unused(),
        ensures
            n == first_unused_from(self.nodes@, 0),
            n < LAST_NODE_INDEX,
            self.nodes@[n as int].size == 0,
    {
        let mut i = self.first_free_node;
        proof {
            lemma_first_unused_from(self.nodes@, 0);
        }
        while i < LAST_NODE_INDEX
            invariant
                self.nodes@.len() == LAST_NODE_INDEX,
                i <= first_unused_from(self.nodes@, 0),
                first_unused_from(self.nodes@, i as int) == first_unused_from(self.nodes@, 0),
                first_unused_from(self.nodes@, 0) < LAST_NODE_INDEX,
            decreases LAST_NODE_INDEX - i,
        {
            proof {
                lemma_first_unused_from(self.nodes@, i as int);
            }
            if self.nodes[i].size == 0 {
                return i;
            }
            i = i + 1;
        }
        /* cannot find an unused node: ruled out by the precondition */
        i
    }
}

/// A kind with no used block has zero counters.
pub proof fn lemma_sum_zero_kind(s: Seq<Block>, t: int)
    requires
        forall|k: int| 0 <= k < s.len() ==> (#[trigger] s[k]).objtype != Some(t),
    ensures
        sum_blocks(s, type_count(t)) == 0,
        sum_blocks(s, type_bytes(t)) == 0,
    decreases s.len(),
{
    if s.len() > 0 {
        lemma_sum_zero_kind(s.drop_last(), t);
        assert(s.last() == s[s.len() - 1]);
    }
}

} // verus!

verus! {

/// Page range to map for an object of `nbytes` bytes at `addr`: start and
/// length in bytes, when it spans at least one page.
pub open spec fn kmalloc_map(addr: int, nbytes: int) -> Option<(usize, usize)> {
    let base = spec_page_align(addr);
    let end = spec_page_round(addr + nbytes);
    let npages = (end - base) / PAGE_SIZE as int;
    if npages > 0 {
        Some((base as usize, (npages * PAGE_SIZE) as usize))
    } else {
        None
    }
}

/// Allocation turns the first fitting free block into a used block of the
/// requested size (splitting off the rest as a free block), keeps the
/// tiling, and adds the block to the statistics.
#[verifier::spinoff_prover]
#[verifier::rlimit(40)]
pub proof fn lemma_kmalloc_blocks(s: Seq<Block>, units: int, t: int)
    requires
        blocks_tile(s),
        units >= 1,
        first_fit(s, units) < s.len(),
        forall|k: int| 0 <= k < s.len() ==> ((#[trigger] s[k]).free <==> s[k].objtype is None),
    ensures
        blocks_tile(kmalloc_blocks(s, units, t)),
        forall|k: int|
            0 <= k < kmalloc_blocks(s, units, t).len() ==> ((#[trigger] kmalloc_blocks(
                s,
                units,
                t,
            )[k]).free <==> kmalloc_blocks(s, units, t)[k].objtype is None),
        sum_blocks(kmalloc_blocks(s, units, t), used_bytes()) == sum_blocks(s, used_bytes()) + units
            * 4,
        sum_blocks(kmalloc_blocks(s, units, t), used_count()) == sum_blocks(s, used_count()) + 1,
        forall|u: int|
            #![trigger sum_blocks(kmalloc_blocks(s, units, t), type_count(u))]
            #![trigger sum_blocks(kmalloc_blocks(s, units, t), type_bytes(u))]
            sum_blocks(kmalloc_blocks(s, units, t), type_count(u)) == sum_blocks(s, type_count(u))
                + if u == t {
                1int
            } else {
                0
            } && sum_blocks(kmalloc_blocks(s, units, t), type_bytes(u)) == sum_blocks(
                s,
                type_bytes(u),
            ) + if u == t {
                units * 4
            } else {
                0
            },
{
    lemma_first_fit_from(s, units, 0);
    let k = first_fit(s, units);
    let b = s[k];
    let used = Block { addr: b.addr, size: units, free: false, objtype: Some(t) };
    let s2 = kmalloc_blocks(s, units, t);
    if b.size > units {
        let rem = Block { addr: b.addr + units, size: b.size - units, free: true, objtype: None };
        let s1 = s.update(k, used);
        assert(s2 == s1.insert(k + 1, rem));
        s1.insert_ensures(k + 1, rem);
        assert forall|j: int| 0 <= j < s2.len() - 1 implies #[trigger] s2[j + 1].addr == s2[j].addr
            + s2[j].size by {
            if j < k {
                assert(s[j + 1].addr == s[j].addr + s[j].size);
            } else if j > k + 1 {
                assert(s[j].addr == s[j - 1].addr + s[j - 1].size);
            } else if j == k + 1 && k + 1 < s.len() {
                assert(s[k + 1].addr == s[k].addr + s[k].size);
            }
        }
        assert forall|j: int| 0 <= j < s2.len() implies (#[trigger] s2[j]).size >= 1 by {
            if j > k + 1 {
                assert(s2[j] == s[j - 1]);
            }
        }
        if k == s.len() - 1 {
            assert(s2[s2.len() - 1] == rem);
        } else {
            assert(s2[s2.len() - 1] == s[s.len() - 1]);
        }
        assert forall|j: int| 0 <= j < s2.len() implies ((#[trigger] s2[j]).free <==> s2[j].objtype is None) by {
            if j > k + 1 {
                assert(s2[j] == s[j - 1]);
            } else if j < k {
                assert(s2[j] == s[j]);
            }
        }
        lemma_sum_update(s, k, used, used_bytes());
        lemma_sum_insert(s1, k + 1, rem, used_bytes());
        lemma_sum_update(s, k, used, used_count());
        lemma_sum_insert(s1, k + 1, rem, used_count());
        assert forall|u: int|
            #![trigger sum_blocks(s2, type_count(u))]
            #![trigger sum_blocks(s2, type_bytes(u))]
            sum_blocks(s2, type_count(u)) == sum_blocks(s, type_count(u)) + if u == t {
                1int
            } else {
                0
            } && sum_blocks(s2, type_bytes(u)) == sum_blocks(s, type_bytes(u)) + if u == t {
                units * 4
            } else {
                0
            } by {
            lemma_sum_update(s, k, used, type_count(u));
            lemma_sum_insert(s1, k + 1, rem, type_count(u));
            lemma_sum_update(s, k, used, type_bytes(u));
            lemma_sum_insert(s1, k + 1, rem, type_bytes(u));
        }
    } else {
        assert(b.size == units);
        assert(s2 == s.update(k, used));
        assert forall|j: int| 0 <= j < s2.len() - 1 implies #[trigger] s2[j + 1].addr == s2[j].addr
            + s2[j].size by {
            assert(s[j + 1].addr == s[j].addr + s[j].size);
        }
        assert forall|j: int| 0 <= j < s2.len() implies ((#[trigger] s2[j]).free <==> s2[j].objtype is None) by {
            if j != k {
                assert(s2[j] == s[j]);
            }
        }
        assert(s2[s2.len() - 1].addr + s2[s2.len() - 1].size == usize::MAX) by {
            assert(s[s.len() - 1].addr + s[s.len() - 1].size == usize::MAX);
        }
        lemma_sum_update(s, k, used, used_bytes());
        lemma_sum_update(s, k, used, used_count());
        assert forall|u: int|
            #![trigger sum_blocks(s2, type_count(u))]
            #![trigger sum_blocks(s2, type_bytes(u))]
            sum_blocks(s2, type_count(u)) == sum_blocks(s, type_count(u)) + if u == t {
                1int
            } else {
                0
            } && sum_blocks(s2, type_bytes(u)) == sum_blocks(s, type_bytes(u)) + if u == t {
                units * 4
            } else {
                0
            } by {
            lemma_sum_update(s, k, used, type_count(u));
            lemma_sum_update(s, k, used, type_bytes(u));
        }
    }
}

} // verus!

verus! {

impl Kvmem {
    /// Allocates an object of `size` bytes of kind `objtype`: takes the first
    /// free node that holds it, splits off what is left, updates the
    /// statistics and registers the kind on its first use.
    pub fn kmalloc(&mut self, size: usize, objtype: usize, flags: usize) -> (r: KmallocResult)
        requires
            old(self).inv(),
            old(self).kmalloc_ok(size as int, objtype as int),
        ensures
            final(self).inv(),
            ({
                let s = old(self).blocks();
                let units = (size + 3) / 4;
                let k = first_fit(s, units);
                &&& final(self).blocks() == kmalloc_blocks(s, units, objtype as int)
                &&& r.addr == KVMEM_BASE + s[k].addr * 4
                &&& r.map == kmalloc_map(r.addr as int, units * 4)
                &&& final(self).kvmem_used == old(self).kvmem_used + units * 4
                &&& final(self).types@[objtype as int].total == old(self).types@[objtype as int].total
                    + units * 4
            }),
            r.zero == (flags & M_ZERO != 0),
            final(self).kvmem_obj_cnt == old(self).kvmem_obj_cnt + 1,
            final(self).types@.len() == old(self).types@.len(),
            final(self).types@[objtype as int].nr == old(self).types@[objtype as int].nr + 1,
            forall|u: int|
                0 <= u < old(self).types@.len() && u != objtype ==> (#[trigger] final(self).types@[u]).nr
                    == old(self).types@[u].nr && final(self).types@[u].total == old(self).types@[u].total
                    && final(self).types@[u].qnode == old(self).types@[u].qnode,
            final(self).malloc_types@ == if old(self).types@[objtype as int].qnode is None {
                old(self).malloc_types@.push(objtype)
            } else {
                old(self).malloc_types@
            },
            final(self).types@[objtype as int].qnode == if old(self).types@[objtype as int].qnode is None {
                Some(old(self).malloc_types@.len() as usize)
            } else {
                old(self).types@[objtype as int].qnode
            },
    {
        /* round size to 4-byte units */
        let units = (size + 3) / 4;
        let ghost s0 = self.blocks();
        let ghost c0 = self.chain@;
        let ghost nodes0 = self.nodes@;
        let ghost k = first_fit(s0, units as int);
        proof {
            lemma_first_fit_from(s0, units as int, 0);
            lemma_kmalloc_blocks(s0, units as int, objtype as int);
        }
        /* look for a first fit free node */
        let i = self.get_first_fit_free_node(units);
        proof {
            assert(s0[k] == block_of(self.nodes@[i as int]));
        }
        /* split the node if necessary */
        if self.nodes[i].size > units {
            let n = self.get_node();
            proof {
                assert(!c0.contains(n as int)) by {
                    if c0.contains(n as int) {
                        let j = choose|j: int| 0 <= j < c0.len() && c0[j] == n;
                        assert(s0[j].size >= 1);
                    }
                }
            }
            let node_i = self.nodes[i];
            let old_n_type = self.nodes[n].objtype;
            self.nodes.set(
                n,
                ObjectNode {
                    addr: node_i.addr + units,
                    free: true,
                    size: node_i.size - units,
                    next: node_i.next,
                    objtype: old_n_type,
                },
            );
            self.nodes[i].next = n;
            self.nodes[i].size = units;
            /* mark it as used */
            self.nodes[i].free = false;
            self.nodes[i].objtype = Some(objtype);
            proof {
                lemma_chain_split(nodes0, self.nodes@, c0, k, n as int);
                self.chain@ = c0.insert(k + 1, n as int);
                lemma_blocks_split(nodes0, self.nodes@, c0, k, n as int, units as int, objtype as int);
            }
        } else {
            /* mark it as used */
            self.nodes[i].free = false;
            self.nodes[i].objtype = Some(objtype);
            proof {
                lemma_chain_update(nodes0, self.nodes@, c0, k);
                lemma_blocks_nosplit(nodes0, self.nodes@, c0, k, units as int, objtype as int);
            }
        }
        self.types[objtype].nr = self.types[objtype].nr + 1;
        self.types[objtype].total = self.types[objtype].total + units * 4;
        self.kvmem_used = self.kvmem_used + units * 4;
        self.kvmem_obj_cnt = self.kvmem_obj_cnt + 1;
        let addr = KVMEM_BASE + self.nodes[i].addr * 4;
        let nbytes = self.nodes[i].size * 4;
        let map_base = page_align(addr);
        let map_end = page_round(addr + nbytes);
        let map_size = (map_end - map_base) / PAGE_SIZE;
        let map = if map_size > 0 {
            Some((map_base, map_size * PAGE_SIZE))
        } else {
            None
        };
        let ghost types1 = self.types@;
        let ghost mt1 = self.malloc_types@;
        if self.types[objtype].qnode.is_none() {
            let q = self.malloc_types.len();
            self.malloc_types.push(objtype);
            self.types[objtype].qnode = Some(q);
        }
        proof {
            assert(old(self).types.len() == old(self).types@.len());
            lemma_kmalloc_registry(old(self).types@, old(self).malloc_types@, types1, mt1, self.types@, self.malloc_types@, objtype as int);
            let s2 = self.blocks();
            assert forall|t: int| 0 <= t < self.types@.len() implies (#[trigger] self.types@[t]).nr
                == sum_blocks(s2, type_count(t)) && self.types@[t].total == sum_blocks(s2, type_bytes(t)) by {
                assert(sum_blocks(s2, type_count(t)) == sum_blocks(s0, type_count(t)) + if t == objtype {
                    1int
                } else {
                    0
                });
                assert(sum_blocks(s2, type_bytes(t)) == sum_blocks(s0, type_bytes(t)) + if t == objtype {
                    units * 4
                } else {
                    0
                });
                assert(old(self).types@[t].nr == sum_blocks(s0, type_count(t)));
            }
            lemma_kmalloc_bounds(s0, units as int, objtype as int, self.types@.len() as int);
        }
        KmallocResult { addr, map, zero: (flags & M_ZERO) != 0 }
    }
}

/// The blocks after splitting node `c0[k]` into a used head of `units`
/// units and a free tail held by node `n`.
pub proof fn lemma_blocks_split(
    nodes0: Seq<ObjectNode>,
    nodes1: Seq<ObjectNode>,
    c0: Seq<int>,
    k: int,
    n: int,
    units: int,
    t: int,
)
    requires
        chain_links(nodes0, c0),
        nodes0.len() == nodes1.len() == LAST_NODE_INDEX,
        0 <= k < c0.len(),
        0 <= n < LAST_NODE_INDEX,
        !c0.contains(n),
        k == first_fit(blocks_of(nodes0, c0), units),
        nodes0[c0[k]].size > units,
        forall|x: int| 0 <= x < LAST_NODE_INDEX && x != n && x != c0[k] ==> #[trigger] nodes1[x] == nodes0[x],
        block_of(nodes1[c0[k]]) == (Block { addr: nodes0[c0[k]].addr as int, size: units, free: false, objtype: Some(t) }),
        block_of(nodes1[n]) == (Block { addr: nodes0[c0[k]].addr + units, size: nodes0[c0[k]].size - units, free: true, objtype: None }),
    ensures
        blocks_of(nodes1, c0.insert(k + 1, n)) == kmalloc_blocks(blocks_of(nodes0, c0), units, t),
{
    let c = c0.insert(k + 1, n);
    c0.insert_ensures(k + 1, n);
    let s0 = blocks_of(nodes0, c0);
    let s2 = kmalloc_blocks(s0, units, t);
    let used = Block { addr: s0[k].addr, size: units, free: false, objtype: Some(t) };
    let rem = Block { addr: s0[k].addr + units, size: s0[k].size - units, free: true, objtype: None };
    s0.update(k, used).insert_ensures(k + 1, rem);
    assert forall|j: int| 0 <= j < s2.len() implies #[trigger] blocks_of(nodes1, c)[j] == s2[j] by {
        if j < k {
            assert(c[j] == c0[j]);
            assert(c0[j] != c0[k]);
            assert(c0[j] != n) by {
                assert(c0.contains(c0[j]));
            }
        } else if j > k + 1 {
            assert(c[j] == c0[j - 1]);
            assert(c0[j - 1] != c0[k]);
            assert(c0[j - 1] != n) by {
                assert(c0.contains(c0[j - 1]));
            }
        }
    }
    assert(blocks_of(nodes1, c) =~= s2);
}

/// The blocks after node `c0[k]` becomes used as a whole.
pub proof fn lemma_blocks_nosplit(
    nodes0: Seq<ObjectNode>,
    nodes1: Seq<ObjectNode>,
    c0: Seq<int>,
    k: int,
    units: int,
    t: int,
)
    requires
        chain_links(nodes0, c0),
        nodes0.len() == nodes1.len() == LAST_NODE_INDEX,
        0 <= k < c0.len(),
        k == first_fit(blocks_of(nodes0, c0), units),
        nodes0[c0[k]].size <= units,
        forall|x: int| 0 <= x < LAST_NODE_INDEX && x != c0[k] ==> #[trigger] nodes1[x] == nodes0[x],
        block_of(nodes1[c0[k]]) == (Block { addr: nodes0[c0[k]].addr as int, size: nodes0[c0[k]].size as int, free: false, objtype: Some(t) }),
    ensures
        blocks_of(nodes1, c0) == kmalloc_blocks(blocks_of(nodes0, c0), units, t),
{
    let s0 = blocks_of(nodes0, c0);
    let s2 = kmalloc_blocks(s0, units, t);
    assert forall|j: int| 0 <= j < s2.len() implies #[trigger] blocks_of(nodes1, c0)[j] == s2[j] by {
        if j != k {
            assert(c0[j] != c0[k]);
        }
    }
    assert(blocks_of(nodes1, c0) =~= s2);
}

/// Registering a kind on its first use keeps the registry consistent.
pub proof fn lemma_kmalloc_registry(
    types0: Seq<MallocType>,
    mt0: Seq<usize>,
    types1: Seq<MallocType>,
    mt1: Seq<usize>,
    types2: Seq<MallocType>,
    mt2: Seq<usize>,
    t: int,
)
    requires
        mt0.len() <= types0.len(),
        types0.len() <= usize::MAX,
        forall|u: int|
            0 <= u < types0.len() ==> ((#[trigger] types0[u]).qnode matches Some(q) ==> q < mt0.len()
                && mt0[q as int] == u),
        forall|q: int|
            0 <= q < mt0.len() ==> #[trigger] mt0[q] < types0.len() && types0[mt0[q] as int].qnode
                == Some(q as usize),
        0 <= t < types0.len(),
        types1.len() == types0.len(),
        forall|u: int| 0 <= u < types0.len() ==> (#[trigger] types1[u]).qnode == types0[u].qnode,
        mt1 == mt0,
        types0[t].qnode is None ==> mt2 == mt1.push(t as usize) && types2 == types1.update(
            t,
            MallocType { qnode: Some(mt1.len() as usize), ..types1[t] },
        ),
        types0[t].qnode is Some ==> mt2 == mt1 && types2 == types1,
    ensures
        mt2.len() <= types2.len(),
        types2.len() == types0.len(),
        forall|u: int|
            0 <= u < types2.len() ==> ((#[trigger] types2[u]).qnode matches Some(q) ==> q < mt2.len()
                && mt2[q as int] == u),
        forall|q: int|
            0 <= q < mt2.len() ==> #[trigger] mt2[q] < types2.len() && types2[mt2[q] as int].qnode
                == Some(q as usize),
{
    if types0[t].qnode is None {
        assert(mt0.len() < types0.len()) by {
            assert(!mt0.contains(t as usize)) by {
                if mt0.contains(t as usize) {
                    let q = choose|q: int| 0 <= q < mt0.len() && mt0[q] == t as usize;
                    assert(mt0[q] as int == t);
                    assert(types0[mt0[q] as int].qnode == Some(q as usize));
                }
            }
            assert forall|q1: int, q2: int| 0 <= q1 < mt0.len() && 0 <= q2 < mt0.len() && q1 != q2 implies #[trigger] mt0[q1] != #[trigger] mt0[q2] by {
                assert(types0[mt0[q1] as int].qnode == Some(q1 as usize));
                assert(types0[mt0[q2] as int].qnode == Some(q2 as usize));
            }
            lemma_injective_bound(mt0, types0.len() as int, t);
        }
        assert forall|q: int| 0 <= q < mt2.len() implies #[trigger] mt2[q] < types2.len()
            && types2[mt2[q] as int].qnode == Some(q as usize) by {
            if q < mt0.len() {
                assert(mt0[q] != t) by {
                    assert(types0[mt0[q] as int].qnode == Some(q as usize));
                }
            }
        }
    }
}

/// A list of distinct numbers below `n` that misses `t < n` is shorter than `n`.
pub proof fn lemma_injective_bound(s: Seq<usize>, n: int, t: int)
    requires
        0 <= t < n,
        forall|q: int| 0 <= q < s.len() ==> #[trigger] s[q] < n,
        forall|q1: int, q2: int| 0 <= q1 < s.len() && 0 <= q2 < s.len() && q1 != q2 ==> #[trigger] s[q1] != #[trigger] s[q2],
        !s.contains(t as usize),
    ensures
        s.len() < n,
{
    let m = s.map_values(|x: usize| x as int);
    assert forall|q1: int, q2: int| 0 <= q1 < m.len() && 0 <= q2 < m.len() && q1 != q2 implies m[q1] != m[q2] by {
        assert(s[q1] != s[q2]);
    }
    assert(m.no_duplicates());
    let st = m.to_set();
    let r = vstd::set_lib::set_int_range(0, n).remove(t);
    assert(st.subset_of(r)) by {
        assert forall|x: int| st.contains(x) implies r.contains(x) by {
            let q = choose|q: int| 0 <= q < m.len() && m[q] == x;
            assert(s[q] < n);
            if x == t {
                assert(s[q] == t as usize);
                assert(s.contains(t as usize));
            }
        }
    }
    m.unique_seq_to_set();
    vstd::set_lib::lemma_int_range(0, n);
    vstd::set_lib::lemma_len_subset(st, r);
}

/// The address and kind bounds hold of the blocks after allocation.
pub proof fn lemma_kmalloc_bounds(s: Seq<Block>, units: int, t: int, ntypes: int)
    requires
        blocks_tile(s),
        units >= 1,
        first_fit(s, units) < s.len(),
        0 <= t < ntypes,
        KVMEM_BASE + (s[first_fit(s, units)].addr + units) * 4 <= usize::MAX,
        forall|k: int| 0 <= k < s.len() ==> KVMEM_BASE + (#[trigger] s[k]).addr * 4 <= usize::MAX,
        forall|k: int|
            0 <= k < s.len() && !(#[trigger] s[k]).free ==> KVMEM_BASE + (s[k].addr + s[k].size) * 4
                <= usize::MAX && 0 <= s[k].objtype.unwrap() < ntypes,
    ensures
        forall|k: int|
            0 <= k < kmalloc_blocks(s, units, t).len() ==> KVMEM_BASE + (#[trigger] kmalloc_blocks(
                s,
                units,
                t,
            )[k]).addr * 4 <= usize::MAX,
        forall|k: int|
            0 <= k < kmalloc_blocks(s, units, t).len() && !(#[trigger] kmalloc_blocks(
                s,
                units,
                t,
            )[k]).free ==> KVMEM_BASE + (kmalloc_blocks(s, units, t)[k].addr + kmalloc_blocks(
                s,
                units,
                t,
            )[k].size) * 4 <= usize::MAX && 0 <= kmalloc_blocks(s, units, t)[k].objtype.unwrap()
                < ntypes,
{
    lemma_first_fit_from(s, units, 0);
    let k = first_fit(s, units);
    let s2 = kmalloc_blocks(s, units, t);
    let used = Block { addr: s[k].addr, size: units, free: false, objtype: Some(t) };
    if s[k].size > units {
        let rem = Block { addr: s[k].addr + units, size: s[k].size - units, free: true, objtype: None };
        s.update(k, used).insert_ensures(k + 1, rem);
        assert forall|j: int| 0 <= j < s2.len() implies s2[j] == (if j < k {
            s[j]
        } else if j == k {
            used
        } else if j == k + 1 {
            rem
        } else {
            s[j - 1]
        }) by {}
    } else {
        assert forall|j: int| 0 <= j < s2.len() implies s2[j] == (if j == k {
            Block { addr: s[k].addr, size: s[k].size, free: false, objtype: Some(t) }
        } else {
            s[j]
        }) by {}
    }
}

} // verus!

verus! {

/// Block `p` absorbs its successor `c`.
pub open spec fn merge_blocks(s: Seq<Block>, p: int, c: int) -> Seq<Block> {
    s.update(p, Block { size: s[p].size + s[c].size, ..s[p] }).remove(c)
}

/// Whether the walk merges block `c` into its predecessor `p`.
pub open spec fn can_merge(s: Seq<Block>, p: int, c: int) -> bool {
    c != 0 && s[c].free && s[p].free && s[c].size + s[p].size <= MAX_NODE_SIZE
}

/// Walk of `kfree` from block `c` (predecessor `p`) towards the block at
/// address `ptr`, merging free neighbours on the way.  Gives the blocks after
/// the walk and, when the block was found, its position and that of its
/// predecessor.
pub open spec fn kfree_find(s: Seq<Block>, ptr: int, p: int, c: int) -> (Seq<Block>, Option<(int, int)>)
    decreases s.len() - c,
{
    if c < 0 || c >= s.len() || p < 0 || p > c {
        (s, None)
    } else if block_addr(s[c]) == ptr {
        (s, Some((p, c)))
    } else if can_merge(s, p, c) {
        kfree_find(merge_blocks(s, p, c), ptr, p, c)
    } else if c + 1 >= s.len() {
        (s, None)
    } else {
        kfree_find(s, ptr, c, c + 1)
    }
}

/// Merging ahead of a released block: while the current block is free and
/// not the last, merge it into its predecessor when allowed, else move on.
pub open spec fn kfree_merge(s: Seq<Block>, p: int, c: int) -> Seq<Block>
    decreases s.len() - c,
{
    if c < 0 || c >= s.len() - 1 || p < 0 || p > c || !s[c].free {
        s
    } else if can_merge(s, p, c) {
        kfree_merge(merge_blocks(s, p, c), p, c)
    } else {
        kfree_merge(s, c, c + 1)
    }
}

/// The used block that `kfree(ptr)` releases, if any.
pub open spec fn kfree_target(s: Seq<Block>, ptr: int) -> Option<Block> {
    if ptr < KVMEM_BASE {
        None
    } else {
        match kfree_find(s, ptr, 0, 0).1 {
            Some((p, c)) => Some(kfree_find(s, ptr, 0, 0).0[c]),
            None => None,
        }
    }
}

/// The blocks after `kfree(ptr)`.
pub open spec fn kfree_blocks(s: Seq<Block>, ptr: int) -> Seq<Block> {
    if ptr < KVMEM_BASE {
        s
    } else {
        let (s1, r) = kfree_find(s, ptr, 0, 0);
        match r {
            None => s1,
            Some((p, c)) => kfree_merge(
                s1.update(c, Block { free: true, objtype: None, ..s1[c] }),
                p,
                c,
            ),
        }
    }
}

/// Facts kept by the blocks of a well-formed allocator.
pub open spec fn blocks_ok(s: Seq<Block>) -> bool {
    &&& blocks_tile(s)
    &&& forall|k: int| 0 <= k < s.len() ==> KVMEM_BASE + (#[trigger] s[k]).addr * 4 <= usize::MAX
    &&& forall|k: int| 0 <= k < s.len() ==> ((#[trigger] s[k]).free <==> s[k].objtype is None)
}

/// Merging two free neighbours keeps the tiling and every sum of used blocks.
pub proof fn lemma_merge_blocks(s: Seq<Block>, p: int, c: int, f: spec_fn(Block) -> int)
    requires
        blocks_ok(s),
        0 <= p && c == p + 1 && c < s.len(),
        s[p].free && s[c].free,
        forall|b: Block| b.free ==> #[trigger] f(b) == 0,
    ensures
        blocks_ok(merge_blocks(s, p, c)),
        sum_blocks(merge_blocks(s, p, c), f) == sum_blocks(s, f),
        merge_blocks(s, p, c).len() == s.len() - 1,
        forall|j: int| 0 <= j < p ==> #[trigger] merge_blocks(s, p, c)[j] == s[j],
        forall|j: int| c <= j < s.len() - 1 ==> #[trigger] merge_blocks(s, p, c)[j] == s[j + 1],
        merge_blocks(s, p, c)[p] == (Block { size: s[p].size + s[c].size, ..s[p] }),
{
    let b = Block { size: s[p].size + s[c].size, ..s[p] };
    let s1 = s.update(p, b);
    let s2 = s1.remove(c);
    s1.remove_ensures(c);
    lemma_sum_update(s, p, b, f);
    lemma_sum_remove(s1, c, f);
    assert forall|j: int| 0 <= j < s2.len() - 1 implies #[trigger] s2[j + 1].addr == s2[j].addr + s2[j].size by {
        if j < p {
            assert(s[j + 1].addr == s[j].addr + s[j].size);
        } else if j == p {
            assert(s[c + 1].addr == s[c].addr + s[c].size);
            assert(s[c].addr == s[p].addr + s[p].size);
        } else {
            assert(s[j + 2].addr == s[j + 1].addr + s[j + 1].size);
        }
    }
    if c == s.len() - 1 {
        assert(s[c].addr == s[p].addr + s[p].size);
    }
    assert forall|j: int| 0 <= j < s2.len() implies KVMEM_BASE + (#[trigger] s2[j]).addr * 4 <= usize::MAX
        && ((s2[j]).free <==> s2[j].objtype is None) && s2[j].size >= 1 by {
        if j > p {
            assert(s2[j] == s[j + 1]);
        } else if j < p {
            assert(s2[j] == s[j]);
        }
    }
}

/// The last block is too large to be merged.
pub proof fn lemma_last_block_large(s: Seq<Block>)
    requires
        blocks_ok(s),
    ensures
        s[s.len() - 1].size > MAX_NODE_SIZE,
        forall|k: int| 0 <= k < s.len() - 1 ==> #[trigger] s[k].size + s[k + 1].size <= usize::MAX,
{
    let l = s[s.len() - 1];
    assert(KVMEM_BASE + l.addr * 4 <= usize::MAX);
    assert forall|k: int| 0 <= k < s.len() - 1 implies #[trigger] s[k].size + s[k + 1].size <= usize::MAX by {
        lemma_tile_bound(s, k + 1);
        lemma_tile_start(s, k);
        assert(s[k + 1].addr == s[k].addr + s[k].size);
    }
}

/// Every block ends at or before the end of the area.
pub proof fn lemma_tile_bound(s: Seq<Block>, k: int)
    requires
        blocks_tile(s),
        0 <= k < s.len(),
    ensures
        s[k].addr >= 0,
        s[k].addr + s[k].size <= usize::MAX,
    decreases s.len() - k, 
{
    if k < s.len() - 1 {
        lemma_tile_bound(s, k + 1);
        assert(s[k + 1].addr == s[k].addr + s[k].size);
    }
    lemma_tile_start(s, k);
}

/// Every block starts at or after the start of the area.
pub proof fn lemma_tile_start(s: Seq<Block>, k: int)
    requires
        blocks_tile(s),
        0 <= k < s.len(),
    ensures
        s[k].addr >= 0,
    decreases k,
{
    if k > 0 {
        lemma_tile_start(s, k - 1);
        let j = k - 1;
        assert(s[j + 1].addr == s[j].addr + s[j].size);
    }
}

} // verus!

verus! {

/// The list after position `cc` is dropped and its node released: the node
/// of `pc` takes over its link.
pub proof fn lemma_chain_merge(nodes0: Seq<ObjectNode>, nodes1: Seq<ObjectNode>, c0: Seq<int>, pc: int, cc: int)
    requires
        chain_links(nodes0, c0),
        nodes0.len() == nodes1.len() == LAST_NODE_INDEX,
        0 <= pc && cc == pc + 1 && cc < c0.len(),
        nodes0[c0[cc]].objtype is None,
        nodes1[c0[pc]].next == nodes0[c0[cc]].next,
        nodes1[c0[cc]].size == 0 && nodes1[c0[cc]].objtype is None,
        forall|x: int| 0 <= x < LAST_NODE_INDEX && x != c0[pc] && x != c0[cc] ==> #[trigger] nodes1[x] == nodes0[x],
    ensures
        chain_links(nodes1, c0.remove(cc)),
        forall|k: int| 0 <= k < cc ==> #[trigger] c0.remove(cc)[k] == c0[k],
        forall|k: int| cc <= k < c0.len() - 1 ==> #[trigger] c0.remove(cc)[k] == c0[k + 1],
        c0.remove(cc).len() == c0.len() - 1,
{
    let c1 = c0.remove(cc);
    c0.remove_ensures(cc);
    let i = c0[pc];
    let j = c0[cc];
    assert forall|k: int| 0 <= k < c1.len() - 1 implies #[trigger] nodes1[c1[k]].next == c1[k + 1] by {
        if k < pc {
            assert(c0[k] != i && c0[k] != j);
            assert(nodes0[c0[k]].next == c0[k + 1]);
        } else if k == pc {
            assert(nodes0[c0[cc]].next == c0[cc + 1]);
        } else {
            assert(c0[k + 1] != i && c0[k + 1] != j);
            assert(nodes0[c0[k + 1]].next == c0[k + 2]);
        }
    }
    assert(nodes1[c1[c1.len() - 1]].next == LAST_NODE_INDEX) by {
        if cc == c0.len() - 1 {
            assert(c1[c1.len() - 1] == i);
        } else {
            assert(c1[c1.len() - 1] == c0[c0.len() - 1]);
            assert(c0[c0.len() - 1] != i && c0[c0.len() - 1] != j);
        }
    }
    assert forall|k1_: int, k2_: int|
        0 <= k1_ < c1.len() && 0 <= k2_ < c1.len() && k1_ != k2_ implies #[trigger] c1[k1_] != #[trigger] c1[k2_] by {
        let a = if k1_ < cc { k1_ } else { k1_ + 1 };
        let b = if k2_ < cc { k2_ } else { k2_ + 1 };
        assert(c1[k1_] == c0[a]);
        assert(c1[k2_] == c0[b]);
    }
    assert forall|k: int| 0 <= k < c1.len() implies 0 <= #[trigger] c1[k] < LAST_NODE_INDEX by {
        let a = if k < cc { k } else { k + 1 };
        assert(c1[k] == c0[a]);
    }
    assert forall|x: int| 0 <= x < LAST_NODE_INDEX && !c1.contains(x) implies #[trigger] nodes1[x].size
        == 0 && nodes1[x].objtype is None by {
        if x != j {
            assert(x != i) by {
                if x == i {
                    assert(c1[pc] == i);
                    assert(c1.contains(i));
                }
            }
            assert(!c0.contains(x)) by {
                if c0.contains(x) {
                    let q = choose|q: int| 0 <= q < c0.len() && c0[q] == x;
                    if q < cc {
                        assert(c1[q] == x);
                    } else {
                        assert(q != cc);
                        assert(c1[q - 1] == x);
                    }
                }
            }
            assert(nodes0[x].size == 0);
        }
    }
}

/// The blocks after the merge of positions `pc` and `cc`.
pub proof fn lemma_blocks_merge(nodes0: Seq<ObjectNode>, nodes1: Seq<ObjectNode>, c0: Seq<int>, pc: int, cc: int)
    requires
        chain_links(nodes0, c0),
        nodes0.len() == nodes1.len() == LAST_NODE_INDEX,
        0 <= pc && cc == pc + 1 && cc < c0.len(),
        block_of(nodes1[c0[pc]]) == (Block {
            size: nodes0[c0[pc]].size + nodes0[c0[cc]].size,
            ..block_of(nodes0[c0[pc]])
        }),
        forall|x: int| 0 <= x < LAST_NODE_INDEX && x != c0[pc] && x != c0[cc] ==> #[trigger] nodes1[x] == nodes0[x],
    ensures
        blocks_of(nodes1, c0.remove(cc)) == merge_blocks(blocks_of(nodes0, c0), pc, cc),
{
    let s0 = blocks_of(nodes0, c0);
    let s1 = merge_blocks(s0, pc, cc);
    let c1 = c0.remove(cc);
    c0.remove_ensures(cc);
    let b = Block { size: s0[pc].size + s0[cc].size, ..s0[pc] };
    s0.update(pc, b).remove_ensures(cc);
    assert forall|k: int| 0 <= k < s1.len() implies #[trigger] blocks_of(nodes1, c1)[k] == s1[k] by {
        if k < pc {
            assert(c0[k] != c0[pc] && c0[k] != c0[cc]);
        } else if k > pc {
            assert(c1[k] == c0[k + 1]);
            assert(c0[k + 1] != c0[pc] && c0[k + 1] != c0[cc]);
        }
    }
    assert(blocks_of(nodes1, c1) =~= s1);
}

/// Merging two free neighbours keeps the allocator invariant.
pub proof fn lemma_merge_state(k0: Kvmem, k1: Kvmem, pc: int, cc: int)
    requires
        k0.inv(),
        0 <= pc && cc == pc + 1 && cc < k0.chain@.len(),
        k0.blocks()[pc].free && k0.blocks()[cc].free,
        k1.chain@ == k0.chain@.remove(cc),
        k1.blocks() == merge_blocks(k0.blocks(), pc, cc),
        chain_links(k1.nodes@, k1.chain@),
        k1.nodes@.len() == LAST_NODE_INDEX,
        k1.first_free_node == k0.first_free_node,
        k1.kvmem_used == k0.kvmem_used,
        k1.kvmem_obj_cnt == k0.kvmem_obj_cnt,
        k1.types@ == k0.types@,
        k1.malloc_types@ == k0.malloc_types@,
    ensures
        k1.inv(),
{
    let s0 = k0.blocks();
    let s1 = k1.blocks();
    lemma_merge_blocks(s0, pc, cc, used_bytes());
    lemma_merge_blocks(s0, pc, cc, used_count());
    assert forall|t: int| 0 <= t < k1.types@.len() implies (#[trigger] k1.types@[t]).nr == sum_blocks(
        s1,
        type_count(t),
    ) && k1.types@[t].total == sum_blocks(s1, type_bytes(t)) by {
        lemma_merge_blocks(s0, pc, cc, type_count(t));
        lemma_merge_blocks(s0, pc, cc, type_bytes(t));
        assert(k0.types@[t].nr == sum_blocks(s0, type_count(t)));
    }
    assert forall|k: int|
        0 <= k < s1.len() && !(#[trigger] s1[k]).free implies KVMEM_BASE + (s1[k].addr + s1[k].size) * 4
            <= usize::MAX && 0 <= s1[k].objtype.unwrap() < k1.types@.len() by {
        if k < pc {
            assert(s1[k] == s0[k]);
        } else if k > pc {
            assert(s1[k] == s0[k + 1]);
        }
    }
}

} // verus!

verus! {

impl Kvmem {
    /// Puts node `i` back among the unused nodes.
    fn release_node(&mut self, i: usize)
        requires
            old(self).nodes@.len() == LAST_NODE_INDEX,
            i < LAST_NODE_INDEX,
            old(self).nodes@[i as int].objtype is None,
        ensures
            final(self).nodes@ == old(self).nodes@.update(
                i as int,
                ObjectNode { size: 0, free: true, ..old(self).nodes@[i as int] },
            ),
            final(self).chain == old(self).chain,
            final(self).first_free_node == old(self).first_free_node,
            final(self).kvmem_used == old(self).kvmem_used,
            final(self).kvmem_obj_cnt == old(self).kvmem_obj_cnt,
            final(self).types@ == old(self).types@,
            final(self).malloc_types@ == old(self).malloc_types@,
    {
        if let Some(t) = self.nodes[i].objtype {
            /* a released node holds no object: this branch is never taken */
            self.types[t].nr = self.types[t].nr - 1;
        }
        self.nodes[i].size = 0;
        self.nodes[i].free = true;
    }

    /// Merges the free node `cur`, at list position `pc + 1`, into its free
    /// predecessor `prev`.
    fn merge_next(&mut self, prev: usize, cur: usize, Ghost(pc): Ghost<int>)
        requires
            old(self).inv(),
            0 <= pc && pc + 1 < old(self).chain@.len(),
            old(self).chain@[pc] == prev,
            old(self).chain@[pc + 1] == cur,
            can_merge(old(self).blocks(), pc, pc + 1),
        ensures
            final(self).inv(),
            final(self).chain@ == old(self).chain@.remove(pc + 1),
            final(self).blocks() == merge_blocks(old(self).blocks(), pc, pc + 1),
            final(self).nodes@[prev as int].next == old(self).nodes@[cur as int].next,
            final(self).kvmem_used == old(self).kvmem_used,
            final(self).kvmem_obj_cnt == old(self).kvmem_obj_cnt,
            final(self).types@ == old(self).types@,
            final(self).malloc_types@ == old(self).malloc_types@,
    {
        let ghost k0 = *self;
        let ghost s0 = self.blocks();
        proof {
            assert(s0[pc] == block_of(self.nodes@[prev as int]));
            assert(s0[pc + 1] == block_of(self.nodes@[cur as int]));
            assert(prev != cur);
        }
        let csize = self.nodes[cur].size;
        let cnext = self.nodes[cur].next;
        self.nodes[prev].size = self.nodes[prev].size + csize;
        self.nodes[prev].next = cnext;
        self.release_node(cur);
        proof {
            lemma_chain_merge(k0.nodes@, self.nodes@, k0.chain@, pc, pc + 1);
            lemma_blocks_merge(k0.nodes@, self.nodes@, k0.chain@, pc, pc + 1);
            self.chain@ = k0.chain@.remove(pc + 1);
            lemma_merge_state(k0, *self, pc, pc + 1);
        }
    }
}

} // verus!

verus! {

impl Kvmem {
    /// Releases the object at `ptr`: walks the list from its head, merging
    /// free neighbours on the way; marks the object's node free, updates the
    /// statistics, and merges the free nodes that follow it.  An address that
    /// is no object's leaves the objects as they are.
    pub fn kfree(&mut self, ptr: usize)
        requires
            old(self).inv(),
            !(kfree_target(old(self).blocks(), ptr as int) matches Some(b) && b.free),
        ensures
            final(self).inv(),
            final(self).blocks() == kfree_blocks(old(self).blocks(), ptr as int),
            match kfree_target(old(self).blocks(), ptr as int) {
                Some(b) => {
                    let t = b.objtype.unwrap();
                    &&& final(self).kvmem_used == old(self).kvmem_used - b.size * 4
                    &&& final(self).kvmem_obj_cnt == old(self).kvmem_obj_cnt - 1
                    &&& final(self).types@ == old(self).types@.update(
                        t,
                        MallocType {
                            nr: (old(self).types@[t].nr - 1) as usize,
                            total: (old(self).types@[t].total - b.size * 4) as usize,
                            ..old(self).types@[t]
                        },
                    )
                },
                None => {
                    &&& final(self).kvmem_used == old(self).kvmem_used
                    &&& final(self).kvmem_obj_cnt == old(self).kvmem_obj_cnt
                    &&& final(self).types@ == old(self).types@
                },
            },
            final(self).malloc_types@ == old(self).malloc_types@,
    {
        if ptr < KVMEM_BASE {
            /* that's not even allocatable */
            return;
        }
        let ghost s0 = self.blocks();
        let ghost mut pc: int = 0;
        let ghost mut cc: int = 0;
        /* look for the node containing ptr -- merge sequential free nodes */
        let mut cur: usize = 0;
        let mut prev: usize = 0;
        while ptr != KVMEM_BASE + self.nodes[cur].addr * 4
            invariant
                self.inv(),
                ptr >= KVMEM_BASE,
                0 <= pc <= cc < self.chain@.len(),
                pc + 1 == cc || (pc == 0 && cc == 0),
                cur == self.chain@[cc],
                prev == self.chain@[pc],
                kfree_find(self.blocks(), ptr as int, pc, cc) == kfree_find(s0, ptr as int, 0, 0),
                self.kvmem_used == old(self).kvmem_used,
                self.kvmem_obj_cnt == old(self).kvmem_obj_cnt,
                self.types@ == old(self).types@,
                self.malloc_types@ == old(self).malloc_types@,
                s0 == old(self).blocks(),
            decreases self.chain@.len() - cc,
        {
            let ghost s = self.blocks();
            proof {
                lemma_walk_facts(*self, pc, cc);
            }
            /* check if current and previous node are free */
            if cur != 0 && self.nodes[cur].free && self.nodes[prev].free {
                /* check for overflow */
                if self.nodes[cur].size + self.nodes[prev].size <= MAX_NODE_SIZE {
                    proof {
                        assert(can_merge(s, pc, cc));
                        assert(kfree_find(s, ptr as int, pc, cc) == kfree_find(merge_blocks(s, pc, cc), ptr as int, pc, cc));
                    }
                    self.merge_next(prev, cur, Ghost(pc));
                    cur = self.nodes[prev].next;
                    proof {
                        assert(self.chain@[cc] == cur);
                    }
                    continue;
                }
            }
            proof {
                assert(!can_merge(s, pc, cc));
                assert(block_addr(s[cc]) != ptr);
            }
            prev = cur;
            cur = self.nodes[cur].next;
            if cur == LAST_NODE_INDEX {
                /* trying to free unallocated node */
                return;
            }
            proof {
                pc = cc;
                cc = cc + 1;
            }
        }
        let ghost s1 = self.blocks();
        let ghost k1 = *self;
        proof {
            lemma_walk_facts(*self, pc, cc);
            assert(kfree_find(s1, ptr as int, pc, cc) == (s1, Some((pc, cc))));
            assert(kfree_target(s0, ptr as int) == Some(s1[cc]));
            lemma_mark_facts(*self, cc);
        }
        /* node is already free: ruled out by the precondition (double free) */
        let size = self.nodes[cur].size;
        /* first we mark our node as free */
        self.nodes[cur].free = true;
        if let Some(t) = self.nodes[cur].objtype {
            self.types[t].total = self.types[t].total - size * 4;
            self.types[t].nr = self.types[t].nr - 1;
            self.nodes[cur].objtype = None;
        }
        self.kvmem_used = self.kvmem_used - size * 4;
        self.kvmem_obj_cnt = self.kvmem_obj_cnt - 1;
        proof {
            let t = k1.blocks()[cc].objtype.unwrap();
            let nt = MallocType {
                nr: (k1.types@[t].nr - 1) as usize,
                total: (k1.types@[t].total - k1.blocks()[cc].size * 4) as usize,
                ..k1.types@[t]
            };
            assert(self.types@[t] == nt);
            assert(self.types@ =~= k1.types@.update(t, nt));
            assert(self.nodes@ =~= k1.nodes@.update(
                k1.chain@[cc],
                ObjectNode { free: true, objtype: None, ..k1.nodes@[k1.chain@[cc]] },
            ));
            lemma_mark_state(k1, *self, cc);
        }
        let ghost s2 = self.blocks();
        let ghost pc2 = pc;
        let ghost cc2 = cc;
        let ghost k2 = *self;
        /* now we merge all free nodes ahead -- except the last node */
        while self.nodes[cur].next < LAST_NODE_INDEX && self.nodes[cur].free
            invariant
                self.inv(),
                0 <= pc <= cc < self.chain@.len(),
                pc + 1 == cc || (pc == 0 && cc == 0),
                cur == self.chain@[cc],
                prev == self.chain@[pc],
                kfree_merge(self.blocks(), pc, cc) == kfree_merge(s2, pc2, cc2),
                self.kvmem_used == k2.kvmem_used,
                self.kvmem_obj_cnt == k2.kvmem_obj_cnt,
                self.types@ == k2.types@,
                self.malloc_types@ == k2.malloc_types@,
            decreases self.chain@.len() - cc,
        {
            let ghost s = self.blocks();
            proof {
                lemma_walk_facts(*self, pc, cc);
            }
            /* check if current and previous node are free */
            if cur != 0 && self.nodes[cur].free && self.nodes[prev].free {
                /* check for overflow */
                if self.nodes[cur].size + self.nodes[prev].size <= MAX_NODE_SIZE {
                    proof {
                        assert(can_merge(s, pc, cc));
                        assert(kfree_merge(s, pc, cc) == kfree_merge(merge_blocks(s, pc, cc), pc, cc));
                    }
                    self.merge_next(prev, cur, Ghost(pc));
                    cur = self.nodes[prev].next;
                    proof {
                        assert(self.chain@[cc] == cur);
                    }
                    continue;
                }
            }
            proof {
                assert(!can_merge(s, pc, cc));
            }
            prev = cur;
            cur = self.nodes[cur].next;
            proof {
                pc = cc;
                cc = cc + 1;
            }
        }
        proof {
            lemma_walk_facts(*self, pc, cc);
        }
    }
}

/// The node found by the walk holds a used block, and the counters it adds
/// to are large enough to take it back.
pub proof fn lemma_mark_facts(k: Kvmem, cc: int)
    requires
        k.inv(),
        0 <= cc < k.chain@.len(),
        !k.blocks()[cc].free,
    ensures
        k.blocks()[cc] == block_of(k.nodes@[k.chain@[cc]]),
        k.nodes@[k.chain@[cc]].objtype matches Some(t) && t < k.types@.len() && k.types@[t as int].nr >= 1
            && k.types@[t as int].total >= k.nodes@[k.chain@[cc]].size * 4,
        k.kvmem_used >= k.nodes@[k.chain@[cc]].size * 4,
        k.kvmem_obj_cnt >= 1,
        k.nodes@[k.chain@[cc]].size * 4 <= usize::MAX,
{
    let s = k.blocks();
    let t = s[cc].objtype.unwrap();
    assert forall|j: int| 0 <= j < s.len() implies #[trigger] used_bytes()(s[j]) >= 0 && used_count()(s[j]) >= 0
        && type_count(t)(s[j]) >= 0 && type_bytes(t)(s[j]) >= 0 by {
        assert(s[j] == block_of(k.nodes@[k.chain@[j]]));
    }
    lemma_sum_term(s, cc, used_bytes());
    lemma_sum_term(s, cc, used_count());
    lemma_sum_term(s, cc, type_count(t));
    lemma_sum_term(s, cc, type_bytes(t));
    assert(k.types@[t].nr == sum_blocks(s, type_count(t)));
}

/// Marking the used node at list position `cc` free, with the statistics
/// taken down by its share, keeps the allocator invariant.
pub proof fn lemma_mark_state(k0: Kvmem, k1: Kvmem, cc: int)
    requires
        k0.inv(),
        0 <= cc < k0.chain@.len(),
        !k0.blocks()[cc].free,
        k1.chain@ == k0.chain@,
        k1.nodes@ == k0.nodes@.update(
            k0.chain@[cc],
            ObjectNode { free: true, objtype: None, ..k0.nodes@[k0.chain@[cc]] },
        ),
        k1.first_free_node == k0.first_free_node,
        k1.kvmem_used == k0.kvmem_used - k0.blocks()[cc].size * 4,
        k1.kvmem_obj_cnt == k0.kvmem_obj_cnt - 1,
        k1.types@ == k0.types@.update(
            k0.blocks()[cc].objtype.unwrap(),
            MallocType {
                nr: (k0.types@[k0.blocks()[cc].objtype.unwrap()].nr - 1) as usize,
                total: (k0.types@[k0.blocks()[cc].objtype.unwrap()].total - k0.blocks()[cc].size * 4) as usize,
                ..k0.types@[k0.blocks()[cc].objtype.unwrap()]
            },
        ),
        k1.malloc_types@ == k0.malloc_types@,
    ensures
        k1.inv(),
        k1.blocks() == k0.blocks().update(cc, Block { free: true, objtype: None, ..k0.blocks()[cc] }),
{
    let s0 = k0.blocks();
    let b = Block { free: true, objtype: None, ..s0[cc] };
    let s1 = s0.update(cc, b);
    let c = k0.chain@;
    lemma_mark_facts(k0, cc);
    lemma_chain_update(k0.nodes@, k1.nodes@, c, cc);
    assert(k1.blocks() =~= s1) by {
        assert forall|j: int| 0 <= j < s1.len() implies #[trigger] k1.blocks()[j] == s1[j] by {
            if j != cc {
                assert(c[j] != c[cc]);
            }
        }
    }
    lemma_sum_update(s0, cc, b, used_bytes());
    lemma_sum_update(s0, cc, b, used_count());
    let t0 = s0[cc].objtype.unwrap();
    assert forall|t: int| 0 <= t < k1.types@.len() implies (#[trigger] k1.types@[t]).nr == sum_blocks(
        s1,
        type_count(t),
    ) && k1.types@[t].total == sum_blocks(s1, type_bytes(t)) by {
        lemma_sum_update(s0, cc, b, type_count(t));
        lemma_sum_update(s0, cc, b, type_bytes(t));
        assert(k0.types@[t].nr == sum_blocks(s0, type_count(t)));
    }
    assert forall|j: int|
        0 <= j < s1.len() && !(#[trigger] s1[j]).free implies KVMEM_BASE + (s1[j].addr + s1[j].size) * 4
            <= usize::MAX && 0 <= s1[j].objtype.unwrap() < k1.types@.len() by {
        assert(s1[j] == s0[j]);
    }
    assert forall|j: int| 0 <= j < s1.len() implies (#[trigger] s1[j]).free <==> s1[j].objtype is None by {
        if j != cc {
            assert(s1[j] == s0[j]);
        }
    }
    assert(blocks_tile(s1)) by {
        assert forall|j: int| 0 <= j < s1.len() - 1 implies #[trigger] s1[j + 1].addr == s1[j].addr + s1[j].size by {
            assert(s0[j + 1].addr == s0[j].addr + s0[j].size);
        }
    }
}

/// What the walk of `kfree` reads at list positions `pc` and `cc`.
pub proof fn lemma_walk_facts(k: Kvmem, pc: int, cc: int)
    requires
        k.inv(),
        0 <= pc <= cc < k.chain@.len(),
        pc + 1 == cc || pc == cc,
    ensures
        k.blocks()[cc] == block_of(k.nodes@[k.chain@[cc]]),
        k.blocks()[pc] == block_of(k.nodes@[k.chain@[pc]]),
        KVMEM_BASE + k.blocks()[cc].addr * 4 <= usize::MAX,
        cc < k.chain@.len() - 1 ==> k.nodes@[k.chain@[cc]].next == k.chain@[cc + 1],
        cc == k.chain@.len() - 1 ==> k.nodes@[k.chain@[cc]].next == LAST_NODE_INDEX,
        k.nodes@[k.chain@[cc]].next <= LAST_NODE_INDEX,
        (k.chain@[cc] != 0) == (cc != 0),
        cc != 0 && pc + 1 == cc ==> k.blocks()[pc].size + k.blocks()[cc].size <= usize::MAX,
        can_merge(k.blocks(), pc, cc) ==> cc < k.chain@.len() - 1,
{
    let s = k.blocks();
    lemma_last_block_large(s);
    if cc != 0 {
        assert(k.chain@[cc] != k.chain@[0]);
    }
    if cc != 0 && pc + 1 == cc {
        assert(s[pc].size + s[pc + 1].size <= usize::MAX);
    }
    if cc < k.chain@.len() - 1 {
        assert(k.nodes@[k.chain@[cc]].next == k.chain@[cc + 1]);
        assert(0 <= k.chain@[cc + 1] < LAST_NODE_INDEX);
    }
}

} // verus!

verus! {

/// Blocks lie in increasing address order.
pub proof fn lemma_addr_increasing(s: Seq<Block>, j: int, m: int)
    requires
        blocks_tile(s),
        0 <= j < m < s.len(),
    ensures
        s[j].addr < s[m].addr,
    decreases m - j,
{
    let q = m - 1;
    assert(s[q + 1].addr == s[q].addr + s[q].size);
    assert(s[q].size >= 1);
    if j < q {
        lemma_addr_increasing(s, j, q);
    }
}

/// The walk of `kfree` reaches the block at address `ptr` unchanged.
pub proof fn lemma_find_reaches(s: Seq<Block>, ptr: int, p: int, c: int, m: int)
    requires
        blocks_ok(s),
        0 <= p <= c <= m < s.len(),
        p + 1 == c || (p == 0 && c == 0),
        block_addr(s[m]) == ptr,
    ensures
        kfree_find(s, ptr, p, c).1 is Some,
        kfree_find(s, ptr, p, c).0[kfree_find(s, ptr, p, c).1.unwrap().1] == s[m],
    decreases s.len() - c,
{
    if c < m {
        lemma_addr_increasing(s, c, m);
        if can_merge(s, p, c) {
            lemma_merge_blocks(s, p, c, used_bytes());
            lemma_find_reaches(merge_blocks(s, p, c), ptr, p, c, m - 1);
        } else {
            lemma_find_reaches(s, ptr, c, c + 1, m);
        }
    }
}

/// Whether a free block of `s` holds the byte at `ptr`.
pub open spec fn free_block_holds(s: Seq<Block>, ptr: int) -> bool {
    exists|j: int|
        0 <= j < s.len() && (#[trigger] s[j]).free && block_addr(s[j]) <= ptr < block_addr(s[j]) + s[j].size
            * 4
}

/// Merging free blocks ahead of a free block that holds `ptr` leaves `ptr`
/// in a free block.
proof fn lemma_merge_keeps_free(s: Seq<Block>, p: int, c: int, ptr: int, j: int)
    requires
        blocks_ok(s),
        0 <= p,
        p + 1 == c || (p == c && c == 0),
        0 <= j <= c,
        j < s.len(),
        s[j].free,
        block_addr(s[j]) <= ptr < block_addr(s[j]) + s[j].size * 4,
    ensures
        free_block_holds(kfree_merge(s, p, c), ptr),
    decreases s.len() - c,
{
    if c < 0 || c >= s.len() - 1 || p < 0 || p > c || !s[c].free {
        assert(kfree_merge(s, p, c) == s);
        assert(s[j].free);
    } else if can_merge(s, p, c) {
        lemma_merge_blocks(s, p, c, used_count());
        let s2 = merge_blocks(s, p, c);
        let j2 = if j == c {
            p
        } else {
            j
        };
        if j == c {
            assert(s[p + 1].addr == s[p].addr + s[p].size);
        }
        assert(s2[j2].free);
        lemma_merge_keeps_free(s2, p, c, ptr, j2);
    } else {
        lemma_merge_keeps_free(s, c, c + 1, ptr, j);
    }
}

/// The walk of `kfree` keeps the blocks well formed, and when it finds the
/// block at `ptr`, that block follows its predecessor.
proof fn lemma_kfree_find_shape(s: Seq<Block>, ptr: int, p: int, c: int)
    requires
        blocks_ok(s),
        0 <= p,
        p + 1 == c || (p == c && c == 0),
    ensures
        kfree_find(s, ptr, p, c).1 matches Some(pc) ==> {
            let s1 = kfree_find(s, ptr, p, c).0;
            &&& blocks_ok(s1)
            &&& 0 <= pc.0
            &&& pc.0 + 1 == pc.1 || (pc.0 == pc.1 && pc.1 == 0)
            &&& pc.1 < s1.len()
            &&& block_addr(s1[pc.1]) == ptr
        },
    decreases s.len() - c,
{
    if c < 0 || c >= s.len() || p < 0 || p > c {
    } else if block_addr(s[c]) == ptr {
    } else if can_merge(s, p, c) {
        lemma_merge_blocks(s, p, c, used_count());
        lemma_kfree_find_shape(merge_blocks(s, p, c), ptr, p, c);
    } else if c + 1 >= s.len() {
    } else {
        lemma_kfree_find_shape(s, ptr, c, c + 1);
    }
}

/// Releasing a used block leaves its first byte in a free block.
proof fn lemma_kfree_frees(s: Seq<Block>, ptr: int)
    requires
        blocks_ok(s),
        ptr >= KVMEM_BASE,
        kfree_find(s, ptr, 0, 0).1 is Some,
    ensures
        free_block_holds(kfree_blocks(s, ptr), ptr),
{
    lemma_kfree_find_shape(s, ptr, 0, 0);
    let (s1, r) = kfree_find(s, ptr, 0, 0);
    let (p, c) = r.unwrap();
    let s2 = s1.update(c, Block { free: true, objtype: None, ..s1[c] });
    assert forall|k: int| 0 <= k < s2.len() - 1 implies #[trigger] s2[k + 1].addr == s2[k].addr + s2[k].size by {
        assert(s1[k + 1].addr == s1[k].addr + s1[k].size);
    }
    assert forall|k: int| 0 <= k < s2.len() implies (#[trigger] s2[k]).size >= 1 by {
        assert(s1[k].size >= 1);
    }
    assert forall|k: int| 0 <= k < s2.len() implies KVMEM_BASE + (#[trigger] s2[k]).addr * 4 <= usize::MAX by {
        assert(KVMEM_BASE + s1[k].addr * 4 <= usize::MAX);
    }
    assert forall|k: int| 0 <= k < s2.len() implies ((#[trigger] s2[k]).free <==> s2[k].objtype is None) by {
        if k != c {
            assert(s1[k].free <==> s1[k].objtype is None);
        }
    }
    assert(blocks_ok(s2));
    lemma_merge_keeps_free(s2, p, c, ptr, c);
}

/// `kfree` of the address that `kmalloc` returned releases exactly the
/// block that `kmalloc` handed out: its size and kind are given back, so
/// the kind's count and bytes and the totals return to what they were, and
/// the address then lies in a free block.
pub proof fn lemma_kmalloc_then_kfree(s: Seq<Block>, units: int, t: int)
    requires
        blocks_ok(s),
        units >= 1,
        first_fit(s, units) < s.len(),
        0 <= t,
        KVMEM_BASE + (s[first_fit(s, units)].addr + units) * 4 <= usize::MAX,
    ensures
        kfree_target(kmalloc_blocks(s, units, t), block_addr(s[first_fit(s, units)])) == Some(
            Block { addr: s[first_fit(s, units)].addr, size: units, free: false, objtype: Some(t) },
        ),
        free_block_holds(
            kfree_blocks(kmalloc_blocks(s, units, t), block_addr(s[first_fit(s, units)])),
            block_addr(s[first_fit(s, units)]),
        ),
{
    lemma_first_fit_from(s, units, 0);
    lemma_kmalloc_blocks(s, units, t);
    let k = first_fit(s, units);
    let s2 = kmalloc_blocks(s, units, t);
    let ptr = block_addr(s[k]);
    assert(s2[k] == Block { addr: s[k].addr, size: units, free: false, objtype: Some(t) }) by {
        if s[k].size > units {
            let used = Block { addr: s[k].addr, size: units, free: false, objtype: Some(t) };
            s.update(k, used).insert_ensures(
                k + 1,
                Block { addr: s[k].addr + units, size: s[k].size - units, free: true, objtype: None },
            );
        }
    }
    lemma_tile_start(s, k);
    assert forall|j: int| 0 <= j < s2.len() implies KVMEM_BASE + (#[trigger] s2[j]).addr * 4 <= usize::MAX by {
        if s[k].size > units {
            let used = Block { addr: s[k].addr, size: units, free: false, objtype: Some(t) };
            let rem = Block { addr: s[k].addr + units, size: s[k].size - units, free: true, objtype: None };
            s.update(k, used).insert_ensures(k + 1, rem);
            if j > k + 1 {
                assert(s2[j] == s[j - 1]);
            } else if j < k {
                assert(s2[j] == s[j]);
            }
        } else if j != k {
            assert(s2[j] == s[j]);
        }
    }
    assert(blocks_ok(s2));
    lemma_find_reaches(s2, ptr, 0, 0, k);
    lemma_kfree_frees(s2, ptr);
}

impl Kvmem {
    /// Whether `kmalloc(size, objtype, _)` can run (see `kmalloc_ok`).
    pub fn kmalloc_check(&self, size: usize, objtype: usize) -> (r: bool)
        requires
            self.inv(),
        ensures
            r == self.kmalloc_ok(size as int, objtype as int),
    {
        if size < 1 || size > usize::MAX - 3 || objtype >= self.types.len() {
            return false;
        }
        let units = (size + 3) / 4;
        let ghost s = self.blocks();
        let ghost mut k: int = 0;
        let mut i: usize = 0;
        proof {
            lemma_first_fit_from(s, units as int, 0);
        }
        loop
            invariant
                self.inv(),
                s == self.blocks(),
                0 <= k < s.len(),
                k <= first_fit(s, units as int),
                i == self.chain@[k],
                first_fit_from(s, units as int, k) == first_fit(s, units as int),
                units == (size + 3) / 4,
                1 <= size && size + 3 <= usize::MAX,
                objtype < self.types@.len(),
            ensures
                self.nodes@[i as int].free && self.nodes@[i as int].size >= units,
                0 <= k < s.len(),
                i == self.chain@[k],
                first_fit_from(s, units as int, k) == first_fit(s, units as int),
            decreases s.len() - k,
        {
            proof {
                lemma_walk_facts(*self, k, k);
                lemma_first_fit_from(s, units as int, k);
            }
            if self.nodes[i].free && self.nodes[i].size >= units {
                break;
            }
            if self.nodes[i].next == LAST_NODE_INDEX {
                /* no free node holds the request */
                return false;
            }
            i = self.nodes[i].next;
            proof {
                k = k + 1;
            }
        }
        proof {
            lemma_walk_facts(*self, k, k);
            lemma_first_fit_from(s, units as int, k);
            assert(first_fit(s, units as int) == k);
        }
        let node = self.nodes[i];
        if node.size > units {
            let mut j: usize = 0;
            let mut found = false;
            proof {
                lemma_first_unused_from(self.nodes@, 0);
            }
            while j < LAST_NODE_INDEX
                invariant
                    self.nodes@.len() == LAST_NODE_INDEX,
                    j <= LAST_NODE_INDEX,
                    !found ==> forall|x: int| 0 <= x < j ==> #[trigger] self.nodes@[x].size != 0,
                    found ==> self.has_unused(),
                ensures
                    found ==> self.has_unused(),
                    !found ==> forall|x: int| 0 <= x < LAST_NODE_INDEX ==> #[trigger] self.nodes@[x].size != 0,
                decreases LAST_NODE_INDEX - j,
            {
                if self.nodes[j].size == 0 {
                    proof {
                        lemma_first_unused_from(self.nodes@, 0);
                        assert(first_unused_from(self.nodes@, 0) <= j) by {
                            if first_unused_from(self.nodes@, 0) > j {
                                assert(self.nodes@[j as int].size != 0);
                            }
                        }
                    }
                    found = true;
                    break;
                }
                j = j + 1;
            }
            if !found {
                proof {
                    lemma_first_unused_from(self.nodes@, 0);
                    let f = first_unused_from(self.nodes@, 0);
                    if f < LAST_NODE_INDEX {
                        assert(self.nodes@[f].size != 0);
                    }
                }
                return false;
            }
        }
        proof {
            assert(KVMEM_BASE + s[k].addr * 4 <= usize::MAX);
        }
        let limit: usize = (usize::MAX - KVMEM_BASE - PAGE_SIZE) / 4;
        if units > limit || node.addr > limit - units {
            return false;
        }
        if self.kvmem_used > usize::MAX - units * 4 {
            return false;
        }
        self.kvmem_obj_cnt < usize::MAX && self.types[objtype].nr < usize::MAX
            && self.types[objtype].total <= usize::MAX - units * 4
    }
}

} // verus!
