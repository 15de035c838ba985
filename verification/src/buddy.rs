use vstd::prelude::*;

use crate::bitmap::BitMap;

verus! {

pub const BUDDY_MAX_ORDER: usize = 10;

pub const BUDDY_MIN_BS: usize = 4096;

pub const BUDDY_MAX_BS: usize = 4194304;

pub const BUDDY_ZONE_NR: usize = 2;

pub const BUDDY_ZONE_DMA: usize = 0;

pub const BUDDY_ZONE_NORMAL: usize = 1;

/// Failure value of the recursive allocator (`-1` as an unsigned index).
pub const BUDDY_NONE: usize = usize::MAX;

/// Start of each zone; the entry after the last zone is the end of memory.
pub open spec fn spec_zone_offset(z: int) -> int {
    if z == 0 {
        0
    } else if z == 1 {
        0x1000000
    } else {
        usize::MAX as int
    }
}

/// Start of zone `zone` (`buddy_zone_offset[zone]`).
pub fn buddy_zone_offset(zone: usize) -> (r: usize)
    requires
        zone <= BUDDY_ZONE_NR,
    ensures
        r == spec_zone_offset(zone as int),
{
    if zone == 0 {
        0
    } else if zone == 1 {
        0x1000000
    } else {
        usize::MAX
    }
}

/// The buddy of block `i` in its order: the other half of its parent.
pub open spec fn spec_buddy_idx(i: int) -> int {
    if i % 2 == 0 {
        i + 1
    } else {
        i - 1
    }
}

pub fn buddy_idx(i: usize) -> (r: usize)
    ensures
        r == spec_buddy_idx(i as int),
{
    assert(i ^ 1 == if i % 2 == 0 { (i + 1) as usize } else { (i - 1) as usize }) by (bit_vector);
    i ^ 1
}

/// Bookkeeping of one order of one zone.
pub struct Buddy {
    /// No clear bit lies below this index.
    pub first_free_idx: usize,
    /// Number of free blocks of this order.
    pub usable: usize,
    /// One bit per block of this order; a clear bit marks a free block.
    pub bitmap: BitMap,
}

/// Abstract state of one order: its bits, first-free hint and free counter.
pub ghost struct Level {
    pub bits: Seq<bool>,
    pub first_free: int,
    pub usable: int,
}

impl Buddy {
    pub open spec fn level(&self) -> Level {
        Level {
            bits: self.bitmap@,
            first_free: self.first_free_idx as int,
            usable: self.usable as int,
        }
    }
}

/// Number of clear bits in `s`.
pub open spec fn count_clear(s: Seq<bool>) -> nat
    decreases s.len(),
{
    if s.len() == 0 {
        0
    } else {
        count_clear(s.drop_last()) + if s.last() {
            0nat
        } else {
            1nat
        }
    }
}

/// First clear bit of `bits` at or after `i`; `bits.len()` when there is none.
pub open spec fn first_clear_from(bits: Seq<bool>, i: int) -> int
    decreases bits.len() - i,
{
    if i < 0 || i >= bits.len() {
        bits.len() as int
    } else if !bits[i] {
        i
    } else {
        first_clear_from(bits, i + 1)
    }
}

/// Invariant of one order: no clear bit below the hint, and the counter never
/// exceeds the number of clear bits (below the top order it equals it, and no
/// two buddies are free at once).
pub open spec fn level_inv(l: Level, order: int) -> bool {
    &&& 1 <= l.bits.len() <= usize::MAX
    &&& 0 <= l.first_free <= usize::MAX
    &&& 0 <= l.usable <= count_clear(l.bits)
    &&& forall|j: int| 0 <= j < l.bits.len() && j < l.first_free ==> #[trigger] l.bits[j]
    &&& order < BUDDY_MAX_ORDER ==> {
        &&& l.usable == count_clear(l.bits)
        &&& l.bits.len() % 2 == 0
        &&& forall|j: int|
            0 <= j < l.bits.len() && j % 2 == 0 ==> #[trigger] l.bits[j] || l.bits[j + 1]
    }
}

/// Invariant of a zone: one level per order, each order holding twice the
/// blocks of the order above it.
pub open spec fn zone_inv(z: Seq<Level>) -> bool {
    &&& z.len() == BUDDY_MAX_ORDER + 1
    &&& forall|o: int| 0 <= o <= BUDDY_MAX_ORDER ==> #[trigger] level_inv(z[o], o)
    &&& forall|o: int|
        0 <= o < BUDDY_MAX_ORDER ==> #[trigger] z[o].bits.len() == 2 * z[o + 1].bits.len()
}

/// Allocation of a block of order `order`: take the first free block of
/// that order, or split the block allocated from the order above and keep
/// its right half free.
pub open spec fn alloc_spec(z: Seq<Level>, order: int) -> (Seq<Level>, Option<int>)
    decreases BUDDY_MAX_ORDER + 1 - order,
{
    if order < 0 || order > BUDDY_MAX_ORDER {
        (z, None)
    } else if z[order].usable != 0 {
        let l = z[order];
        let i = first_clear_from(l.bits, l.first_free);
        if i < l.bits.len() {
            (
                z.update(
                    order,
                    Level { bits: l.bits.update(i, true), first_free: i + 1, usable: l.usable - 1 },
                ),
                Some(i),
            )
        } else {
            (z, None)
        }
    } else {
        let (z1, r) = alloc_spec(z, order + 1);
        match r {
            None => (z1, None),
            Some(j) => {
                let l = z1[order];
                let c = 2 * j;
                (
                    z1.update(
                        order,
                        Level {
                            bits: l.bits.update(c, true).update(c + 1, false),
                            first_free: c + 1,
                            usable: l.usable + 1,
                        },
                    ),
                    Some(c),
                )
            },
        }
    }
}

/// Release of block `idx` of order `order`: while its buddy is free, absorb
/// the buddy and release the parent instead; otherwise mark the block free.
pub open spec fn free_spec(z: Seq<Level>, order: int, idx: int) -> Seq<Level>
    decreases BUDDY_MAX_ORDER + 1 - order,
{
    if order < 0 || order > BUDDY_MAX_ORDER || idx < 0 || idx >= z[order].bits.len() {
        z
    } else if !z[order].bits[idx] {
        z
    } else if order < BUDDY_MAX_ORDER && !z[order].bits[spec_buddy_idx(idx)] {
        let l = z[order];
        let z1 = z.update(
            order,
            Level {
                bits: l.bits.update(spec_buddy_idx(idx), true),
                first_free: l.first_free,
                usable: l.usable - 1,
            },
        );
        free_spec(z1, order + 1, idx / 2)
    } else {
        let l = z[order];
        z.update(
            order,
            Level {
                bits: l.bits.update(idx, false),
                first_free: if l.first_free > idx {
                    idx
                } else {
                    l.first_free
                },
                usable: l.usable + 1,
            },
        )
    }
}

/// Whether block `idx` of order `order` lies inside a free block of that
/// order or of a higher one.
pub open spec fn block_free_at(z: Seq<Level>, order: int, idx: int) -> bool
    decreases BUDDY_MAX_ORDER + 1 - order,
{
    if order < 0 || order > BUDDY_MAX_ORDER || idx < 0 || idx >= z[order].bits.len() {
        false
    } else if !z[order].bits[idx] {
        true
    } else {
        block_free_at(z, order + 1, idx / 2)
    }
}

/// Whether some order from `order` up has a free block to hand out.
pub open spec fn has_capacity(z: Seq<Level>, order: int) -> bool {
    exists|p: int| order <= p <= BUDDY_MAX_ORDER && #[trigger] z[p].usable != 0
}

/// The two zones have the same bits and counters at every order.
pub open spec fn levels_agree(a: Seq<Level>, b: Seq<Level>) -> bool {
    &&& a.len() == b.len()
    &&& forall|p: int|
        0 <= p < a.len() ==> (#[trigger] a[p]).bits == b[p].bits && a[p].usable == b[p].usable
}

// ---------------------------------------------------------------------------
// Lemmas on counting clear bits.

pub proof fn lemma_count_clear_bound(s: Seq<bool>)
    ensures
        count_clear(s) <= s.len(),
    decreases s.len(),
{
    if s.len() > 0 {
        lemma_count_clear_bound(s.drop_last());
    }
}

/// Setting a clear bit takes one off the count; clearing a set bit adds one.
pub proof fn lemma_count_clear_update(s: Seq<bool>, i: int, v: bool)
    requires
        0 <= i < s.len(),
    ensures
        count_clear(s.update(i, v)) == count_clear(s) - (if s[i] {
            0int
        } else {
            1int
        }) + (if v {
            0int
        } else {
            1int
        }),
    decreases s.len(),
{
    let t = s.update(i, v);
    if i == s.len() - 1 {
        assert(t.drop_last() =~= s.drop_last());
    } else {
        lemma_count_clear_update(s.drop_last(), i, v);
        assert(t.drop_last() =~= s.drop_last().update(i, v));
    }
}

/// With no clear bit the count is zero, and a zero count means every bit is set.
pub proof fn lemma_count_clear_zero(s: Seq<bool>)
    ensures
        count_clear(s) == 0 <==> forall|j: int| 0 <= j < s.len() ==> #[trigger] s[j],
    decreases s.len(),
{
    if s.len() > 0 {
        lemma_count_clear_zero(s.drop_last());
        if count_clear(s) == 0 {
            assert forall|j: int| 0 <= j < s.len() implies #[trigger] s[j] by {
                if j < s.len() - 1 {
                    assert(s.drop_last()[j] == s[j]);
                }
            }
        }
        if forall|j: int| 0 <= j < s.len() ==> #[trigger] s[j] {
            assert forall|j: int| 0 <= j < s.drop_last().len() implies #[trigger] s.drop_last()[j] by {
                assert(s[j]);
            }
            assert(s[s.len() - 1]);
        }
    }
}

/// A set bit means fewer clear bits than bits.
pub proof fn lemma_count_clear_lt(s: Seq<bool>, i: int)
    requires
        0 <= i < s.len(),
        s[i],
    ensures
        count_clear(s) < s.len(),
{
    lemma_count_clear_update(s, i, false);
    lemma_count_clear_bound(s.update(i, false));
}

/// The search from `i` stops at a clear bit with only set bits before it.
pub proof fn lemma_first_clear_from(bits: Seq<bool>, i: int)
    requires
        0 <= i,
    ensures
        i <= first_clear_from(bits, i) <= bits.len() || (i > bits.len() && first_clear_from(
            bits,
            i,
        ) == bits.len()),
        first_clear_from(bits, i) < bits.len() ==> !bits[first_clear_from(bits, i)],
        forall|j: int| i <= j < first_clear_from(bits, i) ==> #[trigger] bits[j],
    decreases bits.len() - i,
{
    if i < bits.len() && bits[i] {
        lemma_first_clear_from(bits, i + 1);
    }
}

/// When every bit below the hint is set and some bit is clear, the search
/// from the hint finds one.
pub proof fn lemma_first_clear_found(bits: Seq<bool>, ff: int)
    requires
        0 <= ff,
        count_clear(bits) > 0,
        forall|j: int| 0 <= j < bits.len() && j < ff ==> #[trigger] bits[j],
    ensures
        first_clear_from(bits, ff) < bits.len(),
{
    lemma_first_clear_from(bits, ff);
    lemma_count_clear_zero(bits);
    let w = choose|j: int| 0 <= j < bits.len() && !bits[j];
    if first_clear_from(bits, ff) >= bits.len() {
        if w < ff {
            assert(bits[w]);
        } else {
            assert(bits[w]);
        }
    }
}

} // verus!

verus! {

// ---------------------------------------------------------------------------
// Laws of the abstract operations.

/// `block_free_at` reads only the orders from `order` up.
pub proof fn lemma_block_free_at_frame(a: Seq<Level>, b: Seq<Level>, order: int, idx: int)
    requires
        a.len() == b.len() == BUDDY_MAX_ORDER + 1,
        forall|p: int| order <= p <= BUDDY_MAX_ORDER ==> #[trigger] a[p] == b[p],
    ensures
        block_free_at(a, order, idx) == block_free_at(b, order, idx),
    decreases BUDDY_MAX_ORDER + 1 - order,
{
    if 0 <= order <= BUDDY_MAX_ORDER {
        assert(a[order] == b[order]);
        lemma_block_free_at_frame(a, b, order + 1, idx / 2);
    }
}

/// Allocation keeps the zone invariant, touches no order below `order`,
/// succeeds exactly when some order from `order` up has a free block, and
/// hands out a block that lay inside a free block and is marked used after.
pub proof fn lemma_alloc(z: Seq<Level>, order: int)
    requires
        zone_inv(z),
        0 <= order <= BUDDY_MAX_ORDER,
    ensures
        zone_inv(alloc_spec(z, order).0),
        alloc_spec(z, order).0.len() == z.len(),
        forall|p: int|
            0 <= p <= BUDDY_MAX_ORDER ==> (#[trigger] alloc_spec(z, order).0[p]).bits.len()
                == z[p].bits.len(),
        forall|p: int| 0 <= p < order ==> #[trigger] alloc_spec(z, order).0[p] == z[p],
        alloc_spec(z, order).1.is_some() == has_capacity(z, order),
        alloc_spec(z, order).1.is_none() ==> alloc_spec(z, order).0 == z,
        alloc_spec(z, order).1 matches Some(i) ==> {
            &&& 0 <= i < z[order].bits.len()
            &&& alloc_spec(z, order).0[order].bits[i]
            &&& block_free_at(z, order, i)
        },
    decreases BUDDY_MAX_ORDER + 1 - order,
{
    let l = z[order];
    assert(level_inv(l, order));
    if l.usable != 0 {
        lemma_first_clear_found(l.bits, l.first_free);
        lemma_first_clear_from(l.bits, l.first_free);
        let i = first_clear_from(l.bits, l.first_free);
        let nl = Level { bits: l.bits.update(i, true), first_free: i + 1, usable: l.usable - 1 };
        lemma_count_clear_update(l.bits, i, true);
        assert forall|j: int| 0 <= j < nl.bits.len() && j < nl.first_free implies #[trigger] nl.bits[j] by {
            if j != i && j < l.first_free {
                assert(l.bits[j]);
            }
        }
        if order < BUDDY_MAX_ORDER {
            assert forall|j: int| 0 <= j < nl.bits.len() && j % 2 == 0 implies #[trigger] nl.bits[j]
                || nl.bits[j + 1] by {
                assert(l.bits[j] || l.bits[j + 1]);
            }
        }
        assert(level_inv(nl, order));
        let z2 = z.update(order, nl);
        assert forall|o: int| 0 <= o <= BUDDY_MAX_ORDER implies #[trigger] level_inv(z2[o], o) by {
            if o != order {
                assert(level_inv(z[o], o));
            }
        }
        assert forall|o: int| 0 <= o < BUDDY_MAX_ORDER implies #[trigger] z2[o].bits.len() == 2
            * z2[o + 1].bits.len() by {
            assert(z[o].bits.len() == 2 * z[o + 1].bits.len());
        }
        assert(z[order].usable != 0);
    } else if order == BUDDY_MAX_ORDER {
        assert(!has_capacity(z, order));
    } else {
        lemma_alloc(z, order + 1);
        let (z1, r) = alloc_spec(z, order + 1);
        if r.is_none() {
            assert(!has_capacity(z, order)) by {
                if has_capacity(z, order) {
                    let p = choose|p: int| order <= p <= BUDDY_MAX_ORDER && #[trigger] z[p].usable != 0;
                    assert(p != order);
                    assert(has_capacity(z, order + 1));
                }
            }
        } else {
            let j = r.unwrap();
            assert(z1[order] == l);
            lemma_count_clear_zero(l.bits);
            assert(z[order].bits.len() == 2 * z[order + 1].bits.len());
            let c = 2 * j;
            let nl = Level {
                bits: l.bits.update(c, true).update(c + 1, false),
                first_free: c + 1,
                usable: l.usable + 1,
            };
            lemma_count_clear_update(l.bits, c, true);
            lemma_count_clear_update(l.bits.update(c, true), c + 1, false);
            assert forall|k: int| 0 <= k < nl.bits.len() && k % 2 == 0 implies #[trigger] nl.bits[k]
                || nl.bits[k + 1] by {
                assert(l.bits[k]);
            }
            assert forall|k: int| 0 <= k < nl.bits.len() && k < nl.first_free implies #[trigger] nl.bits[k] by {
                assert(l.bits[k]);
            }
            assert(level_inv(nl, order));
            let z2 = z1.update(order, nl);
            assert(zone_inv(z1));
            assert forall|o: int| 0 <= o <= BUDDY_MAX_ORDER implies #[trigger] level_inv(z2[o], o) by {
                if o != order {
                    assert(level_inv(z1[o], o));
                }
            }
            assert forall|o: int| 0 <= o < BUDDY_MAX_ORDER implies #[trigger] z2[o].bits.len() == 2
                * z2[o + 1].bits.len() by {
                assert(z[o].bits.len() == 2 * z[o + 1].bits.len());
                assert(z1[o + 1].bits.len() == z[o + 1].bits.len());
                assert(z1[o].bits.len() == z[o].bits.len());
            }
            assert(has_capacity(z, order)) by {
                let p = choose|p: int| order + 1 <= p <= BUDDY_MAX_ORDER && #[trigger] z[p].usable != 0;
                assert(z[p].usable != 0);
            }
            assert(l.bits[c]);
            assert(c / 2 == j);
            assert(block_free_at(z, order, c));
        }
    }
}

/// Absorbing the free buddy of a used block keeps the zone invariant.
pub proof fn lemma_merge_step(z: Seq<Level>, order: int, idx: int)
    requires
        zone_inv(z),
        0 <= order < BUDDY_MAX_ORDER,
        0 <= idx < z[order].bits.len(),
        !z[order].bits[spec_buddy_idx(idx)],
    ensures
        0 <= spec_buddy_idx(idx) < z[order].bits.len(),
        z[order].usable >= 1,
        zone_inv(
            z.update(
                order,
                Level {
                    bits: z[order].bits.update(spec_buddy_idx(idx), true),
                    first_free: z[order].first_free,
                    usable: z[order].usable - 1,
                },
            ),
        ),
{
    let l = z[order];
    assert(level_inv(l, order));
    let b = spec_buddy_idx(idx);
    assert(0 <= b < l.bits.len());
    lemma_count_clear_update(l.bits, b, true);
    let nl = Level { bits: l.bits.update(b, true), first_free: l.first_free, usable: l.usable - 1 };
    assert forall|k: int| 0 <= k < nl.bits.len() && k % 2 == 0 implies #[trigger] nl.bits[k]
        || nl.bits[k + 1] by {
        assert(l.bits[k] || l.bits[k + 1]);
    }
    assert forall|k: int| 0 <= k < nl.bits.len() && k < nl.first_free implies #[trigger] nl.bits[k] by {
        assert(l.bits[k]);
    }
    assert(level_inv(nl, order));
    let z1 = z.update(order, nl);
    assert forall|o: int| 0 <= o <= BUDDY_MAX_ORDER implies #[trigger] level_inv(z1[o], o) by {
        if o != order {
            assert(level_inv(z[o], o));
        }
    }
    assert forall|o: int| 0 <= o < BUDDY_MAX_ORDER implies #[trigger] z1[o].bits.len() == 2
        * z1[o + 1].bits.len() by {
        assert(z[o].bits.len() == 2 * z[o + 1].bits.len());
    }
}

/// Release keeps the zone invariant and touches no order below `order`.
pub proof fn lemma_free(z: Seq<Level>, order: int, idx: int)
    requires
        zone_inv(z),
        0 <= order <= BUDDY_MAX_ORDER,
    ensures
        zone_inv(free_spec(z, order, idx)),
        free_spec(z, order, idx).len() == z.len(),
        forall|p: int|
            0 <= p <= BUDDY_MAX_ORDER ==> (#[trigger] free_spec(z, order, idx)[p]).bits.len()
                == z[p].bits.len(),
        forall|p: int| 0 <= p < order ==> #[trigger] free_spec(z, order, idx)[p] == z[p],
    decreases BUDDY_MAX_ORDER + 1 - order,
{
    let l = z[order];
    assert(level_inv(l, order));
    if idx < 0 || idx >= l.bits.len() || !l.bits[idx] {
    } else if order < BUDDY_MAX_ORDER && !l.bits[spec_buddy_idx(idx)] {
        let b = spec_buddy_idx(idx);
        assert(0 <= b < l.bits.len());
        lemma_count_clear_update(l.bits, b, true);
        let nl = Level { bits: l.bits.update(b, true), first_free: l.first_free, usable: l.usable - 1 };
        assert forall|k: int| 0 <= k < nl.bits.len() && k % 2 == 0 implies #[trigger] nl.bits[k]
            || nl.bits[k + 1] by {
            assert(l.bits[k] || l.bits[k + 1]);
        }
        assert forall|k: int| 0 <= k < nl.bits.len() && k < nl.first_free implies #[trigger] nl.bits[k] by {
            assert(l.bits[k]);
        }
        assert(level_inv(nl, order));
        let z1 = z.update(order, nl);
        assert forall|o: int| 0 <= o <= BUDDY_MAX_ORDER implies #[trigger] level_inv(z1[o], o) by {
            if o != order {
                assert(level_inv(z[o], o));
            }
        }
        assert forall|o: int| 0 <= o < BUDDY_MAX_ORDER implies #[trigger] z1[o].bits.len() == 2
            * z1[o + 1].bits.len() by {
            assert(z[o].bits.len() == 2 * z[o + 1].bits.len());
        }
        lemma_free(z1, order + 1, idx / 2);
    } else {
        lemma_count_clear_update(l.bits, idx, false);
        lemma_count_clear_bound(l.bits.update(idx, false));
        let nl = Level {
            bits: l.bits.update(idx, false),
            first_free: if l.first_free > idx {
                idx
            } else {
                l.first_free
            },
            usable: l.usable + 1,
        };
        if order < BUDDY_MAX_ORDER {
            let b = spec_buddy_idx(idx);
            assert(l.bits[b]);
            assert forall|k: int| 0 <= k < nl.bits.len() && k % 2 == 0 implies #[trigger] nl.bits[k]
                || nl.bits[k + 1] by {
                assert(l.bits[k] || l.bits[k + 1]);
            }
        }
        assert forall|k: int| 0 <= k < nl.bits.len() && k < nl.first_free implies #[trigger] nl.bits[k] by {
            assert(l.bits[k]);
        }
        assert(level_inv(nl, order));
        let z1 = z.update(order, nl);
        assert forall|o: int| 0 <= o <= BUDDY_MAX_ORDER implies #[trigger] level_inv(z1[o], o) by {
            if o != order {
                assert(level_inv(z[o], o));
            }
        }
        assert forall|o: int| 0 <= o < BUDDY_MAX_ORDER implies #[trigger] z1[o].bits.len() == 2
            * z1[o + 1].bits.len() by {
            assert(z[o].bits.len() == 2 * z[o + 1].bits.len());
        }
    }
}

} // verus!

verus! {

/// Release reads only the orders from `order` up and leaves the others as
/// they were.
pub proof fn lemma_free_frame(a: Seq<Level>, b: Seq<Level>, order: int, idx: int)
    requires
        a.len() == b.len() == BUDDY_MAX_ORDER + 1,
        0 <= order,
        forall|p: int| order <= p <= BUDDY_MAX_ORDER ==> #[trigger] a[p] == b[p],
    ensures
        free_spec(a, order, idx).len() == a.len(),
        forall|p: int|
            order <= p <= BUDDY_MAX_ORDER ==> #[trigger] free_spec(a, order, idx)[p] == free_spec(
                b,
                order,
                idx,
            )[p],
        forall|p: int| 0 <= p < order ==> #[trigger] free_spec(a, order, idx)[p] == a[p],
    decreases BUDDY_MAX_ORDER + 1 - order,
{
    if order <= BUDDY_MAX_ORDER {
        assert(a[order] == b[order]);
        let l = a[order];
        if idx < 0 || idx >= l.bits.len() || !l.bits[idx] {
        } else if order < BUDDY_MAX_ORDER && !l.bits[spec_buddy_idx(idx)] {
            let nl = Level {
                bits: l.bits.update(spec_buddy_idx(idx), true),
                first_free: l.first_free,
                usable: l.usable - 1,
            };
            let a1 = a.update(order, nl);
            let b1 = b.update(order, nl);
            assert forall|p: int| order + 1 <= p <= BUDDY_MAX_ORDER implies #[trigger] a1[p] == b1[p] by {
                assert(a[p] == b[p]);
            }
            lemma_free_frame(a1, b1, order + 1, idx / 2);
            lemma_free_frame(b1, a1, order + 1, idx / 2);
        }
    }
}

/// Releasing the block just handed out by the allocator gives back the
/// bits and free counters of every order that the zone had before.
pub proof fn lemma_alloc_free_roundtrip(z: Seq<Level>, order: int)
    requires
        zone_inv(z),
        0 <= order <= BUDDY_MAX_ORDER,
        alloc_spec(z, order).1.is_some(),
    ensures
        levels_agree(free_spec(alloc_spec(z, order).0, order, alloc_spec(z, order).1.unwrap()), z),
    decreases BUDDY_MAX_ORDER + 1 - order,
{
    lemma_alloc(z, order);
    let (z2, r) = alloc_spec(z, order);
    let i = r.unwrap();
    let l = z[order];
    assert(level_inv(l, order));
    if l.usable != 0 {
        let b = spec_buddy_idx(i);
        assert(!l.bits[i]) by {
            lemma_first_clear_found(l.bits, l.first_free);
            lemma_first_clear_from(l.bits, l.first_free);
        }
        if order < BUDDY_MAX_ORDER {
            if i % 2 == 0 {
                assert(l.bits[i] || l.bits[i + 1]);
            } else {
                assert(l.bits[i - 1] || l.bits[i - 1 + 1]);
            }
            assert(z2[order].bits[b] == l.bits[b]);
        }
        let f = free_spec(z2, order, i);
        assert(f[order].bits =~= l.bits);
        assert forall|p: int| 0 <= p < f.len() implies (#[trigger] f[p]).bits == z[p].bits && f[p].usable
            == z[p].usable by {
            if p != order {
                assert(f[p] == z2[p]);
            }
        }
    } else {
        lemma_alloc(z, order + 1);
        lemma_alloc_free_roundtrip(z, order + 1);
        let (z1, r1) = alloc_spec(z, order + 1);
        let j = r1.unwrap();
        let c = 2 * j;
        lemma_count_clear_zero(l.bits);
        assert(z[order].bits.len() == 2 * z[order + 1].bits.len());
        assert(z2[order].bits[c]);
        assert(spec_buddy_idx(c) == c + 1);
        assert(!z2[order].bits[c + 1]);
        let l2 = z2[order];
        let nl = Level {
            bits: l2.bits.update(c + 1, true),
            first_free: l2.first_free,
            usable: l2.usable - 1,
        };
        let z3 = z2.update(order, nl);
        assert(free_spec(z2, order, c) == free_spec(z3, order + 1, c / 2));
        assert(c / 2 == j);
        assert forall|p: int| order + 1 <= p <= BUDDY_MAX_ORDER implies #[trigger] z3[p] == z1[p] by {}
        lemma_free_frame(z3, z1, order + 1, j);
        let f = free_spec(z3, order + 1, j);
        let g = free_spec(z1, order + 1, j);
        assert(nl.bits =~= l.bits);
        assert forall|p: int| 0 <= p < f.len() implies (#[trigger] f[p]).bits == z[p].bits && f[p].usable
            == z[p].usable by {
            if p > order {
                assert(f[p] == g[p]);
            } else if p == order {
                assert(f[p] == z3[p]);
            } else {
                assert(f[p] == z3[p]);
                assert(z2[p] == z[p]);
            }
        }
    }
}

} // verus!

verus! {

/// Zone-and-order bookkeeping of the physical page allocator, together with
/// the memory counters it keeps.
pub struct BuddyAllocator {
    /// `buddies[zone][order]`.
    pub buddies: Vec<Vec<Buddy>>,
    /// Total memory, in bytes.
    pub k_total_mem: usize,
    /// Memory handed out or reserved, in bytes.
    pub k_used_mem: usize,
    /// Start of the kernel image.
    pub kstart: usize,
    /// End of the kernel image.
    pub kend: usize,
}

impl BuddyAllocator {
    /// Abstract state of zone `zone`: one level per order.
    pub open spec fn zone_view(&self, zone: int) -> Seq<Level> {
        Seq::new((BUDDY_MAX_ORDER + 1) as nat, |o: int| self.buddies@[zone]@[o].level())
    }

    /// Two zones of eleven orders each, every bitmap well formed, and every
    /// zone keeping the zone invariant.
    pub open spec fn inv(&self) -> bool {
        &&& self.buddies@.len() == BUDDY_ZONE_NR
        &&& forall|z: int|
            0 <= z < BUDDY_ZONE_NR ==> {
                &&& (#[trigger] self.buddies@[z])@.len() == BUDDY_MAX_ORDER + 1
                &&& forall|o: int|
                    0 <= o <= BUDDY_MAX_ORDER ==> (#[trigger] self.buddies@[z]@[o]).bitmap.wf()
                &&& zone_inv(self.zone_view(z))
                &&& spec_zone_offset(z) + self.zone_view(z)[0].bits.len() * BUDDY_MIN_BS
                    <= usize::MAX
            }
    }

    /// Recursive search for a free block of order `order` in zone `zone`;
    /// splits a block of a higher order when this order has none.  Returns
    /// the block index, or `BUDDY_NONE`.
    pub fn buddy_recursive_alloc(&mut self, zone: usize, order: usize) -> (r: usize)
        requires
            old(self).inv(),
            zone < BUDDY_ZONE_NR,
        ensures
            final(self).inv(),
            final(self).zone_view(zone as int) == alloc_spec(
                old(self).zone_view(zone as int),
                order as int,
            ).0,
            forall|z: int|
                0 <= z < BUDDY_ZONE_NR && z != zone ==> #[trigger] final(self).zone_view(z)
                    == old(self).zone_view(z),
            r == match alloc_spec(old(self).zone_view(zone as int), order as int).1 {
                Some(i) => i,
                None => BUDDY_NONE as int,
            },
            final(self).k_total_mem == old(self).k_total_mem,
            final(self).k_used_mem == old(self).k_used_mem,
            final(self).kstart == old(self).kstart,
            final(self).kend == old(self).kend,
        decreases BUDDY_MAX_ORDER + 1 - order,
    {
        if order > BUDDY_MAX_ORDER {
            return BUDDY_NONE;
        }
        let ghost z0 = self.zone_view(zone as int);
        assert(self.buddies@[zone as int]@[order as int].level() == z0[order as int]);
        proof {
            lemma_alloc(z0, order as int);
        }
        if self.buddies[zone][order].usable != 0 {
            let ghost l = z0[order as int];
            let end = self.buddies[zone][order].bitmap.max_idx + 1;
            let mut i = self.buddies[zone][order].first_free_idx;
            while i < end
                invariant
                    *self == *old(self),
                    old(self).inv(),
                    self.buddies@[zone as int]@[order as int].level() == l,
                    self.buddies@[zone as int]@[order as int].bitmap.wf(),
                    end == l.bits.len(),
                    zone < BUDDY_ZONE_NR,
                    order <= BUDDY_MAX_ORDER,
                    self.buddies@[zone as int]@.len() == BUDDY_MAX_ORDER + 1,
                    self.buddies@.len() == BUDDY_ZONE_NR,
                    l.first_free <= i,
                    l.usable != 0,
                    z0 == old(self).zone_view(zone as int),
                    l == z0[order as int],
                    first_clear_from(l.bits, l.first_free) == first_clear_from(l.bits, i as int),
                decreases end - i,
            {
                if !self.buddies[zone][order].bitmap.check(i) {
                    let ghost old_view = self.zone_view(zone as int);
                    self.buddies[zone][order].bitmap.set(i);
                    self.buddies[zone][order].usable = self.buddies[zone][order].usable - 1;
                    self.buddies[zone][order].first_free_idx = i + 1;
                    proof {
                        let nl = Level {
                            bits: l.bits.update(i as int, true),
                            first_free: i + 1,
                            usable: l.usable - 1,
                        };
                        assert(self.buddies@[zone as int]@[order as int].level() == nl);
                        assert(self.zone_view(zone as int) =~= z0.update(order as int, nl));
                        assert(first_clear_from(l.bits, i as int) == i);
                        lemma_alloc(z0, order as int);
                        assert(self.zone_view(zone as int) == alloc_spec(z0, order as int).0);
                        assert forall|z: int| 0 <= z < BUDDY_ZONE_NR && z != zone implies #[trigger] self.zone_view(z) == old(self).zone_view(z) by {
                            assert(self.zone_view(z) =~= old(self).zone_view(z));
                        }
                        assert forall|z: int| 0 <= z < BUDDY_ZONE_NR implies zone_inv(#[trigger] self.zone_view(z)) by {
                            if z != zone {
                                assert(self.zone_view(z) =~= old(self).zone_view(z));
                            }
                        }
                    }
                    return i;
                }
                i = i + 1;
            }
            proof {
                assert(first_clear_from(l.bits, i as int) == l.bits.len());
            }
            return BUDDY_NONE;
        } else {
            let idx = self.buddy_recursive_alloc(zone, order + 1);
            if idx == BUDDY_NONE {
                return BUDDY_NONE;
            }
            let ghost z1 = self.zone_view(zone as int);
            proof {
                assert(order < BUDDY_MAX_ORDER);
                lemma_alloc(z0, order as int + 1);
                assert(z1[order as int] == z0[order as int]);
                assert(z0[order as int].bits.len() == 2 * z0[order as int + 1].bits.len());
                assert(self.buddies@[zone as int]@[order as int].level() == z1[order as int]);
                assert(self.buddies@[zone as int]@[order as int].bitmap.wf());
            }
            let child_idx = idx * 2;
            self.buddies[zone][order].bitmap.set(child_idx);
            self.buddies[zone][order].bitmap.clear(buddy_idx(child_idx));
            self.buddies[zone][order].usable = self.buddies[zone][order].usable + 1;
            self.buddies[zone][order].first_free_idx = child_idx + 1;
            proof {
                let l = z1[order as int];
                let c = child_idx as int;
                let nl = Level {
                    bits: l.bits.update(c, true).update(c + 1, false),
                    first_free: c + 1,
                    usable: l.usable + 1,
                };
                assert(self.buddies@[zone as int]@[order as int].level() == nl);
                assert(self.zone_view(zone as int) =~= z1.update(order as int, nl));
            }
            return child_idx;
        }
    }
}

} // verus!

verus! {

impl BuddyAllocator {
    /// Releases block `idx` of order `order` in zone `zone`, merging it with
    /// its free buddy as far up as possible.
    pub fn buddy_recursive_free(&mut self, zone: usize, order: usize, idx: usize)
        requires
            old(self).inv(),
            zone < BUDDY_ZONE_NR,
        ensures
            final(self).inv(),
            final(self).zone_view(zone as int) == free_spec(
                old(self).zone_view(zone as int),
                order as int,
                idx as int,
            ),
            forall|z: int|
                0 <= z < BUDDY_ZONE_NR && z != zone ==> #[trigger] final(self).zone_view(z)
                    == old(self).zone_view(z),
            final(self).k_total_mem == old(self).k_total_mem,
            final(self).k_used_mem == old(self).k_used_mem,
            final(self).kstart == old(self).kstart,
            final(self).kend == old(self).kend,
        decreases BUDDY_MAX_ORDER + 1 - order,
    {
        if order > BUDDY_MAX_ORDER {
            return;
        }
        let ghost z0 = self.zone_view(zone as int);
        proof {
            assert(self.buddies@[zone as int]@[order as int].level() == z0[order as int]);
            assert(self.buddies@[zone as int]@[order as int].bitmap.wf());
            lemma_free(z0, order as int, idx as int);
            assert(level_inv(z0[order as int], order as int));
        }
        if idx > self.buddies[zone][order].bitmap.max_idx {
            return;
        }
        /* can't free an already free bit */
        if !self.buddies[zone][order].bitmap.check(idx) {
            return;
        }
        if order < BUDDY_MAX_ORDER && !self.buddies[zone][order].bitmap.check(buddy_idx(idx)) {
            /* the buddy is free: combine */
            proof {
                lemma_merge_step(z0, order as int, idx as int);
            }
            let b = buddy_idx(idx);
            self.buddies[zone][order].bitmap.set(b);
            self.buddies[zone][order].usable = self.buddies[zone][order].usable - 1;
            let ghost z1 = self.zone_view(zone as int);
            proof {
                let l = z0[order as int];
                let nl = Level {
                    bits: l.bits.update(b as int, true),
                    first_free: l.first_free,
                    usable: l.usable - 1,
                };
                assert(self.buddies@[zone as int]@[order as int].level() == nl);
                assert(z1 =~= z0.update(order as int, nl));
                assert forall|z: int| 0 <= z < BUDDY_ZONE_NR && z != zone implies #[trigger] self.zone_view(z) == old(self).zone_view(z) by {
                    assert(self.zone_view(z) =~= old(self).zone_view(z));
                }
                assert forall|z: int| 0 <= z < BUDDY_ZONE_NR implies zone_inv(#[trigger] self.zone_view(z)) by {
                    if z != zone {
                        assert(self.zone_view(z) =~= old(self).zone_view(z));
                    }
                }
                assert(idx >> 1 == idx / 2) by (bit_vector);
            }
            self.buddy_recursive_free(zone, order + 1, idx >> 1);
        } else {
            proof {
                lemma_count_clear_lt(z0[order as int].bits, idx as int);
            }
            self.buddies[zone][order].bitmap.clear(idx);
            self.buddies[zone][order].usable = self.buddies[zone][order].usable + 1;
            /* update first_free_idx */
            if self.buddies[zone][order].first_free_idx > idx {
                self.buddies[zone][order].first_free_idx = idx;
            }
            proof {
                let l = z0[order as int];
                let nl = Level {
                    bits: l.bits.update(idx as int, false),
                    first_free: if l.first_free > idx {
                        idx as int
                    } else {
                        l.first_free
                    },
                    usable: l.usable + 1,
                };
                assert(self.buddies@[zone as int]@[order as int].level() == nl);
                assert(self.zone_view(zone as int) =~= z0.update(order as int, nl));
                assert forall|z: int| 0 <= z < BUDDY_ZONE_NR && z != zone implies #[trigger] self.zone_view(z) == old(self).zone_view(z) by {
                    assert(self.zone_view(z) =~= old(self).zone_view(z));
                }
                assert forall|z: int| 0 <= z < BUDDY_ZONE_NR implies zone_inv(#[trigger] self.zone_view(z)) by {
                    if z != zone {
                        assert(self.zone_view(z) =~= old(self).zone_view(z));
                    }
                }
            }
        }
    }
}

} // verus!

verus! {

/// Size in bytes of a block of order `order`.
pub open spec fn block_size(order: nat) -> nat
    decreases order,
{
    if order == 0 {
        BUDDY_MIN_BS as nat
    } else {
        2 * block_size((order - 1) as nat)
    }
}

/// `o` is the smallest order whose blocks hold `size` bytes, or the top
/// order when none does.
pub open spec fn is_order_of(size: int, o: nat) -> bool {
    &&& o <= BUDDY_MAX_ORDER
    &&& block_size(o) >= size || o == BUDDY_MAX_ORDER
    &&& o == 0 || block_size((o - 1) as nat) < size
}

/// Smallest order whose blocks hold `size` bytes, capped at the top order.
pub open spec fn order_of(size: int) -> nat {
    choose|o: nat| #[trigger] is_order_of(size, o)
}

pub proof fn lemma_block_size_mono(a: nat, b: nat)
    requires
        a <= b,
    ensures
        block_size(a) <= block_size(b),
        block_size(a) > 0,
    decreases b,
{
    if a < b {
        lemma_block_size_mono(a, (b - 1) as nat);
    } else if a > 0 {
        lemma_block_size_mono((a - 1) as nat, (a - 1) as nat);
    }
}

/// Orders and block sizes determine each other.
pub proof fn lemma_order_of_unique(size: int, o: nat)
    requires
        o <= BUDDY_MAX_ORDER,
        block_size(o) >= size || o == BUDDY_MAX_ORDER,
        o == 0 || block_size((o - 1) as nat) < size,
    ensures
        order_of(size) == o,
{
    assert(is_order_of(size, o));
    let p = order_of(size);
    assert(is_order_of(size, p));
    if p < o {
        lemma_block_size_mono(p, (o - 1) as nat);
    } else if o < p {
        lemma_block_size_mono(o, (p - 1) as nat);
    }
}

/// Order and size of the blocks that hold `size` bytes: the smallest order
/// whose block is at least `size` bytes, or the top order.
fn buddy_order(size: usize) -> (r: (usize, usize))
    ensures
        r.0 == order_of(size as int),
        is_order_of(size as int, r.0 as nat),
        r.1 == block_size(r.0 as nat),
        r.0 <= BUDDY_MAX_ORDER,
{
    let mut sz: usize = BUDDY_MIN_BS;
    let mut order: usize = 0;
    while order < BUDDY_MAX_ORDER && sz < size
        invariant
            order <= BUDDY_MAX_ORDER,
            sz == block_size(order as nat),
            sz <= BUDDY_MAX_BS,
            order == 0 || block_size((order - 1) as nat) < size,
        decreases BUDDY_MAX_ORDER - order,
    {
        proof {
            lemma_block_size_mono(order as nat, (BUDDY_MAX_ORDER - 1) as nat);
            reveal_with_fuel(block_size, 11);
            assert(block_size(9) == 2097152);
            assert(sz << 1 == sz * 2) by (bit_vector)
                requires
                    sz <= 2097152,
            ;
        }
        sz = sz << 1;
        order = order + 1;
        proof {
            assert(sz == block_size(order as nat));
        }
    }
    proof {
        lemma_order_of_unique(size as int, order as nat);
    }
    (order, sz)
}

} // verus!

verus! {

/// Every order of a zone spans the same number of bytes.
pub proof fn lemma_level_bytes(z: Seq<Level>, o: nat)
    requires
        zone_inv(z),
        o <= BUDDY_MAX_ORDER,
    ensures
        z[o as int].bits.len() * block_size(o) == z[0].bits.len() * BUDDY_MIN_BS,
    decreases o,
{
    if o > 0 {
        lemma_level_bytes(z, (o - 1) as nat);
        let a = z[o as int].bits.len() as int;
        let b = block_size((o - 1) as nat) as int;
        assert(z[o - 1].bits.len() == 2 * z[o as int].bits.len());
        assert(a * (2 * b) == (2 * a) * b) by (nonlinear_arith);
    }
}

/// Block `idx` of order `order` lies inside its zone's address range.
pub proof fn lemma_block_addr_bound(z: Seq<Level>, zone: int, order: nat, idx: int)
    requires
        zone_inv(z),
        order <= BUDDY_MAX_ORDER,
        0 <= idx < z[order as int].bits.len(),
        spec_zone_offset(zone) + z[0].bits.len() * BUDDY_MIN_BS <= usize::MAX,
    ensures
        spec_zone_offset(zone) + idx * block_size(order) + block_size(order) <= usize::MAX,
{
    lemma_level_bytes(z, order);
    let n = z[order as int].bits.len() as int;
    let b = block_size(order) as int;
    assert(idx * b + b <= n * b) by (nonlinear_arith)
        requires
            0 <= idx < n,
            b >= 0,
    ;
}

impl BuddyAllocator {
    /// Whether zone `zone` can hand out a block holding `size` bytes.
    pub fn buddy_has_free(&self, zone: usize, size: usize) -> (r: bool)
        requires
            self.inv(),
            zone < BUDDY_ZONE_NR,
        ensures
            r == has_capacity(self.zone_view(zone as int), order_of(size as int) as int),
    {
        let (order, _sz) = buddy_order(size);
        let ghost z = self.zone_view(zone as int);
        let mut o = order;
        while o <= BUDDY_MAX_ORDER
            invariant
                order <= o <= BUDDY_MAX_ORDER + 1,
                order == order_of(size as int),
                self.inv(),
                zone < BUDDY_ZONE_NR,
                z == self.zone_view(zone as int),
                forall|p: int| order <= p < o ==> #[trigger] z[p].usable == 0,
            decreases BUDDY_MAX_ORDER + 1 - o,
        {
            assert(self.buddies@[zone as int]@[o as int].level() == z[o as int]);
            if self.buddies[zone][o].usable != 0 {
                assert(z[o as int].usable != 0);
                return true;
            }
            o = o + 1;
        }
        false
    }

    /// Allocates a block holding `_sz` bytes from zone `zone` and returns
    /// its physical address.
    pub fn buddy_alloc(&mut self, zone: usize, _sz: usize) -> (paddr: usize)
        requires
            old(self).inv(),
            zone < BUDDY_ZONE_NR,
            _sz <= BUDDY_MAX_BS,
            has_capacity(old(self).zone_view(zone as int), order_of(_sz as int) as int),
            old(self).k_used_mem + block_size(order_of(_sz as int)) <= usize::MAX,
        ensures
            final(self).inv(),
            alloc_spec(old(self).zone_view(zone as int), order_of(_sz as int) as int).1 is Some,
            final(self).zone_view(zone as int) == alloc_spec(
                old(self).zone_view(zone as int),
                order_of(_sz as int) as int,
            ).0,
            forall|z: int|
                0 <= z < BUDDY_ZONE_NR && z != zone ==> #[trigger] final(self).zone_view(z)
                    == old(self).zone_view(z),
            paddr == spec_zone_offset(zone as int) + alloc_spec(
                old(self).zone_view(zone as int),
                order_of(_sz as int) as int,
            ).1.unwrap() * block_size(order_of(_sz as int)),
            block_size(order_of(_sz as int)) >= _sz,
            final(self).k_used_mem == old(self).k_used_mem + block_size(order_of(_sz as int)),
            final(self).k_total_mem == old(self).k_total_mem,
            final(self).kstart == old(self).kstart,
            final(self).kend == old(self).kend,
    {
        let (order, sz) = buddy_order(_sz);
        proof {
            reveal_with_fuel(block_size, 11);
            assert(block_size(10) == BUDDY_MAX_BS);
            lemma_alloc(old(self).zone_view(zone as int), order as int);
        }
        self.k_used_mem = self.k_used_mem + sz;
        let idx = self.buddy_recursive_alloc(zone, order);
        proof {
            let z0 = old(self).zone_view(zone as int);
            assert(zone_inv(z0));
            lemma_block_addr_bound(z0, zone as int, order as nat, idx as int);
        }
        buddy_zone_offset(zone) + idx * sz
    }

    /// Releases the block holding `size` bytes at physical address `addr` of
    /// zone `zone`.
    pub fn buddy_free(&mut self, zone: usize, addr: usize, size: usize)
        requires
            old(self).inv(),
            zone < BUDDY_ZONE_NR,
            !(old(self).kstart <= addr < old(self).kend),
            addr >= spec_zone_offset(zone as int),
            old(self).k_used_mem >= block_size(order_of(size as int)),
        ensures
            final(self).inv(),
            final(self).zone_view(zone as int) == free_spec(
                old(self).zone_view(zone as int),
                order_of(size as int) as int,
                (addr - spec_zone_offset(zone as int)) / block_size(order_of(size as int)) as int,
            ),
            forall|z: int|
                0 <= z < BUDDY_ZONE_NR && z != zone ==> #[trigger] final(self).zone_view(z)
                    == old(self).zone_view(z),
            final(self).k_used_mem == old(self).k_used_mem - block_size(order_of(size as int)),
            final(self).k_total_mem == old(self).k_total_mem,
            final(self).kstart == old(self).kstart,
            final(self).kend == old(self).kend,
    {
        let (order, sz) = buddy_order(size);
        proof {
            lemma_block_size_mono(0, order as nat);
        }
        self.k_used_mem = self.k_used_mem - sz;
        let addr = addr - buddy_zone_offset(zone);
        let idx = addr / sz;
        self.buddy_recursive_free(zone, order, idx);
    }
}

} // verus!

verus! {

/// Whether the byte range `addr..addr+size` reaches zone `zone`.
pub open spec fn zone_touched(zone: int, addr: int, size: int) -> bool {
    !(addr + size < spec_zone_offset(zone) || addr >= spec_zone_offset(zone + 1))
}

/// Offset of the range inside zone `zone`.
pub open spec fn reserve_zone_addr(zone: int, addr: int) -> int {
    (if addr > spec_zone_offset(zone) {
        addr
    } else {
        spec_zone_offset(zone)
    }) - spec_zone_offset(zone)
}

/// Length of the part of the range inside zone `zone`.
pub open spec fn reserve_zone_size(zone: int, addr: int, size: int) -> int {
    (if addr + size < spec_zone_offset(zone + 1) {
        addr + size
    } else {
        spec_zone_offset(zone + 1)
    }) - spec_zone_offset(zone) - reserve_zone_addr(zone, addr)
}

/// First top-order block that the reservation marks.
pub open spec fn reserve_start(zone: int, addr: int) -> int {
    reserve_zone_addr(zone, addr) / BUDDY_MAX_BS as int
}

/// Last top-order block that the reservation marks, capped at `max_idx`.
pub open spec fn reserve_end(zone: int, addr: int, size: int, max_idx: int) -> int {
    let e = (reserve_zone_addr(zone, addr) + reserve_zone_size(zone, addr, size) + BUDDY_MAX_BS
        - 1) / BUDDY_MAX_BS as int;
    if e > max_idx {
        max_idx
    } else {
        e
    }
}

/// The top order after blocks `s..=e` are marked used.
pub open spec fn reserve_level(l: Level, s: int, e: int) -> Level {
    Level {
        bits: Seq::new(l.bits.len(), |j: int| if s <= j <= e { true } else { l.bits[j] }),
        first_free: if l.first_free >= s && l.first_free <= e {
            e + 1
        } else {
            l.first_free
        },
        usable: l.usable - (e - s + 1),
    }
}

/// A zone after the byte range `addr..addr+size` is reserved.
pub open spec fn reserve_zone(z: Seq<Level>, zone: int, addr: int, size: int) -> Seq<Level> {
    if zone_touched(zone, addr, size) {
        let top = z[BUDDY_MAX_ORDER as int];
        let s = reserve_start(zone, addr);
        let e = reserve_end(zone, addr, size, top.bits.len() - 1);
        z.update(BUDDY_MAX_ORDER as int, reserve_level(top, s, e))
    } else {
        z
    }
}

/// Number of zones that the byte range `addr..addr+size` reaches.
pub open spec fn zones_touched(addr: int, size: int) -> int {
    (if zone_touched(0, addr, size) {
        1int
    } else {
        0int
    }) + (if zone_touched(1, addr, size) {
        1int
    } else {
        0int
    })
}

/// The reservation of `addr..addr+size` in a zone whose top order holds
/// `len` blocks, `usable` of them counted free, marks a non-empty run of
/// blocks and does not take the counter below zero.
pub open spec fn reserve_fits(zone: int, addr: int, size: int, len: int, usable: int) -> bool {
    zone_touched(zone, addr, size) ==> {
        let s = reserve_start(zone, addr);
        let e = reserve_end(zone, addr, size, len - 1);
        s <= e && usable >= e - s + 1
    }
}

/// Marking bits can take at most one clear bit off the count per bit.
pub proof fn lemma_count_clear_range(bits: Seq<bool>, s: int, k: int)
    requires
        0 <= s <= k <= bits.len(),
    ensures
        count_clear(Seq::new(bits.len(), |j: int| if s <= j < k { true } else { bits[j] })) + (k
            - s) >= count_clear(bits),
    decreases k - s,
{
    if k > s {
        lemma_count_clear_range(bits, s, k - 1);
        let a = Seq::new(bits.len(), |j: int| if s <= j < k - 1 { true } else { bits[j] });
        let b = Seq::new(bits.len(), |j: int| if s <= j < k { true } else { bits[j] });
        assert(b =~= a.update(k - 1, true));
        lemma_count_clear_update(a, k - 1, true);
    } else {
        assert(Seq::new(bits.len(), |j: int| if s <= j < k { true } else { bits[j] }) =~= bits);
    }
}

/// Reserving a run of top-order blocks keeps the zone invariant.
pub proof fn lemma_reserve(z: Seq<Level>, s: int, e: int)
    requires
        zone_inv(z),
        0 <= s <= e < z[BUDDY_MAX_ORDER as int].bits.len(),
        z[BUDDY_MAX_ORDER as int].usable >= e - s + 1,
    ensures
        zone_inv(
            z.update(
                BUDDY_MAX_ORDER as int,
                reserve_level(z[BUDDY_MAX_ORDER as int], s, e),
            ),
        ),
{
    let m = BUDDY_MAX_ORDER as int;
    let l = z[m];
    assert(level_inv(l, m));
    let nl = reserve_level(l, s, e);
    lemma_count_clear_range(l.bits, s, e + 1);
    assert(nl.bits =~= Seq::new(
        l.bits.len(),
        |j: int| if s <= j < e + 1 { true } else { l.bits[j] },
    ));
    assert forall|k: int| 0 <= k < nl.bits.len() && k < nl.first_free implies #[trigger] nl.bits[k] by {
        if !(s <= k <= e) {
            assert(l.bits[k]);
        }
    }
    assert(level_inv(nl, m));
    let z1 = z.update(m, nl);
    assert forall|o: int| 0 <= o <= BUDDY_MAX_ORDER implies #[trigger] level_inv(z1[o], o) by {
        if o != m {
            assert(level_inv(z[o], o));
        }
    }
    assert forall|o: int| 0 <= o < BUDDY_MAX_ORDER implies #[trigger] z1[o].bits.len() == 2
        * z1[o + 1].bits.len() by {
        assert(z[o].bits.len() == 2 * z[o + 1].bits.len());
    }
}

impl BuddyAllocator {
    /// Whether reserving `addr..addr+size` fits the current state: no
    /// arithmetic leaves the machine range and no counter goes below zero.
    pub open spec fn reserve_ok(&self, addr: int, size: int) -> bool {
        &&& addr + size <= usize::MAX
        &&& forall|z: int|
            0 <= z < BUDDY_ZONE_NR ==> #[trigger] reserve_fits(
                z,
                addr,
                size,
                self.zone_view(z)[BUDDY_MAX_ORDER as int].bits.len() as int,
                self.zone_view(z)[BUDDY_MAX_ORDER as int].usable,
            )
        &&& self.k_used_mem + size * zones_touched(addr, size) <= usize::MAX
    }

    /// Reserves the part of `addr..addr+size` that lies in zone `zone`.
    fn buddy_set_unusable_zone(&mut self, zone: usize, addr: usize, size: usize)
        requires
            old(self).inv(),
            zone < BUDDY_ZONE_NR,
            addr + size <= usize::MAX,
            reserve_fits(
                zone as int,
                addr as int,
                size as int,
                old(self).zone_view(zone as int)[BUDDY_MAX_ORDER as int].bits.len() as int,
                old(self).zone_view(zone as int)[BUDDY_MAX_ORDER as int].usable,
            ),
            zone_touched(zone as int, addr as int, size as int) ==> old(self).k_used_mem + size
                <= usize::MAX,
        ensures
            final(self).inv(),
            final(self).zone_view(zone as int) == reserve_zone(
                old(self).zone_view(zone as int),
                zone as int,
                addr as int,
                size as int,
            ),
            forall|z: int|
                0 <= z < BUDDY_ZONE_NR && z != zone ==> #[trigger] final(self).zone_view(z)
                    == old(self).zone_view(z),
            final(self).k_used_mem == old(self).k_used_mem + if zone_touched(
                zone as int,
                addr as int,
                size as int,
            ) {
                size as int
            } else {
                0
            },
            final(self).k_total_mem == old(self).k_total_mem,
            final(self).kstart == old(self).kstart,
            final(self).kend == old(self).kend,
    {
        let zone_start = buddy_zone_offset(zone);
        let zone_end = buddy_zone_offset(zone + 1);
        if addr + size < zone_start || addr >= zone_end {
            return;
        }
        let ghost z0 = self.zone_view(zone as int);
        let m = BUDDY_MAX_ORDER;
        proof {
            assert(self.buddies@[zone as int]@[m as int].level() == z0[m as int]);
            assert(self.buddies@[zone as int]@[m as int].bitmap.wf());
        }
        let zone_addr = (if addr > zone_start {
            addr
        } else {
            zone_start
        }) - zone_start;
        let zone_size = (if addr + size < zone_end {
            addr + size
        } else {
            zone_end
        }) - zone_start - zone_addr;
        let start_idx = zone_addr / BUDDY_MAX_BS;
        let mut end_idx = (zone_addr + zone_size + BUDDY_MAX_BS - 1) / BUDDY_MAX_BS;
        if end_idx > self.buddies[zone][m].bitmap.max_idx {
            end_idx = self.buddies[zone][m].bitmap.max_idx;
        }
        self.buddies[zone][m].bitmap.set_range(start_idx, end_idx);
        let ffidx = self.buddies[zone][m].first_free_idx;
        if ffidx >= start_idx && ffidx <= end_idx {
            self.buddies[zone][m].first_free_idx = end_idx + 1;
        }
        self.buddies[zone][m].usable = self.buddies[zone][m].usable - (end_idx - start_idx + 1);
        self.k_used_mem = self.k_used_mem + size;
        proof {
            let l = z0[m as int];
            let nl = reserve_level(l, start_idx as int, end_idx as int);
            assert(self.buddies@[zone as int]@[m as int].level().bits =~= nl.bits);
            assert(self.buddies@[zone as int]@[m as int].level() == nl);
            assert(self.zone_view(zone as int) =~= z0.update(m as int, nl));
            lemma_reserve(z0, start_idx as int, end_idx as int);
            assert forall|z: int| 0 <= z < BUDDY_ZONE_NR && z != zone implies #[trigger] self.zone_view(z) == old(self).zone_view(z) by {
                assert(self.zone_view(z) =~= old(self).zone_view(z));
            }
            assert forall|z: int| 0 <= z < BUDDY_ZONE_NR implies zone_inv(#[trigger] self.zone_view(z)) by {
                if z != zone {
                    assert(self.zone_view(z) =~= old(self).zone_view(z));
                }
            }
            assert(self.zone_view(zone as int)[0].bits.len() == z0[0].bits.len());
        }
    }

    /// Marks the byte range `addr..addr+size` as unusable: the top-order
    /// blocks it reaches in every zone are taken out of the free pool.
    pub fn buddy_set_unusable(&mut self, addr: usize, size: usize)
        requires
            old(self).inv(),
            old(self).reserve_ok(addr as int, size as int),
        ensures
            final(self).inv(),
            forall|z: int|
                0 <= z < BUDDY_ZONE_NR ==> #[trigger] final(self).zone_view(z) == reserve_zone(
                    old(self).zone_view(z),
                    z,
                    addr as int,
                    size as int,
                ),
            final(self).k_used_mem == old(self).k_used_mem + size * zones_touched(
                addr as int,
                size as int,
            ),
            final(self).k_total_mem == old(self).k_total_mem,
            final(self).kstart == old(self).kstart,
            final(self).kend == old(self).kend,
    {
        let ghost s0 = *self;
        proof {
            assert(reserve_fits(
                0,
                addr as int,
                size as int,
                s0.zone_view(0)[BUDDY_MAX_ORDER as int].bits.len() as int,
                s0.zone_view(0)[BUDDY_MAX_ORDER as int].usable,
            ));
            assert(reserve_fits(
                1,
                addr as int,
                size as int,
                s0.zone_view(1)[BUDDY_MAX_ORDER as int].bits.len() as int,
                s0.zone_view(1)[BUDDY_MAX_ORDER as int].usable,
            ));
            assert(size * zones_touched(addr as int, size as int) >= (if zone_touched(
                0,
                addr as int,
                size as int,
            ) {
                size as int
            } else {
                0
            })) by (nonlinear_arith)
                requires
                    zones_touched(addr as int, size as int) >= (if zone_touched(
                        0,
                        addr as int,
                        size as int,
                    ) {
                        1int
                    } else {
                        0int
                    }),
                    size >= 0,
            ;
        }
        self.buddy_set_unusable_zone(0, addr, size);
        proof {
            assert(size * zones_touched(addr as int, size as int) == (if zone_touched(
                0,
                addr as int,
                size as int,
            ) {
                size as int
            } else {
                0
            }) + (if zone_touched(1, addr as int, size as int) {
                size as int
            } else {
                0
            })) by (nonlinear_arith)
                requires
                    zones_touched(addr as int, size as int) == (if zone_touched(
                        0,
                        addr as int,
                        size as int,
                    ) {
                        1int
                    } else {
                        0int
                    }) + (if zone_touched(1, addr as int, size as int) {
                        1int
                    } else {
                        0int
                    }),
            ;
        }
        self.buddy_set_unusable_zone(1, addr, size);
    }
}

} // verus!

verus! {

/// Number of blocks of order `o` in a zone whose top order holds `top`.
pub open spec fn level_len(top: nat, o: nat) -> nat
    decreases BUDDY_MAX_ORDER - o,
{
    if o >= BUDDY_MAX_ORDER {
        top
    } else {
        2 * level_len(top, o + 1)
    }
}

/// A zone right after setup: every top-order block free, every lower order
/// empty (all bits set, hint past the end).
pub open spec fn fresh_zone(top: nat) -> Seq<Level> {
    Seq::new(
        (BUDDY_MAX_ORDER + 1) as nat,
        |o: int|
            if o == BUDDY_MAX_ORDER {
                Level {
                    bits: Seq::new(top, |j: int| false),
                    first_free: 0,
                    usable: top as int,
                }
            } else {
                Level {
                    bits: Seq::new(level_len(top, o as nat), |j: int| true),
                    first_free: usize::MAX as int,
                    usable: 0,
                }
            },
    )
}

/// Number of top-order blocks of zone `zone` for `total_mem` bytes of memory.
pub open spec fn top_blocks(zone: int, total_mem: int) -> int {
    if zone < BUDDY_ZONE_NR - 1 {
        (spec_zone_offset(zone + 1) - spec_zone_offset(zone)) / BUDDY_MAX_BS as int
    } else {
        (total_mem - spec_zone_offset(zone)) / BUDDY_MAX_BS as int
    }
}

pub proof fn lemma_count_clear_all(n: nat, v: bool)
    ensures
        count_clear(Seq::new(n, |j: int| v)) == if v {
            0
        } else {
            n
        },
    decreases n,
{
    if n > 0 {
        lemma_count_clear_all((n - 1) as nat, v);
        assert(Seq::new(n, |j: int| v).drop_last() =~= Seq::new((n - 1) as nat, |j: int| v));
    }
}

/// A fresh zone keeps the zone invariant.
pub proof fn lemma_fresh_zone(top: nat)
    requires
        1 <= top,
        level_len(top, 0) <= usize::MAX,
    ensures
        zone_inv(fresh_zone(top)),
{
    let z = fresh_zone(top);
    assert forall|o: int| 0 <= o <= BUDDY_MAX_ORDER implies #[trigger] level_inv(z[o], o) by {
        lemma_level_len_mono(top, o as nat);
        if o == BUDDY_MAX_ORDER {
            lemma_count_clear_all(top, false);
        } else {
            lemma_count_clear_all(level_len(top, o as nat), true);
            assert(level_len(top, o as nat) == 2 * level_len(top, (o + 1) as nat));
        }
    }
    assert forall|o: int| 0 <= o < BUDDY_MAX_ORDER implies #[trigger] z[o].bits.len() == 2 * z[o
        + 1].bits.len() by {
        assert(level_len(top, o as nat) == 2 * level_len(top, (o + 1) as nat));
        if o + 1 == BUDDY_MAX_ORDER {
            assert(level_len(top, (o + 1) as nat) == top);
        }
    }
}

/// Lower orders hold more blocks.
pub proof fn lemma_level_len_mono(top: nat, o: nat)
    requires
        1 <= top,
        o <= BUDDY_MAX_ORDER,
    ensures
        top <= level_len(top, o) <= level_len(top, 0),
    decreases BUDDY_MAX_ORDER - o,
{
    if o < BUDDY_MAX_ORDER {
        lemma_level_len_mono(top, o + 1);
    }
    lemma_level_len_zero(top);
}

/// Order zero holds 1024 blocks per top-order block.
pub proof fn lemma_level_len_zero(top: nat)
    ensures
        level_len(top, 0) == top * 1024,
        forall|o: nat| o < BUDDY_MAX_ORDER ==> #[trigger] level_len(top, o) == 2 * level_len(top, o + 1),
{
    reveal_with_fuel(level_len, 12);
}

/// Bump allocation from the boot-time area: rounds `*alloc_mark` up to
/// `align` and moves the mark past `size` bytes.  Returns the start.
pub fn boot_alloc(alloc_mark: &mut usize, size: usize, align: usize) -> (ret: usize)
    requires
        align > 0,
        align & ((align - 1) as usize) == 0,
        *old(alloc_mark) + align - 1 + size <= usize::MAX,
    ensures
        ret & ((align - 1) as usize) == 0,
        *old(alloc_mark) <= ret < *old(alloc_mark) + align,
        *final(alloc_mark) == ret + size,
{
    let mark = *alloc_mark;
    let mask = align - 1;
    let sum = mark + mask;
    let ret = sum & !mask;
    assert((sum & !mask) & mask == 0 && mark <= (sum & !mask) && (sum & !mask) < mark + align)
        by (bit_vector)
        requires
            align > 0,
            align & mask == 0,
            mask == align - 1,
            sum == mark + mask,
    ;
    *alloc_mark = ret + size;
    ret
}

impl BuddyAllocator {
    /// Builds the allocator for `total_mem` bytes of memory: every top-order
    /// block free, the lower orders empty, and the kernel image
    /// `kernel_start..kernel_end` reserved.
    pub fn buddy_setup(total_mem: usize, kernel_start: usize, kernel_end: usize) -> (b:
        BuddyAllocator)
        requires
            total_mem >= spec_zone_offset(1) + BUDDY_MAX_BS,
            kernel_start <= kernel_end,
            forall|z: int|
                0 <= z < BUDDY_ZONE_NR ==> #[trigger] reserve_fits(
                    z,
                    kernel_start as int,
                    kernel_end - kernel_start,
                    top_blocks(z, total_mem as int),
                    top_blocks(z, total_mem as int),
                ),
            (kernel_end - kernel_start) * 2 <= usize::MAX,
        ensures
            b.inv(),
            forall|z: int|
                0 <= z < BUDDY_ZONE_NR ==> #[trigger] b.zone_view(z) == reserve_zone(
                    fresh_zone(top_blocks(z, total_mem as int) as nat),
                    z,
                    kernel_start as int,
                    kernel_end - kernel_start,
                ),
            b.k_total_mem == total_mem,
            b.k_used_mem == (kernel_end - kernel_start) * zones_touched(
                kernel_start as int,
                kernel_end - kernel_start,
            ),
            b.kstart == kernel_start,
            b.kend == kernel_end,
    {
        let mut buddies: Vec<Vec<Buddy>> = Vec::new();
        let mut zone: usize = 0;
        while zone < BUDDY_ZONE_NR
            invariant
                zone <= BUDDY_ZONE_NR,
                buddies@.len() == zone,
                total_mem >= spec_zone_offset(1) + BUDDY_MAX_BS,
                forall|z: int|
                    0 <= z < zone ==> {
                        &&& (#[trigger] buddies@[z])@.len() == BUDDY_MAX_ORDER + 1
                        &&& forall|o: int|
                            0 <= o <= BUDDY_MAX_ORDER ==> (#[trigger] buddies@[z]@[o]).bitmap.wf()
                        &&& Seq::new(
                            (BUDDY_MAX_ORDER + 1) as nat,
                            |o: int| buddies@[z]@[o].level(),
                        ) == fresh_zone(top_blocks(z, total_mem as int) as nat)
                    },
            decreases BUDDY_ZONE_NR - zone,
        {
            let bits_cnt: usize = if zone < BUDDY_ZONE_NR - 1 {
                (buddy_zone_offset(zone + 1) - buddy_zone_offset(zone)) / BUDDY_MAX_BS
            } else {
                /* last zone */
                (total_mem - buddy_zone_offset(zone)) / BUDDY_MAX_BS
            };
            let ghost top = bits_cnt as nat;
            proof {
                lemma_level_len_zero(top);
                assert(bits_cnt >= 1);
                assert(bits_cnt <= usize::MAX / 1024) by (nonlinear_arith)
                    requires
                        bits_cnt <= usize::MAX / BUDDY_MAX_BS,
                ;
            }
            let mut orders: Vec<Buddy> = Vec::new();
            let mut cnt: usize = bits_cnt * 1024;
            let mut i: usize = 0;
            while i <= BUDDY_MAX_ORDER
                invariant
                    i <= BUDDY_MAX_ORDER + 1,
                    orders@.len() == i,
                    top >= 1,
                    top * 1024 <= usize::MAX,
                    i <= BUDDY_MAX_ORDER ==> cnt == level_len(top, i as nat),
                    forall|o: nat| o < BUDDY_MAX_ORDER ==> #[trigger] level_len(top, o) == 2 * level_len(top, o + 1),
                    level_len(top, 0) == top * 1024,
                    forall|o: int| 0 <= o < i ==> (#[trigger] orders@[o]).bitmap.wf(),
                    forall|o: int| 0 <= o < i ==> (#[trigger] orders@[o]).level() == fresh_zone(top)[o],
                decreases BUDDY_MAX_ORDER + 1 - i,
            {
                proof {
                    lemma_level_len_mono(top, i as nat);
                }
                let mut bitmap = BitMap::new(cnt - 1);
                let buddy = if i == BUDDY_MAX_ORDER {
                    /* the top order starts free */
                    bitmap.clear_range(0, bitmap.max_idx);
                    Buddy { first_free_idx: 0, usable: bitmap.max_idx + 1, bitmap }
                } else {
                    /* the lower orders start empty */
                    bitmap.set_range(0, bitmap.max_idx);
                    Buddy { first_free_idx: usize::MAX, usable: 0, bitmap }
                };
                proof {
                    assert(buddy.level().bits =~= fresh_zone(top)[i as int].bits);
                }
                orders.push(buddy);
                if i < BUDDY_MAX_ORDER {
                    proof {
                        assert(cnt >> 1 == cnt / 2) by (bit_vector);
                    }
                    cnt = cnt >> 1;
                    proof {
                        assert(level_len(top, i as nat) == 2 * level_len(top, (i + 1) as nat));
                    }
                }
                i = i + 1;
            }
            proof {
                assert(Seq::new((BUDDY_MAX_ORDER + 1) as nat, |o: int| orders@[o].level())
                    =~= fresh_zone(top));
            }
            buddies.push(orders);
            zone = zone + 1;
        }
        let mut b = BuddyAllocator {
            buddies,
            k_total_mem: total_mem,
            k_used_mem: 0,
            kstart: kernel_start,
            kend: kernel_end,
        };
        proof {
            assert forall|z: int| 0 <= z < BUDDY_ZONE_NR implies #[trigger] b.zone_view(z)
                == fresh_zone(top_blocks(z, total_mem as int) as nat) by {
                assert(b.zone_view(z) =~= Seq::new(
                    (BUDDY_MAX_ORDER + 1) as nat,
                    |o: int| buddies@[z]@[o].level(),
                ));
            }
            assert forall|z: int| 0 <= z < BUDDY_ZONE_NR implies {
                &&& zone_inv(#[trigger] b.zone_view(z))
                &&& spec_zone_offset(z) + b.zone_view(z)[0].bits.len() * BUDDY_MIN_BS <= usize::MAX
            } by {
                let top = top_blocks(z, total_mem as int) as nat;
                lemma_level_len_zero(top);
                assert(top >= 1);
                assert(top * BUDDY_MAX_BS <= total_mem - spec_zone_offset(z)) by (nonlinear_arith)
                    requires
                        top == (total_mem - spec_zone_offset(z)) / BUDDY_MAX_BS as int
                            || top == (spec_zone_offset(z + 1) - spec_zone_offset(z)) / BUDDY_MAX_BS as int,
                        spec_zone_offset(z + 1) - spec_zone_offset(z) <= total_mem - spec_zone_offset(z)
                            || z == 1,
                        z == 1 ==> top == (total_mem - spec_zone_offset(z)) / BUDDY_MAX_BS as int,
                        total_mem - spec_zone_offset(z) >= 0,
                ;
                lemma_fresh_zone(top);
            }
            assert(b.reserve_ok(kernel_start as int, kernel_end - kernel_start)) by {
                assert forall|z: int| 0 <= z < BUDDY_ZONE_NR implies #[trigger] reserve_fits(
                    z,
                    kernel_start as int,
                    kernel_end - kernel_start,
                    b.zone_view(z)[BUDDY_MAX_ORDER as int].bits.len() as int,
                    b.zone_view(z)[BUDDY_MAX_ORDER as int].usable,
                ) by {
                    assert(reserve_fits(
                        z,
                        kernel_start as int,
                        kernel_end - kernel_start,
                        top_blocks(z, total_mem as int),
                        top_blocks(z, total_mem as int),
                    ));
                }
                assert((kernel_end - kernel_start) * zones_touched(
                    kernel_start as int,
                    kernel_end - kernel_start,
                ) <= (kernel_end - kernel_start) * 2) by (nonlinear_arith)
                    requires
                        zones_touched(kernel_start as int, kernel_end - kernel_start) <= 2,
                        kernel_end - kernel_start >= 0,
                ;
            }
        }
        b.buddy_set_unusable(kernel_start, kernel_end - kernel_start);
        b
    }
}

} // verus!

verus! {

/// Freeing, with the same size, the address that `buddy_alloc` returned
/// gives the zone back the bits and free counters it had before the
/// allocation.
pub proof fn lemma_buddy_alloc_then_free(z: Seq<Level>, zone: int, size: int)
    requires
        zone_inv(z),
        0 <= zone < BUDDY_ZONE_NR,
        0 <= size <= BUDDY_MAX_BS,
        has_capacity(z, order_of(size) as int),
    ensures
        ({
            let o = order_of(size);
            let i = alloc_spec(z, o as int).1.unwrap();
            let paddr = spec_zone_offset(zone) + i * block_size(o);
            levels_agree(
                free_spec(
                    alloc_spec(z, o as int).0,
                    o as int,
                    (paddr - spec_zone_offset(zone)) / block_size(o) as int,
                ),
                z,
            )
        }),
{
    let o = order_of(size);
    assert(is_order_of(size, o)) by {
        reveal_with_fuel(block_size, 11);
        assert(exists|q: nat| #[trigger] is_order_of(size, q)) by {
            if block_size(0) >= size {
                assert(is_order_of(size, 0));
            } else if block_size(1) >= size {
                assert(is_order_of(size, 1));
            } else if block_size(2) >= size {
                assert(is_order_of(size, 2));
            } else if block_size(3) >= size {
                assert(is_order_of(size, 3));
            } else if block_size(4) >= size {
                assert(is_order_of(size, 4));
            } else if block_size(5) >= size {
                assert(is_order_of(size, 5));
            } else if block_size(6) >= size {
                assert(is_order_of(size, 6));
            } else if block_size(7) >= size {
                assert(is_order_of(size, 7));
            } else if block_size(8) >= size {
                assert(is_order_of(size, 8));
            } else if block_size(9) >= size {
                assert(is_order_of(size, 9));
            } else {
                assert(is_order_of(size, 10));
            }
        }
    }
    lemma_alloc(z, o as int);
    lemma_alloc_free_roundtrip(z, o as int);
    let i = alloc_spec(z, o as int).1.unwrap();
    lemma_block_size_mono(0, o);
    let b = block_size(o) as int;
    assert((i * b) / b == i) by (nonlinear_arith)
        requires
            b > 0,
            i >= 0,
    ;
}

} // verus!
