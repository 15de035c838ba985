use vstd::prelude::*;

use crate::buddy::{
    fresh_zone, reserve_fits, reserve_zone, spec_zone_offset, top_blocks, zones_touched,
    BuddyAllocator, Level, BUDDY_MAX_BS, BUDDY_MAX_ORDER, BUDDY_ZONE_NR,
};

verus! {

pub const PAGE_SIZE: usize = 4096;

pub const PAGE_MASK: usize = 4095;

pub const PF_PRESENT: usize = 0x001;

pub const PF_READ: usize = 0x002;

pub const PF_WRITE: usize = 0x004;

pub const PF_EXEC: usize = 0x008;

pub const PF_USER: usize = 0x010;

/// `ptr` rounded down to a page boundary.
pub open spec fn spec_page_align(ptr: int) -> int {
    ptr - ptr % PAGE_SIZE as int
}

/// `ptr` rounded up to a page boundary.
pub open spec fn spec_page_round(ptr: int) -> int {
    spec_page_align(ptr + PAGE_MASK)
}

/// Rounds `ptr` down to a page boundary.
pub fn page_align(ptr: usize) -> (r: usize)
    ensures
        r == spec_page_align(ptr as int),
{
    assert(ptr & !4095usize == ptr - ptr % 4096) by (bit_vector);
    ptr & !PAGE_MASK
}

/// Rounds `ptr` up to a page boundary.
pub fn page_round(ptr: usize) -> (r: usize)
    requires
        ptr + PAGE_MASK <= usize::MAX,
    ensures
        r == spec_page_round(ptr as int),
{
    let p = ptr + PAGE_MASK;
    assert(p & !4095usize == p - p % 4096) by (bit_vector);
    p & !PAGE_MASK
}

/// A region of the boot memory map: its bounds and whether it is reserved.
#[derive(Clone, Copy, Debug, PartialEq, Eq, Structural)]
pub struct BootMemoryMap {
    pub start: usize,
    pub end: usize,
    pub reserved: bool,
}

/// A module the boot loader loaded: its physical address and its size.
#[derive(Clone, Copy, Debug, PartialEq, Eq, Structural)]
pub struct BootModule {
    pub addr: usize,
    pub size: usize,
}

/// The ranges, as (start, size), of the reserved regions of `mmap`, in
/// order.
pub open spec fn reserved_ranges(mmap: Seq<BootMemoryMap>) -> Seq<(int, int)>
    decreases mmap.len(),
{
    if mmap.len() == 0 {
        seq![]
    } else {
        (if mmap[0].reserved {
            seq![(mmap[0].start as int, mmap[0].end - mmap[0].start)]
        } else {
            seq![]
        }) + reserved_ranges(mmap.drop_first())
    }
}

/// The ranges, as (start, size), of the modules `mods`, in order.
pub open spec fn module_ranges(mods: Seq<BootModule>) -> Seq<(int, int)>
    decreases mods.len(),
{
    if mods.len() == 0 {
        seq![]
    } else {
        seq![(mods[0].addr as int, mods[0].size as int)] + module_ranges(mods.drop_first())
    }
}

/// The ranges the allocator must not hand out: the kernel image
/// `kernel_start..kernel_end`, the reserved regions of `mmap` and the
/// modules `mods`, in that order.
pub open spec fn boot_ranges(
    kernel_start: usize,
    kernel_end: usize,
    mmap: Seq<BootMemoryMap>,
    mods: Seq<BootModule>,
) -> Seq<(int, int)> {
    seq![(kernel_start as int, kernel_end - kernel_start)] + reserved_ranges(mmap) + module_ranges(mods)
}

/// Zone `z`, from `zv`, after the ranges `r` are reserved in turn.
pub open spec fn zone_after(zv: Seq<Level>, z: int, r: Seq<(int, int)>) -> Seq<Level>
    decreases r.len(),
{
    if r.len() == 0 {
        zv
    } else {
        zone_after(reserve_zone(zv, z, r[0].0, r[0].1), z, r.drop_first())
    }
}

/// The memory counted used, from `used`, after the ranges `r` are reserved
/// in turn.
pub open spec fn used_after(used: int, r: Seq<(int, int)>) -> int
    decreases r.len(),
{
    if r.len() == 0 {
        used
    } else {
        used_after(used + r[0].1 * zones_touched(r[0].0, r[0].1), r.drop_first())
    }
}

/// Whether the ranges `r` can be reserved in turn from the two zones `zv0`
/// and `zv1` with `used` bytes counted used: each range fits in memory and
/// in what is left of each zone's top order, and the count does not
/// overflow.
pub open spec fn reservable(zv0: Seq<Level>, zv1: Seq<Level>, used: int, r: Seq<(int, int)>) -> bool
    decreases r.len(),
{
    r.len() == 0 || {
        let (a, n) = r[0];
        &&& 0 <= a
        &&& 0 <= n
        &&& a + n <= usize::MAX
        &&& reserve_fits(0, a, n, zv0[BUDDY_MAX_ORDER as int].bits.len() as int, zv0[BUDDY_MAX_ORDER as int].usable)
        &&& reserve_fits(1, a, n, zv1[BUDDY_MAX_ORDER as int].bits.len() as int, zv1[BUDDY_MAX_ORDER as int].usable)
        &&& used + n * zones_touched(a, n) <= usize::MAX
        &&& reservable(
            reserve_zone(zv0, 0, a, n),
            reserve_zone(zv1, 1, a, n),
            used + n * zones_touched(a, n),
            r.drop_first(),
        )
    }
}

/// The fresh zone `z` of an allocator for `total_mem` bytes.
pub open spec fn boot_zone(z: int, total_mem: int) -> Seq<Level> {
    fresh_zone(top_blocks(z, total_mem) as nat)
}

/// Sets up the page allocator for `total_kib` KiB of memory: the kernel
/// image `kernel_start..kernel_end`, the reserved regions of the memory map
/// `mmap` and the modules `mods` are taken out of it, in that order.
pub fn mm_setup(
    total_kib: usize,
    kernel_start: usize,
    kernel_end: usize,
    mmap: &Vec<BootMemoryMap>,
    mods: &Vec<BootModule>,
) -> (b: BuddyAllocator)
    requires
        total_kib * 1024 <= usize::MAX,
        total_kib * 1024 >= spec_zone_offset(1) + BUDDY_MAX_BS,
        kernel_start <= kernel_end,
        (kernel_end - kernel_start) * 2 <= usize::MAX,
        forall|i: int| 0 <= i < mmap@.len() && (#[trigger] mmap@[i]).reserved ==> mmap@[i].start <= mmap@[i].end,
        reservable(
            boot_zone(0, total_kib * 1024),
            boot_zone(1, total_kib * 1024),
            0,
            boot_ranges(kernel_start, kernel_end, mmap@, mods@),
        ),
    ensures
        b.inv(),
        b.k_total_mem == total_kib * 1024,
        b.k_used_mem == used_after(0, boot_ranges(kernel_start, kernel_end, mmap@, mods@)),
        forall|z: int|
            0 <= z < BUDDY_ZONE_NR ==> #[trigger] b.zone_view(z) == zone_after(
                boot_zone(z, total_kib * 1024),
                z,
                boot_ranges(kernel_start, kernel_end, mmap@, mods@),
            ),
{
    let total = total_kib * 1024;
    let ghost all = boot_ranges(kernel_start, kernel_end, mmap@, mods@);
    proof {
        let k = (kernel_start as int, kernel_end - kernel_start);
        assert(all[0] == k);
        assert forall|z: int| 0 <= z < BUDDY_ZONE_NR implies #[trigger] reserve_fits(
            z,
            kernel_start as int,
            kernel_end - kernel_start,
            top_blocks(z, total as int),
            top_blocks(z, total as int),
        ) by {
            assert(boot_zone(z, total as int)[BUDDY_MAX_ORDER as int].bits.len() == top_blocks(z, total as int));
        }
    }
    let mut b = BuddyAllocator::buddy_setup(total, kernel_start, kernel_end);
    proof {
        assert(all.drop_first() =~= reserved_ranges(mmap@) + module_ranges(mods@));
        assert(mmap@.skip(0) == mmap@);
    }
    let mut i: usize = 0;
    while i < mmap.len()
        invariant
            i <= mmap@.len(),
            forall|j: int| 0 <= j < mmap@.len() && (#[trigger] mmap@[j]).reserved ==> mmap@[j].start <= mmap@[j].end,
            b.inv(),
            b.k_total_mem == total,
            total == total_kib * 1024,
            all == boot_ranges(kernel_start, kernel_end, mmap@, mods@),
            ({
                let rest = reserved_ranges(mmap@.skip(i as int)) + module_ranges(mods@);
                &&& reservable(b.zone_view(0), b.zone_view(1), b.k_used_mem as int, rest)
                &&& used_after(b.k_used_mem as int, rest) == used_after(0, all)
                &&& zone_after(b.zone_view(0), 0, rest) == zone_after(boot_zone(0, total as int), 0, all)
                &&& zone_after(b.zone_view(1), 1, rest) == zone_after(boot_zone(1, total as int), 1, all)
            }),
        decreases mmap.len() - i,
    {
        let ghost s = mmap@.skip(i as int);
        proof {
            assert(s.drop_first() == mmap@.skip(i as int + 1));
            assert(s[0] == mmap@[i as int]);
        }
        let m = mmap[i];
        if m.reserved {
            proof {
                let rest = reserved_ranges(s) + module_ranges(mods@);
                let nxt = reserved_ranges(mmap@.skip(i as int + 1)) + module_ranges(mods@);
                assert(rest =~= seq![(m.start as int, m.end - m.start)] + nxt);
                assert(rest[0] == (m.start as int, m.end - m.start));
                assert(rest.drop_first() =~= nxt);
                assert forall|z: int| 0 <= z < BUDDY_ZONE_NR implies #[trigger] reserve_fits(
                    z,
                    m.start as int,
                    (m.end - m.start) as int,
                    b.zone_view(z)[BUDDY_MAX_ORDER as int].bits.len() as int,
                    b.zone_view(z)[BUDDY_MAX_ORDER as int].usable,
                ) by {}
            }
            b.buddy_set_unusable(m.start, m.end - m.start);
        } else {
            proof {
                let rest = reserved_ranges(s) + module_ranges(mods@);
                let nxt = reserved_ranges(mmap@.skip(i as int + 1)) + module_ranges(mods@);
                assert(rest =~= nxt);
            }
        }
        i = i + 1;
    }
    proof {
        assert(mmap@.skip(mmap@.len() as int).len() == 0);
        assert(reserved_ranges(mmap@.skip(mmap@.len() as int)) + module_ranges(mods@) =~= module_ranges(mods@));
        assert(mods@.skip(0) == mods@);
    }
    let mut j: usize = 0;
    while j < mods.len()
        invariant
            j <= mods@.len(),
            b.inv(),
            b.k_total_mem == total,
            total == total_kib * 1024,
            all == boot_ranges(kernel_start, kernel_end, mmap@, mods@),
            ({
                let rest = module_ranges(mods@.skip(j as int));
                &&& reservable(b.zone_view(0), b.zone_view(1), b.k_used_mem as int, rest)
                &&& used_after(b.k_used_mem as int, rest) == used_after(0, all)
                &&& zone_after(b.zone_view(0), 0, rest) == zone_after(boot_zone(0, total as int), 0, all)
                &&& zone_after(b.zone_view(1), 1, rest) == zone_after(boot_zone(1, total as int), 1, all)
            }),
        decreases mods.len() - j,
    {
        let ghost s = mods@.skip(j as int);
        let md = mods[j];
        proof {
            assert(s.drop_first() == mods@.skip(j as int + 1));
            assert(s[0] == mods@[j as int]);
            let rest = module_ranges(s);
            assert(rest[0] == (md.addr as int, md.size as int));
            assert(rest.drop_first() =~= module_ranges(mods@.skip(j as int + 1)));
            assert forall|z: int| 0 <= z < BUDDY_ZONE_NR implies #[trigger] reserve_fits(
                z,
                md.addr as int,
                md.size as int,
                b.zone_view(z)[BUDDY_MAX_ORDER as int].bits.len() as int,
                b.zone_view(z)[BUDDY_MAX_ORDER as int].usable,
            ) by {}
        }
        b.buddy_set_unusable(md.addr, md.size);
        j = j + 1;
    }
    proof {
        assert(mods@.skip(mods@.len() as int).len() == 0);
        assert forall|z: int| 0 <= z < BUDDY_ZONE_NR implies #[trigger] b.zone_view(z) == zone_after(
            boot_zone(z, total_kib * 1024),
            z,
            all,
        ) by {}
    }
    b
}

} // verus!
