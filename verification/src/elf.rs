use vstd::prelude::*;

use crate::errno::{EINVAL, ENOEXEC};
use crate::vm::{VmEntry, VmObject, VM_COPY, VM_UR, VM_UW, VM_UX};
use crate::vm_space::count_object;

verus! {

pub const ET_NONE: usize = 0x0000;

pub const ET_REL: usize = 0x0001;

pub const ET_EXEC: usize = 0x0002;

pub const ET_DYN: usize = 0x0003;

pub const EM_386: usize = 0x0003;

pub const EV_CURRENT: usize = 0x0001;

pub const EI_MAG0: usize = 0;

pub const EI_MAG1: usize = 1;

pub const EI_MAG2: usize = 2;

pub const EI_MAG3: usize = 3;

pub const EI_CLASS: usize = 4;

pub const EI_DATA: usize = 5;

pub const EI_VERSION: usize = 6;

pub const EI_NIDENT: usize = 16;

pub const ELFMAG0: u8 = 0x7f;

pub const ELFMAG1: u8 = 0x45;

pub const ELFMAG2: u8 = 0x4c;

pub const ELFMAG3: u8 = 0x46;

pub const ELFCLASSNONE: u8 = 0;

pub const ELFCLASS32: u8 = 1;

pub const ELFCLASS64: u8 = 2;

pub const PT_NULL: u32 = 0;

pub const PT_LOAD: u32 = 1;

pub const PT_DYNAMIC: u32 = 2;

pub const PT_INTERP: u32 = 3;

pub const PF_X: u32 = 0x1;

pub const PF_W: u32 = 0x2;

pub const PF_R: u32 = 0x4;

pub const STB_LOCAL: u8 = 0;

pub const STB_GLOBAL: u8 = 1;

pub const STB_WEAK: u8 = 2;

pub const STT_NOTYPE: u8 = 0;

pub const STT_OBJECT: u8 = 1;

pub const STT_FUNC: u8 = 2;

pub const STT_SECTION: u8 = 3;

pub const STT_FILE: u8 = 4;

/// Size in bytes of an elf32 file header.
pub const ELF32_HEADER_SIZE: usize = 52;

/// Size in bytes of an elf32 program header.
pub const ELF32_PHDR_SIZE: usize = 32;

/// The binding of a symbol: the high nibble of `st_info`.
#[allow(non_snake_case)]
pub fn ELF32_ST_BIND(st_info: u8) -> (r: u8)
    ensures
        r == st_info / 16,
{
    assert(st_info >> 4 == st_info / 16) by (bit_vector);
    st_info >> 4
}

/// The type of a symbol: the low nibble of `st_info`.
#[allow(non_snake_case)]
pub fn ELF32_ST_TYPE(st_info: u8) -> (r: u8)
    ensures
        r == st_info % 16,
{
    assert(st_info & 0xf == st_info % 16) by (bit_vector);
    st_info & 0xf
}

/// `st_info` made of a binding and a type; the bits of `bind` above the
/// low nibble are shifted out.
#[allow(non_snake_case)]
pub fn ELF32_ST_INFO(bind: u8, typ: u8) -> (r: u8)
    ensures
        r == (bind % 16) * 16 + typ % 16,
{
    assert((bind << 4u8) == (bind % 16) * 16 && (typ & 0xf) == typ % 16) by (bit_vector);
    (bind << 4u8) + (typ & 0xf)
}

/// The little-endian 16-bit number at `i` in `b`.
pub open spec fn le16(b: Seq<u8>, i: int) -> int {
    b[i] as int + b[i + 1] as int * 256
}

/// The little-endian 32-bit number at `i` in `b`.
pub open spec fn le32(b: Seq<u8>, i: int) -> int {
    le16(b, i) + le16(b, i + 2) * 65536
}

fn read_le16(b: &[u8], i: usize) -> (r: u16)
    requires
        i + 2 <= b.len(),
    ensures
        r == le16(b@, i as int),
{
    b[i] as u16 + b[i + 1] as u16 * 256
}

fn read_le32(b: &[u8], i: usize) -> (r: u32)
    requires
        i + 4 <= b.len(),
    ensures
        r == le32(b@, i as int),
{
    b[i] as u32 + b[i + 1] as u32 * 256 + b[i + 2] as u32 * 65536 + b[i + 3] as u32 * 16777216
}

/// elf32 file header.
pub struct Elf32Header {
    pub e_ident: [u8; 16],
    pub e_type: u16,
    pub e_machine: u16,
    pub e_version: u32,
    pub e_entry: u32,
    pub e_phoff: u32,
    pub e_shoff: u32,
    pub e_flags: u32,
    pub e_ehsize: u16,
    pub e_phentsize: u16,
    pub e_phnum: u16,
    pub e_shentsize: u16,
    pub e_shnum: u16,
    pub e_shstrndx: u16,
}

/// elf32 section header.
#[derive(Clone, Copy, Debug, PartialEq, Eq, Structural)]
pub struct Elf32SectionHeader {
    pub sh_name: u32,
    pub sh_type: u32,
    pub sh_flags: u32,
    pub sh_addr: u32,
    pub sh_offset: u32,
    pub sh_size: u32,
    pub sh_link: u32,
    pub sh_info: u32,
    pub sh_addralign: u32,
    pub sh_entsize: u32,
}

/// elf32 symbol.
#[derive(Clone, Copy, Debug, PartialEq, Eq, Structural)]
pub struct Elf32Symbol {
    pub st_name: u32,
    pub st_value: u32,
    pub st_size: u32,
    pub st_info: u8,
    pub st_other: u8,
    pub st_shndx: u16,
}

/// elf32 program header.
#[derive(Clone, Copy, Debug, PartialEq, Eq, Structural)]
pub struct Elf32ProgramHeader {
    pub p_type: u32,
    pub p_offset: u32,
    pub p_vaddr: u32,
    pub p_paddr: u32,
    pub p_filesz: u32,
    pub p_memsz: u32,
    pub p_flags: u32,
    pub p_align: u32,
}

/// elf32 dynamic entry.
#[derive(Clone, Copy, Debug, PartialEq, Eq, Structural)]
pub struct Elf32Dynamic {
    pub d_tag: i32,
    pub d_val: u32,
}

/// `h` holds the header fields that `b` encodes, little-endian.
pub open spec fn header_of(h: Elf32Header, b: Seq<u8>) -> bool {
    &&& forall|i: int| 0 <= i < 16 ==> #[trigger] h.e_ident[i] == b[i]
    &&& h.e_type == le16(b, 16)
    &&& h.e_machine == le16(b, 18)
    &&& h.e_version == le32(b, 20)
    &&& h.e_entry == le32(b, 24)
    &&& h.e_phoff == le32(b, 28)
    &&& h.e_shoff == le32(b, 32)
    &&& h.e_flags == le32(b, 36)
    &&& h.e_ehsize == le16(b, 40)
    &&& h.e_phentsize == le16(b, 42)
    &&& h.e_phnum == le16(b, 44)
    &&& h.e_shentsize == le16(b, 46)
    &&& h.e_shnum == le16(b, 48)
    &&& h.e_shstrndx == le16(b, 50)
}

impl Elf32Header {
    /// Decodes the header at the start of `b`; `None` when `b` is shorter
    /// than a header.
    pub fn read(b: &[u8]) -> (r: Option<Elf32Header>)
        ensures
            b.len() < ELF32_HEADER_SIZE <==> r is None,
            r matches Some(h) ==> header_of(h, b@),
    {
        if b.len() < ELF32_HEADER_SIZE {
            return None;
        }
        let e_ident: [u8; 16] = [
            b[0], b[1], b[2], b[3], b[4], b[5], b[6], b[7],
            b[8], b[9], b[10], b[11], b[12], b[13], b[14], b[15],
        ];
        let h = Elf32Header {
            e_ident,
            e_type: read_le16(b, 16),
            e_machine: read_le16(b, 18),
            e_version: read_le32(b, 20),
            e_entry: read_le32(b, 24),
            e_phoff: read_le32(b, 28),
            e_shoff: read_le32(b, 32),
            e_flags: read_le32(b, 36),
            e_ehsize: read_le16(b, 40),
            e_phentsize: read_le16(b, 42),
            e_phnum: read_le16(b, 44),
            e_shentsize: read_le16(b, 46),
            e_shnum: read_le16(b, 48),
            e_shstrndx: read_le16(b, 50),
        };
        assert forall|i: int| 0 <= i < 16 implies #[trigger] h.e_ident[i] == b@[i] by {
            assert(h.e_ident@ == seq![
                b@[0], b@[1], b@[2], b@[3], b@[4], b@[5], b@[6], b@[7],
                b@[8], b@[9], b@[10], b@[11], b@[12], b@[13], b@[14], b@[15],
            ]);
        }
        Some(h)
    }
}

/// The program header that `b` encodes at `off`.
pub open spec fn spec_phdr(b: Seq<u8>, off: int) -> Elf32ProgramHeader {
    Elf32ProgramHeader {
        p_type: le32(b, off) as u32,
        p_offset: le32(b, off + 4) as u32,
        p_vaddr: le32(b, off + 8) as u32,
        p_paddr: le32(b, off + 12) as u32,
        p_filesz: le32(b, off + 16) as u32,
        p_memsz: le32(b, off + 20) as u32,
        p_flags: le32(b, off + 24) as u32,
        p_align: le32(b, off + 28) as u32,
    }
}

/// The program header read at file offset `off`, when the whole header
/// lies inside the file.
pub open spec fn phdr_at(b: Seq<u8>, off: u32) -> Option<Elf32ProgramHeader> {
    if off + ELF32_PHDR_SIZE <= b.len() {
        Some(spec_phdr(b, off as int))
    } else {
        None
    }
}

impl Elf32ProgramHeader {
    /// Decodes the program header at offset `off` of `b`.
    pub fn read(b: &[u8], off: u32) -> (r: Option<Elf32ProgramHeader>)
        ensures
            r == phdr_at(b@, off),
    {
        let o = off as usize;
        if o > b.len() || b.len() - o < ELF32_PHDR_SIZE {
            return None;
        }
        let ph = Elf32ProgramHeader {
            p_type: read_le32(b, o),
            p_offset: read_le32(b, o + 4),
            p_vaddr: read_le32(b, o + 8),
            p_paddr: read_le32(b, o + 12),
            p_filesz: read_le32(b, o + 16),
            p_memsz: read_le32(b, o + 20),
            p_flags: read_le32(b, o + 24),
            p_align: read_le32(b, o + 28),
        };
        Some(ph)
    }
}

/// `x` rounded up to a page boundary in 32-bit arithmetic.
pub open spec fn round32(x: u32) -> u32 {
    x.wrapping_add(0xfff) & !0xfffu32
}

/// How far the segment's address lies past a page boundary.
pub open spec fn seg_mis(ph: Elf32ProgramHeader) -> u32 {
    ph.p_vaddr & 0xfff
}

/// The page-aligned start of the segment's region.
pub open spec fn seg_base(ph: Elf32ProgramHeader) -> u32 {
    ph.p_vaddr & !0xfffu32
}

/// The size of the segment's file part, counted from `seg_base`.
pub open spec fn seg_filesz(ph: Elf32ProgramHeader) -> u32 {
    ph.p_filesz.wrapping_add(seg_mis(ph))
}

/// The file offset that `seg_base` maps.
pub open spec fn seg_off(ph: Elf32ProgramHeader) -> u32 {
    ph.p_offset.wrapping_sub(seg_mis(ph))
}

/// The page-rounded size of the segment's region.
pub open spec fn seg_memsz(ph: Elf32ProgramHeader) -> u32 {
    round32(ph.p_memsz.wrapping_add(seg_mis(ph)))
}

/// The end of the segment's region.
pub open spec fn seg_end(ph: Elf32ProgramHeader) -> u32 {
    seg_base(ph).wrapping_add(seg_memsz(ph))
}

/// The access flags of the segment's region: user read, write and execute
/// after the segment's flags, and copy-on-write when it is writable.
pub open spec fn seg_flags(ph: Elf32ProgramHeader) -> usize {
    let f = (if ph.p_flags & PF_R != 0 { VM_UR } else { 0usize }) | (if ph.p_flags & PF_W != 0 {
        VM_UW
    } else {
        0usize
    }) | (if ph.p_flags & PF_X != 0 { VM_UX } else { 0usize });
    if f & VM_UW != 0 { f | VM_COPY } else { f }
}

/// Whether the segment has a bss part.
pub open spec fn seg_has_bss(ph: Elf32ProgramHeader) -> bool {
    ph.p_memsz != ph.p_filesz
}

/// The start of the segment's bss.
pub open spec fn seg_bss(ph: Elf32ProgramHeader) -> u32 {
    seg_base(ph).wrapping_add(seg_filesz(ph))
}

/// The page boundary that ends the part of the bss in the file's last page.
pub open spec fn seg_bss_end(ph: Elf32ProgramHeader) -> u32 {
    round32(seg_bss(ph))
}

/// Whether the region is split at `seg_bss_end`.
pub open spec fn seg_split(ph: Elf32ProgramHeader) -> bool {
    seg_has_bss(ph) && seg_end(ph) > seg_bss_end(ph)
}

/// The region that maps the segment from the file object `object`.
pub open spec fn seg_entry(ph: Elf32ProgramHeader, object: usize) -> VmEntry {
    VmEntry {
        paddr: 0,
        base: seg_base(ph) as usize,
        size: if seg_split(ph) {
            seg_bss_end(ph).wrapping_sub(seg_base(ph)) as usize
        } else {
            seg_memsz(ph) as usize
        },
        flags: seg_flags(ph),
        vm_anon: None,
        vm_object: Some(object),
        off: seg_off(ph) as usize,
    }
}

/// The anonymous region that holds the rest of a split bss.
pub open spec fn seg_split_entry(ph: Elf32ProgramHeader) -> VmEntry {
    VmEntry {
        paddr: 0,
        base: seg_bss_end(ph) as usize,
        size: seg_memsz(ph).wrapping_sub(seg_bss_end(ph).wrapping_sub(seg_base(ph))) as usize,
        flags: seg_flags(ph),
        vm_anon: None,
        vm_object: None,
        off: 0,
    }
}

/// The regions a loadable segment adds, in order.
pub open spec fn seg_entries(ph: Elf32ProgramHeader, object: usize) -> Seq<VmEntry> {
    if seg_split(ph) {
        seq![seg_entry(ph, object), seg_split_entry(ph)]
    } else {
        seq![seg_entry(ph, object)]
    }
}

/// The ranges `[start, end)` a loadable segment has zeroed.
pub open spec fn seg_zero(ph: Elf32ProgramHeader) -> Seq<(usize, usize)> {
    if seg_has_bss(ph) {
        seq![(seg_bss(ph) as usize, seg_bss_end(ph) as usize)]
    } else {
        seq![]
    }
}

/// What loading has produced so far: the regions, the ranges to zero, and
/// the highest region end seen.
pub ghost struct ElfAcc {
    pub entries: Seq<VmEntry>,
    pub zero: Seq<(usize, usize)>,
    pub heap: u32,
}

/// The effect of one program header on what loading has produced.
pub open spec fn load_step(acc: ElfAcc, ph: Elf32ProgramHeader, object: usize) -> ElfAcc {
    if ph.p_type == PT_LOAD {
        ElfAcc {
            entries: acc.entries + seg_entries(ph, object),
            zero: acc.zero + seg_zero(ph),
            heap: if seg_end(ph) > acc.heap { seg_end(ph) } else { acc.heap },
        }
    } else {
        acc
    }
}

/// The file offset of program header `i`: the table offset plus `i` entry
/// sizes, in 32-bit arithmetic.
pub open spec fn ph_offset(b: Seq<u8>, i: nat) -> u32
    decreases i,
{
    if i == 0 {
        le32(b, 28) as u32
    } else {
        ph_offset(b, (i - 1) as nat).wrapping_add(le16(b, 42) as u32)
    }
}

/// The result of reading the first `n` program headers of `b`; `None` when
/// one of them lies past the end of the file.
pub open spec fn elf32_walk(b: Seq<u8>, object: usize, n: nat) -> Option<ElfAcc>
    decreases n,
{
    if n == 0 {
        Some(ElfAcc { entries: seq![], zero: seq![], heap: 0 })
    } else {
        match elf32_walk(b, object, (n - 1) as nat) {
            None => None,
            Some(acc) => match phdr_at(b, ph_offset(b, (n - 1) as nat)) {
                None => None,
                Some(ph) => Some(load_step(acc, ph, object)),
            },
        }
    }
}

/// Loading the whole program header table of `b`.
pub open spec fn elf32_load_spec(b: Seq<u8>, object: usize) -> Option<ElfAcc> {
    if b.len() < ELF32_HEADER_SIZE {
        None
    } else {
        elf32_walk(b, object, le16(b, 44) as nat)
    }
}

/// What reading the first `n` program headers of `b` has produced when the
/// reading stops at the first header past the end of the file: all of it
/// when none is.
pub open spec fn elf32_prefix(b: Seq<u8>, object: usize, n: nat) -> ElfAcc
    decreases n,
{
    if n == 0 {
        ElfAcc { entries: seq![], zero: seq![], heap: 0 }
    } else {
        let a = elf32_prefix(b, object, (n - 1) as nat);
        if elf32_walk(b, object, (n - 1) as nat) is None {
            a
        } else {
            match phdr_at(b, ph_offset(b, (n - 1) as nat)) {
                None => a,
                Some(ph) => load_step(a, ph, object),
            }
        }
    }
}

/// What a load of `b` that fails leaves: nothing when the header is cut
/// short, else the segments before the first program header cut short.
pub open spec fn elf32_part(b: Seq<u8>, object: usize) -> ElfAcc {
    if b.len() < ELF32_HEADER_SIZE {
        ElfAcc { entries: seq![], zero: seq![], heap: 0 }
    } else {
        elf32_prefix(b, object, le16(b, 44) as nat)
    }
}

/// Where the reading does not stop, the prefix is the whole result.
proof fn lemma_prefix_walk(b: Seq<u8>, object: usize, n: nat)
    ensures
        elf32_walk(b, object, n) matches Some(acc) ==> elf32_prefix(b, object, n) == acc,
    decreases n,
{
    if n > 0 {
        lemma_prefix_walk(b, object, (n - 1) as nat);
    }
}

/// Once the reading stops, the prefix stays as it was.
proof fn lemma_prefix_stops(b: Seq<u8>, object: usize, i: nat, n: nat)
    requires
        i < n,
        elf32_walk(b, object, i) is Some,
        elf32_walk(b, object, i + 1) is None,
    ensures
        elf32_prefix(b, object, n) == elf32_prefix(b, object, i),
    decreases n - i,
{
    if n > i + 1 {
        lemma_prefix_stops(b, object, i, (n - 1) as nat);
        lemma_walk_none(b, object, i + 1, (n - 1) as nat);
    }
}

proof fn lemma_walk_none(b: Seq<u8>, object: usize, i: nat, n: nat)
    requires
        i <= n,
        elf32_walk(b, object, i) is None,
    ensures
        elf32_walk(b, object, n) is None,
    decreases n - i,
{
    if i < n {
        lemma_walk_none(b, object, i, (n - 1) as nat);
    }
}

proof fn lemma_mask_aligned(y: u32)
    ensures
        (y & !0xfffu32) % 4096 == 0,
{
    assert((y & !0xfffu32) % 4096 == 0) by (bit_vector);
}

proof fn lemma_sub_aligned(x: u32, y: u32)
    requires
        x % 4096 == 0,
        y % 4096 == 0,
    ensures
        x.wrapping_sub(y) % 4096 == 0,
{
    let a = x / 4096;
    let b = y / 4096;
    assert(x == 4096 * a);
    assert(y == 4096 * b);
    if x - y < 0 {
        assert(x - y + 0x1_0000_0000 == 4096 * (a - b + 1048576));
    } else {
        assert(x - y == 4096 * (a - b));
    }
}

/// Every region a loadable segment adds starts on a page boundary and
/// spans whole pages.
proof fn lemma_seg_entries_aligned(ph: Elf32ProgramHeader, object: usize)
    ensures
        forall|i: int|
            0 <= i < seg_entries(ph, object).len() ==> #[trigger] seg_entries(ph, object)[i].base % 4096
                == 0 && seg_entries(ph, object)[i].size % 4096 == 0,
{
    lemma_mask_aligned(ph.p_vaddr);
    lemma_mask_aligned(ph.p_memsz.wrapping_add(seg_mis(ph)).wrapping_add(0xfff));
    lemma_mask_aligned(seg_bss(ph).wrapping_add(0xfff));
    lemma_sub_aligned(seg_bss_end(ph), seg_base(ph));
    lemma_sub_aligned(seg_memsz(ph), seg_bss_end(ph).wrapping_sub(seg_base(ph)));
}

/// The loader maps every region on a page boundary and with a size of
/// whole pages.
pub proof fn lemma_elf_regions_aligned(b: Seq<u8>, object: usize, n: nat)
    ensures
        elf32_walk(b, object, n) matches Some(acc) ==> forall|i: int|
            0 <= i < acc.entries.len() ==> #[trigger] acc.entries[i].base % 4096 == 0
                && acc.entries[i].size % 4096 == 0,
    decreases n,
{
    if n > 0 {
        lemma_elf_regions_aligned(b, object, (n - 1) as nat);
        match elf32_walk(b, object, (n - 1) as nat) {
            None => {},
            Some(acc) => {
                match phdr_at(b, ph_offset(b, (n - 1) as nat)) {
                    None => {},
                    Some(ph) => {
                        lemma_seg_entries_aligned(ph, object);
                        let nacc = load_step(acc, ph, object);
                        if ph.p_type == PT_LOAD {
                            assert forall|i: int| 0 <= i < nacc.entries.len() implies #[trigger] nacc.entries[i].base
                                % 4096 == 0 && nacc.entries[i].size % 4096 == 0 by {
                                if i >= acc.entries.len() {
                                    assert(nacc.entries[i] == seg_entries(ph, object)[i - acc.entries.len()]);
                                } else {
                                    assert(nacc.entries[i] == acc.entries[i]);
                                }
                            }
                        }
                    },
                }
            },
        }
    }
}

proof fn lemma_page_round_down(y: u32)
    ensures
        (y & !0xfffu32) % 4096 == 0,
        (y & !0xfffu32) <= y,
        y < (y & !0xfffu32) + 4096,
{
    assert((y & !0xfffu32) % 4096 == 0 && (y & !0xfffu32) <= y && y - (y & !0xfffu32) < 4096)
        by (bit_vector);
}

/// One program header's effect on the ranges to zero: a loadable segment
/// with a bss (`p_memsz` other than `p_filesz`) adds one range, from the end
/// of its file data at `p_vaddr + p_filesz` to the first page boundary at
/// or after it, whether or not its bss runs on into further pages; any
/// other header adds none. Segments whose file data ends within a page of
/// the top of the 32-bit address space are left out.
pub proof fn lemma_load_step_zero(acc: ElfAcc, ph: Elf32ProgramHeader, object: usize)
    requires
        ph.p_vaddr + ph.p_filesz + 0xfff <= u32::MAX,
    ensures
        ({
            let z = load_step(acc, ph, object).zero;
            &&& !(ph.p_type == PT_LOAD && ph.p_memsz != ph.p_filesz) ==> z == acc.zero
            &&& ph.p_type == PT_LOAD && ph.p_memsz != ph.p_filesz ==> {
                &&& z.len() == acc.zero.len() + 1
                &&& z.take(acc.zero.len() as int) == acc.zero
                &&& z.last().0 == ph.p_vaddr + ph.p_filesz
                &&& z.last().1 % 4096 == 0
                &&& z.last().0 <= z.last().1 < z.last().0 + 4096
            }
        }),
{
    let v = ph.p_vaddr;
    let f = ph.p_filesz;
    assert((v & !0xfffu32) + (v & 0xfffu32) == v && (v & 0xfffu32) <= v) by (bit_vector);
    assert(seg_filesz(ph) == f + (v & 0xfffu32));
    assert(seg_bss(ph) == v + f);
    lemma_page_round_down((v + f + 0xfff) as u32);
    assert(seg_bss_end(ph) == ((v + f + 0xfff) as u32) & !0xfffu32);
    let z = load_step(acc, ph, object).zero;
    if ph.p_type == PT_LOAD && ph.p_memsz != ph.p_filesz {
        assert(z == acc.zero + seq![(seg_bss(ph) as usize, seg_bss_end(ph) as usize)]);
        assert(z.take(acc.zero.len() as int) =~= acc.zero);
    } else if ph.p_type == PT_LOAD {
        assert(z =~= acc.zero);
    }
}

/// A whole load zeroes the bss of every loadable segment that has one: the
/// range from the end of its file data at `p_vaddr + p_filesz` to the first
/// page boundary at or after it is among the ranges to zero, whether or not
/// the bss runs on into further pages.
pub proof fn lemma_walk_zeroes_bss(b: Seq<u8>, object: usize, n: nat, i: nat)
    requires
        i < n,
        elf32_walk(b, object, n) is Some,
        phdr_at(b, ph_offset(b, i)) matches Some(ph) && ph.p_type == PT_LOAD && ph.p_memsz
            != ph.p_filesz && ph.p_vaddr + ph.p_filesz + 0xfff <= u32::MAX,
    ensures
        ({
            let ph = phdr_at(b, ph_offset(b, i)).unwrap();
            let z = elf32_walk(b, object, n).unwrap().zero;
            let s = ph.p_vaddr + ph.p_filesz;
            exists|k: int|
                0 <= k < z.len() && (#[trigger] z[k]).0 == s && z[k].1 % 4096 == 0 && s <= z[k].1
                    < s + 4096
        }),
    decreases n,
{
    let ph = phdr_at(b, ph_offset(b, i)).unwrap();
    let s = ph.p_vaddr + ph.p_filesz;
    let prev = elf32_walk(b, object, (n - 1) as nat);
    assert(prev is Some);
    let acc = prev.unwrap();
    let ph2 = phdr_at(b, ph_offset(b, (n - 1) as nat)).unwrap();
    let z = elf32_walk(b, object, n).unwrap().zero;
    assert(z == load_step(acc, ph2, object).zero);
    if i == n - 1 {
        lemma_load_step_zero(acc, ph2, object);
        let k = z.len() - 1;
        assert(z[k] == z.last());
    } else {
        lemma_walk_zeroes_bss(b, object, (n - 1) as nat, i);
        let k = choose|k: int|
            0 <= k < acc.zero.len() && (#[trigger] acc.zero[k]).0 == s && acc.zero[k].1 % 4096 == 0
                && s <= acc.zero[k].1 < s + 4096;
        if ph2.p_type == PT_LOAD {
            assert(z == acc.zero + seg_zero(ph2));
            assert(z[k] == acc.zero[k]);
        }
    }
}

proof fn lemma_page_mask(y: u32)
    ensures
        (y & !0xfffu32) as int == (y as int / 4096) * 4096,
        (y & 0xfffu32) as int == y as int % 4096,
{
    assert((y & !0xfffu32) == (y / 4096) * 4096) by (bit_vector);
    assert((y & 0xfffu32) == y % 4096) by (bit_vector);
}

proof fn lemma_round_split(q: int, m: int, x: int)
    requires
        q >= 0,
        0 <= m < 4096,
        x >= 0,
    ensures
        ((4096 * q + m + x + 0xfff) / 4096) * 4096 == 4096 * q + ((m + x + 0xfff) / 4096) * 4096,
        ((m + x + 0xfff) / 4096) * 4096 >= m + x,
{
    assert((4096 * q + (m + x + 0xfff)) / 4096 == q + (m + x + 0xfff) / 4096) by (nonlinear_arith)
        requires
            q >= 0,
            m + x + 0xfff >= 0,
    ;
    assert(((m + x + 0xfff) / 4096) * 4096 >= m + x) by (nonlinear_arith)
        requires
            m + x >= 0,
    ;
}

/// The regions a loadable segment maps, in plain arithmetic: with `lo` the
/// page holding `p_vaddr`, `mid` the first page boundary at or after the end
/// of the file data and `hi` the first at or after the end of the segment,
/// the segment's object is mapped from `lo`, at file offset `p_offset` less
/// the segment's place in its page; when the segment has a bss that runs
/// past `mid`, that mapping ends at `mid` and an anonymous region covers
/// `[mid, hi)`, otherwise the one mapping covers `[lo, hi)`. Every region
/// grants user read, write and execute exactly as the segment's flags do,
/// and is copy-on-write exactly when it is writable. Loading the segment
/// raises the heap to `hi` when it lay below. Segments that run within a
/// page of the top of the 32-bit address space are left out.
pub proof fn lemma_seg_regions(acc: ElfAcc, ph: Elf32ProgramHeader, object: usize)
    requires
        ph.p_vaddr + ph.p_memsz + 0xfff <= u32::MAX,
        ph.p_vaddr + ph.p_filesz + 0xfff <= u32::MAX,
    ensures
        ({
            let v = ph.p_vaddr as int;
            let lo = (v / 4096) * 4096;
            let mid = ((v + ph.p_filesz + 0xfff) / 4096) * 4096;
            let hi = ((v + ph.p_memsz + 0xfff) / 4096) * 4096;
            let es = seg_entries(ph, object);
            let split = ph.p_memsz != ph.p_filesz && hi > mid;
            &&& es[0].base == lo
            &&& es[0].vm_object == Some(object)
            &&& es[0].vm_anon is None
            &&& ph.p_offset >= v % 4096 ==> es[0].off == ph.p_offset - v % 4096
            &&& split ==> es.len() == 2 && es[0].size == mid - lo && es[1].base == mid && es[1].size
                == hi - mid && es[1].vm_object is None && es[1].vm_anon is None && es[1].off == 0
            &&& !split ==> es.len() == 1 && es[0].size == hi - lo
            &&& forall|i: int|
                0 <= i < es.len() ==> {
                    let f = (#[trigger] es[i]).flags;
                    &&& (f & VM_UR != 0) <==> (ph.p_flags & PF_R != 0)
                    &&& (f & VM_UW != 0) <==> (ph.p_flags & PF_W != 0)
                    &&& (f & VM_UX != 0) <==> (ph.p_flags & PF_X != 0)
                    &&& (f & VM_COPY != 0) <==> (ph.p_flags & PF_W != 0)
                }
            &&& ph.p_type == PT_LOAD ==> load_step(acc, ph, object).heap == (if hi > acc.heap {
                hi
            } else {
                acc.heap as int
            })
            &&& ph.p_type != PT_LOAD ==> load_step(acc, ph, object) == acc
        }),
{
    let v = ph.p_vaddr;
    let q = v as int / 4096;
    let m = v as int % 4096;
    lemma_page_mask(v);
    assert(v as int == 4096 * q + m);
    lemma_round_split(q, m, ph.p_memsz as int);
    lemma_round_split(q, m, ph.p_filesz as int);
    let ym = (ph.p_memsz + (v & 0xfffu32) + 0xfff) as u32;
    let yf = (v + ph.p_filesz + 0xfff) as u32;
    lemma_page_mask(ym);
    lemma_page_mask(yf);
    assert(seg_memsz(ph) == ym & !0xfffu32);
    assert(seg_bss(ph) == v + ph.p_filesz);
    assert(seg_bss_end(ph) == yf & !0xfffu32);
    assert(seg_end(ph) == seg_base(ph) + seg_memsz(ph));
    let f = seg_flags(ph);
    let r = ph.p_flags & PF_R != 0;
    let w = ph.p_flags & PF_W != 0;
    let x = ph.p_flags & PF_X != 0;
    assert({
        let g = (if r { 0x10usize } else { 0usize }) | (if w { 0x20usize } else { 0usize }) | (if x {
            0x40usize
        } else {
            0usize
        });
        let h = if g & 0x20 != 0 { g | 0x200 } else { g };
        &&& (h & 0x10 != 0) == r
        &&& (h & 0x20 != 0) == w
        &&& (h & 0x40 != 0) == x
        &&& (h & 0x200 != 0) == w
    }) by (bit_vector);
}

/// The first page boundary at or after `x`.
pub open spec fn page_round_up(x: int) -> int {
    ((x + 0xfff) / 4096) * 4096
}

/// The page boundary that ends program header `i` of `b`, when it is a
/// loadable segment.
pub open spec fn load_end(b: Seq<u8>, i: nat) -> Option<int> {
    match phdr_at(b, ph_offset(b, i)) {
        Some(ph) => if ph.p_type == PT_LOAD {
            Some(page_round_up(ph.p_vaddr + ph.p_memsz))
        } else {
            None
        },
        None => None,
    }
}

/// A whole load sets the heap at the highest page boundary that ends a
/// loadable segment: at or above the end of every one, rounded up to its
/// page, and equal to one of them, or 0 when no segment loads. Files with a
/// segment that runs within a page of the top of the 32-bit address space
/// are left out.
pub proof fn lemma_walk_heap(b: Seq<u8>, object: usize, n: nat)
    requires
        elf32_walk(b, object, n) is Some,
        forall|i: nat|
            i < n ==> (#[trigger] phdr_at(b, ph_offset(b, i)) matches Some(ph) ==> ph.p_vaddr
                + ph.p_memsz + 0xfff <= u32::MAX && ph.p_vaddr + ph.p_filesz + 0xfff <= u32::MAX),
    ensures
        ({
            let h = elf32_walk(b, object, n).unwrap().heap as int;
            &&& forall|i: nat| i < n ==> (#[trigger] load_end(b, i) matches Some(e) ==> h >= e)
            &&& h == 0 || exists|i: nat| i < n && #[trigger] load_end(b, i) == Some(h)
        }),
    decreases n,
{
    if n > 0 {
        let prev = elf32_walk(b, object, (n - 1) as nat);
        assert(prev is Some);
        lemma_walk_heap(b, object, (n - 1) as nat);
        let acc = prev.unwrap();
        let last = (n - 1) as nat;
        let ph = phdr_at(b, ph_offset(b, last)).unwrap();
        assert(phdr_at(b, ph_offset(b, last)) is Some);
        lemma_seg_regions(acc, ph, object);
        let h = elf32_walk(b, object, n).unwrap().heap as int;
        assert(elf32_walk(b, object, n).unwrap() == load_step(acc, ph, object));
        assert forall|i: nat| i < n implies (#[trigger] load_end(b, i) matches Some(e) ==> h >= e) by {
            if i < last {
                assert(load_end(b, i) matches Some(e) ==> acc.heap >= e);
            }
        }
        if h != 0 {
            if load_end(b, last) == Some(h) {
            } else {
                assert(h == acc.heap);
                let i = choose|i: nat| i < last && #[trigger] load_end(b, i) == Some(acc.heap as int);
                assert(i < n && load_end(b, i) == Some(h));
            }
        }
    }
}

/// A loaded image starts its program at the entry address the file's
/// header holds, and its heap, both the initial and the current pointer,
/// at the heap the load computed.
pub proof fn lemma_image_entry(img: ElfImage, acc: ElfAcc, b: Seq<u8>, h: Elf32Header)
    requires
        image_of(img, acc, b),
        header_of(h, b),
    ensures
        img.entry == h.e_entry as usize,
        img.heap_start == img.heap,
        img.heap == acc.heap as usize,
{
}

/// What loading an elf32 executable produces for its process.
pub struct ElfImage {
    /// The regions of the address space, in order.
    pub entries: Vec<VmEntry>,
    /// The ranges `[start, end)` to fill with zeroes.
    pub zero: Vec<(usize, usize)>,
    /// The initial heap pointer.
    pub heap_start: usize,
    /// The current heap pointer.
    pub heap: usize,
    /// The entry point.
    pub entry: usize,
}

/// What a failed load leaves: the error, and the regions and ranges to
/// zero of the segments loaded before it.
#[derive(Debug)]
pub struct ElfPart {
    pub ret: isize,
    pub entries: Vec<VmEntry>,
    pub zero: Vec<(usize, usize)>,
}

/// How many loadable segments `acc` holds a region of object `object` for.
pub open spec fn object_refs(acc: ElfAcc, object: usize) -> nat {
    count_object(acc.entries, object as int)
}

/// `img` is what loading `acc` from the file `b` produces.
pub open spec fn image_of(img: ElfImage, acc: ElfAcc, b: Seq<u8>) -> bool {
    &&& img.entries@ == acc.entries
    &&& img.zero@ == acc.zero
    &&& img.heap_start == acc.heap as usize
    &&& img.heap == acc.heap as usize
    &&& img.entry == le32(b, 24) as usize
}

fn seg_flags_exec(p_flags: u32) -> (r: usize)
    ensures
        r == seg_flags(Elf32ProgramHeader {
            p_type: 0,
            p_offset: 0,
            p_vaddr: 0,
            p_paddr: 0,
            p_filesz: 0,
            p_memsz: 0,
            p_flags,
            p_align: 0,
        }),
{
    let mut f: usize = 0;
    f = f | if p_flags & PF_R != 0 { VM_UR } else { 0 };
    f = f | if p_flags & PF_W != 0 { VM_UW } else { 0 };
    f = f | if p_flags & PF_X != 0 { VM_UX } else { 0 };
    assert(0usize | (if p_flags & PF_R != 0 { VM_UR } else { 0usize }) == (if p_flags & PF_R != 0 {
        VM_UR
    } else {
        0usize
    })) by (bit_vector);
    if f & VM_UW != 0 {
        f = f | VM_COPY;
    }
    f
}

/// Loads the program header table of an elf32 executable `file`, mapping
/// its loadable segments from the file object `object`, `obj`, which gains
/// a reference for each.
///
/// Fails with `-EINVAL` when the header or a program header lies past the
/// end of the file, handing back what the segments before that header
/// loaded. Each loadable segment gets a region from its page-aligned
/// address, with its size rounded up to pages; the part of its bss past the
/// page that ends the file data gets an anonymous region of its own, and
/// the bss is zeroed. The heap starts at the highest region end.
pub fn binfmt_elf32_load(file: &[u8], object: usize, obj: &mut VmObject) -> (r: Result<ElfImage, ElfPart>)
    requires
        old(obj).refcnt + 0x20000 <= usize::MAX,
    ensures
        match elf32_load_spec(file@, object) {
            Some(acc) => r matches Ok(img) && image_of(img, acc, file@),
            None => r matches Err(p) && p.ret == -EINVAL && p.entries@ == elf32_part(file@, object).entries
                && p.zero@ == elf32_part(file@, object).zero,
        },
        final(obj).refcnt == old(obj).refcnt + object_refs(
            match elf32_load_spec(file@, object) {
                Some(acc) => acc,
                None => elf32_part(file@, object),
            },
            object,
        ),
        final(obj).pages@ == old(obj).pages@,
        final(obj).objtype == old(obj).objtype,
        final(obj).pager == old(obj).pager,
{
    if file.len() < ELF32_HEADER_SIZE {
        return Err(ElfPart { ret: -EINVAL, entries: Vec::new(), zero: Vec::new() });
    }
    let entry = read_le32(file, 24);
    let phoff = read_le32(file, 28);
    let phentsize = read_le16(file, 42);
    let phnum = read_le16(file, 44);
    let mut entries: Vec<VmEntry> = Vec::new();
    let mut zero: Vec<(usize, usize)> = Vec::new();
    let mut heap: u32 = 0;
    let mut offset: u32 = phoff;
    let mut i: u16 = 0;
    while i < phnum
        invariant
            file.len() >= ELF32_HEADER_SIZE,
            i <= phnum,
            phnum == le16(file@, 44),
            phentsize == le16(file@, 42),
            offset == ph_offset(file@, i as nat),
            elf32_walk(file@, object, i as nat) == Some(
                ElfAcc { entries: entries@, zero: zero@, heap },
            ),
            obj.refcnt == old(obj).refcnt + count_object(entries@, object as int),
            count_object(entries@, object as int) <= i,
            old(obj).refcnt + 0x20000 <= usize::MAX,
            obj.pages@ == old(obj).pages@,
            obj.objtype == old(obj).objtype,
            obj.pager == old(obj).pager,
        decreases phnum - i,
    {
        let ghost acc = ElfAcc { entries: entries@, zero: zero@, heap };
        match Elf32ProgramHeader::read(file, offset) {
            None => {
                proof {
                    assert(elf32_walk(file@, object, (i + 1) as nat) is None);
                    lemma_walk_none(file@, object, (i + 1) as nat, phnum as nat);
                    lemma_prefix_walk(file@, object, i as nat);
                    lemma_prefix_stops(file@, object, i as nat, phnum as nat);
                }
                return Err(ElfPart { ret: -EINVAL, entries, zero });
            },
            Some(ph) => {
                if ph.p_type == PT_LOAD {
                    let mis = ph.p_vaddr & 0xfff;
                    let base = ph.p_vaddr & !0xfffu32;
                    let filesz = ph.p_filesz.wrapping_add(mis);
                    let off = ph.p_offset.wrapping_sub(mis);
                    let memsz = ph.p_memsz.wrapping_add(mis).wrapping_add(0xfff) & !0xfffu32;
                    let flags = seg_flags_exec(ph.p_flags);
                    let end = base.wrapping_add(memsz);
                    let mut e = VmEntry {
                        paddr: 0,
                        base: base as usize,
                        size: memsz as usize,
                        flags,
                        vm_anon: None,
                        vm_object: Some(object),
                        off: off as usize,
                    };
                    if end > heap {
                        heap = end;
                    }
                    proof {
                        lemma_count_object_push(entries@, e, object as int);
                    }
                    obj.incref();
                    if ph.p_memsz != ph.p_filesz {
                        let bss = base.wrapping_add(filesz);
                        let bss_init_end = bss.wrapping_add(0xfff) & !0xfffu32;
                        if end > bss_init_end {
                            let sz = bss_init_end.wrapping_sub(base);
                            let split = VmEntry {
                                paddr: 0,
                                base: bss_init_end as usize,
                                size: memsz.wrapping_sub(sz) as usize,
                                flags,
                                vm_anon: None,
                                vm_object: None,
                                off: 0,
                            };
                            e.size = sz as usize;
                            proof {
                                lemma_count_object_push(entries@, e, object as int);
                                lemma_count_object_push(entries@.push(e), split, object as int);
                            }
                            entries.push(e);
                            entries.push(split);
                        } else {
                            entries.push(e);
                        }
                        zero.push((bss as usize, bss_init_end as usize));
                    } else {
                        entries.push(e);
                    }
                    proof {
                        assert(flags == seg_flags(ph));
                        assert(entries@ == acc.entries + seg_entries(ph, object));
                        assert(zero@ == acc.zero + seg_zero(ph));
                    }
                }
                proof {
                    assert(elf32_walk(file@, object, (i + 1) as nat) == Some(
                        ElfAcc { entries: entries@, zero: zero@, heap },
                    ));
                }
            },
        }
        offset = offset.wrapping_add(phentsize as u32);
        i = i + 1;
    }
    proof {
        lemma_prefix_walk(file@, object, phnum as nat);
    }
    Ok(ElfImage { entries, zero, heap_start: heap as usize, heap: heap as usize, entry: entry as usize })
}

/// A region added at the end counts once more for its object.
proof fn lemma_count_object_push(es: Seq<VmEntry>, e: VmEntry, o: int)
    ensures
        count_object(es.push(e), o) == count_object(es, o) + (if e.vm_object matches Some(h) && h == o {
            1nat
        } else {
            0nat
        }),
{
    assert(es.push(e).drop_last() == es);
}

/// Whether the first four bytes of `file` are the elf magic number.
pub open spec fn has_elf_magic(file: Seq<u8>) -> bool {
    &&& file.len() >= 4
    &&& file[0] == ELFMAG0
    &&& file[1] == ELFMAG1
    &&& file[2] == ELFMAG2
    &&& file[3] == ELFMAG3
}

/// 0 when `file` starts with the elf magic number, `-ENOEXEC` otherwise.
pub fn binfmt_elf_check(file: &[u8]) -> (r: isize)
    ensures
        r == (if has_elf_magic(file@) { 0 } else { -ENOEXEC }),
{
    if file.len() >= 4 && file[EI_MAG0] == ELFMAG0 && file[EI_MAG1] == ELFMAG1 && file[EI_MAG2]
        == ELFMAG2 && file[EI_MAG3] == ELFMAG3 {
        0
    } else {
        -ENOEXEC
    }
}

/// What loading the elf executable `file` produces: nothing when the header
/// is cut short or its class is not 32-bit, else what loading its program
/// header table produces.
pub open spec fn elf_load_acc(file: Seq<u8>, object: usize) -> Option<ElfAcc> {
    if file.len() < ELF32_HEADER_SIZE || file[EI_CLASS as int] != ELFCLASS32 {
        None
    } else {
        elf32_load_spec(file, object)
    }
}

/// What a failed load of the elf executable `file` leaves: nothing when
/// the header is cut short or its class is not 32-bit, else what loading
/// its program header table left.
pub open spec fn elf_load_part(file: Seq<u8>, object: usize) -> ElfAcc {
    if file.len() < ELF32_HEADER_SIZE || file[EI_CLASS as int] != ELFCLASS32 {
        ElfAcc { entries: seq![], zero: seq![], heap: 0 }
    } else {
        elf32_part(file, object)
    }
}

/// What loading `file` has mapped from its object, whether it succeeded
/// or not.
pub open spec fn elf_loaded(file: Seq<u8>, object: usize) -> ElfAcc {
    match elf_load_acc(file, object) {
        Some(acc) => acc,
        None => elf_load_part(file, object),
    }
}

/// `r` is the result of loading `file`: the image of `elf_load_acc`, or
/// `-EINVAL` with what was loaded before the failure when there is none.
pub open spec fn elf_load_post(file: Seq<u8>, object: usize, r: Result<ElfImage, ElfPart>) -> bool {
    match elf_load_acc(file, object) {
        Some(acc) => r matches Ok(img) && image_of(img, acc, file),
        None => r matches Err(p) && p.ret == -EINVAL && p.entries@ == elf_load_part(file, object).entries
            && p.zero@ == elf_load_part(file, object).zero,
    }
}

/// The regions produced by the first `n` program headers are at most two
/// per header.
pub proof fn lemma_walk_len(b: Seq<u8>, object: usize, n: nat)
    ensures
        elf32_walk(b, object, n) matches Some(acc) ==> acc.entries.len() <= 2 * n,
    decreases n,
{
    if n > 0 {
        lemma_walk_len(b, object, (n - 1) as nat);
    }
}

/// Loads an elf executable, mapping it from the file object `object`,
/// which gains a reference for each loadable segment loaded.
pub fn binfmt_elf_load(file: &[u8], object: usize, obj: &mut VmObject) -> (r: Result<ElfImage, ElfPart>)
    requires
        old(obj).refcnt + 0x20000 <= usize::MAX,
    ensures
        elf_load_post(file@, object, r),
        final(obj).refcnt == old(obj).refcnt + object_refs(elf_loaded(file@, object), object),
        final(obj).pages@ == old(obj).pages@,
        final(obj).objtype == old(obj).objtype,
        final(obj).pager == old(obj).pager,
{
    if file.len() < ELF32_HEADER_SIZE {
        return Err(ElfPart { ret: -EINVAL, entries: Vec::new(), zero: Vec::new() });
    }
    if file[EI_CLASS] == ELFCLASS32 {
        binfmt_elf32_load(file, object, obj)
    } else {
        Err(ElfPart { ret: -EINVAL, entries: Vec::new(), zero: Vec::new() })
    }
}

} // verus!
