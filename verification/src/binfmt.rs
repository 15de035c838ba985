use vstd::prelude::*;

use crate::elf::{
    binfmt_elf_check, binfmt_elf_load, elf_load_acc, elf_load_part, elf_load_post, elf_loaded,
    has_elf_magic, le32, lemma_walk_len, object_refs, ElfAcc, ElfImage, ElfPart,
};
use crate::errno::{EINVAL, ENOEXEC};
use crate::vm::{VmEntry, VmObject, VM_URW};

verus! {

/// Top of the user stack.
pub const USER_STACK: usize = 0xC0000000;

/// Size of the user stack.
pub const USER_STACK_SIZE: usize = 0x800000;

/// Lowest address of the user stack.
pub const USER_STACK_BASE: usize = 0xBF800000;

/// Number of known binary formats.
pub const NR_BINFMT: usize = 1;

/// Id of the elf format.
pub const BINFMT_ELF: usize = 0;

/// A binary format the loader knows, by its id.
#[derive(Clone, Copy, Debug, PartialEq, Eq, Structural)]
pub struct BinaryFormat {
    pub id: usize,
}

impl BinaryFormat {
    /// 0 when `file` is of this format, a negative error otherwise.
    pub fn check(&self, file: &[u8]) -> (r: isize)
        requires
            self.id < NR_BINFMT,
        ensures
            r == (if has_elf_magic(file@) { 0 } else { -ENOEXEC }),
    {
        binfmt_elf_check(file)
    }

    /// Loads `file`, mapping it from the file object `object`, `obj`, which
    /// gains a reference for each loadable segment loaded.
    pub fn load(&self, file: &[u8], object: usize, obj: &mut VmObject) -> (r: Result<ElfImage, ElfPart>)
        requires
            self.id < NR_BINFMT,
            old(obj).refcnt + 0x20000 <= usize::MAX,
        ensures
            elf_load_post(file@, object, r),
            final(obj).refcnt == old(obj).refcnt + object_refs(elf_loaded(file@, object), object),
            final(obj).pages@ == old(obj).pages@,
            final(obj).objtype == old(obj).objtype,
            final(obj).pager == old(obj).pager,
    {
        binfmt_elf_load(file, object, obj)
    }
}

/// The list of known binary formats.
pub fn binfmt_list() -> (r: Vec<BinaryFormat>)
    ensures
        r@ == seq![BinaryFormat { id: BINFMT_ELF }],
{
    vec![BinaryFormat { id: BINFMT_ELF }]
}

/// What a process runs a freshly loaded program with.
pub struct ExecImage {
    /// The regions of the address space, in order.
    pub entries: Vec<VmEntry>,
    /// The ranges `[start, end)` to fill with zeroes.
    pub zero: Vec<(usize, usize)>,
    /// The initial heap pointer.
    pub heap_start: usize,
    /// The current heap pointer.
    pub heap: usize,
    /// The entry point.
    pub entry: usize,
    /// Index in `entries` of the heap region.
    pub heap_vm: usize,
    /// Index in `entries` of the stack region.
    pub stack_vm: usize,
    /// Stack base of the main thread.
    pub stack_base: usize,
    /// Stack size of the main thread.
    pub stack_size: usize,
}

/// `h` rounded up to a page boundary in machine arithmetic.
pub open spec fn heap_align(h: usize) -> usize {
    h.wrapping_add(4095) & !4095usize
}

/// The heap region of a program whose heap starts at `start`: empty, user
/// read and write.
pub open spec fn heap_entry(start: usize) -> VmEntry {
    VmEntry { paddr: 0, base: start, size: 0, flags: VM_URW, vm_anon: None, vm_object: None, off: 0 }
}

/// The stack region of a program: user read and write.
pub open spec fn stack_entry() -> VmEntry {
    VmEntry {
        paddr: 0,
        base: USER_STACK_BASE,
        size: USER_STACK_SIZE,
        flags: VM_URW,
        vm_anon: None,
        vm_object: None,
        off: 0,
    }
}

/// `x` is `img` with its heap page aligned and the heap and stack regions
/// appended. The main thread's stack size is set to the stack base.
pub open spec fn fmt_image_of(x: ExecImage, img: ElfImage) -> bool {
    &&& x.heap_start == heap_align(img.heap_start)
    &&& x.heap == x.heap_start
    &&& x.entries@ == img.entries@ + seq![heap_entry(x.heap_start), stack_entry()]
    &&& x.zero@ == img.zero@
    &&& x.entry == img.entry
    &&& x.heap_vm == img.entries.len()
    &&& x.stack_vm == img.entries.len() + 1
    &&& x.stack_base == USER_STACK_BASE
    &&& x.stack_size == USER_STACK_BASE
}

/// `x` is what loading the program header table `acc` of `file` gives.
pub open spec fn exec_image_of(x: ExecImage, acc: ElfAcc, file: Seq<u8>) -> bool {
    &&& x.heap_start == heap_align(acc.heap as usize)
    &&& x.heap == x.heap_start
    &&& x.entries@ == acc.entries + seq![heap_entry(x.heap_start), stack_entry()]
    &&& x.zero@ == acc.zero
    &&& x.entry == le32(file, 24) as usize
    &&& x.heap_vm == acc.entries.len()
    &&& x.stack_vm == acc.entries.len() + 1
    &&& x.stack_base == USER_STACK_BASE
    &&& x.stack_size == USER_STACK_BASE
}

/// Completes a loaded image: aligns the heap and adds the heap and stack
/// regions.
pub fn binfmt_fmt_load(img: ElfImage) -> (x: ExecImage)
    requires
        img.entries.len() + 2 <= usize::MAX,
    ensures
        fmt_image_of(x, img),
{
    let heap_start = img.heap_start.wrapping_add(4095) & !4095usize;
    let ghost old_entries = img.entries@;
    let mut entries = img.entries;
    let heap_vm = entries.len();
    entries.push(
        VmEntry { paddr: 0, base: heap_start, size: 0, flags: VM_URW, vm_anon: None, vm_object: None, off: 0 },
    );
    entries.push(
        VmEntry {
            paddr: 0,
            base: USER_STACK_BASE,
            size: USER_STACK_SIZE,
            flags: VM_URW,
            vm_anon: None,
            vm_object: None,
            off: 0,
        },
    );
    proof {
        assert(entries@ == old_entries + seq![heap_entry(heap_start), stack_entry()]);
    }
    ExecImage {
        entries,
        zero: img.zero,
        heap_start,
        heap: heap_start,
        entry: img.entry,
        heap_vm,
        stack_vm: heap_vm + 1,
        stack_base: USER_STACK_BASE,
        stack_size: USER_STACK_BASE,
    }
}

/// Loads the program `file` with the first format that recognises it,
/// mapping it from the file object `object`, `obj`, which gains a
/// reference for each loadable segment loaded.
///
/// `-ENOEXEC` when no format does. When the format's loader fails the load
/// still counts as done, with what the loader loaded before failing:
/// `Ok(Err(..))`.
pub fn binfmt_load(file: &[u8], object: usize, obj: &mut VmObject) -> (r: Result<Result<ExecImage, ElfPart>, isize>)
    requires
        old(obj).refcnt + 0x20000 <= usize::MAX,
    ensures
        !has_elf_magic(file@) ==> (r matches Err(e) && e == -ENOEXEC) && final(obj).refcnt == old(obj).refcnt,
        has_elf_magic(file@) ==> (match elf_load_acc(file@, object) {
            Some(acc) => r matches Ok(Ok(x)) && exec_image_of(x, acc, file@),
            None => r matches Ok(Err(p)) && p.ret == -EINVAL && p.entries@ == elf_load_part(file@, object).entries
                && p.zero@ == elf_load_part(file@, object).zero,
        }) && final(obj).refcnt == old(obj).refcnt + object_refs(elf_loaded(file@, object), object),
        final(obj).pages@ == old(obj).pages@,
        final(obj).objtype == old(obj).objtype,
        final(obj).pager == old(obj).pager,
{
    let list = binfmt_list();
    let mut i: usize = 0;
    while i < list.len()
        invariant
            list@ == seq![BinaryFormat { id: BINFMT_ELF }],
            i <= list.len(),
            i > 0 ==> !has_elf_magic(file@),
            obj.refcnt == old(obj).refcnt,
            old(obj).refcnt + 0x20000 <= usize::MAX,
            obj.pages@ == old(obj).pages@,
            obj.objtype == old(obj).objtype,
            obj.pager == old(obj).pager,
        decreases list.len() - i,
    {
        let fmt = list[i];
        if fmt.check(file) == 0 {
            match fmt.load(file, object, obj) {
                Ok(img) => {
                    proof {
                        let acc = elf_load_acc(file@, object).unwrap();
                        lemma_walk_len(file@, object, crate::elf::le16(file@, 44) as nat);
                        assert(acc.entries.len() <= 2 * 65535);
                    }
                    return Ok(Ok(binfmt_fmt_load(img)));
                },
                Err(p) => {
                    return Ok(Err(p));
                },
            }
        }
        i = i + 1;
    }
    Err(-ENOEXEC)
}

} // verus!
