use aquila::binfmt::{binfmt_fmt_load, binfmt_list, binfmt_load, BINFMT_ELF, USER_STACK_BASE, USER_STACK_SIZE};
use aquila::elf::{
    binfmt_elf32_load, binfmt_elf_check, binfmt_elf_load, Elf32Header, Elf32ProgramHeader,
    ELF32_ST_BIND, ELF32_ST_INFO, ELF32_ST_TYPE,
};
use aquila::execve::thread_execve;
use aquila::vm::{VmEntry, VmObject};

fn put16(b: &mut Vec<u8>, at: usize, v: u16) {
    b[at] = (v & 0xff) as u8;
    b[at + 1] = (v >> 8) as u8;
}

fn put32(b: &mut Vec<u8>, at: usize, v: u32) {
    for i in 0..4 {
        b[at + i] = ((v >> (8 * i)) & 0xff) as u8;
    }
}

/// An elf32 image with the given program headers: (type, offset, vaddr, filesz, memsz, flags).
fn image(phdrs: &[(u32, u32, u32, u32, u32, u32)], entry: u32) -> Vec<u8> {
    let mut b = vec![0u8; 52 + 32 * phdrs.len()];
    b[0] = 0x7f;
    b[1] = b'E';
    b[2] = b'L';
    b[3] = b'F';
    b[4] = 1;
    put16(&mut b, 16, 2);
    put16(&mut b, 18, 3);
    put32(&mut b, 24, entry);
    put32(&mut b, 28, 52);
    put16(&mut b, 42, 32);
    put16(&mut b, 44, phdrs.len() as u16);
    for (i, p) in phdrs.iter().enumerate() {
        let o = 52 + 32 * i;
        put32(&mut b, o, p.0);
        put32(&mut b, o + 4, p.1);
        put32(&mut b, o + 8, p.2);
        put32(&mut b, o + 12, p.2);
        put32(&mut b, o + 16, p.3);
        put32(&mut b, o + 20, p.4);
        put32(&mut b, o + 24, p.5);
        put32(&mut b, o + 28, 0x1000);
    }
    b
}

fn two_segments() -> Vec<u8> {
    image(
        &[
            (1, 0, 0x08048000, 0x1234, 0x1234, 5),
            (4, 0, 0, 0, 0, 0),
            (1, 0x1100, 0x0804A100, 0x200, 0x3000, 6),
        ],
        0x08048080,
    )
}

#[test]
fn st_info_bits() {
    assert_eq!(ELF32_ST_BIND(0x12), 1);
    assert_eq!(ELF32_ST_TYPE(0x12), 2);
    assert_eq!(ELF32_ST_INFO(1, 2), 0x12);
    assert_eq!(ELF32_ST_INFO(0x31, 0x1f), 0x1f);
}

#[test]
fn header_read_decodes_fields() {
    let b = two_segments();
    let h = Elf32Header::read(&b).unwrap();
    assert_eq!(h.e_ident[1], b'E');
    assert_eq!(h.e_type, 2);
    assert_eq!(h.e_machine, 3);
    assert_eq!(h.e_entry, 0x08048080);
    assert_eq!(h.e_phoff, 52);
    assert_eq!(h.e_phentsize, 32);
    assert_eq!(h.e_phnum, 3);
    assert!(Elf32Header::read(&b[..51]).is_none());
    let ph = Elf32ProgramHeader::read(&b, 52).unwrap();
    assert_eq!(ph.p_type, 1);
    assert_eq!(ph.p_vaddr, 0x08048000);
    assert_eq!(ph.p_filesz, 0x1234);
    assert_eq!(ph.p_flags, 5);
    assert!(Elf32ProgramHeader::read(&b, 150).is_none());
}

#[test]
fn elf_check_magic() {
    let b = two_segments();
    assert_eq!(binfmt_elf_check(&b), 0);
    assert_eq!(binfmt_elf_check(&b[..3]), -8);
    assert_eq!(binfmt_elf_check(b"#!/bin/sh\n"), -8);
}

#[test]
fn elf32_load_builds_regions() {
    let b = two_segments();
    let mut obj = VmObject::new(0);
    let img = binfmt_elf32_load(&b, 7, &mut obj).unwrap();
    assert_eq!(obj.refcnt, 2);
    let text = VmEntry { paddr: 0, base: 0x08048000, size: 0x2000, flags: 0x50, vm_anon: None, vm_object: Some(7), off: 0 };
    let data = VmEntry { paddr: 0, base: 0x0804A000, size: 0x1000, flags: 0x230, vm_anon: None, vm_object: Some(7), off: 0x1000 };
    let bss = VmEntry { paddr: 0, base: 0x0804B000, size: 0x3000, flags: 0x230, vm_anon: None, vm_object: None, off: 0 };
    assert_eq!(img.entries, vec![text, data, bss]);
    assert_eq!(img.zero, vec![(0x0804A300, 0x0804B000)]);
    assert_eq!(img.heap_start, 0x0804E000);
    assert_eq!(img.heap, 0x0804E000);
    assert_eq!(img.entry, 0x08048080);
}

#[test]
fn elf32_load_errors() {
    let b = two_segments();
    let mut obj = VmObject::new(0);
    let p = binfmt_elf32_load(&b[..40], 7, &mut obj).err().unwrap();
    assert_eq!(p.ret, -22);
    assert!(p.entries.is_empty());
    assert_eq!(obj.refcnt, 0);
    let p = binfmt_elf32_load(&b[..100], 7, &mut obj).err().unwrap();
    assert_eq!(p.ret, -22);
    assert_eq!(p.entries, vec![VmEntry { paddr: 0, base: 0x08048000, size: 0x2000, flags: 0x50, vm_anon: None, vm_object: Some(7), off: 0 }]);
    assert!(p.zero.is_empty());
    assert_eq!(obj.refcnt, 1);
    let mut c = b.clone();
    c[4] = 2;
    assert_eq!(binfmt_elf_load(&c, 7, &mut obj).err().unwrap().ret, -22);
    assert!(binfmt_elf_load(&b, 7, &mut obj).is_ok());
    assert_eq!(obj.refcnt, 3);
}

#[test]
fn fmt_load_adds_heap_and_stack() {
    let b = two_segments();
    let img = binfmt_elf32_load(&b, 7, &mut VmObject::new(0)).unwrap();
    let x = binfmt_fmt_load(img);
    assert_eq!(x.entries.len(), 5);
    assert_eq!(x.heap_vm, 3);
    assert_eq!(x.stack_vm, 4);
    assert_eq!(x.heap_start, 0x0804E000);
    assert_eq!(x.entries[3], VmEntry { paddr: 0, base: 0x0804E000, size: 0, flags: 0x30, vm_anon: None, vm_object: None, off: 0 });
    assert_eq!(x.entries[4], VmEntry { paddr: 0, base: USER_STACK_BASE, size: USER_STACK_SIZE, flags: 0x30, vm_anon: None, vm_object: None, off: 0 });
    assert_eq!(x.stack_base, USER_STACK_BASE);
    assert_eq!(x.stack_size, USER_STACK_BASE);
}

#[test]
fn binfmt_load_dispatch() {
    let b = two_segments();
    assert_eq!(binfmt_list()[0].id, BINFMT_ELF);
    let mut obj = VmObject::new(0);
    let x = binfmt_load(&b, 7, &mut obj).unwrap().ok().unwrap();
    assert_eq!(x.entry, 0x08048080);
    assert_eq!(binfmt_load(b"\x7fELX rest of it", 7, &mut obj).err(), Some(-8));
    let p = binfmt_load(&b[..100], 7, &mut obj).unwrap().err().unwrap();
    assert_eq!(p.entries.len(), 1);
    assert_eq!(obj.refcnt, 3);
}

#[test]
fn execve_stack_layout() {
    let argv = vec![b"ls".to_vec(), b"-l".to_vec()];
    let envp = vec![b"A=1".to_vec()];
    let l = thread_execve(0xC0000000, &argv, &envp);
    assert_eq!(l.env_addrs, vec![0xBFFFFFFC]);
    assert_eq!(l.arg_addrs, vec![0xBFFFFFF6, 0xBFFFFFF9]);
    assert_eq!(l.env_ptr, 0xBFFFFFEE);
    assert_eq!(l.arg_ptr, 0xBFFFFFE2);
    assert_eq!(l.pointer, 0xBFFFFFD6);
    assert_eq!(l.env_array, vec![0xBFFFFFFC, 0]);
    assert_eq!(l.arg_array, vec![0xBFFFFFF6, 0xBFFFFFF9, 0]);
    assert_eq!(l.frame, vec![2, 0xBFFFFFE2, 0xBFFFFFEE]);
    let empty: Vec<Vec<u8>> = Vec::new();
    let l2 = thread_execve(0x1000, &empty, &empty);
    assert_eq!(l2.env_ptr, 0x1000 - 4);
    assert_eq!(l2.arg_ptr, 0x1000 - 8);
    assert_eq!(l2.pointer, 0x1000 - 20);
    assert_eq!(l2.frame, vec![0, 0x1000 - 8, 0x1000 - 4]);
}
