# aquila

The core of the Aquila i386 kernel as a verified library: the memory
allocators, the virtual memory layer and page fault handling, the executable
loader, and the process, signal and file descriptor logic. Every function in
`src/` is checked by Verus against its `requires`/`ensures` contract.

What the kernel does to hardware (page tables, context switches, I/O) is
left to the caller: the library returns it as plain values (pages to map,
protection requests, the next step of a system call) and takes the results
of such work as arguments.

## Layout

- `src/bitmap.rs` — bitmaps of 32-bit words.
- `src/buddy.rs` — the buddy page allocator, with its zones and the kernel
  image reservation.
- `src/kvmem.rs` — the first-fit kernel object allocator and its
  per-kind statistics.
- `src/mm.rs`, `src/pages.rs` — page arithmetic, memory setup from the
  boot information, page structures, page allocation, and the mappings of
  mapping and unmapping ranges.
- `src/vm.rs`, `src/vm_space.rs` — regions, anons, arefs and objects with
  their reference counts; address spaces (lookup, insertion, fork).
- `src/fault.rs` — the page fault handlers, and the release of the regions
  of an address space.
- `src/elf.rs`, `src/binfmt.rs`, `src/execve.rs` — the elf32 loader, the
  binary format dispatch and the user stack image of a new program.
- `src/process.rs`, `src/proc.rs`, `src/thread.rs`, `src/signal.rs` —
  processes, process ids, sessions and process groups, threads, signals,
  fork, kill and wait.
- `src/sched.rs` — the ready queue, the sleep queues and the choice of the
  next thread to run.
- `src/file.rs`, `src/syscall.rs`, `src/socket.rs` — file descriptors and
  the logic of the system calls.
- `tests/` — tests on concrete values.
- `app/` — the glue that stays outside the library.
