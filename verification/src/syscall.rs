use vstd::prelude::*;

use crate::errno::{EAFNOSUPPORT, EBADFD, ECHILD, EINVAL, EMFILE, ENOENT};
use crate::file::{seek_offset, FileDescriptor, FILE_RESERVED, NO_FILE, O_CREAT};
use crate::process::{first_free_fd, lemma_fd_get_release, lemma_first_free_fd, Process, FDS_COUNT};
use crate::socket::{
    socket_accept, socket_bind, socket_connect, socket_create, socket_listen, socket_recv,
    socket_send, SocketAddress,
};
use crate::thread::ThreadState;
use crate::vm::{VmEntry, VM_SHARED, VM_UR, VM_UW, VM_UX};
use crate::vm_space::{insert_base, insert_p0, insert_pos};

verus! {

/// Pages may be read.
pub const PROT_READ: usize = 0x1;

/// Pages may be written.
pub const PROT_WRITE: usize = 0x2;

/// Pages may be executed.
pub const PROT_EXEC: usize = 0x4;

/// Share the mapping.
pub const MAP_SHARED: usize = 0x01;

/// Keep the mapping private.
pub const MAP_PRIVATE: usize = 0x02;

/// Map at the given address.
pub const MAP_FIXED: usize = 0x10;

/// Duplicate a file descriptor.
pub const F_DUPFD: isize = 0;

/// Get the file descriptor flags.
pub const F_GETFD: isize = 1;

/// Set the file descriptor flags.
pub const F_SETFD: isize = 2;

/// Number of descriptors a descriptor set holds.
pub const FD_SETSIZE: usize = 64;

/// Number of descriptors one word of a descriptor set holds.
pub const NFDBITS: usize = 32;

/// Arguments of `mount`, with the user pointers as addresses.
#[derive(Clone, Copy, Debug, PartialEq, Eq, Structural)]
pub struct MountArgs {
    pub fs_type: usize,
    pub dir: usize,
    pub flags: isize,
    pub data: usize,
}

/// Arguments of `thread_create`.
#[derive(Clone, Copy, Debug, PartialEq, Eq, Structural)]
pub struct ThreadArgs {
    pub stack: usize,
    /// System entry.
    pub entry: usize,
    /// User entry.
    pub uentry: usize,
    pub arg: usize,
    pub attr: usize,
}

/// Arguments of `mmap`.
#[derive(Clone, Copy, Debug, PartialEq, Eq, Structural)]
pub struct MmapArgs {
    pub addr: usize,
    pub len: usize,
    pub prot: usize,
    pub flags: usize,
    pub fildes: isize,
    pub off: isize,
}

/// Arguments of `send` and `recv`, with the buffer as an address.
#[derive(Clone, Copy, Debug, PartialEq, Eq, Structural)]
pub struct SocketIO {
    pub fd: isize,
    pub buf: usize,
    pub len: usize,
    pub flags: isize,
}

/// A set of file descriptors, one bit each.
#[derive(Clone, Copy, Debug)]
pub struct FdSet {
    pub fds_bits: [u32; 2],
}

/// Arguments of `select`, with the sets and the timeout as addresses.
#[derive(Clone, Copy, Debug, PartialEq, Eq, Structural)]
pub struct SelectArgs {
    pub nfds: isize,
    pub readfds: usize,
    pub writefds: usize,
    pub exceptfds: usize,
    pub timeout: usize,
}

/// An entry of the system call table: the address of its handler.
#[derive(Clone, Copy, Debug, PartialEq, Eq, Structural)]
pub struct Syscall(pub usize);

/// What `open` does next, each outside step (lookup, creation, permission
/// check, opening) reporting back to the matching `sys_open_*` function.
#[derive(Clone, Copy, Debug, PartialEq, Eq, Structural)]
pub enum OpenStep {
    /// Look the path up, for descriptor `fd`.
    Lookup { fd: isize },
    /// Create the missing file, for descriptor `fd`.
    Create { fd: isize },
    /// Check the caller's permissions on the file at descriptor `fd`.
    CheckPerms { fd: isize },
    /// Open the file at descriptor `fd`.
    OpenFile { fd: isize },
    /// Return `ret`; with `close`, the vnode found is to be closed first.
    Done { ret: isize, close: bool },
}

/// Whether `fd` names a file descriptor slot.
pub open spec fn fd_in_range(fd: isize) -> bool {
    0 <= fd < FDS_COUNT
}

/// The user permission flags of a mapping with protection `prot` and
/// mapping flags `flags`.
pub open spec fn mmap_flags(prot: usize, flags: usize) -> usize {
    (if prot & PROT_READ != 0 { VM_UR } else { 0usize }) | (if prot & PROT_WRITE != 0 {
        VM_UW
    } else {
        0usize
    }) | (if prot & PROT_EXEC != 0 { VM_UX } else { 0usize }) | (if flags & MAP_SHARED != 0 {
        VM_SHARED
    } else {
        0usize
    })
}

/// The region `mmap` asks for: at the given address only with
/// `MAP_FIXED`, else anywhere (base 0), backed by `object`.
pub open spec fn mmap_entry(args: MmapArgs, object: usize) -> VmEntry {
    VmEntry {
        paddr: 0,
        base: if args.flags & MAP_FIXED != 0 { args.addr } else { 0 },
        size: args.len,
        flags: mmap_flags(args.prot, args.flags),
        vm_anon: None,
        vm_object: Some(object),
        off: args.off as usize,
    }
}

/// The region `mmap` builds grants user read, write and execute exactly
/// when the protection asks for them, is shared exactly when the mapping
/// is, carries no other flag, maps the object from the given offset with
/// the given length, and sits at the given address only with `MAP_FIXED`.
pub proof fn lemma_mmap_entry(args: MmapArgs, object: usize)
    ensures
        ({
            let e = mmap_entry(args, object);
            &&& (e.flags & VM_UR != 0) <==> (args.prot & PROT_READ != 0)
            &&& (e.flags & VM_UW != 0) <==> (args.prot & PROT_WRITE != 0)
            &&& (e.flags & VM_UX != 0) <==> (args.prot & PROT_EXEC != 0)
            &&& (e.flags & VM_SHARED != 0) <==> (args.flags & MAP_SHARED != 0)
            &&& e.flags & !(VM_UR | VM_UW | VM_UX | VM_SHARED) == 0
            &&& e.size == args.len
            &&& e.vm_object == Some(object)
            &&& e.vm_anon is None
            &&& e.off == args.off as usize
            &&& e.base == (if args.flags & MAP_FIXED != 0 { args.addr } else { 0 })
        }),
{
    let r = args.prot & PROT_READ != 0;
    let w = args.prot & PROT_WRITE != 0;
    let x = args.prot & PROT_EXEC != 0;
    let sh = args.flags & MAP_SHARED != 0;
    let f = mmap_flags(args.prot, args.flags);
    assert(f == (if r { 0x10usize } else { 0usize }) | (if w { 0x20usize } else { 0usize }) | (if x {
        0x40usize
    } else {
        0usize
    }) | (if sh { 0x100usize } else { 0usize }));
    assert({
        let g = (if r { 0x10usize } else { 0usize }) | (if w { 0x20usize } else { 0usize }) | (if x {
            0x40usize
        } else {
            0usize
        }) | (if sh { 0x100usize } else { 0usize });
        &&& (g & 0x10 != 0) == r
        &&& (g & 0x20 != 0) == w
        &&& (g & 0x40 != 0) == x
        &&& (g & 0x100 != 0) == sh
        &&& g & !0x170usize == 0
    }) by (bit_vector);
    assert(!(VM_UR | VM_UW | VM_UX | VM_SHARED) == !0x170usize) by (bit_vector);
    assert(f & VM_UR != 0 <==> r);
    assert(f & VM_UW != 0 <==> w);
    assert(f & VM_UX != 0 <==> x);
    assert(f & VM_SHARED != 0 <==> sh);
}

/// What a successful `mmap` leaves to do.
#[derive(Clone, Copy, Debug, PartialEq, Eq, Structural)]
pub struct MmapOutcome {
    /// Address of the mapping.
    pub base: usize,
    /// The new region.
    pub entry: VmEntry,
    /// Whether the file must map the region now (mappings not private).
    pub map: bool,
}

/// What `thread_join` does.
#[derive(Clone, Copy, Debug, PartialEq, Eq, Structural)]
pub enum JoinOutcome {
    /// The call returns this value.
    Return(isize),
    /// The caller sleeps on the process's join queue and retries.
    Sleep,
}

/// The last thread of `ts` with id `tid` among the first `n`, or `n` when
/// none.
pub open spec fn last_tid(ts: Seq<crate::thread::Thread>, tid: isize, n: int) -> int
    decreases n,
{
    if n <= 0 {
        ts.len() as int
    } else if ts[n - 1].tid == tid {
        n - 1
    } else {
        last_tid(ts, tid, n - 1)
    }
}

/// Whether bit `i` of a descriptor set is set.
pub open spec fn fdset_bit(s: FdSet, i: int) -> bool {
    (s.fds_bits[i / 32] >> ((i % 32) as u32)) & 1u32 == 1u32
}

/// The number of descriptors below `n` set in `s` for which `ready` holds.
pub open spec fn count_ready(s: Option<FdSet>, ready: Seq<bool>, n: int) -> nat
    decreases n,
{
    if n <= 0 {
        0
    } else {
        count_ready(s, ready, n - 1) + match s {
            Some(f) => if fdset_bit(f, n - 1) && ready[n - 1] {
                1nat
            } else {
                0nat
            },
            None => 0nat,
        }
    }
}

/// `s` after `select`: of the descriptors below `n` that are set, those not
/// ready are cleared.
pub open spec fn select_result(s: FdSet, ready: Seq<bool>, n: int, i: int) -> bool {
    if 0 <= i < n {
        fdset_bit(s, i) && ready[i]
    } else {
        fdset_bit(s, i)
    }
}

proof fn lemma_bit_ops(w: u32, b: u32, c: u32)
    requires
        b < 32,
        c < 32,
    ensures
        ((w | (1u32 << b)) >> c) & 1u32 == 1u32 <==> (c == b || (w >> c) & 1u32 == 1u32),
        ((w & !(1u32 << b)) >> c) & 1u32 == 1u32 <==> (c != b && (w >> c) & 1u32 == 1u32),
        (w & (1u32 << b) != 0) <==> ((w >> b) & 1u32 == 1u32),
{
    assert(((w | (1u32 << b)) >> c) & 1u32 == 1u32 <==> (c == b || (w >> c) & 1u32 == 1u32))
        by (bit_vector)
        requires
            b < 32,
            c < 32,
    ;
    assert(((w & !(1u32 << b)) >> c) & 1u32 == 1u32 <==> (c != b && (w >> c) & 1u32 == 1u32))
        by (bit_vector)
        requires
            b < 32,
            c < 32,
    ;
    assert((w & (1u32 << b) != 0) <==> ((w >> b) & 1u32 == 1u32)) by (bit_vector)
        requires
            b < 32,
    ;
}

/// Keeps in `s` the descriptors below `nfds` that are ready, clearing the
/// others below `nfds`; returns how many are kept.
fn select_set(s: &mut FdSet, nfds: usize, ready: &Vec<bool>) -> (count: usize)
    requires
        nfds <= FD_SETSIZE,
        ready@.len() >= nfds,
    ensures
        count == count_ready(Some(*old(s)), ready@, nfds as int),
        forall|i: int| 0 <= i < FD_SETSIZE ==> fdset_bit(*final(s), i) == select_result(
            *old(s),
            ready@,
            nfds as int,
            i,
        ),
{
    let ghost s0 = *s;
    let mut count: usize = 0;
    let mut i: usize = 0;
    while i < nfds
        invariant
            i <= nfds <= FD_SETSIZE,
            ready@.len() >= nfds,
            count == count_ready(Some(s0), ready@, i as int),
            count <= i,
            forall|j: int| 0 <= j < FD_SETSIZE ==> fdset_bit(*s, j) == select_result(
                s0,
                ready@,
                i as int,
                j,
            ),
        decreases nfds - i,
    {
        let w = i / NFDBITS;
        let b = (i % NFDBITS) as u32;
        let word = s.fds_bits[w];
        let ghost sp = *s;
        proof {
            assert(select_result(s0, ready@, i as int, i as int) == fdset_bit(s0, i as int));
            lemma_bit_ops(word, b, b);
            assert(fdset_bit(sp, i as int) == ((word >> b) & 1u32 == 1u32));
        }
        if word & (1u32 << b) != 0 {
            if ready[i] {
                s.fds_bits[w] = word | (1u32 << b);
                count = count + 1;
            } else {
                s.fds_bits[w] = word & !(1u32 << b);
            }
        }
        proof {
            assert forall|j: int| 0 <= j < FD_SETSIZE implies fdset_bit(*s, j) == select_result(
                s0,
                ready@,
                i as int + 1,
                j,
            ) by {
                assert(fdset_bit(sp, j) == select_result(s0, ready@, i as int, j));
                if j / 32 == w as int {
                    lemma_bit_ops(word, b, (j % 32) as u32);
                    if j == i as int {
                        assert((j % 32) as u32 == b);
                    } else {
                        assert((j % 32) as u32 != b);
                    }
                } else {
                    assert(s.fds_bits[j / 32] == sp.fds_bits[j / 32]);
                }
            }
            assert(count_ready(Some(s0), ready@, i as int + 1) == count_ready(
                Some(s0),
                ready@,
                i as int,
            ) + if fdset_bit(s0, i as int) && ready@[i as int] {
                1nat
            } else {
                0nat
            });
        }
        i = i + 1;
    }
    count
}

impl Process {
    /// Starts `open`: takes a free descriptor, or gives `-EMFILE` when all
    /// are taken.
    pub fn sys_open_begin(&mut self) -> (r: OpenStep)
        requires
            old(self).fds@.len() == FDS_COUNT,
        ensures
            final(self).fds@.len() == FDS_COUNT,
            ({
                let i = first_free_fd(old(self).fds@, 0);
                &&& i == FDS_COUNT ==> (r matches OpenStep::Done { ret, close } && ret == -EMFILE && !close)
                    && final(self).fds@ == old(self).fds@
                &&& i < FDS_COUNT ==> r == (OpenStep::Lookup { fd: i as isize }) && final(self).fds@
                    == old(self).fds@.update(i, FileDescriptor { backend: FILE_RESERVED, ..old(self).fds@[i] })
            }),
    {
        let fd = self.proc_fd_get();
        if fd == -1 {
            return OpenStep::Done { ret: -EMFILE, close: false };
        }
        OpenStep::Lookup { fd }
    }

    /// Continues `open` with the lookup's result for descriptor `fd`: the
    /// vnode found goes into the descriptor with offset 0 and flags
    /// `oflags`, to have its permissions checked; a missing file is to be
    /// created with `O_CREAT`; any other failure frees the descriptor and is
    /// returned.
    pub fn sys_open_lookup(&mut self, fd: isize, oflags: usize, res: Result<usize, isize>) -> (r: OpenStep)
        requires
            old(self).fds@.len() == FDS_COUNT,
            fd_in_range(fd),
        ensures
            final(self).fds@.len() == FDS_COUNT,
            match res {
                Ok(v) => r == (OpenStep::CheckPerms { fd }) && final(self).fds@ == old(self).fds@.update(
                    fd as int,
                    FileDescriptor { backend: v, offset: 0, flags: oflags },
                ),
                Err(e) => if e == -ENOENT && oflags & O_CREAT != 0 {
                    r == (OpenStep::Create { fd }) && final(self).fds@ == old(self).fds@
                } else {
                    r == (OpenStep::Done { ret: e, close: true }) && final(self).fds@ == old(self).fds@.update(
                        fd as int,
                        FileDescriptor { backend: NO_FILE, ..old(self).fds@[fd as int] },
                    )
                },
            },
    {
        match res {
            Ok(v) => {
                self.fds.set(fd as usize, FileDescriptor { backend: v, offset: 0, flags: oflags });
                OpenStep::CheckPerms { fd }
            },
            Err(e) => {
                if e == -ENOENT && oflags & O_CREAT != 0 {
                    OpenStep::Create { fd }
                } else {
                    self.proc_fd_release(fd);
                    OpenStep::Done { ret: e, close: true }
                }
            },
        }
    }

    /// Continues `open` with the creation's result for descriptor `fd`: the
    /// vnode created goes into the descriptor as after a lookup; a failure
    /// frees the descriptor and is returned.
    pub fn sys_open_create(&mut self, fd: isize, oflags: usize, res: Result<usize, isize>) -> (r: OpenStep)
        requires
            old(self).fds@.len() == FDS_COUNT,
            fd_in_range(fd),
        ensures
            final(self).fds@.len() == FDS_COUNT,
            match res {
                Ok(v) => r == (OpenStep::CheckPerms { fd }) && final(self).fds@ == old(self).fds@.update(
                    fd as int,
                    FileDescriptor { backend: v, offset: 0, flags: oflags },
                ),
                Err(e) => r == (OpenStep::Done { ret: e, close: false }) && final(self).fds@
                    == old(self).fds@.update(
                    fd as int,
                    FileDescriptor { backend: NO_FILE, ..old(self).fds@[fd as int] },
                ),
            },
    {
        match res {
            Ok(v) => {
                self.fds.set(fd as usize, FileDescriptor { backend: v, offset: 0, flags: oflags });
                OpenStep::CheckPerms { fd }
            },
            Err(e) => {
                self.proc_fd_release(fd);
                OpenStep::Done { ret: e, close: false }
            },
        }
    }

    /// Continues `open` after a permission check (`err`) or the opening of
    /// the file (`opened`) on descriptor `fd`: an error frees the descriptor
    /// and is returned, the vnode to be closed; a passed check goes on to
    /// open the file; an opened file gives `fd`.
    pub fn sys_open_finish(&mut self, fd: isize, err: isize, opened: bool) -> (r: OpenStep)
        requires
            old(self).fds@.len() == FDS_COUNT,
            fd_in_range(fd),
        ensures
            final(self).fds@.len() == FDS_COUNT,
            err != 0 ==> r == (OpenStep::Done { ret: err, close: true }) && final(self).fds@ == old(self).fds@.update(fd as int, FileDescriptor { backend: NO_FILE, ..old(self).fds@[fd as int] }),
            err == 0 && !opened ==> r == (OpenStep::OpenFile { fd }) && final(self).fds@ == old(self).fds@,
            err == 0 && opened ==> r == (OpenStep::Done { ret: fd, close: false }) && final(self).fds@
                == old(self).fds@,
    {
        if err != 0 {
            self.proc_fd_release(fd);
            return OpenStep::Done { ret: err, close: true };
        }
        if opened {
            OpenStep::Done { ret: fd, close: false }
        } else {
            OpenStep::OpenFile { fd }
        }
    }

    /// Closes descriptor `fd`: `-EBADFD` when it is out of range or free;
    /// otherwise it is freed and the open file returned, for its backend to
    /// be closed.
    pub fn sys_close(&mut self, fd: isize) -> (r: Result<FileDescriptor, isize>)
        requires
            old(self).fds@.len() == FDS_COUNT,
        ensures
            final(self).fds@.len() == FDS_COUNT,
            !fd_in_range(fd) || old(self).fds@[fd as int].backend == NO_FILE ==> (r matches Err(e)
                && e == -EBADFD) && final(self).fds@ == old(self).fds@,
            fd_in_range(fd) && old(self).fds@[fd as int].backend != NO_FILE ==> r == Ok::<
                FileDescriptor,
                isize,
            >(old(self).fds@[fd as int]) && final(self).fds@ == old(self).fds@.update(
                fd as int,
                FileDescriptor { backend: NO_FILE, ..old(self).fds@[fd as int] },
            ),
    {
        if fd < 0 || fd as usize >= FDS_COUNT {
            return Err(-EBADFD);
        }
        let f = self.fds[fd as usize];
        if f.backend == NO_FILE {
            return Err(-EBADFD);
        }
        self.fds[fd as usize].backend = NO_FILE;
        Ok(f)
    }

    /// Moves the offset of descriptor `fd`, whose backend holds `size`
    /// bytes: `-EBADFD` when it is out of range or free, else the new
    /// offset.
    pub fn sys_lseek(&mut self, fd: isize, offset: isize, whence: isize, size: usize) -> (r: isize)
        requires
            old(self).fds@.len() == FDS_COUNT,
        ensures
            final(self).fds@.len() == FDS_COUNT,
            !fd_in_range(fd) || old(self).fds@[fd as int].backend == NO_FILE ==> r == -EBADFD
                && final(self).fds@ == old(self).fds@,
            fd_in_range(fd) && old(self).fds@[fd as int].backend != NO_FILE ==> r == seek_offset(
                old(self).fds@[fd as int].offset,
                offset,
                whence,
                size,
            ) && final(self).fds@ == old(self).fds@.update(
                fd as int,
                FileDescriptor { offset: r, ..old(self).fds@[fd as int] },
            ),
    {
        if fd < 0 || fd as usize >= FDS_COUNT {
            return -EBADFD;
        }
        if self.fds[fd as usize].backend == NO_FILE {
            return -EBADFD;
        }
        self.fds[fd as usize].lseek(offset, whence, size)
    }

    /// File control on descriptor `fd`: `-EBADFD` when it is out of range.
    ///
    /// `F_DUPFD` copies the descriptor to the first free one when `arg` is
    /// 0, else to `arg`, and returns the copy's number; `F_GETFD` returns
    /// the flags; `F_SETFD` sets them to `arg` and returns 0; any other
    /// command gives `-EINVAL`.
    pub fn sys_fcntl(&mut self, fd: isize, cmd: isize, arg: usize) -> (r: isize)
        requires
            old(self).fds@.len() == FDS_COUNT,
            fd_in_range(fd) && cmd == F_DUPFD && arg == 0 ==> first_free_fd(old(self).fds@, 0)
                < FDS_COUNT,
            fd_in_range(fd) && cmd == F_DUPFD && arg != 0 ==> arg < FDS_COUNT,
        ensures
            final(self).fds@.len() == FDS_COUNT,
            !fd_in_range(fd) ==> r == -EBADFD && final(self).fds@ == old(self).fds@,
            fd_in_range(fd) ==> ({
                let fds = old(self).fds@;
                let f = fds[fd as int];
                if cmd == F_DUPFD {
                    let d = if arg == 0 { first_free_fd(fds, 0) } else { arg as int };
                    r == d && final(self).fds@ == fds.update(d, f)
                } else if cmd == F_GETFD {
                    r == f.flags as isize && final(self).fds@ == fds
                } else if cmd == F_SETFD {
                    r == 0 && final(self).fds@ == fds.update(
                        fd as int,
                        FileDescriptor { flags: arg, ..f },
                    )
                } else {
                    r == -EINVAL && final(self).fds@ == fds
                }
            }),
    {
        if fd < 0 || fd as usize >= FDS_COUNT {
            return -EBADFD;
        }
        let f = self.fds[fd as usize];
        if cmd == F_DUPFD {
            let d: usize = if arg == 0 {
                let mut i: usize = 0;
                while i < FDS_COUNT
                    invariant
                        i <= FDS_COUNT,
                        self.fds@ == old(self).fds@,
                        self.fds@.len() == FDS_COUNT,
                        first_free_fd(self.fds@, 0) == first_free_fd(self.fds@, i as int),
                    ensures
                        i == first_free_fd(self.fds@, 0),
                    decreases FDS_COUNT - i,
                {
                    if self.fds[i].backend == NO_FILE {
                        break;
                    }
                    i = i + 1;
                }
                i
            } else {
                arg
            };
            self.fds.set(d, f);
            d as isize
        } else if cmd == F_GETFD {
            f.flags as isize
        } else if cmd == F_SETFD {
            self.fds[fd as usize].flags = arg;
            0
        } else {
            -EINVAL
        }
    }

    /// Maps `args.len` bytes of the file behind descriptor `args.fildes`,
    /// whose object is `object`, into the space.
    ///
    /// `-EBADFD` when the descriptor is out of range or free; the region is
    /// then built from the arguments and inserted, and the insertion's
    /// error is returned when it fails.
    pub fn sys_mmap(&mut self, args: MmapArgs, object: usize) -> (r: Result<MmapOutcome, isize>)
        requires
            old(self).fds@.len() == FDS_COUNT,
        ensures
            final(self).fds@ == old(self).fds@,
            !fd_in_range(args.fildes) || old(self).fds@[args.fildes as int].backend == NO_FILE
                ==> (r matches Err(e) && e == -EBADFD) && final(self).vm_space.vm_entries@ == old(self).vm_space.vm_entries@,
            fd_in_range(args.fildes) && old(self).fds@[args.fildes as int].backend != NO_FILE
                ==> ({
                let es = old(self).vm_space.vm_entries@;
                let e = mmap_entry(args, object);
                let base = insert_base(es, e);
                let pos = insert_pos(es, base, base.wrapping_add(e.size), insert_p0(es, e), 0);
                &&& pos == es.len() ==> (r matches Err(x) && x == -1)
                    && final(self).vm_space.vm_entries@ == es
                &&& pos < es.len() ==> r == Ok::<MmapOutcome, isize>(
                    MmapOutcome {
                        base,
                        entry: VmEntry { base, ..e },
                        map: args.flags & MAP_PRIVATE == 0,
                    },
                ) && final(self).vm_space.vm_entries@ == es.insert(pos, VmEntry { base, ..e })
            }),
            r matches Ok(o) ==> {
                &&& (o.entry.flags & VM_UR != 0) <==> (args.prot & PROT_READ != 0)
                &&& (o.entry.flags & VM_UW != 0) <==> (args.prot & PROT_WRITE != 0)
                &&& (o.entry.flags & VM_UX != 0) <==> (args.prot & PROT_EXEC != 0)
                &&& (o.entry.flags & VM_SHARED != 0) <==> (args.flags & MAP_SHARED != 0)
                &&& o.entry.size == args.len
                &&& o.entry.vm_object == Some(object)
                &&& o.base == o.entry.base
                &&& args.flags & MAP_FIXED != 0 && args.addr != 0 ==> o.base == args.addr
            },
    {
        proof {
            lemma_mmap_entry(args, object);
        }
        let fildes = args.fildes;
        if fildes < 0 || fildes as usize >= FDS_COUNT {
            return Err(-EBADFD);
        }
        if self.fds[fildes as usize].backend == NO_FILE {
            return Err(-EBADFD);
        }
        let mut flags: usize = if args.prot & PROT_READ != 0 {
            VM_UR
        } else {
            0
        };
        flags = flags | if args.prot & PROT_WRITE != 0 {
            VM_UW
        } else {
            0
        };
        flags = flags | if args.prot & PROT_EXEC != 0 {
            VM_UX
        } else {
            0
        };
        flags = flags | if args.flags & MAP_SHARED != 0 {
            VM_SHARED
        } else {
            0
        };
        assert((if args.prot & PROT_READ != 0 { VM_UR } else { 0usize }) == 0usize | (if args.prot
            & PROT_READ != 0 {
            VM_UR
        } else {
            0usize
        })) by (bit_vector);
        let mut e = VmEntry {
            paddr: 0,
            base: args.addr,
            size: args.len,
            flags,
            vm_anon: None,
            vm_object: Some(object),
            off: args.off as usize,
        };
        if args.flags & MAP_FIXED == 0 {
            e.base = 0;
        }
        assert(e == mmap_entry(args, object));
        let ghost es = self.vm_space.vm_entries@;
        let err = self.vm_space.insert(&mut e);
        if err != 0 {
            return Err(err);
        }
        Ok(MmapOutcome { base: e.base, entry: e, map: args.flags & MAP_PRIVATE == 0 })
    }

    /// Unmaps the first region that starts at `addr` and is `len` bytes
    /// long, returning it to be unmapped; `-EINVAL` when there is none.
    pub fn sys_munmap(&mut self, addr: usize, len: usize) -> (r: Result<VmEntry, isize>)
        ensures
            ({
                let es = old(self).vm_space.vm_entries@;
                let k = first_region(es, addr, len, 0);
                &&& k == es.len() ==> (r matches Err(e) && e == -EINVAL)
                    && final(self).vm_space.vm_entries@ == es
                &&& k < es.len() ==> r == Ok::<VmEntry, isize>(es[k])
                    && final(self).vm_space.vm_entries@ == es.remove(k)
            }),
    {
        let mut i: usize = 0;
        while i < self.vm_space.vm_entries.len()
            invariant
                i <= self.vm_space.vm_entries.len(),
                self.vm_space.vm_entries@ == old(self).vm_space.vm_entries@,
                first_region(self.vm_space.vm_entries@, addr, len, 0) == first_region(
                    self.vm_space.vm_entries@,
                    addr,
                    len,
                    i as int,
                ),
            decreases self.vm_space.vm_entries.len() - i,
        {
            let e = self.vm_space.vm_entries[i];
            if e.base == addr && e.size == len {
                self.vm_space.vm_entries.remove(i);
                return Ok(e);
            }
            i = i + 1;
        }
        Err(-EINVAL)
    }

    /// Waits for thread `tid` of the process: `-ECHILD` when there is
    /// none, its id when it is dead, a sleep otherwise. Of several threads
    /// with that id, the last counts.
    pub fn sys_thread_join(&self, tid: isize) -> (r: JoinOutcome)
        ensures
            ({
                let ts = self.threads@;
                let k = last_tid(ts, tid, ts.len() as int);
                &&& k == ts.len() ==> (r matches JoinOutcome::Return(v) && v == -ECHILD)
                &&& k < ts.len() && ts[k].state == ThreadState::ZOMBIE ==> r
                    == JoinOutcome::Return(ts[k].tid)
                &&& k < ts.len() && ts[k].state != ThreadState::ZOMBIE ==> r == JoinOutcome::Sleep
            }),
    {
        let mut found: Option<usize> = None;
        let mut i: usize = 0;
        while i < self.threads.len()
            invariant
                i <= self.threads.len(),
                match found {
                    Some(k) => k < i && k == last_tid(self.threads@, tid, i as int),
                    None => last_tid(self.threads@, tid, i as int) == self.threads@.len(),
                },
            decreases self.threads.len() - i,
        {
            if self.threads[i].tid == tid {
                found = Some(i);
            }
            i = i + 1;
        }
        match found {
            None => JoinOutcome::Return(-ECHILD),
            Some(k) => {
                if self.threads[k].state == ThreadState::ZOMBIE {
                    JoinOutcome::Return(self.threads[k].tid)
                } else {
                    JoinOutcome::Sleep
                }
            },
        }
    }

    /// Keeps, in the read and write sets given, the descriptors below
    /// `nfds` that are ready for reading (`can_read`) or writing
    /// (`can_write`), clearing the others below `nfds`; returns how many
    /// are kept over both sets.
    pub fn sys_select(
        &self,
        nfds: usize,
        readfds: &mut Option<FdSet>,
        writefds: &mut Option<FdSet>,
        can_read: &Vec<bool>,
        can_write: &Vec<bool>,
    ) -> (count: usize)
        requires
            nfds <= FD_SETSIZE,
            can_read@.len() >= nfds,
            can_write@.len() >= nfds,
        ensures
            count == count_ready(*old(readfds), can_read@, nfds as int) + count_ready(
                *old(writefds),
                can_write@,
                nfds as int,
            ),
            (*final(readfds) is Some) == (*old(readfds) is Some),
            (*final(writefds) is Some) == (*old(writefds) is Some),
            forall|i: int|
                0 <= i < FD_SETSIZE ==> (*final(readfds) matches Some(s) ==> fdset_bit(s, i)
                    == #[trigger] select_result(old(readfds).unwrap(), can_read@, nfds as int, i)),
            forall|i: int|
                0 <= i < FD_SETSIZE ==> (*final(writefds) matches Some(s) ==> fdset_bit(s, i)
                    == #[trigger] select_result(old(writefds).unwrap(), can_write@, nfds as int, i)),
    {
        let mut count: usize = 0;
        match readfds {
            Some(s) => {
                count = select_set(s, nfds, can_read);
            },
            None => {
                proof {
                    lemma_count_none(can_read@, nfds as int);
                }
            },
        }
        match writefds {
            Some(s) => {
                let c = select_set(s, nfds, can_write);
                proof {
                    lemma_count_le(*old(readfds), can_read@, nfds as int);
                    lemma_count_le(*old(writefds), can_write@, nfds as int);
                }
                count = count + c;
            },
            None => {
                proof {
                    lemma_count_none(can_write@, nfds as int);
                }
            },
        }
        count
    }
}

proof fn lemma_count_none(ready: Seq<bool>, n: int)
    ensures
        count_ready(None, ready, n) == 0,
    decreases n,
{
    if n > 0 {
        lemma_count_none(ready, n - 1);
    }
}

proof fn lemma_count_le(s: Option<FdSet>, ready: Seq<bool>, n: int)
    requires
        n >= 0,
    ensures
        count_ready(s, ready, n) <= n,
    decreases n,
{
    if n > 0 {
        lemma_count_le(s, ready, n - 1);
    }
}

impl Process {
    /// Creates a socket on the first free descriptor: `-EMFILE` when none
    /// is free; else creating it fails, the descriptor is freed again and
    /// the error returned.
    pub fn sys_socket(&mut self, domain: isize, sock_type: isize, protocol: isize) -> (r: isize)
        requires
            old(self).fds@.len() == FDS_COUNT,
        ensures
            final(self).fds@ == old(self).fds@,
            r == (if first_free_fd(old(self).fds@, 0) == FDS_COUNT {
                -EMFILE
            } else {
                -EAFNOSUPPORT
            }),
    {
        proof {
            lemma_first_free_fd(self.fds@, 0);
            if first_free_fd(self.fds@, 0) < FDS_COUNT {
                lemma_fd_get_release(self.fds@);
            }
        }
        let fd = self.proc_fd_get();
        if fd == -1 {
            return -EMFILE;
        }
        let mut f = self.fds[fd as usize];
        let err = socket_create(&mut f, domain, sock_type, protocol);
        self.fds.set(fd as usize, f);
        if err != 0 {
            self.proc_fd_release(fd);
            return err;
        }
        fd
    }

    /// Accepts a connection on socket `fd` into a new descriptor:
    /// `-EBADFD` when `fd` is out of range, `-EMFILE` when no descriptor is
    /// free; else accepting fails, the new descriptor is freed again and the
    /// error returned.
    pub fn sys_accept(&mut self, fd: isize, addr: SocketAddress, len: u32) -> (r: isize)
        requires
            old(self).fds@.len() == FDS_COUNT,
        ensures
            final(self).fds@ == old(self).fds@,
            r == (if !fd_in_range(fd) {
                -EBADFD
            } else if first_free_fd(old(self).fds@, 0) == FDS_COUNT {
                -EMFILE
            } else {
                -EINVAL
            }),
    {
        if fd < 0 || fd as usize >= FDS_COUNT {
            return -EBADFD;
        }
        proof {
            lemma_first_free_fd(self.fds@, 0);
            if first_free_fd(self.fds@, 0) < FDS_COUNT {
                lemma_fd_get_release(self.fds@);
            }
        }
        let conn_fd = self.proc_fd_get();
        if conn_fd == -1 {
            return -EMFILE;
        }
        let mut socket = self.fds[fd as usize];
        let mut conn = self.fds[conn_fd as usize];
        let err = socket_accept(&mut socket, &mut conn, addr, len);
        self.fds.set(fd as usize, socket);
        self.fds.set(conn_fd as usize, conn);
        if err != 0 {
            self.proc_fd_release(conn_fd);
            return err;
        }
        conn_fd
    }

    /// Binds socket `fd` to `addr`: `-EBADFD` when `fd` is out of range,
    /// else what binding returns.
    pub fn sys_bind(&mut self, fd: isize, addr: SocketAddress, len: u32) -> (r: isize)
        requires
            old(self).fds@.len() == FDS_COUNT,
        ensures
            final(self).fds@ == old(self).fds@,
            r == (if fd_in_range(fd) { -EINVAL } else { -EBADFD }),
    {
        if fd < 0 || fd as usize >= FDS_COUNT {
            return -EBADFD;
        }
        let mut f = self.fds[fd as usize];
        let err = socket_bind(&mut f, addr, len as usize);
        self.fds.set(fd as usize, f);
        if err != 0 {
            return err;
        }
        0
    }

    /// Connects socket `fd` to `addr`: `-EBADFD` when `fd` is out of
    /// range, else what connecting returns.
    pub fn sys_connect(&mut self, fd: isize, addr: SocketAddress, len: u32) -> (r: isize)
        requires
            old(self).fds@.len() == FDS_COUNT,
        ensures
            final(self).fds@ == old(self).fds@,
            r == (if fd_in_range(fd) { -EINVAL } else { -EBADFD }),
    {
        if fd < 0 || fd as usize >= FDS_COUNT {
            return -EBADFD;
        }
        let mut f = self.fds[fd as usize];
        let err = socket_connect(&mut f, addr, len as usize);
        self.fds.set(fd as usize, f);
        if err != 0 {
            return err;
        }
        0
    }

    /// Listens on socket `fd`: `-EBADFD` when `fd` is out of range, else
    /// what listening returns.
    pub fn sys_listen(&mut self, fd: isize, backlog: isize) -> (r: isize)
        requires
            old(self).fds@.len() == FDS_COUNT,
        ensures
            final(self).fds@ == old(self).fds@,
            r == (if fd_in_range(fd) { -EINVAL } else { -EBADFD }),
    {
        if fd < 0 || fd as usize >= FDS_COUNT {
            return -EBADFD;
        }
        let mut f = self.fds[fd as usize];
        let err = socket_listen(&mut f, backlog);
        self.fds.set(fd as usize, f);
        if err != 0 {
            return err;
        }
        0
    }

    /// Sends `data`, the `io.len` bytes at `io.buf`, on socket `io.fd`:
    /// `-EBADFD` when the descriptor is out of range, else what sending
    /// returns.
    pub fn sys_send(&mut self, io: SocketIO, data: &[u8]) -> (r: isize)
        requires
            old(self).fds@.len() == FDS_COUNT,
        ensures
            final(self).fds@ == old(self).fds@,
            r == (if fd_in_range(io.fd) { -EINVAL } else { -EBADFD }),
    {
        if io.fd < 0 || io.fd as usize >= FDS_COUNT {
            return -EBADFD;
        }
        let mut f = self.fds[io.fd as usize];
        let err = socket_send(&mut f, data, io.flags);
        self.fds.set(io.fd as usize, f);
        if err != 0 {
            return err;
        }
        0
    }

    /// Receives into `buf`, the buffer at `io.buf`, from socket `io.fd`:
    /// `-EBADFD` when the descriptor is out of range, else what receiving
    /// returns.
    pub fn sys_recv(&mut self, io: SocketIO, buf: &mut Vec<u8>) -> (r: isize)
        requires
            old(self).fds@.len() == FDS_COUNT,
        ensures
            final(self).fds@ == old(self).fds@,
            final(buf)@ == old(buf)@,
            r == (if fd_in_range(io.fd) { -EINVAL } else { -EBADFD }),
    {
        if io.fd < 0 || io.fd as usize >= FDS_COUNT {
            return -EBADFD;
        }
        let mut f = self.fds[io.fd as usize];
        let err = socket_recv(&mut f, buf, io.flags);
        self.fds.set(io.fd as usize, f);
        if err != 0 {
            return err;
        }
        0
    }

    /// Whether descriptor `fd` is a terminal: `-EBADFD` when it is out of
    /// range or has no file, else 1.
    pub fn sys_isatty(&self, fd: isize) -> (r: isize)
        requires
            self.fds@.len() == FDS_COUNT,
        ensures
            r == (if !fd_in_range(fd) || self.fds@[fd as int].backend == NO_FILE {
                -EBADFD
            } else {
                1
            }),
    {
        if fd < 0 || fd as usize >= FDS_COUNT {
            return -EBADFD;
        }
        if self.fds[fd as usize].backend == NO_FILE {
            return -EBADFD;
        }
        1
    }

    /// The descriptor that `read`, `write`, `ioctl` or `readdir` on `fd`
    /// goes to: `-EBADFD` when `fd` is out of range.
    pub fn sys_file(&self, fd: isize) -> (r: Result<usize, isize>)
        requires
            self.fds@.len() == FDS_COUNT,
        ensures
            fd_in_range(fd) ==> r == Ok::<usize, isize>(fd as usize),
            !fd_in_range(fd) ==> (r matches Err(e) && e == -EBADFD),
    {
        if fd < 0 || fd as usize >= FDS_COUNT {
            return Err(-EBADFD);
        }
        Ok(fd as usize)
    }

    /// The backend of descriptor `fd` that `fstat` describes: `-EBADFD`
    /// when `fd` is out of range or has no file.
    pub fn sys_fstat(&self, fd: isize) -> (r: Result<usize, isize>)
        requires
            self.fds@.len() == FDS_COUNT,
        ensures
            fd_in_range(fd) && self.fds@[fd as int].backend != NO_FILE ==> r == Ok::<usize, isize>(
                self.fds@[fd as int].backend,
            ),
            !fd_in_range(fd) || self.fds@[fd as int].backend == NO_FILE ==> (r matches Err(e) && e
                == -EBADFD),
    {
        if fd < 0 || fd as usize >= FDS_COUNT {
            return Err(-EBADFD);
        }
        let b = self.fds[fd as usize].backend;
        if b == NO_FILE {
            return Err(-EBADFD);
        }
        Ok(b)
    }

    /// Takes the two descriptors of a new pipe, as two `proc_fd_get` calls
    /// would: the first free descriptor, then the next free one; -1 for
    /// either when none is left.
    pub fn sys_pipe(&mut self) -> (r: (isize, isize))
        requires
            old(self).fds@.len() == FDS_COUNT,
        ensures
            final(self).fds@.len() == FDS_COUNT,
            ({
                let f0 = old(self).fds@;
                let i = first_free_fd(f0, 0);
                let f1 = if i < FDS_COUNT {
                    f0.update(i, FileDescriptor { backend: FILE_RESERVED, ..f0[i] })
                } else {
                    f0
                };
                let j = first_free_fd(f1, 0);
                &&& r.0 == (if i < FDS_COUNT { i } else { -1 })
                &&& r.1 == (if j < FDS_COUNT { j } else { -1 })
                &&& final(self).fds@ == (if j < FDS_COUNT {
                    f1.update(j, FileDescriptor { backend: FILE_RESERVED, ..f1[j] })
                } else {
                    f1
                })
            }),
    {
        let fd1 = self.proc_fd_get();
        let fd2 = self.proc_fd_get();
        (fd1, fd2)
    }
}

/// The names of the system, as `uname` gives them.
pub struct UtsName {
    pub sysname: String,
    pub nodename: String,
    pub release: String,
    pub version: String,
    pub machine: String,
}

/// The names of the system: `AquilaOS`, node `aquila`, release `v0.1.0`,
/// the compiler's version, machine `i386`.
pub fn sys_uname() -> (u: UtsName)
    ensures
        u.sysname@ == "AquilaOS"@,
        u.nodename@ == "aquila"@,
        u.release@ == "v0.1.0"@,
        u.version@ == "(rustc 1.45.0-nightly (7ebd87a7a 2020-05-08))"@,
        u.machine@ == "i386"@,
{
    UtsName {
        sysname: "AquilaOS".to_owned(),
        nodename: "aquila".to_owned(),
        release: "v0.1.0".to_owned(),
        version: "(rustc 1.45.0-nightly (7ebd87a7a 2020-05-08))".to_owned(),
        machine: "i386".to_owned(),
    }
}

/// The first region from `i` on that starts at `addr` and is `len` bytes
/// long, or the number of regions.
pub open spec fn first_region(es: Seq<VmEntry>, addr: usize, len: usize, i: int) -> int
    decreases es.len() - i,
{
    if i < 0 || i >= es.len() {
        es.len() as int
    } else if es[i].base == addr && es[i].size == len {
        i
    } else {
        first_region(es, addr, len, i + 1)
    }
}

} // verus!
