use vstd::prelude::*;

use crate::bitmap::BitMap;
use crate::errno::{EINVAL, ERANGE};
use crate::file::{FileDescriptor, FILE_RESERVED, FILE_SOCKET, NO_FILE};
use crate::signal::{SignalAction, SIGKILL, SIG_DFL, SIG_MAX};
use crate::thread::Thread;
use crate::binfmt::{binfmt_load, exec_image_of, heap_align, heap_entry, stack_entry, ExecImage, USER_STACK_BASE};
use crate::elf::{elf_load_acc, elf_load_part, elf_loaded, has_elf_magic, le32, object_refs};
use crate::errno::{ENOENT, ENOEXEC, ENOTDIR};
use crate::vm::{VmEntry, VmObject};
use crate::vm_space::VmSpace;

verus! {

/// Number of file descriptors of a process.
pub const FDS_COUNT: usize = 64;

/// Number of process ids the pid map holds.
pub const PID_MAX: usize = 4096;

/// The process ids in use: a bitmap of ids, and the id the next search
/// starts from.
pub struct PidMap {
    pub bitmap: BitMap,
    pub ff_pid: usize,
}

/// The first clear bit of `bm` in `[i, end)`, or `end`.
pub open spec fn first_free_from(bm: Seq<bool>, i: int, end: int) -> int
    decreases end - i,
{
    if i >= end {
        end
    } else if !bm[i] {
        i
    } else {
        first_free_from(bm, i + 1, end)
    }
}

/// The bit `first_free_from` finds lies in `[i, end]`, is clear when it is
/// below `end`, and every bit before it from `i` on is set.
pub proof fn lemma_first_free_from(bm: Seq<bool>, i: int, end: int)
    requires
        i <= end,
    ensures
        i <= first_free_from(bm, i, end) <= end,
        first_free_from(bm, i, end) < end ==> !bm[first_free_from(bm, i, end)],
        forall|j: int| i <= j < first_free_from(bm, i, end) ==> #[trigger] bm[j],
    decreases end - i,
{
    if i < end && bm[i] {
        lemma_first_free_from(bm, i + 1, end);
    }
}

impl PidMap {
    /// The bitmap holds `PID_MAX + 1` ids, the search start lies inside it,
    /// and every id from 1 below the search start is in use.
    pub open spec fn inv(&self) -> bool {
        &&& self.bitmap.wf()
        &&& self.bitmap.max_idx == PID_MAX
        &&& self.ff_pid <= PID_MAX
        &&& forall|p: int| 1 <= p < self.ff_pid ==> #[trigger] self.bitmap@[p]
    }

    /// No id in use; the search starts at 1.
    pub fn new() -> (m: PidMap)
        ensures
            m.inv(),
            m.ff_pid == 1,
            forall|p: int| 0 <= p <= PID_MAX ==> !#[trigger] m.bitmap@[p],
    {
        PidMap { bitmap: BitMap::new(PID_MAX), ff_pid: 1 }
    }

    /// Takes the first free id from the search start on, below `PID_MAX`,
    /// and moves the search start there; -1 when there is none.
    pub fn proc_pid_alloc(&mut self) -> (r: isize)
        requires
            old(self).inv(),
        ensures
            final(self).inv(),
            ({
                let p = first_free_from(old(self).bitmap@, old(self).ff_pid as int, PID_MAX as int);
                &&& p <= PID_MAX
                &&& p < PID_MAX ==> r == p && final(self).bitmap@ == old(self).bitmap@.update(
                    p,
                    true,
                ) && final(self).ff_pid == p
                &&& p == PID_MAX ==> r == -1 && final(self).bitmap@ == old(self).bitmap@
                    && final(self).ff_pid == old(self).ff_pid
            }),
    {
        proof {
            lemma_first_free_from(self.bitmap@, self.ff_pid as int, PID_MAX as int);
        }
        let mut i = self.ff_pid;
        while i < PID_MAX
            invariant
                self.inv(),
                self.bitmap@ == old(self).bitmap@,
                self.ff_pid == old(self).ff_pid,
                self.ff_pid <= i <= PID_MAX,
                first_free_from(self.bitmap@, self.ff_pid as int, PID_MAX as int)
                    == first_free_from(self.bitmap@, i as int, PID_MAX as int),
            decreases PID_MAX - i,
        {
            if !self.bitmap.check(i) {
                let ghost old_ff = self.ff_pid;
                self.bitmap.set(i);
                self.ff_pid = i;
                proof {
                    lemma_first_free_from(old(self).bitmap@, old_ff as int, PID_MAX as int);
                    assert forall|p: int| 1 <= p < self.ff_pid implies #[trigger] self.bitmap@[p] by {
                        if p >= old_ff {
                            assert(old(self).bitmap@[p]);
                        }
                    }
                }
                return i as isize;
            }
            i = i + 1;
        }
        -1
    }

    /// Frees id `pid` and moves the search start down to it.
    pub fn proc_pid_free(&mut self, pid: isize)
        requires
            old(self).inv(),
            0 <= pid <= PID_MAX,
        ensures
            final(self).inv(),
            final(self).bitmap@ == old(self).bitmap@.update(pid as int, false),
            final(self).ff_pid == (if pid < old(self).ff_pid { pid as usize } else {
                old(self).ff_pid
            }),
    {
        self.bitmap.clear(pid as usize);
        if (pid as usize) < self.ff_pid {
            self.ff_pid = pid as usize;
        }
    }
}

/// With the pid map's invariant, the id that `proc_pid_alloc` finds is the
/// smallest free id from 1 on, when the search starts at 1 or above.
pub proof fn lemma_pid_alloc_smallest(m: PidMap, q: int)
    requires
        m.inv(),
        m.ff_pid >= 1,
        1 <= q < first_free_from(m.bitmap@, m.ff_pid as int, PID_MAX as int),
    ensures
        m.bitmap@[q],
{
    lemma_first_free_from(m.bitmap@, m.ff_pid as int, PID_MAX as int);
    if q >= m.ff_pid {
        assert(m.bitmap@[q]);
    }
}

/// Freeing the id that `proc_pid_alloc` returned gives back the bitmap it
/// started from.
pub proof fn lemma_pid_alloc_free(m: PidMap)
    requires
        m.inv(),
        first_free_from(m.bitmap@, m.ff_pid as int, PID_MAX as int) < PID_MAX,
    ensures
        ({
            let p = first_free_from(m.bitmap@, m.ff_pid as int, PID_MAX as int);
            m.bitmap@.update(p, true).update(p, false) == m.bitmap@
        }),
{
    lemma_first_free_from(m.bitmap@, m.ff_pid as int, PID_MAX as int);
    let p = first_free_from(m.bitmap@, m.ff_pid as int, PID_MAX as int);
    assert(m.bitmap@.update(p, true).update(p, false) =~= m.bitmap@);
}

/// The exit status word of a process: `info` in the second byte, `code` in
/// the first.
pub fn proc_exit(info: isize, code: isize) -> (r: isize)
    ensures
        r == (info & 0xff) * 256 + (code & 0xff),
{
    assert(((info & 0xff) << 8isize) | (code & 0xff) == (info & 0xff) * 256 + (code & 0xff))
        by (bit_vector);
    ((info & 0xff) << 8isize) | (code & 0xff)
}

/// A reference to the backend of an open file that a copy of the file
/// descriptor table adds.
#[derive(Clone, Copy, Debug, PartialEq, Eq, Structural)]
pub struct FdRef {
    /// Whether the backend is a socket.
    pub socket: bool,
    /// The backend handle.
    pub handle: usize,
}

/// A process.
///
/// The process group is named by its handle, the parent by its id, the
/// heap and stack regions by their index in the space.
pub struct Process {
    /// Process id.
    pub pid: isize,
    /// Process group.
    pub pgrp: usize,
    /// Process name.
    pub name: Vec<u8>,
    /// Open file descriptors.
    pub fds: Vec<FileDescriptor>,
    /// Parent process.
    pub parent: Option<isize>,
    /// Current working directory.
    pub cwd: Vec<u8>,
    /// File mode creation mask.
    pub mask: u32,
    /// User id.
    pub uid: u32,
    /// Group id.
    pub gid: u32,
    /// Initial heap pointer.
    pub heap_start: usize,
    /// Current heap pointer.
    pub heap: usize,
    /// Entry point.
    pub entry: usize,
    /// Virtual memory regions.
    pub vm_space: VmSpace,
    /// Heap region.
    pub heap_vm: Option<usize>,
    /// Stack region.
    pub stack_vm: Option<usize>,
    /// Threads.
    pub threads: Vec<Thread>,
    /// Received signals.
    pub sig_queue: Option<Vec<isize>>,
    /// Registered signal handlers, by signal number.
    pub sigaction: Vec<SignalAction>,
    /// Exit status.
    pub exit: isize,
    /// Whether the process runs.
    pub running: isize,
    /// The sleep queue, by handle, its threads wait on for a child's death.
    pub wait_queue: usize,
}

/// The action with every field zero.
pub open spec fn zero_action() -> SignalAction {
    SignalAction { sa_handler: 0, sa_mask: 0, sa_flags: 0 }
}

/// `SIG_MAX + 1` actions with every field zero.
pub fn zero_actions() -> (r: Vec<SignalAction>)
    ensures
        r@ == Seq::new((SIG_MAX + 1) as nat, |i: int| zero_action()),
{
    let mut r: Vec<SignalAction> = Vec::new();
    let mut i: usize = 0;
    while i <= SIG_MAX
        invariant
            i <= SIG_MAX + 1,
            r@ == Seq::new(i as nat, |k: int| zero_action()),
        decreases SIG_MAX + 1 - i,
    {
        r.push(SignalAction { sa_handler: 0, sa_mask: 0, sa_flags: 0 });
        i = i + 1;
        assert(r@ =~= Seq::new(i as nat, |k: int| zero_action()));
    }
    r
}

/// `FDS_COUNT` free file descriptors.
pub fn empty_fds() -> (r: Vec<FileDescriptor>)
    ensures
        r@ == Seq::new(FDS_COUNT as nat, |i: int| FileDescriptor { backend: NO_FILE, offset: 0, flags: 0 }),
{
    let mut r: Vec<FileDescriptor> = Vec::new();
    let mut i: usize = 0;
    while i < FDS_COUNT
        invariant
            i <= FDS_COUNT,
            r@ == Seq::new(i as nat, |k: int| FileDescriptor { backend: NO_FILE, offset: 0, flags: 0 }),
        decreases FDS_COUNT - i,
    {
        r.push(FileDescriptor::empty());
        i = i + 1;
        assert(r@ =~= Seq::new(i as nat, |k: int| FileDescriptor { backend: NO_FILE, offset: 0, flags: 0 }));
    }
    r
}

/// The first free descriptor of `fds` from `i` on, or `FDS_COUNT`.
pub open spec fn first_free_fd(fds: Seq<FileDescriptor>, i: int) -> int
    decreases FDS_COUNT - i,
{
    if i < 0 || i >= FDS_COUNT {
        FDS_COUNT as int
    } else if fds[i].backend == NO_FILE {
        i
    } else {
        first_free_fd(fds, i + 1)
    }
}

/// The references a copy of the descriptors `fds` adds: one per open
/// descriptor, in order.
pub open spec fn fd_refs(fds: Seq<FileDescriptor>) -> Seq<FdRef>
    decreases fds.len(),
{
    if fds.len() == 0 {
        seq![]
    } else {
        let f = fds.last();
        fd_refs(fds.drop_last()) + (if f.backend != NO_FILE && f.backend != FILE_RESERVED {
            seq![FdRef { socket: f.flags & FILE_SOCKET != 0, handle: f.backend }]
        } else {
            seq![]
        })
    }
}

/// The result of `getcwd` with a buffer of `size` bytes for the directory
/// `cwd`: `-EINVAL` for no room, `-ERANGE` when the name and its terminating
/// zero do not fit, 0 otherwise.
pub open spec fn getcwd_result(cwd: Seq<u8>, size: usize) -> int {
    if size == 0 {
        -EINVAL
    } else if size < cwd.len() + 1 {
        -ERANGE
    } else {
        0
    }
}

/// The first free descriptor `proc_fd_get` finds is free.
pub proof fn lemma_first_free_fd(fds: Seq<FileDescriptor>, i: int)
    requires
        0 <= i <= FDS_COUNT,
        fds.len() == FDS_COUNT,
    ensures
        i <= first_free_fd(fds, i) <= FDS_COUNT,
        first_free_fd(fds, i) < FDS_COUNT ==> fds[first_free_fd(fds, i)].backend == NO_FILE,
    decreases FDS_COUNT - i,
{
    if i < FDS_COUNT && fds[i].backend != NO_FILE {
        lemma_first_free_fd(fds, i + 1);
    }
}

/// Releasing the descriptor that `proc_fd_get` took gives back the table
/// it started from.
pub proof fn lemma_fd_get_release(fds: Seq<FileDescriptor>)
    requires
        fds.len() == FDS_COUNT,
        first_free_fd(fds, 0) < FDS_COUNT,
    ensures
        ({
            let i = first_free_fd(fds, 0);
            let taken = fds.update(i, FileDescriptor { backend: FILE_RESERVED, ..fds[i] });
            taken.update(i, FileDescriptor { backend: NO_FILE, ..taken[i] }) == fds
        }),
{
    lemma_first_free_fd(fds, 0);
    let i = first_free_fd(fds, 0);
    let taken = fds.update(i, FileDescriptor { backend: FILE_RESERVED, ..fds[i] });
    assert(taken.update(i, FileDescriptor { backend: NO_FILE, ..taken[i] }) =~= fds);
}

/// An action registered with `sigaction` is what the next `sigaction` for
/// that signal returns as the previous action; `SIGKILL` only ever keeps
/// the default action.
pub proof fn lemma_sigaction_set_get(acts: Seq<SignalAction>, sig: int, a: SignalAction)
    requires
        !sigaction_refused(sig as isize, Some(a)),
        1 <= sig <= SIG_MAX,
        acts.len() == SIG_MAX + 1,
    ensures
        sig == SIGKILL ==> a.sa_handler == SIG_DFL,
        acts.update(sig, a)[sig] == a,
        acts.update(sig, a).len() == SIG_MAX + 1,
{
}

/// Whether `sigaction` refuses to register `act` for `sig`: the signal is
/// out of range, or it is `SIGKILL` and `act` would catch or ignore it.
pub open spec fn sigaction_refused(sig: isize, act: Option<SignalAction>) -> bool {
    ||| !(1 <= sig <= SIG_MAX as isize)
    ||| (sig == SIGKILL && (act matches Some(a) && a.sa_handler != SIG_DFL))
}

/// Every field of `p` but its threads, running flag and physical map is
/// zero: no id, group, name, descriptor table, parent, working directory,
/// regions, signal queue or wait queue; creation mask, user, group, heap,
/// entry point and exit status 0; every signal action zero.
pub open spec fn zeroed_rest(p: Process) -> bool {
    &&& p.pid == 0
    &&& p.pgrp == 0
    &&& p.name@.len() == 0
    &&& p.fds@.len() == 0
    &&& p.parent is None
    &&& p.cwd@.len() == 0
    &&& p.mask == 0
    &&& p.uid == 0
    &&& p.gid == 0
    &&& p.heap_start == 0
    &&& p.heap == 0
    &&& p.entry == 0
    &&& p.vm_space.vm_entries@.len() == 0
    &&& p.heap_vm is None
    &&& p.stack_vm is None
    &&& p.sig_queue is None
    &&& p.sigaction@ == Seq::new((SIG_MAX + 1) as nat, |i: int| zero_action())
    &&& p.exit == 0
    &&& p.wait_queue == 0
}

impl Process {
    /// A process with every field zero: no descriptor table, no threads, no
    /// signal queue, and all signal actions zero.
    pub fn new_zeroed() -> (p: Process)
        ensures
            zeroed_rest(p),
            p.threads@.len() == 0,
            p.running == 0,
            p.vm_space.pmap == 0,
    {
        Process {
            pid: 0,
            pgrp: 0,
            name: Vec::new(),
            fds: Vec::new(),
            parent: None,
            cwd: Vec::new(),
            mask: 0,
            uid: 0,
            gid: 0,
            heap_start: 0,
            heap: 0,
            entry: 0,
            vm_space: VmSpace { pmap: 0, vm_entries: Vec::new() },
            heap_vm: None,
            stack_vm: None,
            threads: Vec::new(),
            sig_queue: None,
            sigaction: zero_actions(),
            exit: 0,
            running: 0,
            wait_queue: 0,
        }
    }

    /// Adds a thread whose id is the number of threads after it; returns 0.
    pub fn new_thread(&mut self) -> (r: isize)
        requires
            old(self).threads.len() < isize::MAX,
        ensures
            r == 0,
            final(self).threads@ == old(self).threads@.push(
                Thread::spec_new((old(self).threads.len() + 1) as isize, old(self).pid),
            ),
            *final(self) == (Process { threads: final(self).threads, ..*old(self) }),
    {
        let tid = (self.threads.len() + 1) as isize;
        let t = Thread::new(tid, self.pid);
        self.threads.push(t);
        0
    }

    /// Takes the first free file descriptor, marking it taken; -1 when all
    /// are taken.
    pub fn proc_fd_get(&mut self) -> (r: isize)
        requires
            old(self).fds@.len() == FDS_COUNT,
        ensures
            final(self).fds@.len() == FDS_COUNT,
            ({
                let i = first_free_fd(old(self).fds@, 0);
                &&& 0 <= i <= FDS_COUNT
                &&& i < FDS_COUNT ==> r == i && final(self).fds@ == old(self).fds@.update(
                    i,
                    FileDescriptor { backend: FILE_RESERVED, ..old(self).fds@[i] },
                )
                &&& i == FDS_COUNT ==> r == -1 && final(self).fds@ == old(self).fds@
            }),
    {
        proof {
            lemma_first_free_fd(self.fds@, 0);
        }
        let mut i: usize = 0;
        while i < FDS_COUNT
            invariant
                i <= FDS_COUNT,
                self.fds@ == old(self).fds@,
                self.fds@.len() == FDS_COUNT,
                first_free_fd(self.fds@, 0) == first_free_fd(self.fds@, i as int),
            decreases FDS_COUNT - i,
        {
            if self.fds[i].backend == NO_FILE {
                self.fds[i].backend = FILE_RESERVED;
                return i as isize;
            }
            i = i + 1;
        }
        -1
    }

    /// Frees file descriptor `fd` when it is in range.
    pub fn proc_fd_release(&mut self, fd: isize)
        requires
            old(self).fds@.len() == FDS_COUNT,
        ensures
            final(self).fds@.len() == FDS_COUNT,
            0 <= fd < FDS_COUNT ==> final(self).fds@ == old(self).fds@.update(
                fd as int,
                FileDescriptor { backend: NO_FILE, ..old(self).fds@[fd as int] },
            ),
            !(0 <= fd < FDS_COUNT) ==> final(self).fds@ == old(self).fds@,
    {
        if 0 <= fd && (fd as usize) < FDS_COUNT {
            self.fds[fd as usize].backend = NO_FILE;
        }
    }

    /// Registers `act` as the action of signal `sig`, when given, and
    /// returns the previous action: `-EINVAL` for a signal out of range,
    /// and for a handler other than the default one for `SIGKILL`, which
    /// cannot be caught or ignored.
    pub fn sys_sigaction(&mut self, sig: isize, act: Option<SignalAction>) -> (r: Result<
        SignalAction,
        isize,
    >)
        requires
            old(self).sigaction@.len() == SIG_MAX + 1,
        ensures
            final(self).sigaction@.len() == SIG_MAX + 1,
            sigaction_refused(sig, act) ==> (r matches Err(e) && e == -EINVAL)
                && final(self).sigaction@ == old(self).sigaction@,
            !sigaction_refused(sig, act) ==> r == Ok::<SignalAction, isize>(
                old(self).sigaction@[sig as int],
            ) && final(self).sigaction@ == (match act {
                Some(a) => old(self).sigaction@.update(sig as int, a),
                None => old(self).sigaction@,
            }),
    {
        if sig < 1 || sig as usize > SIG_MAX {
            return Err(-EINVAL);
        }
        match act {
            Some(a) => {
                if sig == SIGKILL && a.sa_handler != SIG_DFL {
                    return Err(-EINVAL);
                }
            },
            None => {},
        }
        let old_act = self.sigaction[sig as usize];
        match act {
            Some(a) => {
                self.sigaction.set(sig as usize, a);
            },
            None => {},
        }
        Ok(old_act)
    }

    /// Sets the file mode creation mask to the permission bits of `mask`
    /// and returns the previous mask.
    pub fn sys_umask(&mut self, mask: u32) -> (r: u32)
        ensures
            r == old(self).mask,
            final(self).mask == mask & 0o777,
    {
        let cur = self.mask;
        self.mask = mask & 0o777;
        cur
    }

    /// Moves the heap pointer by `incr` bytes and returns the previous one;
    /// the heap region is resized to the heap's size rounded up to pages,
    /// in machine arithmetic.
    pub fn sys_sbrk(&mut self, incr: isize) -> (r: usize)
        requires
            old(self).heap_vm matches Some(h) && h < old(self).vm_space.vm_entries.len(),
        ensures
            r == old(self).heap,
            final(self).heap == old(self).heap.wrapping_add(incr as usize),
            ({
                let h = old(self).heap_vm.unwrap() as int;
                let size = final(self).heap.wrapping_sub(old(self).heap_start).wrapping_add(
                    4095,
                ) & !4095usize;
                final(self).vm_space.vm_entries@ == old(self).vm_space.vm_entries@.update(
                    h,
                    crate::vm::VmEntry { size, ..old(self).vm_space.vm_entries@[h] },
                )
            }),
            final(self).heap_start == old(self).heap_start,
            final(self).heap_vm == old(self).heap_vm,
    {
        let heap = self.heap;
        self.heap = heap.wrapping_add(incr as usize);
        let size = self.heap.wrapping_sub(self.heap_start).wrapping_add(4095) & !4095usize;
        match self.heap_vm {
            Some(h) => {
                self.vm_space.vm_entries[h].size = size;
            },
            None => {},
        }
        heap
    }

    /// Copies the current working directory, with its terminating zero,
    /// for a buffer of `size` bytes; the error when it does not fit.
    pub fn sys_getcwd(&self, size: usize) -> (r: Result<Vec<u8>, isize>)
        requires
            self.cwd.len() < usize::MAX,
        ensures
            getcwd_result(self.cwd@, size) == 0 ==> (r matches Ok(v) && v@ == self.cwd@.push(0u8)),
            getcwd_result(self.cwd@, size) != 0 ==> (r matches Err(e) && e == getcwd_result(
                self.cwd@,
                size,
            )),
    {
        if size == 0 {
            return Err(-EINVAL);
        }
        let len = self.cwd.len();
        if size < len + 1 {
            return Err(-ERANGE);
        }
        let mut v: Vec<u8> = Vec::new();
        let mut i: usize = 0;
        while i < len
            invariant
                i <= len,
                len == self.cwd.len(),
                v@ == self.cwd@.take(i as int),
            decreases len - i,
        {
            v.push(self.cwd[i]);
            i = i + 1;
            assert(v@ =~= self.cwd@.take(i as int));
        }
        v.push(0u8);
        assert(self.cwd@.take(len as int) == self.cwd@);
        Ok(v)
    }
}

/// What `execve` leaves to do outside the process.
pub struct ExecveOutcome {
    /// 0, or the error when no binary format recognises the file.
    pub ret: isize,
    /// The regions the process had, to release.
    pub released: Vec<VmEntry>,
    /// The ranges `[start, end)` of the new program to fill with zeroes.
    pub zero: Vec<(usize, usize)>,
}

/// What a new program leaves of the process `p` in `n`: its parent, group,
/// working directory, creation mask, user, group, signal queue, exit
/// status, running flag and wait queue.
pub open spec fn execve_keeps(n: Process, p: Process) -> bool {
    &&& n.parent == p.parent
    &&& n.pgrp == p.pgrp
    &&& n.cwd@ == p.cwd@
    &&& n.mask == p.mask
    &&& n.uid == p.uid
    &&& n.gid == p.gid
    &&& n.sig_queue == p.sig_queue
    &&& n.exit == p.exit
    &&& n.running == p.running
    &&& n.wait_queue == p.wait_queue
}

impl Process {
    /// Replaces the program of the process by the program `file` at `path`,
    /// mapped from the file object `object`, `obj`, `thread` being the
    /// calling thread.
    ///
    /// When no format recognises the file, `-ENOEXEC` and nothing changes.
    /// Otherwise the old regions are released and the new program's take
    /// their place, with its heap, entry point and heap and stack regions,
    /// the main thread's stack, and `path` as the process's name; when the
    /// format's loader fails, the process is left with the regions of the
    /// segments loaded before the failure. The object gains a reference for
    /// each loadable segment loaded. Either way the call returns 0, the
    /// calling thread is marked not yet run and every signal action is
    /// reset to zero.
    pub fn proc_execve(&mut self, thread: usize, path: &[u8], file: &[u8], object: usize, obj: &mut VmObject) -> (o: ExecveOutcome)
        requires
            thread < old(self).threads.len(),
            old(obj).refcnt + 0x20000 <= usize::MAX,
        ensures
            !has_elf_magic(file@) ==> o.ret == -ENOEXEC && *final(self) == *old(self) && final(obj).refcnt
                == old(obj).refcnt,
            has_elf_magic(file@) ==> final(obj).refcnt == old(obj).refcnt + object_refs(elf_loaded(file@, object), object),
            final(obj).pages@ == old(obj).pages@,
            final(obj).objtype == old(obj).objtype,
            final(obj).pager == old(obj).pager,
            has_elf_magic(file@) ==> ({
                let n = *final(self);
                &&& o.ret == 0
                &&& o.released@ == old(self).vm_space.vm_entries@
                &&& n.sigaction@ == Seq::new((SIG_MAX + 1) as nat, |i: int| zero_action())
                &&& n.threads@.len() == old(self).threads@.len()
                &&& n.threads@[thread as int].spawned == 0
                &&& n.vm_space.pmap == old(self).vm_space.pmap
                &&& n.pid == old(self).pid
                &&& n.fds@ == old(self).fds@
                &&& execve_keeps(n, *old(self))
                &&& match elf_load_acc(file@, object) {
                    Some(acc) => {
                        let hs = heap_align(acc.heap as usize);
                        &&& o.zero@ == acc.zero
                        &&& n.vm_space.vm_entries@ == acc.entries + seq![heap_entry(hs), stack_entry()]
                        &&& n.heap_start == hs
                        &&& n.heap == hs
                        &&& n.entry == le32(file@, 24) as usize
                        &&& n.heap_vm == Some(acc.entries.len() as usize)
                        &&& n.stack_vm == Some((acc.entries.len() + 1) as usize)
                        &&& n.threads@[0].stack.base == USER_STACK_BASE
                        &&& n.threads@[0].stack.size == USER_STACK_BASE
                        &&& n.name@ == path@
                    },
                    None => {
                        &&& o.zero@ == elf_load_part(file@, object).zero
                        &&& n.vm_space.vm_entries@ == elf_load_part(file@, object).entries
                        &&& n.name@ == old(self).name@
                    },
                }
            }),
    {
        let res = binfmt_load(file, object, obj);
        match res {
            Err(e) => ExecveOutcome { ret: e, released: Vec::new(), zero: Vec::new() },
            Ok(img) => {
                let mut released: Vec<VmEntry> = Vec::new();
                std::mem::swap(&mut released, &mut self.vm_space.vm_entries);
                let mut zero: Vec<(usize, usize)> = Vec::new();
                match img {
                    Ok(x) => {
                        let ghost gx = x;
                        let ExecImage {
                            entries,
                            zero: z,
                            heap_start,
                            heap,
                            entry,
                            heap_vm,
                            stack_vm,
                            stack_base,
                            stack_size,
                        } = x;
                        self.vm_space.vm_entries = entries;
                        zero = z;
                        self.heap_start = heap_start;
                        self.heap = heap;
                        self.entry = entry;
                        self.heap_vm = Some(heap_vm);
                        self.stack_vm = Some(stack_vm);
                        self.threads[0].stack.base = stack_base;
                        self.threads[0].stack.size = stack_size;
                        self.name = vstd::slice::slice_to_vec(path);
                        proof {
                            assert(exec_image_of(gx, elf_load_acc(file@, object).unwrap(), file@));
                        }
                    },
                    Err(p) => {
                        self.vm_space.vm_entries = p.entries;
                        zero = p.zero;
                    },
                }
                self.threads[thread].spawned = 0;
                self.sigaction = zero_actions();
                ExecveOutcome { ret: 0, released, zero }
            },
        }
    }
}

impl Process {
    /// The `execve` system call from thread `thread` for the path `path`,
    /// whose file is `file`, mapped from the file object `object`, `obj`:
    /// `-ENOENT` for an empty path; else what `proc_execve` does, the
    /// thread being started afresh when it succeeds.
    pub fn sys_execve(&mut self, thread: usize, path: &[u8], file: &[u8], object: usize, obj: &mut VmObject) -> (r: Result<
        ExecveOutcome,
        isize,
    >)
        requires
            thread < old(self).threads.len(),
            old(obj).refcnt + 0x20000 <= usize::MAX,
        ensures
            path@.len() > 0 && path@[0] != 0 && has_elf_magic(file@) ==> final(obj).refcnt == old(obj).refcnt
                + object_refs(elf_loaded(file@, object), object),
            !(path@.len() > 0 && path@[0] != 0 && has_elf_magic(file@)) ==> final(obj).refcnt == old(obj).refcnt,
            path@.len() == 0 || path@[0] == 0 ==> (r matches Err(e) && e == -ENOENT) && *final(self)
                == *old(self),
            path@.len() > 0 && path@[0] != 0 && !has_elf_magic(file@) ==> (r matches Ok(o) && o.ret
                == -ENOEXEC) && *final(self) == *old(self),
            path@.len() > 0 && path@[0] != 0 && has_elf_magic(file@) ==> (r matches Ok(o) && o.ret
                == 0 && o.released@ == old(self).vm_space.vm_entries@)
                && final(self).threads@.len() == old(self).threads@.len()
                && final(self).threads@[thread as int].spawned == 1
                && final(self).sigaction@ == Seq::new((SIG_MAX + 1) as nat, |i: int| zero_action())
                && final(self).pid == old(self).pid && final(self).fds@ == old(self).fds@
                && execve_keeps(*final(self), *old(self)),
    {
        if path.len() == 0 || path[0] == 0 {
            return Err(-ENOENT);
        }
        let o = self.proc_execve(thread, path, file, object, obj);
        if o.ret == 0 {
            crate::sched::sched_thread_spawn(&mut self.threads[thread]);
        }
        Ok(o)
    }

    /// The `chdir` system call for `path`, `lookup` being what looking
    /// `path` up gave: the absolute path of the node found and whether it is
    /// a directory, or an error. `-ENOENT` for an empty path, the lookup's
    /// error when it fails, `-ENOTDIR` when the node is no directory; else
    /// the directory becomes the working directory and the call returns 0.
    pub fn sys_chdir(&mut self, path: &[u8], lookup: Result<(Vec<u8>, bool), isize>) -> (r: isize)
        ensures
            path@.len() == 0 || path@[0] == 0 ==> r == -ENOENT && *final(self) == *old(self),
            path@.len() > 0 && path@[0] != 0 ==> match lookup {
                Err(e) => r == e && *final(self) == *old(self),
                Ok(x) => if x.1 {
                    r == 0 && *final(self) == (Process { cwd: x.0, ..*old(self) })
                } else {
                    r == -ENOTDIR && *final(self) == *old(self)
                },
            },
    {
        if path.len() == 0 || path[0] == 0 {
            return -ENOENT;
        }
        match lookup {
            Ok((abs, is_dir)) => {
                if !is_dir {
                    return -ENOTDIR;
                }
                self.cwd = abs;
                0
            },
            Err(e) => e,
        }
    }
}

/// Gives `fork` a copy of the file descriptors of `parent`; returns the
/// references to open backends that the copy adds, in order.
pub fn copy_fds(parent: &Process, fork: &mut Process) -> (refs: Vec<FdRef>)
    ensures
        final(fork).fds@ == parent.fds@,
        refs@ == fd_refs(parent.fds@),
        *final(fork) == (Process { fds: final(fork).fds, ..*old(fork) }),
{
    let mut fds: Vec<FileDescriptor> = Vec::new();
    let mut refs: Vec<FdRef> = Vec::new();
    let mut i: usize = 0;
    while i < parent.fds.len()
        invariant
            i <= parent.fds.len(),
            fds@ == parent.fds@.take(i as int),
            refs@ == fd_refs(parent.fds@.take(i as int)),
        decreases parent.fds.len() - i,
    {
        let f = parent.fds[i];
        proof {
            assert(parent.fds@.take(i as int + 1).drop_last() == parent.fds@.take(i as int));
        }
        fds.push(f);
        if f.backend != NO_FILE && f.backend != FILE_RESERVED {
            refs.push(FdRef { socket: f.flags & FILE_SOCKET != 0, handle: f.backend });
        }
        i = i + 1;
        assert(fds@ =~= parent.fds@.take(i as int));
    }
    assert(parent.fds@.take(parent.fds.len() as int) == parent.fds@);
    fork.fds = fds;
    refs
}

/// Copies into `fork` what a forked process inherits from `parent`: its
/// process group, creation mask, user and group, heap, entry point and
/// signal actions; returns 0.
pub fn fork_proc_copy(parent: &Process, fork: &mut Process) -> (r: isize)
    ensures
        r == 0,
        final(fork).pgrp == parent.pgrp,
        final(fork).mask == parent.mask,
        final(fork).uid == parent.uid,
        final(fork).gid == parent.gid,
        final(fork).heap_start == parent.heap_start,
        final(fork).heap == parent.heap,
        final(fork).entry == parent.entry,
        final(fork).sigaction@ == parent.sigaction@,
        *final(fork) == (Process {
            pgrp: parent.pgrp,
            mask: parent.mask,
            uid: parent.uid,
            gid: parent.gid,
            heap_start: parent.heap_start,
            heap: parent.heap,
            entry: parent.entry,
            sigaction: final(fork).sigaction,
            ..*old(fork)
        }),
{
    fork.pgrp = parent.pgrp;
    fork.mask = parent.mask;
    fork.uid = parent.uid;
    fork.gid = parent.gid;
    fork.heap_start = parent.heap_start;
    fork.heap = parent.heap;
    fork.entry = parent.entry;
    let mut acts: Vec<SignalAction> = Vec::new();
    let mut i: usize = 0;
    while i < parent.sigaction.len()
        invariant
            i <= parent.sigaction.len(),
            acts@ == parent.sigaction@.take(i as int),
        decreases parent.sigaction.len() - i,
    {
        acts.push(parent.sigaction[i]);
        i = i + 1;
        assert(acts@ =~= parent.sigaction@.take(i as int));
    }
    assert(parent.sigaction@.take(parent.sigaction.len() as int) == parent.sigaction@);
    fork.sigaction = acts;
    0
}

} // verus!
