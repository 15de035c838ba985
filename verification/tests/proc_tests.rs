use aquila::buddy::BuddyAllocator;
use aquila::fault::Mm;
use aquila::pages::PageTable;
use aquila::file::{FileDescriptor, FILE_RESERVED, NO_FILE, SEEK_CUR, SEEK_END, SEEK_SET};
use aquila::proc::{Kernel, SigDelivery, WaitOutcome, WNOHANG};
use aquila::sched::{Scheduler, ThreadRef};
use aquila::process::{copy_fds, fork_proc_copy, proc_exit, FdRef, PidMap, Process, FDS_COUNT};
use aquila::signal::{sig_default_action, SignalAction, SignalDefaultAction, SIGCHLD, SIGTERM};
use aquila::socket::{socket_bind, socket_create, SocketAddress};
use aquila::syscall::{
    FdSet, JoinOutcome, SocketIO, MmapArgs, F_DUPFD, F_GETFD, F_SETFD, MAP_FIXED, MAP_SHARED, PROT_READ,
    PROT_WRITE,
};
use aquila::thread::{Thread, ThreadState};
use aquila::vm::VmEntry;

fn kernel() -> Kernel {
    Kernel {
        procs: vec![],
        pgroups: vec![],
        sessions: vec![],
        pids: PidMap::new(),
        mm: Mm {
            buddy: BuddyAllocator::buddy_setup(0x2000000, 0x100000, 0x200000),
            pages: PageTable::new(0x2000),
            anons: vec![],
            arefs: vec![],
            objects: vec![],
        },
    }
}

fn init_kernel() -> Kernel {
    let mut k = kernel();
    let i = k.proc_new(100);
    assert_eq!(i, 0);
    assert_eq!(k.proc_init(0), 0);
    assert_eq!(k.session_new(0), 0);
    k.procs[0].name = b"init".to_vec();
    k.procs[0].cwd = b"/".to_vec();
    k
}

#[test]
fn pid_alloc_takes_smallest_free() {
    let mut m = PidMap::new();
    assert_eq!(m.proc_pid_alloc(), 1);
    assert_eq!(m.proc_pid_alloc(), 2);
    assert_eq!(m.proc_pid_alloc(), 3);
    m.proc_pid_free(2);
    assert_eq!(m.ff_pid, 2);
    assert_eq!(m.proc_pid_alloc(), 2);
    assert_eq!(m.proc_pid_alloc(), 4);
}

#[test]
fn fd_get_and_release() {
    let mut k = init_kernel();
    let p = &mut k.procs[0];
    assert_eq!(p.fds.len(), FDS_COUNT);
    assert_eq!(p.proc_fd_get(), 0);
    assert_eq!(p.fds[0].backend, FILE_RESERVED);
    assert_eq!(p.proc_fd_get(), 1);
    p.proc_fd_release(0);
    assert_eq!(p.fds[0].backend, NO_FILE);
    assert_eq!(p.proc_fd_get(), 0);
    p.proc_fd_release(-1);
    p.proc_fd_release(64);
    assert_eq!(p.fds[1].backend, FILE_RESERVED);
    for _ in 2..FDS_COUNT {
        assert!(p.proc_fd_get() >= 0);
    }
    assert_eq!(p.proc_fd_get(), -1);
}

#[test]
fn fork_copies_process() {
    let mut k = init_kernel();
    k.procs[0].fds[3] = FileDescriptor { backend: 5, offset: 0, flags: 0 };
    let o = k.proc_fork(0, 200);
    assert_eq!(o.child, 1);
    assert_eq!(o.pid, 2);
    assert_eq!(o.refs, vec![FdRef { socket: false, handle: 5 }]);
    let c = &k.procs[1];
    assert_eq!(c.pid, 2);
    assert_eq!(c.parent, Some(1));
    assert_eq!(c.running, 1);
    assert_eq!(c.name, b"init".to_vec());
    assert_eq!(c.cwd, b"/".to_vec());
    assert_eq!(c.threads.len(), 1);
    assert_eq!(c.threads[0].spawned, 1);
    assert_eq!(c.vm_space.pmap, 200);
    assert_eq!(c.fds[3].backend, 5);
    assert_eq!(c.sig_queue, Some(vec![]));
    assert_eq!(k.pgroups[0].procs, vec![1, 2]);
}

#[test]
fn signals_are_queued_or_handled() {
    let mut k = init_kernel();
    k.proc_fork(0, 200);
    assert_eq!(k.signal_send(0, 2, SIGTERM), Ok(SigDelivery::Queued { wake: None }));
    assert_eq!(k.procs[1].sig_queue, Some(vec![SIGTERM]));
    assert_eq!(k.signal_send(0, 1, SIGTERM), Ok(SigDelivery::Handle));
    assert_eq!(k.signal_send(0, 99, SIGTERM), Err(-3));
    k.procs[1].threads[0].state = ThreadState::ISLEEP;
    k.procs[1].threads[0].sleep_queue = Some(7);
    assert_eq!(k.signal_proc_send(1, 2, 0), SigDelivery::Queued { wake: Some(7) });
}

#[test]
fn waitpid_kill_reap() {
    let mut k = init_kernel();
    k.proc_fork(0, 200);
    assert_eq!(k.sys_waitpid(0, -1, WNOHANG), WaitOutcome::Return(0));
    assert_eq!(k.sys_waitpid(0, -1, 0), WaitOutcome::Sleep);
    assert_eq!(k.sys_waitpid(0, 2, 0), WaitOutcome::Sleep);
    assert_eq!(k.sys_waitpid(0, 5, 0), WaitOutcome::Return(-10));
    k.procs[1].exit = proc_exit(3, 0);
    let o = k.proc_kill(&mut Scheduler::new(1), 1, 1, None);
    assert_eq!(o.sigchld, Some(SigDelivery::Queued { wake: None }));
    assert_eq!(k.procs[0].sig_queue, Some(vec![SIGCHLD]));
    assert!(!o.kill_current);
    assert_eq!(o.pmap, 200);
    assert_eq!(k.procs.len(), 2);
    assert_eq!(k.procs[1].running, 0);
    assert_eq!(k.pgroups[0].procs, vec![1]);
    assert_eq!(k.sys_waitpid(0, -1, 0), WaitOutcome::Reaped { pid: 2, status: 0x300 });
    assert_eq!(k.procs.len(), 1);
    assert_eq!(k.sys_waitpid(0, -1, WNOHANG), WaitOutcome::Return(-10));
    assert_eq!(k.pids.proc_pid_alloc(), 2);
}

#[test]
fn kill_orphan_is_reaped_and_children_orphaned() {
    let mut k = init_kernel();
    k.proc_fork(0, 200);
    k.proc_fork(1, 300);
    k.procs[1].parent = None;
    let o = k.proc_kill(&mut Scheduler::new(1), 1, 1, Some(1));
    assert!(o.kill_current);
    assert_eq!(o.sigchld, None);
    assert_eq!(k.procs.len(), 2);
    assert_eq!(k.procs[1].pid, 3);
    assert_eq!(k.procs[1].parent, None);
}

#[test]
fn process_groups() {
    let mut k = init_kernel();
    assert_eq!(k.sessions[0].sid, 1);
    assert_eq!(k.pgroups[0].pgid, 1);
    assert_eq!(k.pgroups[0].procs, vec![1]);
    assert_eq!(k.pgrp_new(0), 0);
    assert_eq!(k.pgroups.len(), 2);
    assert_eq!(k.pgroups[0].procs, Vec::<isize>::new());
    assert_eq!(k.pgroups[1].procs, vec![1]);
    assert_eq!(k.sessions[0].pgps, vec![0, 1]);
    assert_eq!(k.procs[0].pgrp, 1);
}

#[test]
fn find_by_pid() {
    let mut k = init_kernel();
    k.proc_fork(0, 200);
    assert_eq!(k.proc_pid_find(2), Some(1));
    assert_eq!(k.proc_pid_find(9), None);
}

#[test]
fn copy_helpers() {
    let mut parent = Process::new_zeroed();
    parent.mask = 0o22;
    parent.uid = 5;
    parent.heap = 0x9000;
    parent.sigaction[2] = SignalAction { sa_handler: 0x1234, sa_mask: 1, sa_flags: 0 };
    parent.fds = vec![
        FileDescriptor { backend: 4, offset: 0, flags: 0x80000000 },
        FileDescriptor { backend: FILE_RESERVED, offset: 0, flags: 0 },
    ];
    let mut fork = Process::new_zeroed();
    assert_eq!(fork_proc_copy(&parent, &mut fork), 0);
    assert_eq!(fork.mask, 0o22);
    assert_eq!(fork.uid, 5);
    assert_eq!(fork.heap, 0x9000);
    assert_eq!(fork.sigaction[2].sa_handler, 0x1234);
    let refs = copy_fds(&parent, &mut fork);
    assert_eq!(refs, vec![FdRef { socket: true, handle: 4 }]);
    assert_eq!(fork.fds.len(), 2);
}

#[test]
fn proc_exit_status() {
    assert_eq!(proc_exit(3, 0), 0x300);
    assert_eq!(proc_exit(0, 0x1ff), 0xff);
    assert_eq!(proc_exit(0x101, 2), 0x102);
}

#[test]
fn default_signal_actions() {
    assert_eq!(sig_default_action(0), SignalDefaultAction::SIGACT_IGNORE);
    assert_eq!(sig_default_action(9), SignalDefaultAction::SIGACT_TERMINATE);
    assert_eq!(sig_default_action(11), SignalDefaultAction::SIGACT_ABORT);
    assert_eq!(sig_default_action(17), SignalDefaultAction::SIGACT_STOP);
    assert_eq!(sig_default_action(19), SignalDefaultAction::SIGACT_CONTINUE);
    assert_eq!(sig_default_action(20), SignalDefaultAction::SIGACT_IGNORE);
}

#[test]
fn thread_kill_and_new() {
    let mut t = Thread::new(3, 7);
    assert_eq!(t.state, ThreadState::RUNNABLE);
    assert_eq!(t.kill(), 0);
    assert_eq!(t.state, ThreadState::ZOMBIE);
    assert_eq!(t.tid, 3);
    let mut p = Process::new_zeroed();
    p.pid = 4;
    assert_eq!(p.new_thread(), 0);
    assert_eq!(p.new_thread(), 0);
    assert_eq!(p.threads[1].tid, 2);
    assert_eq!(p.threads[1].owner, 4);
}

fn proc_with_file() -> Process {
    let mut k = init_kernel();
    let mut p = k.procs.remove(0);
    p.fds[3] = FileDescriptor { backend: 5, offset: 10, flags: 0x2 };
    p
}

#[test]
fn close_and_lseek() {
    let mut p = proc_with_file();
    assert_eq!(p.sys_lseek(3, 5, SEEK_CUR, 100), 15);
    assert_eq!(p.sys_lseek(3, -2, SEEK_END, 100), 98);
    assert_eq!(p.sys_lseek(3, 7, SEEK_SET, 100), 7);
    assert_eq!(p.sys_lseek(3, 1, 9, 100), 7);
    assert_eq!(p.sys_lseek(4, 1, SEEK_SET, 100), -81);
    assert_eq!(p.sys_lseek(-1, 1, SEEK_SET, 100), -81);
    assert_eq!(p.sys_close(-1).err(), Some(-81));
    assert_eq!(p.sys_close(4).err(), Some(-81));
    let f = p.sys_close(3).unwrap();
    assert_eq!(f.backend, 5);
    assert_eq!(p.fds[3].backend, NO_FILE);
}

#[test]
fn fcntl_commands() {
    let mut p = proc_with_file();
    assert_eq!(p.sys_fcntl(3, F_GETFD, 0), 2);
    assert_eq!(p.sys_fcntl(3, F_SETFD, 3), 0);
    assert_eq!(p.fds[3].flags, 3);
    assert_eq!(p.sys_fcntl(3, F_DUPFD, 0), 0);
    assert_eq!(p.fds[0].backend, 5);
    assert_eq!(p.sys_fcntl(3, F_DUPFD, 10), 10);
    assert_eq!(p.fds[10].backend, 5);
    assert_eq!(p.sys_fcntl(3, 7, 0), -22);
    assert_eq!(p.sys_fcntl(99, F_GETFD, 0), -81);
}

#[test]
fn mmap_and_munmap() {
    let mut p = proc_with_file();
    let a = VmEntry { paddr: 0, base: 0x1000, size: 0x1000, flags: 0x10, vm_anon: None, vm_object: None, off: 0 };
    let b = VmEntry { paddr: 0, base: 0x80000000, size: 0x1000, flags: 0x10, vm_anon: None, vm_object: None, off: 0 };
    p.vm_space.vm_entries = vec![a, b];
    let args = MmapArgs { addr: 0x40000000, len: 0x2000, prot: PROT_READ | PROT_WRITE, flags: MAP_SHARED | MAP_FIXED, fildes: 3, off: 0 };
    let o = p.sys_mmap(args, 9).unwrap();
    assert_eq!(o.base, 0x40000000);
    assert!(o.map);
    assert_eq!(o.entry.flags, 0x130);
    assert_eq!(o.entry.vm_object, Some(9));
    assert_eq!(p.vm_space.vm_entries.len(), 3);
    assert_eq!(p.vm_space.vm_entries[1], o.entry);
    let bad = MmapArgs { fildes: 4, ..args };
    assert_eq!(p.sys_mmap(bad, 9).err(), Some(-81));
    assert_eq!(p.sys_munmap(0x40000000, 0x2000), Ok(o.entry));
    assert_eq!(p.sys_munmap(0x40000000, 0x2000), Err(-22));
    assert_eq!(p.vm_space.vm_entries, vec![a, b]);
}

#[test]
fn process_syscalls() {
    let mut p = proc_with_file();
    p.mask = 0o22;
    assert_eq!(p.sys_umask(0o1777), 0o22);
    assert_eq!(p.mask, 0o777);
    assert_eq!(p.sys_sigaction(0, None).err(), Some(-22));
    assert_eq!(p.sys_sigaction(27, None).err(), Some(-22));
    let act = SignalAction { sa_handler: 0x4000, sa_mask: 0, sa_flags: 1 };
    assert_eq!(p.sys_sigaction(2, Some(act)), Ok(SignalAction { sa_handler: 0, sa_mask: 0, sa_flags: 0 }));
    assert_eq!(p.sys_sigaction(2, None), Ok(act));
    p.heap_start = 0x1000;
    p.heap = 0x1000;
    p.vm_space.vm_entries = vec![VmEntry { paddr: 0, base: 0x1000, size: 0, flags: 0x30, vm_anon: None, vm_object: None, off: 0 }];
    p.heap_vm = Some(0);
    assert_eq!(p.sys_sbrk(0x1800), 0x1000);
    assert_eq!(p.heap, 0x2800);
    assert_eq!(p.vm_space.vm_entries[0].size, 0x2000);
    p.cwd = b"/usr".to_vec();
    assert_eq!(p.sys_getcwd(0).err(), Some(-22));
    assert_eq!(p.sys_getcwd(4).err(), Some(-34));
    assert_eq!(p.sys_getcwd(5), Ok(b"/usr\0".to_vec()));
}

#[test]
fn thread_join_outcomes() {
    let mut p = Process::new_zeroed();
    p.threads = vec![Thread::new(1, 0), Thread::new(2, 0)];
    p.threads[1].kill();
    assert_eq!(p.sys_thread_join(2), JoinOutcome::Return(2));
    assert_eq!(p.sys_thread_join(1), JoinOutcome::Sleep);
    assert_eq!(p.sys_thread_join(9), JoinOutcome::Return(-10));
}

#[test]
fn select_keeps_ready() {
    let p = Process::new_zeroed();
    let mut r = Some(FdSet { fds_bits: [0b101, 0] });
    let mut w = Some(FdSet { fds_bits: [0b010, 0] });
    let n = p.sys_select(3, &mut r, &mut w, &vec![true, true, false], &vec![false, true, false]);
    assert_eq!(n, 2);
    assert_eq!(r.unwrap().fds_bits, [0b001, 0]);
    assert_eq!(w.unwrap().fds_bits, [0b010, 0]);
    let mut none: Option<FdSet> = None;
    let mut w2 = Some(FdSet { fds_bits: [0b1, 0b1] });
    assert_eq!(p.sys_select(1, &mut none, &mut w2, &vec![true], &vec![false]), 0);
    assert_eq!(w2.unwrap().fds_bits, [0, 1]);
}

#[test]
fn sockets_unsupported() {
    let mut f = FileDescriptor::empty();
    assert_eq!(socket_create(&mut f, 1, 1, 0), -106);
    assert_eq!(socket_bind(&mut f, SocketAddress { sa_family: 1 }, 0), -22);
}

#[test]
fn execve_replaces_program() {
    let mut p = Process::new_zeroed();
    p.new_thread();
    p.vm_space.vm_entries = vec![VmEntry::none()];
    p.sigaction[3] = SignalAction { sa_handler: 9, sa_mask: 0, sa_flags: 0 };
    let bad = p.proc_execve(0, b"/bin/x", b"not an executable", 1, &mut aquila::vm::VmObject::new(0));
    assert_eq!(bad.ret, -8);
    assert_eq!(p.vm_space.vm_entries.len(), 1);
    assert_eq!(p.sigaction[3].sa_handler, 9);
    let mut b = vec![0u8; 84];
    b[0] = 0x7f;
    b[1] = b'E';
    b[2] = b'L';
    b[3] = b'F';
    b[4] = 1;
    b[24] = 0x80;
    b[28] = 52;
    b[42] = 32;
    b[44] = 1;
    b[52] = 1;
    b[60..64].copy_from_slice(&0x08048000u32.to_le_bytes());
    b[68..72].copy_from_slice(&0x100u32.to_le_bytes());
    b[72..76].copy_from_slice(&0x100u32.to_le_bytes());
    b[76] = 5;
    let mut obj = aquila::vm::VmObject::new(0);
    let o = p.proc_execve(0, b"/bin/prog", &b, 1, &mut obj);
    assert_eq!(obj.refcnt, 1);
    assert_eq!(p.name, b"/bin/prog".to_vec());
    assert_eq!(o.ret, 0);
    assert_eq!(o.released, vec![VmEntry::none()]);
    assert_eq!(p.vm_space.vm_entries.len(), 3);
    assert_eq!(p.vm_space.vm_entries[0].base, 0x08048000);
    assert_eq!(p.heap_start, 0x08049000);
    assert_eq!(p.entry, 0x80);
    assert_eq!(p.heap_vm, Some(1));
    assert_eq!(p.stack_vm, Some(2));
    assert_eq!(p.sigaction[3].sa_handler, 0);
    assert_eq!(p.threads[0].spawned, 0);
}

#[test]
fn exit_sets_status_and_kills() {
    let mut k = init_kernel();
    k.proc_fork(0, 200);
    let o = k.sys_exit(&mut Scheduler::new(1), 1, 5, Some(1));
    assert_eq!(o.sigchld, Some(SigDelivery::Queued { wake: None }));
    assert_eq!(k.procs[0].sig_queue, Some(vec![SIGCHLD]));
    assert!(o.kill_current);
    assert_eq!(k.procs.len(), 2);
    assert_eq!(k.procs[1].exit, 0x500);
    assert_eq!(k.procs[1].running, 0);
    assert_eq!(k.sys_waitpid(0, 2, 0), WaitOutcome::Reaped { pid: 2, status: 0x500 });
}

#[test]
fn pgrp_signal_reaches_each_member() {
    let mut k = init_kernel();
    k.proc_fork(0, 200);
    k.procs[1].threads[0].state = ThreadState::ISLEEP;
    k.procs[1].threads[0].sleep_queue = Some(4);
    let r = k.signal_pgrp_send(0, SIGTERM, 0);
    assert_eq!(r, vec![SigDelivery::Handle, SigDelivery::Queued { wake: Some(4) }]);
    assert_eq!(k.procs[1].sig_queue, Some(vec![SIGTERM]));
    assert_eq!(k.procs[0].sig_queue, Some(vec![]));
}

#[test]
fn socket_syscalls() {
    let mut p = proc_with_file();
    let before = p.fds.clone();
    let a = SocketAddress { sa_family: 1 };
    assert_eq!(p.sys_socket(1, 4, 0), -106);
    assert_eq!(p.sys_accept(3, a, 0), -22);
    assert_eq!(p.sys_accept(64, a, 0), -81);
    assert_eq!(p.sys_bind(3, a, 0), -22);
    assert_eq!(p.sys_bind(-1, a, 0), -81);
    assert_eq!(p.sys_connect(3, a, 0), -22);
    assert_eq!(p.sys_connect(70, a, 0), -81);
    assert_eq!(p.sys_listen(3, 5), -22);
    assert_eq!(p.sys_listen(64, 5), -81);
    let io = SocketIO { fd: 3, buf: 0x1000, len: 2, flags: 0 };
    assert_eq!(p.sys_send(io, &[1, 2]), -22);
    let mut buf = vec![9u8];
    assert_eq!(p.sys_recv(SocketIO { fd: -2, ..io }, &mut buf), -81);
    assert_eq!(p.sys_recv(io, &mut buf), -22);
    assert_eq!(buf, vec![9u8]);
    assert_eq!(p.fds, before);
    for _ in 0..FDS_COUNT {
        p.proc_fd_get();
    }
    assert_eq!(p.sys_socket(1, 4, 0), -24);
    assert_eq!(p.sys_accept(3, a, 0), -24);
}

#[test]
fn descriptor_checks() {
    let mut p = proc_with_file();
    assert_eq!(p.sys_isatty(3), 1);
    assert_eq!(p.sys_isatty(4), -81);
    assert_eq!(p.sys_isatty(64), -81);
    assert_eq!(p.sys_file(3), Ok(3));
    assert_eq!(p.sys_file(63), Ok(63));
    assert_eq!(p.sys_file(-1), Err(-81));
    assert_eq!(p.sys_fstat(3), Ok(5));
    assert_eq!(p.sys_fstat(4), Err(-81));
    assert_eq!(p.sys_fstat(99), Err(-81));
    assert_eq!(p.sys_pipe(), (0, 1));
    assert_eq!(p.fds[0].backend, FILE_RESERVED);
    assert_eq!(p.fds[1].backend, FILE_RESERVED);
    assert_eq!(p.sys_pipe(), (2, 4));
}

#[test]
fn execve_syscall_checks_path() {
    let mut p = Process::new_zeroed();
    p.new_thread();
    assert_eq!(p.sys_execve(0, b"", b"\x7fELF", 1, &mut aquila::vm::VmObject::new(0)).err(), Some(-2));
    assert_eq!(p.sys_execve(0, b"\0bin", b"\x7fELF", 1, &mut aquila::vm::VmObject::new(0)).err(), Some(-2));
    let o = p.sys_execve(0, b"/bin/x", b"junk", 1, &mut aquila::vm::VmObject::new(0)).unwrap();
    assert_eq!(o.ret, -8);
    assert_eq!(p.threads[0].spawned, 0);
    let mut b = vec![0u8; 52];
    b[0] = 0x7f;
    b[1] = b'E';
    b[2] = b'L';
    b[3] = b'F';
    b[4] = 1;
    let o = p.sys_execve(0, b"/bin/x", &b, 1, &mut aquila::vm::VmObject::new(0)).unwrap();
    assert_eq!(o.ret, 0);
    assert_eq!(p.threads[0].spawned, 1);
}

#[test]
fn chdir_sets_working_directory() {
    let mut p = Process::new_zeroed();
    p.cwd = b"/".to_vec();
    assert_eq!(p.sys_chdir(b"", Err(-2)), -2);
    assert_eq!(p.cwd, b"/".to_vec());
    assert_eq!(p.sys_chdir(b"usr", Ok((b"/usr".to_vec(), true))), 0);
    assert_eq!(p.cwd, b"/usr".to_vec());
}

#[test]
fn kill_releases_regions() {
    let mut k = init_kernel();
    k.proc_fork(0, 200);
    k.mm.arefs = vec![aquila::vm::VmAref { vm_page: Some(0x7000), refcnt: 1, flags: 0 }];
    k.mm.anons = vec![aquila::vm::VmAnon { arefs: Some(vec![(0, 0)]), refcnt: 1, flags: 0 }];
    k.procs[1].vm_space.vm_entries = vec![VmEntry { paddr: 0, base: 0x1000, size: 0x1000, flags: 0x10, vm_anon: Some(0), vm_object: None, off: 0 }];
    let o = k.proc_kill(&mut Scheduler::new(1), 1, 1, None);
    assert_eq!(o.freed, vec![0x7000]);
    assert_eq!(o.pmap, 200);
    assert_eq!(k.mm.anons[0].refcnt, 0);
    assert_eq!(k.mm.arefs[0].refcnt, 0);
    assert!(k.procs[1].vm_space.vm_entries.is_empty());
}

#[test]
fn fork_then_kill_child_restores_counts() {
    let mut k = init_kernel();
    k.mm.arefs = vec![aquila::vm::VmAref { vm_page: Some(0x7000), refcnt: 1, flags: 0 }];
    k.mm.anons = vec![aquila::vm::VmAnon { arefs: Some(vec![(0, 0)]), refcnt: 1, flags: 0 }];
    k.procs[0].vm_space.vm_entries = vec![VmEntry { paddr: 0, base: 0x1000, size: 0x1000, flags: 0x30, vm_anon: Some(0), vm_object: None, off: 0 }];
    k.proc_fork(0, 200);
    assert_eq!(k.mm.anons[0].refcnt, 2);
    let o = k.proc_kill(&mut Scheduler::new(1), 1, 1, None);
    assert!(o.freed.is_empty());
    assert_eq!(k.mm.anons[0].refcnt, 1);
    assert_eq!(k.mm.anons[0].arefs, Some(vec![(0, 0)]));
    assert_eq!(k.mm.arefs[0].refcnt, 1);
}

#[test]
fn kill_takes_threads_off_queues() {
    let mut k = init_kernel();
    k.proc_fork(0, 200);
    let mut s = Scheduler::new(2);
    s.ready = vec![ThreadRef { pid: 2, tid: 1 }, ThreadRef { pid: 1, tid: 1 }];
    s.queues[1] = vec![ThreadRef { pid: 2, tid: 2 }];
    s.current = Some(ThreadRef { pid: 1, tid: 1 });
    k.proc_kill(&mut s, 1, 1, None);
    assert_eq!(s.ready, vec![ThreadRef { pid: 1, tid: 1 }]);
    assert!(s.queues[1].is_empty());
    assert_eq!(s.current, Some(ThreadRef { pid: 1, tid: 1 }));
}

#[test]
fn waitpid_frees_reaped_pid() {
    let mut k = init_kernel();
    k.proc_fork(0, 200);
    k.procs[1].running = 0;
    assert_eq!(k.sys_waitpid(0, 2, 0), WaitOutcome::Reaped { pid: 2, status: 0 });
    assert!(!k.pids.bitmap.check(2));
    assert_eq!(k.pids.proc_pid_alloc(), 2);
}

#[test]
fn sigkill_cannot_be_caught() {
    let mut p = Process::new_zeroed();
    let h = SignalAction { sa_handler: 0x400, sa_mask: 0, sa_flags: 0 };
    assert_eq!(p.sys_sigaction(9, Some(h)), Err(-22));
    assert_eq!(p.sigaction[9].sa_handler, 0);
    let d = SignalAction { sa_handler: 0, sa_mask: 3, sa_flags: 0 };
    assert!(p.sys_sigaction(9, Some(d)).is_ok());
    assert_eq!(p.sigaction[9], d);
    assert!(p.sys_sigaction(15, Some(h)).is_ok());
    assert_eq!(p.sigaction[15], h);
}

#[test]
fn chdir_errors() {
    let mut p = Process::new_zeroed();
    p.cwd = b"/".to_vec();
    assert_eq!(p.sys_chdir(b"nope", Err(-2)), -2);
    assert_eq!(p.sys_chdir(b"file", Ok((b"/file".to_vec(), false))), -20);
    assert_eq!(p.cwd, b"/".to_vec());
}

#[test]
fn execve_keeps_segments_loaded_before_failure() {
    let mut p = Process::new_zeroed();
    p.new_thread();
    p.name = b"sh".to_vec();
    p.parent = Some(3);
    p.uid = 9;
    p.cwd = b"/home".to_vec();
    p.vm_space.vm_entries = vec![VmEntry::none()];
    let mut b = vec![0u8; 100];
    b[0] = 0x7f;
    b[1] = b'E';
    b[2] = b'L';
    b[3] = b'F';
    b[4] = 1;
    b[28] = 52;
    b[42] = 32;
    b[44] = 2;
    b[52] = 1;
    b[60..64].copy_from_slice(&0x08048000u32.to_le_bytes());
    b[68..72].copy_from_slice(&0x100u32.to_le_bytes());
    b[72..76].copy_from_slice(&0x100u32.to_le_bytes());
    b[76] = 5;
    let mut obj = aquila::vm::VmObject::new(0);
    let o = p.proc_execve(0, b"/bin/prog", &b, 1, &mut obj);
    assert_eq!(o.ret, 0);
    assert_eq!(o.released, vec![VmEntry::none()]);
    assert_eq!(p.vm_space.vm_entries.len(), 1);
    assert_eq!(p.vm_space.vm_entries[0].base, 0x08048000);
    assert_eq!(p.vm_space.vm_entries[0].vm_object, Some(1));
    assert_eq!(p.name, b"sh".to_vec());
    assert_eq!(obj.refcnt, 1);
    assert_eq!(p.parent, Some(3));
    assert_eq!(p.uid, 9);
    assert_eq!(p.cwd, b"/home".to_vec());
}

#[test]
fn kill_wakes_parent_and_sends_sigchld() {
    let mut k = init_kernel();
    k.proc_fork(0, 200);
    k.proc_fork(0, 300);
    k.procs[0].wait_queue = 1;
    let mut s = Scheduler::new(3);
    s.queues[1] = vec![ThreadRef { pid: 1, tid: 1 }];
    s.queues[2] = vec![ThreadRef { pid: 2, tid: 1 }, ThreadRef { pid: 3, tid: 1 }];
    s.current = Some(ThreadRef { pid: 3, tid: 1 });
    k.procs[2].exit = 7;
    let o = k.proc_kill(&mut s, 1, 2, None);
    assert_eq!(o.sigchld, Some(SigDelivery::Queued { wake: None }));
    assert_eq!(s.ready, vec![ThreadRef { pid: 1, tid: 1 }]);
    assert!(s.queues[1].is_empty());
    assert_eq!(s.queues[2], vec![ThreadRef { pid: 3, tid: 1 }]);
    assert_eq!(k.procs[0].sig_queue, Some(vec![SIGCHLD]));
    assert_eq!(k.procs[2].exit, 7);
    assert_eq!(k.procs[2].sig_queue, Some(vec![]));
    assert_eq!(k.procs[2].parent, Some(1));
    assert_eq!(k.procs[2].name, b"init".to_vec());
}

#[test]
fn kill_by_parent_is_handled_at_once() {
    let mut k = init_kernel();
    k.proc_fork(0, 200);
    let mut s = Scheduler::new(1);
    let o = k.proc_kill(&mut s, 1, 0, None);
    assert_eq!(o.sigchld, Some(SigDelivery::Handle));
    assert_eq!(k.procs[0].sig_queue, Some(vec![]));
    assert_eq!(s.ready, vec![]);
}

#[test]
fn kill_leaves_grandchild_but_orphans_it() {
    let mut k = init_kernel();
    k.proc_fork(0, 200);
    k.proc_fork(1, 300);
    k.procs[2].uid = 5;
    let o = k.proc_kill(&mut Scheduler::new(1), 1, 1, None);
    assert_eq!(o.sigchld, Some(SigDelivery::Queued { wake: None }));
    assert_eq!(k.procs[2].parent, None);
    assert_eq!(k.procs[2].uid, 5);
    assert_eq!(k.procs[2].pid, 3);
}

#[test]
fn waitpid_interrupted_by_signal() {
    let mut k = init_kernel();
    k.proc_fork(0, 200);
    assert_eq!(k.sys_waitpid(0, 2, 0), WaitOutcome::Sleep);
    assert_eq!(k.sys_waitpid_woken(0, 2, 0, -1), WaitOutcome::Return(-4));
    assert_eq!(k.procs.len(), 2);
    assert_eq!(k.sys_waitpid_woken(0, 2, 0, 0), WaitOutcome::Sleep);
    k.procs[1].running = 0;
    assert_eq!(k.sys_waitpid_woken(0, -1, 0, 0), WaitOutcome::Reaped { pid: 2, status: 0 });
}

#[test]
fn fork_gives_unused_pid() {
    let mut k = init_kernel();
    k.proc_fork(0, 200);
    k.proc_fork(0, 300);
    k.procs[1].running = 0;
    assert_eq!(k.sys_waitpid(0, 2, 0), WaitOutcome::Reaped { pid: 2, status: 0 });
    let o = k.proc_fork(0, 400);
    assert_eq!(o.pid, 2);
    let pids: Vec<isize> = k.procs.iter().map(|p| p.pid).collect();
    assert_eq!(pids, vec![1, 3, 2]);
}

#[test]
fn new_process_is_zeroed() {
    let mut k = kernel();
    let i = k.proc_new(77);
    let p = &k.procs[i];
    assert_eq!(p.pid, 0);
    assert_eq!(p.running, 1);
    assert_eq!(p.vm_space.pmap, 77);
    assert_eq!(p.threads.len(), 1);
    assert!(p.name.is_empty() && p.cwd.is_empty() && p.fds.is_empty());
    assert_eq!((p.mask, p.uid, p.gid), (0, 0, 0));
    assert_eq!((p.heap_start, p.heap, p.entry, p.exit, p.wait_queue), (0, 0, 0, 0, 0));
    assert_eq!((p.heap_vm, p.stack_vm, p.parent), (None, None, None));
    assert_eq!(p.sigaction.len(), 27);
    assert!(p.sigaction.iter().all(|a| a.sa_handler == 0 && a.sa_mask == 0 && a.sa_flags == 0));
}
