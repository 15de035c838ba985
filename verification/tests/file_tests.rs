use aquila::file::{FileDescriptor, IoStep, NO_FILE, O_CREAT, O_NONBLOCK, O_RDWR, O_WRONLY};
use aquila::process::{PidMap, Process, FDS_COUNT};
use aquila::syscall::{sys_uname, OpenStep};

fn with_fds() -> Process {
    let mut p = Process::new_zeroed();
    p.fds = vec![FileDescriptor::empty(); FDS_COUNT];
    p
}

#[test]
fn open_success_path() {
    let mut p = with_fds();
    let s = p.sys_open_begin();
    assert_eq!(s, OpenStep::Lookup { fd: 0 });
    let s = p.sys_open_lookup(0, O_RDWR, Ok(42));
    assert_eq!(s, OpenStep::CheckPerms { fd: 0 });
    assert_eq!(p.fds[0], FileDescriptor { backend: 42, offset: 0, flags: O_RDWR });
    assert_eq!(p.sys_open_finish(0, 0, false), OpenStep::OpenFile { fd: 0 });
    assert_eq!(p.sys_open_finish(0, 0, true), OpenStep::Done { ret: 0, close: false });
}

#[test]
fn open_creates_missing_file() {
    let mut p = with_fds();
    assert_eq!(p.sys_open_begin(), OpenStep::Lookup { fd: 0 });
    assert_eq!(p.sys_open_lookup(0, O_CREAT | O_WRONLY, Err(-2)), OpenStep::Create { fd: 0 });
    assert_eq!(p.sys_open_create(0, O_CREAT | O_WRONLY, Ok(7)), OpenStep::CheckPerms { fd: 0 });
    assert_eq!(p.fds[0].backend, 7);
}

#[test]
fn open_failures_release_descriptor() {
    let mut p = with_fds();
    p.sys_open_begin();
    assert_eq!(p.sys_open_lookup(0, O_RDWR, Err(-2)), OpenStep::Done { ret: -2, close: true });
    assert_eq!(p.fds[0].backend, NO_FILE);
    p.sys_open_begin();
    assert_eq!(p.sys_open_create(0, O_CREAT, Err(-13)), OpenStep::Done { ret: -13, close: false });
    assert_eq!(p.fds[0].backend, NO_FILE);
    p.sys_open_begin();
    p.sys_open_lookup(0, O_RDWR, Ok(3));
    assert_eq!(p.sys_open_finish(0, -13, false), OpenStep::Done { ret: -13, close: true });
    assert_eq!(p.fds[0].backend, NO_FILE);
    for _ in 0..FDS_COUNT {
        p.sys_open_begin();
    }
    assert_eq!(p.sys_open_begin(), OpenStep::Done { ret: -24, close: false });
}

#[test]
fn read_steps() {
    let mut f = FileDescriptor { backend: 3, offset: 10, flags: 0 };
    assert_eq!(f.read_begin(0), IoStep::Return { ret: 0, wake: false });
    assert_eq!(f.read_begin(5), IoStep::Transfer { offset: 10, size: 5 });
    assert_eq!(f.read_result(5, Ok(4), false), IoStep::Return { ret: 4, wake: true });
    assert_eq!(f.offset, 14);
    assert_eq!(f.read_result(5, Ok(0), true), IoStep::Return { ret: 0, wake: false });
    assert_eq!(f.read_result(5, Ok(0), false), IoStep::Sleep);
    assert_eq!(f.read_result(5, Err(-5), false), IoStep::Return { ret: -5, wake: false });
    let mut g = FileDescriptor { backend: 3, offset: 0, flags: O_NONBLOCK };
    assert_eq!(g.read_result(5, Ok(0), false), IoStep::Return { ret: -11, wake: false });
    let w = FileDescriptor { backend: 3, offset: 0, flags: O_WRONLY };
    assert_eq!(w.read_begin(5), IoStep::Return { ret: -81, wake: false });
}

#[test]
fn write_steps() {
    let r = FileDescriptor { backend: 3, offset: 0, flags: 0 };
    assert_eq!(r.write_begin(4), IoStep::Return { ret: -81, wake: false });
    let mut nb = FileDescriptor { backend: 3, offset: 2, flags: O_WRONLY | O_NONBLOCK };
    assert_eq!(nb.write_begin(4), IoStep::CheckWritable { size: 4 });
    assert_eq!(nb.write_checked(4, false), IoStep::Return { ret: -11, wake: false });
    assert_eq!(nb.write_checked(4, true), IoStep::Transfer { offset: 2, size: 4 });
    assert_eq!(nb.write_nonblock_result(Ok(3)), IoStep::Return { ret: 3, wake: true });
    assert_eq!(nb.offset, 5);
    let mut b = FileDescriptor { backend: 3, offset: 100, flags: O_RDWR };
    assert_eq!(b.write_begin(10), IoStep::Transfer { offset: 100, size: 10 });
    assert_eq!(b.write_block_result(10, 10, Ok(4), false), (IoStep::Sleep, 6));
    assert_eq!(b.offset, 100);
    assert_eq!(b.write_block_result(10, 6, Ok(6), false), (IoStep::Return { ret: 10, wake: true }, 0));
    assert_eq!(b.offset, 110);
    assert_eq!(b.write_block_result(10, 10, Ok(2), true), (IoStep::Return { ret: 2, wake: true }, 8));
    assert_eq!(b.write_block_result(10, 10, Err(-28), false), (IoStep::Return { ret: -28, wake: false }, 10));
}

#[test]
fn pid_alloc_free_roundtrip() {
    let mut m = PidMap::new();
    let p = m.proc_pid_alloc();
    let before = m.bitmap.check(p as usize);
    m.proc_pid_free(p);
    assert!(before);
    assert!(!m.bitmap.check(p as usize));
}

#[test]
fn readdir_steps() {
    let mut f = FileDescriptor { backend: 3, offset: 40, flags: 0 };
    assert_eq!(f.readdir_begin(), Ok(40));
    assert_eq!(f.readdir_result(Ok(24)), 24);
    assert_eq!(f.offset, 64);
    assert_eq!(f.readdir_result(Err(-2)), -2);
    assert_eq!(f.offset, 64);
    let w = FileDescriptor { backend: 3, offset: 0, flags: O_WRONLY };
    assert_eq!(w.readdir_begin(), Err(-81));
}

#[test]
fn uname_names() {
    let u = sys_uname();
    assert_eq!(u.sysname, "AquilaOS");
    assert_eq!(u.nodename, "aquila");
    assert_eq!(u.release, "v0.1.0");
    assert_eq!(u.machine, "i386");
    assert!(u.version.starts_with("(rustc 1.45.0"));
}

#[test]
fn read_interrupted_by_signal() {
    let f = FileDescriptor { backend: 1, offset: 10, flags: O_RDWR };
    assert_eq!(f.read_woken(5, 1), IoStep::Return { ret: -4, wake: false });
    assert_eq!(f.read_woken(5, 0), IoStep::Transfer { offset: 10, size: 5 });
}

#[test]
fn blocking_write_of_nothing() {
    let f = FileDescriptor { backend: 1, offset: 10, flags: O_WRONLY };
    assert_eq!(f.write_begin(0), IoStep::Return { ret: 0, wake: true });
    let nb = FileDescriptor { backend: 1, offset: 10, flags: O_WRONLY | O_NONBLOCK };
    assert_eq!(nb.write_begin(0), IoStep::CheckWritable { size: 0 });
}
