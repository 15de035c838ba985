use vstd::prelude::*;

verus! {

/// No such process.
pub const ESRCH: isize = 3;

/// Interrupted system call.
pub const EINTR: isize = 4;

/// Exec format error.
pub const ENOEXEC: isize = 8;

/// No children.
pub const ECHILD: isize = 10;

/// Resource temporarily unavailable.
pub const EAGAIN: isize = 11;

/// Not enough space.
pub const ENOMEM: isize = 12;

/// No such file or directory.
pub const ENOENT: isize = 2;

/// Invalid argument.
pub const ENOTDIR: isize = 20;

pub const EINVAL: isize = 22;

/// Too many open files.
pub const EMFILE: isize = 24;

/// Result too large.
pub const ERANGE: isize = 34;

/// File descriptor in bad state.
pub const EBADFD: isize = 81;

/// Function not implemented.
pub const ENOSYS: isize = 88;

/// Address family not supported by protocol family.
pub const EAFNOSUPPORT: isize = 106;

/// Not supported.
pub const ENOTSUP: isize = 134;

} // verus!
