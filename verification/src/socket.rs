use vstd::prelude::*;

use crate::errno::{EAFNOSUPPORT, EINVAL};
use crate::file::FileDescriptor;

verus! {

pub const SOCK_DGRAM: usize = 0x0001;

pub const SOCK_RAW: usize = 0x0002;

pub const SOCK_SEQPACKET: usize = 0x0003;

pub const SOCK_STREAM: usize = 0x0004;

pub const SOMAXCONN: usize = 1024;

pub const AF_INET: usize = 0x0001;

pub const AF_INET6: usize = 0x0002;

pub const AF_UNIX: usize = 0x0003;

pub const AF_UNSPEC: usize = 0x0004;

pub const SHUT_RD: usize = 0x0001;

pub const SHUT_WR: usize = 0x0002;

pub const SHUT_RDWR: usize = 0x0003;

/// A socket address: its family; the address bytes follow it in memory.
#[derive(Clone, Copy, Debug, PartialEq, Eq, Structural)]
pub struct SocketAddress {
    pub sa_family: u32,
}

/// The handlers of a socket domain, each named by a handle; `None` when the
/// domain has no such handler.
#[derive(Clone, Copy, Debug, PartialEq, Eq, Structural)]
pub struct SocketOps {
    pub accept: Option<usize>,
    pub bind: Option<usize>,
    pub connect: Option<usize>,
    pub listen: Option<usize>,
    pub recv: Option<usize>,
    pub send: Option<usize>,
    pub can_read: Option<usize>,
    pub can_write: Option<usize>,
    pub shutdown: Option<usize>,
}

/// A socket: its domain, type and protocol, its handlers and private
/// data by handle, and its reference count.
#[derive(Clone, Copy, Debug, PartialEq, Eq, Structural)]
pub struct Socket {
    pub domain: isize,
    pub sock_type: isize,
    pub protocol: isize,
    pub ops: Option<usize>,
    pub p: usize,
    pub refcnt: isize,
}

/// Creates a socket: no domain is supported, so `-EAFNOSUPPORT`.
pub fn socket_create(file: &mut FileDescriptor, domain: isize, sock_type: isize, protocol: isize) -> (r: isize)
    ensures
        r == -EAFNOSUPPORT,
        *final(file) == *old(file),
{
    -EAFNOSUPPORT
}

/// Accepts a connection: unsupported, `-EINVAL`.
pub fn socket_accept(file: &mut FileDescriptor, conn: &mut FileDescriptor, addr: SocketAddress, len: u32) -> (r: isize)
    ensures
        r == -EINVAL,
        *final(file) == *old(file),
        *final(conn) == *old(conn),
{
    -EINVAL
}

/// Binds a socket: unsupported, `-EINVAL`.
pub fn socket_bind(file: &mut FileDescriptor, addr: SocketAddress, len: usize) -> (r: isize)
    ensures
        r == -EINVAL,
        *final(file) == *old(file),
{
    -EINVAL
}

/// Connects a socket: unsupported, `-EINVAL`.
pub fn socket_connect(file: &mut FileDescriptor, addr: SocketAddress, len: usize) -> (r: isize)
    ensures
        r == -EINVAL,
        *final(file) == *old(file),
{
    -EINVAL
}

/// Listens on a socket: unsupported, `-EINVAL`.
pub fn socket_listen(file: &mut FileDescriptor, backlog: isize) -> (r: isize)
    ensures
        r == -EINVAL,
        *final(file) == *old(file),
{
    -EINVAL
}

/// Sends on a socket: unsupported, `-EINVAL`.
pub fn socket_send(file: &mut FileDescriptor, buf: &[u8], flags: isize) -> (r: isize)
    ensures
        r == -EINVAL,
        *final(file) == *old(file),
{
    -EINVAL
}

/// Receives from a socket: unsupported, `-EINVAL`.
pub fn socket_recv(file: &mut FileDescriptor, buf: &mut Vec<u8>, flags: isize) -> (r: isize)
    ensures
        r == -EINVAL,
        *final(file) == *old(file),
        final(buf)@ == old(buf)@,
{
    -EINVAL
}

/// Whether a socket can be read: unsupported, `-EINVAL`.
pub fn socket_can_read(file: &mut FileDescriptor, len: usize) -> (r: isize)
    ensures
        r == -EINVAL,
        *final(file) == *old(file),
{
    -EINVAL
}

/// Whether a socket can be written: unsupported, `-EINVAL`.
pub fn socket_can_write(file: &mut FileDescriptor, len: usize) -> (r: isize)
    ensures
        r == -EINVAL,
        *final(file) == *old(file),
{
    -EINVAL
}

/// Shuts a socket down: unsupported, `-EINVAL`.
pub fn socket_shutdown(file: &mut FileDescriptor, how: isize) -> (r: isize)
    ensures
        r == -EINVAL,
        *final(file) == *old(file),
{
    -EINVAL
}

} // verus!
