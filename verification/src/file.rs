use vstd::prelude::*;

use crate::errno::{EAGAIN, EBADFD, EINTR};

verus! {

/// Open for reading only.
pub const O_RDONLY: usize = 0x0000;

/// Open for writing only.
pub const O_WRONLY: usize = 0x0001;

/// Open for reading and writing.
pub const O_RDWR: usize = 0x0002;

/// Create the file when it does not exist.
pub const O_CREAT: usize = 0x0200;

/// Non-blocking I/O.
pub const O_NONBLOCK: usize = 0x4000;

/// The file is a socket.
pub const FILE_SOCKET: usize = 0x80000000;

/// Backend of a free file descriptor.
pub const NO_FILE: usize = 0;

/// Backend of a file descriptor taken but not yet opened.
pub const FILE_RESERVED: usize = usize::MAX;

/// Seek from the start of the file.
pub const SEEK_SET: isize = 0;

/// Seek from the current offset.
pub const SEEK_CUR: isize = 1;

/// Seek from the end of the file.
pub const SEEK_END: isize = 2;

/// An open file: its backend (a vnode or, with `FILE_SOCKET` in the flags,
/// a socket), by handle, its offset and its flags.
#[derive(Clone, Copy, Debug, PartialEq, Eq, Structural)]
pub struct FileDescriptor {
    pub backend: usize,
    pub offset: isize,
    pub flags: usize,
}

/// The offset after a seek of `offset` from `whence` in a file of `size`
/// bytes whose offset is `cur`, in machine arithmetic; an unknown `whence`
/// keeps the offset.
pub open spec fn seek_offset(cur: isize, offset: isize, whence: isize, size: usize) -> isize {
    if whence == SEEK_SET {
        offset
    } else if whence == SEEK_CUR {
        cur.wrapping_add(offset)
    } else if whence == SEEK_END {
        (size as isize).wrapping_add(offset)
    } else {
        cur
    }
}

/// Seeking moves the offset by plain arithmetic wherever the result fits:
/// from the current offset by exactly `offset`, backwards for a negative
/// one, so that two such seeks add up and one undoes the other; from the
/// start to `offset`; from the end to `offset` past the file's size. An
/// unknown `whence` keeps the offset.
pub proof fn lemma_seek_moves(cur: isize, a: isize, b: isize, whence: isize, size: usize)
    ensures
        isize::MIN <= cur + a <= isize::MAX ==> seek_offset(cur, a, SEEK_CUR, size) == cur + a,
        isize::MIN <= cur + a <= isize::MAX && isize::MIN <= cur + a + b <= isize::MAX ==> seek_offset(
            seek_offset(cur, a, SEEK_CUR, size),
            b,
            SEEK_CUR,
            size,
        ) == cur + a + b,
        isize::MIN <= cur + a <= isize::MAX && a != isize::MIN ==> seek_offset(
            seek_offset(cur, a, SEEK_CUR, size),
            -a as isize,
            SEEK_CUR,
            size,
        ) == cur,
        seek_offset(cur, a, SEEK_SET, size) == a,
        size <= isize::MAX && size + a <= isize::MAX ==> seek_offset(cur, a, SEEK_END, size) == size + a,
        whence != SEEK_SET && whence != SEEK_CUR && whence != SEEK_END ==> seek_offset(
            cur,
            a,
            whence,
            size,
        ) == cur,
{
}

/// What a read or a write on a file does next, each outside step
/// reporting back to the matching function.
#[derive(Clone, Copy, Debug, PartialEq, Eq, Structural)]
pub enum IoStep {
    /// Transfer up to `size` bytes at offset `offset` of the backend.
    Transfer { offset: isize, size: usize },
    /// Ask the backend whether `size` bytes can be written now.
    CheckWritable { size: usize },
    /// Sleep until the backend wakes the caller, then go on with what the
    /// sleep returned.
    Sleep,
    /// Return `ret`; with `wake`, the sleepers on the other side of the
    /// file (writers after a read, readers after a write) are woken first.
    Return { ret: isize, wake: bool },
}

impl FileDescriptor {
    /// Starts a read of `size` bytes: `-EBADFD` on a file opened for writing
    /// only, 0 for an empty read, else a transfer at the file's offset.
    pub fn read_begin(&self, size: usize) -> (r: IoStep)
        ensures
            self.flags & O_WRONLY != 0 ==> (r matches IoStep::Return { ret, wake } && ret == -EBADFD && !wake),
            self.flags & O_WRONLY == 0 && size == 0 ==> r == (IoStep::Return { ret: 0, wake: false }),
            self.flags & O_WRONLY == 0 && size != 0 ==> r == (IoStep::Transfer { offset: self.offset, size }),
    {
        if self.flags & O_WRONLY != 0 {
            return IoStep::Return { ret: -EBADFD, wake: false };
        }
        if size == 0 {
            return IoStep::Return { ret: 0, wake: false };
        }
        IoStep::Transfer { offset: self.offset, size }
    }

    /// Continues a read of `size` bytes with the transfer's result `res`
    /// and whether the file is at its end (`eof`).
    ///
    /// Bytes read move the offset and are returned, the writers to be
    /// woken; none read gives 0 at the end of the file, `-EAGAIN` without
    /// blocking, and a sleep otherwise, after which `read_woken` goes on;
    /// an error is returned.
    pub fn read_result(&mut self, size: usize, res: Result<usize, isize>, eof: bool) -> (r: IoStep)
        ensures
            match res {
                Ok(n) => if n > 0 {
                    r == (IoStep::Return { ret: n as isize, wake: true })
                        && *final(self) == (FileDescriptor { offset: old(self).offset.wrapping_add(n as isize), ..*old(self) })
                } else if eof {
                    r == (IoStep::Return { ret: 0, wake: false }) && *final(self) == *old(self)
                } else if old(self).flags & O_NONBLOCK != 0 {
                    (r matches IoStep::Return { ret, wake } && ret == -EAGAIN && !wake) && *final(self) == *old(self)
                } else {
                    r == IoStep::Sleep && *final(self) == *old(self)
                },
                Err(e) => r == (IoStep::Return { ret: e, wake: false }) && *final(self) == *old(self),
            },
    {
        match res {
            Ok(n) => {
                if n > 0 {
                    self.offset = self.offset.wrapping_add(n as isize);
                    IoStep::Return { ret: n as isize, wake: true }
                } else if eof {
                    IoStep::Return { ret: 0, wake: false }
                } else if self.flags & O_NONBLOCK != 0 {
                    IoStep::Return { ret: -EAGAIN, wake: false }
                } else {
                    IoStep::Sleep
                }
            },
            Err(e) => IoStep::Return { ret: e, wake: false },
        }
    }

    /// Continues a read of `size` bytes after the caller slept, `woken`
    /// being what the sleep returned: a sleep a signal interrupted (not 0)
    /// ends the read with `-EINTR`; otherwise the transfer is tried again
    /// at the file's offset.
    pub fn read_woken(&self, size: usize, woken: isize) -> (r: IoStep)
        ensures
            woken != 0 ==> (r matches IoStep::Return { ret, wake } && ret == -EINTR && !wake),
            woken == 0 ==> r == (IoStep::Transfer { offset: self.offset, size }),
    {
        if woken != 0 {
            return IoStep::Return { ret: -EINTR, wake: false };
        }
        IoStep::Transfer { offset: self.offset, size }
    }

    /// Starts a write of `size` bytes: `-EBADFD` on a file not opened for
    /// writing; without blocking, first asks whether the bytes fit; a
    /// blocking write of no bytes writes nothing and returns 0, the readers
    /// to be woken; else a transfer at the file's offset.
    pub fn write_begin(&self, size: usize) -> (r: IoStep)
        ensures
            self.flags & (O_WRONLY | O_RDWR) == 0 ==> (r matches IoStep::Return { ret, wake } && ret == -EBADFD && !wake),
            self.flags & (O_WRONLY | O_RDWR) != 0 && self.flags & O_NONBLOCK != 0 ==> r == (IoStep::CheckWritable { size }),
            self.flags & (O_WRONLY | O_RDWR) != 0 && self.flags & O_NONBLOCK == 0 && size == 0 ==> r == (IoStep::Return { ret: 0, wake: true }),
            self.flags & (O_WRONLY | O_RDWR) != 0 && self.flags & O_NONBLOCK == 0 && size != 0 ==> r == (IoStep::Transfer { offset: self.offset, size }),
    {
        if self.flags & (O_WRONLY | O_RDWR) == 0 {
            return IoStep::Return { ret: -EBADFD, wake: false };
        }
        if self.flags & O_NONBLOCK != 0 {
            IoStep::CheckWritable { size }
        } else if size == 0 {
            IoStep::Return { ret: 0, wake: true }
        } else {
            IoStep::Transfer { offset: self.offset, size }
        }
    }

    /// Continues a non-blocking write of `size` bytes once the backend told
    /// whether it fits: a transfer when it does, `-EAGAIN` otherwise.
    pub fn write_checked(&self, size: usize, writable: bool) -> (r: IoStep)
        ensures
            writable ==> r == (IoStep::Transfer { offset: self.offset, size }),
            !writable ==> (r matches IoStep::Return { ret, wake } && ret == -EAGAIN && !wake),
    {
        if writable {
            IoStep::Transfer { offset: self.offset, size }
        } else {
            IoStep::Return { ret: -EAGAIN, wake: false }
        }
    }

    /// Finishes a non-blocking write with the transfer's result: bytes
    /// written move the offset and are returned, the readers to be woken;
    /// an error is returned.
    pub fn write_nonblock_result(&mut self, res: Result<usize, isize>) -> (r: IoStep)
        ensures
            match res {
                Ok(n) => r == (IoStep::Return { ret: n as isize, wake: true })
                    && *final(self) == (FileDescriptor { offset: old(self).offset.wrapping_add(n as isize), ..*old(self) }),
                Err(e) => r == (IoStep::Return { ret: e, wake: false }) && *final(self) == *old(self),
            },
    {
        match res {
            Ok(n) => {
                self.offset = self.offset.wrapping_add(n as isize);
                IoStep::Return { ret: n as isize, wake: true }
            },
            Err(e) => IoStep::Return { ret: e, wake: false },
        }
    }

    /// Continues a blocking write of `total` bytes, `left` of them not yet
    /// written, with the transfer's result `res` and whether the file is at
    /// its end (`eof`).
    ///
    /// Each transfer writes at the file's offset, which moves only when the
    /// write ends. An error is returned. Bytes written reduce what is left;
    /// when nothing is left or the file is at its end, the write ends: the
    /// offset moves by the bytes written, which are returned, the readers to
    /// be woken; otherwise the caller sleeps and transfers what is left.
    pub fn write_block_result(&mut self, total: usize, left: usize, res: Result<usize, isize>, eof: bool) -> (r: (IoStep, usize))
        requires
            left <= total,
            res matches Ok(n) ==> n <= left,
        ensures
            match res {
                Ok(n) => {
                    let rest = (left - n) as usize;
                    let done = (total - rest) as isize;
                    &&& r.1 == rest
                    &&& (rest == 0 || eof) ==> r.0 == (IoStep::Return { ret: done, wake: true })
                        && *final(self) == (FileDescriptor { offset: old(self).offset.wrapping_add(done), ..*old(self) })
                    &&& !(rest == 0 || eof) ==> r.0 == IoStep::Sleep && *final(self) == *old(self)
                },
                Err(e) => r == (IoStep::Return { ret: e, wake: false }, left) && *final(self) == *old(self),
            },
    {
        match res {
            Ok(n) => {
                let rest = left - n;
                if rest == 0 || eof {
                    let done = (total - rest) as isize;
                    self.offset = self.offset.wrapping_add(done);
                    (IoStep::Return { ret: done, wake: true }, rest)
                } else {
                    (IoStep::Sleep, rest)
                }
            },
            Err(e) => (IoStep::Return { ret: e, wake: false }, left),
        }
    }

    /// Starts reading a directory entry: `-EBADFD` on a file opened for
    /// writing only, else the offset to read the entry at.
    pub fn readdir_begin(&self) -> (r: Result<isize, isize>)
        ensures
            self.flags & O_WRONLY != 0 ==> (r matches Err(e) && e == -EBADFD),
            self.flags & O_WRONLY == 0 ==> r == Ok::<isize, isize>(self.offset),
    {
        if self.flags & O_WRONLY != 0 {
            return Err(-EBADFD);
        }
        Ok(self.offset)
    }

    /// Finishes reading a directory entry with what the directory gave:
    /// the size of the entry read moves the offset and is returned; an
    /// error is returned.
    pub fn readdir_result(&mut self, res: Result<usize, isize>) -> (r: isize)
        ensures
            match res {
                Ok(n) => r == n as isize && *final(self) == (FileDescriptor {
                    offset: old(self).offset.wrapping_add(n as isize),
                    ..*old(self)
                }),
                Err(e) => r == e && *final(self) == *old(self),
            },
    {
        match res {
            Ok(n) => {
                self.offset = self.offset.wrapping_add(n as isize);
                n as isize
            },
            Err(e) => e,
        }
    }

    /// A free file descriptor.
    pub fn empty() -> (f: FileDescriptor)
        ensures
            f == (FileDescriptor { backend: NO_FILE, offset: 0, flags: 0 }),
    {
        FileDescriptor { backend: NO_FILE, offset: 0, flags: 0 }
    }

    /// Moves the offset of the file, whose backend holds `size` bytes, and
    /// returns the new offset.
    pub fn lseek(&mut self, offset: isize, whence: isize, size: usize) -> (r: isize)
        ensures
            r == seek_offset(old(self).offset, offset, whence, size),
            *final(self) == (FileDescriptor { offset: r, ..*old(self) }),
            whence == SEEK_CUR && isize::MIN <= old(self).offset + offset <= isize::MAX ==> r
                == old(self).offset + offset,
            whence == SEEK_SET ==> r == offset,
    {
        proof {
            lemma_seek_moves(self.offset, offset, 0, whence, size);
        }
        if whence == SEEK_SET {
            self.offset = offset;
        } else if whence == SEEK_CUR {
            self.offset = self.offset.wrapping_add(offset);
        } else if whence == SEEK_END {
            self.offset = (size as isize).wrapping_add(offset);
        }
        self.offset
    }
}

} // verus!
