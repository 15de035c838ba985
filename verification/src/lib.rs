pub mod binfmt;
pub mod bitmap;
pub mod buddy;
pub mod elf;
pub mod errno;
pub mod fault;
pub mod execve;
pub mod file;
pub mod kvmem;
pub mod mm;
pub mod pages;
pub mod proc;
pub mod process;
pub mod sched;
pub mod signal;
pub mod socket;
pub mod syscall;
pub mod thread;
pub mod vm;
pub mod vm_space;
