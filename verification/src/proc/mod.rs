//! Processes: images, address spaces, descriptors, signals and system calls.

pub mod address_space;
pub mod calls;
pub mod child;
pub mod clone;
pub mod cow;
pub mod delivery;
pub mod effects;
pub mod elf;
pub mod errno;
pub mod exec;
pub mod execve;
pub mod family;
pub mod fd;
pub mod files;
pub mod fork;
pub mod hooks;
pub mod image;
pub mod handlers;
pub mod lifecycle;
pub mod mapped;
pub mod mmap;
pub mod pagefault;
pub mod process;
pub mod program;
pub mod ptable;
pub mod request;
pub mod shootdown;
pub mod signal;
pub mod state;
pub mod syscall;
pub mod usermem;
pub mod ustack;
pub mod vma;
pub mod wait;
