//! A verified model of the core of a small SV39 kernel: physical frame
//! allocation, three-level page tables and address spaces, trap dispatch and
//! the round-robin task scheduler.
//!
//! Every piece of process-wide state (the frame allocator, physical memory,
//! the kernel address space, the task table) is an ordinary value that the
//! caller constructs once and passes by `&mut`, so that exclusive access is
//! a matter of the borrow rules instead of a test at run time. Machine words
//! (addresses, page numbers, registers) are `u64`; `usize` is kept for host
//! indexes and lengths.
pub mod config;
pub mod mm;
pub mod sync;
pub mod syscall;
pub mod task;
pub mod trap;
