//! Core of a small single-core teaching operating system: the stride
//! scheduler, per-task address spaces with `mmap`/`munmap`, per-task syscall
//! accounting, and the syscall layer that ties them together.
//!
//! Hardware collaborators (the physical frame store and the page-table walk)
//! are represented by explicit in-kernel models (`PhysMem`, the page-table
//! vector of each `AddressSpace`), so every rule in this crate is verified.

pub mod abi;
pub mod accounting;
pub mod mem;
pub mod stride;
pub mod syscall;
pub mod task;
pub mod usermem;
