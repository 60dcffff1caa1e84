//! The system calls: what each does to the kernel's state, and the dispatch
//! from the registers of the calling process.

pub mod handler;
