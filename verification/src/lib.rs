//! The core of a small preemptive kernel for 64-bit RISC-V (sv39, S-mode),
//! written against explicit state: every function takes the machine state it
//! reads or changes as a parameter and says in its contract what it does to it.

pub mod memory;
pub mod interrupts;
pub mod processes;
pub mod cpu;
pub mod io;
pub mod net;
pub mod state;
pub mod syscalls;
pub mod device_tree;
