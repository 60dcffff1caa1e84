//! Processes, the process table and the scheduler.

pub mod loader;
pub mod process;
pub mod process_table;
pub mod scheduler;
