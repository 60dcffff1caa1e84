//! Trap handling: the saved register file, the decoding of trap causes and the
//! dispatch of a trap to what services it.

pub mod trap;
pub mod trap_cause;
