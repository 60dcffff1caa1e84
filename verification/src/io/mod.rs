//! Console input.

pub mod stdin_buf;
