//! Set-associative cache simulator with least-recently-used replacement,
//! driven by memory-access traces.

pub mod address;
pub mod cache;
pub mod laws;
pub mod valgrind;
