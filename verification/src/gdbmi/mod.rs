//! Interoperability with the GDB Machine Interface.

pub mod raw_output;
pub mod grammar;
pub mod parsing;
pub mod result;
pub mod session;
pub mod types;
