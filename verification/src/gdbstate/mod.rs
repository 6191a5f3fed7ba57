//! Program state graph of a C program under GDB, and the hints that guide its construction.

pub mod construct;
pub mod graph;
pub mod hints;
pub mod state;
