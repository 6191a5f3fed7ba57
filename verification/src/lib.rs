//! Semantic visual debugger core: program state model, stylesheet language
//! and GDB/MI output handling.

use vstd::prelude::*;

pub mod model;
pub mod text;
pub mod gdbmi;
pub mod gdbstate;
pub mod parser;
pub mod style;

verus! {

} // verus!
