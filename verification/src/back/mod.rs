//! The back end: the SSA form of a script.

pub mod slice;
pub mod ssa;
