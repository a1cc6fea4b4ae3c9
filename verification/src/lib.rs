//! A replicated add/remove set (a CRDT) whose items carry vector clocks.

pub mod str_map;
pub mod vclock;
pub mod crdt_set;
mod clock;
pub mod replica;
