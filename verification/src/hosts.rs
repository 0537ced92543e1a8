//! The system's hosts table: reading it, and the entries to add to it.

pub mod parse;
pub mod write;
