//! An in-memory task-list engine: an ordered collection of uniquely
//! identified task records, with positional and identity-based insert,
//! update and delete, and a flat persisted form that round-trips exactly.

pub mod cmd;
pub mod codec;
pub mod help;
pub mod laws;
pub mod text;
pub mod todo;
