//! Compiles an instance tree into an ordered stream of store mutations, and
//! applies such streams to an in-memory store.

pub mod compiler;
pub mod encode;
pub mod instruction;
pub mod laws;
pub mod rules;
pub mod tree;
pub mod vfs;
