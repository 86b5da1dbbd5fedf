//! A verified model of a blueprint store: named, flat snapshots of a
//! directory's top-level files that can be replayed into other directories.
//!
//! `dir` models one directory listing, `store` models the store of
//! blueprints and its four operations, and `cli` turns an argument list
//! into the sequence of actions to perform.

pub mod cli;
pub mod dir;
pub mod laws;
pub mod store;
