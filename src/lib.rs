//! A persistent key-value store kept as an append-only log of commands, with
//! an in-memory index from each key to the offset of its latest record.
//!
//! The store is meant for one caller at a time: it takes no locks, and two
//! processes or threads working on the same log at once are not supported.
use vstd::prelude::*;

pub mod command;
pub mod laws;
pub mod log;
pub mod store;

pub use command::Command;
pub use store::{KvError, KvStore};

verus! {

/// The result of a store operation.
pub type Result<T> = core::result::Result<T, KvError>;

} // verus!
