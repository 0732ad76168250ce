//! An embedded key-value store kept as an append-only log of commands.
//!
//! The library holds the parts that decide: the error taxonomy, the log
//! commands, the framing of the log file into length-prefixed documents, and
//! the in-memory index that replaying the log builds and every write keeps in
//! step.
pub mod command;
pub mod engine;
pub mod err;
pub mod frame;
pub mod index;

pub use command::Command;
pub use engine::KvEngine;
pub use frame::Span;
pub use index::KvIndex;
pub use err::{KvStoreError, KvStoreErrorKind, Result};


