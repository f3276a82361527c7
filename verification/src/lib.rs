//! A verified core for a local todo-list manager.
//!
//! The library owns the task model, the identifier-assignment policy, the
//! add/remove/toggle operations, and the on-disk text format (serialization
//! and parsing with a proved round trip). File and terminal I/O live outside
//! the library.

pub mod codec;
pub mod ops;
pub mod parse;
pub mod roundtrip;
pub mod store;
pub mod task;
