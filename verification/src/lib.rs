//! An in-memory key-value store speaking a Redis-compatible wire protocol.
//!
//! The library holds the verified core: the frame codec, the command parser,
//! the command dispatcher and the store itself. Socket handling, task
//! spawning and signal plumbing live outside, in the server binary, which
//! drives these types with plain byte buffers and clock readings.

pub mod cmd;
pub mod connection;
pub mod db;
pub mod frame;
pub mod parse;
pub mod server;
pub mod shutdown;

pub use cmd::Command;
pub use connection::Connection;
pub use db::Db;
pub use frame::Frame;
pub use shutdown::Shutdown;

use vstd::prelude::*;

verus! {

/// Port the server binary listens on when none is given.
pub const DEFAULT_PORT: u16 = 6379;

} // verus!
