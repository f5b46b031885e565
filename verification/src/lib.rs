//! An in-memory key-value store that speaks a type-prefixed, CRLF-terminated
//! wire protocol.
//!
//! A request comes in as bytes. `resp` decodes them into a value, `command`
//! reads the value as a command, `engine` carries the command out on the
//! map of `store` and gives the reply, and `resp` encodes the reply into
//! bytes again. `round_trip` states how decoding and encoding undo each
//! other, and `connection` decides when the bytes read so far are a request.

pub mod decimal;
pub mod text;
pub mod resp;
pub mod round_trip;
pub mod command;
pub mod store;
pub mod engine;
pub mod connection;

pub use command::{Command, SetOption};
pub use engine::RedisEngine;
pub use resp::{DecodeError, RESP};
