//! A verified core for a small Redis-like server: a decoder for the
//! CRLF-delimited, length-prefixed wire protocol, an encoder back onto the
//! same format, and a command interpreter over an in-memory key-value store
//! with millisecond expiry.
//!
//! The connection driver (sockets, threads, the clock) lives outside this
//! crate: it feeds raw bytes to [`parse`], hands decoded command arrays and
//! the current time to [`execute`], and writes the returned reply bytes.

pub mod command;
pub mod decode;
pub mod encode;
pub mod errors;
pub mod ints;
pub mod laws;
pub mod store;
pub mod value;

pub use command::RedisCommand;
pub use command::command;
pub use command::execute;
pub use decode::BufSplit;
pub use decode::RedisResult;
pub use decode::parse;
pub use encode::encode;
pub use errors::RESPError;
pub use store::Expiry;
pub use store::KVStore;
pub use value::RedisValue;
pub use value::ValueModel;
